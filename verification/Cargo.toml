[package]
name = "hayabusa"
version = "0.1.0"
edition = "2021"
publish = false

[dependencies]
chrono = "0.4"
evtx = { version = "*", default-features = false }
git2 = { version = "*", default-features = false, features = ["https"] }
hashbrown = "0.12"
hhmmss = "*"
is_elevated = "*"
pbr = "*"
regex = "1"
serde_json = "1"
tokio = { version = "1", features = ["rt-multi-thread"] }
