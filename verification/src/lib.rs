//! Batched detection pipeline for Windows event log records.
//!
//! Records arrive as field trees, are gathered into bounded batches, enriched
//! with the fields that the rule corpus reads, and evaluated against every
//! enabled rule. Matches of plain rules become findings at once; matches of
//! rules with an aggregation clause are counted per group and time window and
//! become findings when the run ends.

pub mod text;
pub mod wildcard;
pub mod bindings;
pub mod record;
pub mod context;
pub mod enrich;
pub mod rule;
pub mod batch;
pub mod order;
pub mod stats;
pub mod accumulator;
pub mod detection;
pub mod pipeline;
pub mod files;
pub mod rule_update;
pub mod condition;
pub mod clause_text;
