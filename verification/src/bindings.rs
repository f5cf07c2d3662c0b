//! The calls that leave this crate: regular expressions (`regex`), RFC 3339
//! timestamps (`chrono`) and the set of strings that gathers rule keys
//! (`hashbrown`). Nothing in this file is proved; each contract says what is
//! taken on trust from the crate it names.

use vstd::prelude::*;
use crate::text::texts;

verus! {

/// What `regex` makes of searching `text` for `pattern`: `None` when the
/// pattern is not a regular expression that `regex::Regex::new` accepts,
/// else whether `regex::Regex::is_match` finds a match anywhere in `text`.
pub uninterp spec fn regex_verdict(pattern: Seq<char>, text: Seq<char>) -> Option<bool>;

/// Compiles `pattern` with `regex::Regex::new` and searches `text` with
/// `regex::Regex::is_match`. Assumed: the outcome depends on the two texts
/// alone, so it can be named by `regex_verdict`; a pattern that does not
/// compile gives `None`.
#[verifier::external_body]
pub(crate) fn regex_search(pattern: &str, text: &str) -> (r: Option<bool>)
    ensures
        r == regex_verdict(pattern@, text@),
{
    match regex::Regex::new(pattern) {
        Ok(re) => Some(re.is_match(text)),
        Err(_) => None,
    }
}

/// The instant that `text` denotes as an RFC 3339 date and time, in
/// milliseconds since 1970-01-01T00:00:00Z, as `chrono` reads it; `None`
/// when `chrono` does not accept `text`.
pub uninterp spec fn rfc3339_millis(text: Seq<char>) -> Option<i64>;

/// Parses `text` with `chrono::DateTime::parse_from_rfc3339` and converts
/// the instant with `timestamp_millis`. Assumed: the outcome depends on
/// `text` alone, so it can be named by `rfc3339_millis`; a text that
/// `chrono` rejects gives `None`.
#[verifier::external_body]
pub(crate) fn parse_rfc3339(text: &str) -> (r: Option<i64>)
    ensures
        r == rfc3339_millis(text@),
{
    match chrono::DateTime::parse_from_rfc3339(text) {
        Ok(instant) => Some(instant.timestamp_millis()),
        Err(_) => None,
    }
}

/// A `hashbrown::HashSet<String>`. Its allocator parameter is bounded by a
/// trait that `hashbrown` keeps private, so the set is held here, opaque to
/// the verifier, and reached only through the three functions below.
#[verifier::external_body]
pub struct KeySet {
    inner: hashbrown::HashSet<String>,
}

/// The texts of the strings that the set holds.
pub uninterp spec fn key_set_contents(s: KeySet) -> Set<Seq<char>>;

/// `hashbrown::HashSet::new`. Assumed: the new set holds nothing.
#[verifier::external_body]
pub(crate) fn key_set_new() -> (s: KeySet)
    ensures
        key_set_contents(s) == Set::<Seq<char>>::empty(),
{
    KeySet { inner: hashbrown::HashSet::new() }
}

/// `hashbrown::HashSet::insert`. Assumed: afterwards the set holds what it
/// held and `key`; the result says whether `key` was new to it.
#[verifier::external_body]
pub(crate) fn key_set_insert(s: &mut KeySet, key: String) -> (fresh: bool)
    ensures
        key_set_contents(*final(s)) == key_set_contents(*old(s)).insert(key@),
        fresh == !key_set_contents(*old(s)).contains(key@),
{
    s.inner.insert(key)
}

/// `hashbrown::HashSet::into_iter`, gathered into a vector. Assumed: every
/// string of the set comes out once and nothing else does. The order is
/// whatever the set's hasher made of it and nothing is said of it.
#[verifier::external_body]
pub(crate) fn key_set_into_vec(s: KeySet) -> (v: Vec<String>)
    ensures
        texts(v@).no_duplicates(),
        texts(v@).to_set() == key_set_contents(s),
{
    s.inner.into_iter().collect()
}

} // verus!
