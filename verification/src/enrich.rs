//! Enrichment: a record together with the texts of the fields that the rule
//! corpus reads, looked up once so that no rule walks the tree again.

use vstd::prelude::*;
use crate::bindings::{parse_rfc3339, rfc3339_millis};
use crate::record::{Value, text_at, lookup_text};
use crate::text::{lists, same_text, text_opt};

verus! {

/// One looked-up field: its path and the text found there.
#[derive(Clone, Debug, PartialEq, Eq)]
pub struct CachedField {
    pub key: String,
    pub value: String,
}

/// A record, where it came from, and the fields looked up in it.
#[derive(Debug, PartialEq, Eq)]
pub struct EnrichedRecord {
    /// The record as it was decoded.
    pub record: Value,
    /// The container that the record came from.
    pub origin: String,
    /// The place of the record in its batch.
    pub position: usize,
    /// The time of the event, in milliseconds since the epoch.
    pub timestamp: i64,
    /// The texts of the looked-up fields that the record has.
    pub cache: Vec<CachedField>,
}

/// The text of the first field from position `from` on whose path is `key`.
pub open spec fn cache_from(cache: Seq<CachedField>, key: Seq<char>, from: int) -> Option<
    Seq<char>,
>
    decreases cache.len() - from,
{
    if from < 0 || from >= cache.len() {
        None
    } else if cache[from].key@ == key {
        Some(cache[from].value@)
    } else {
        cache_from(cache, key, from + 1)
    }
}

/// The time to use for an event: the parsed one, or the epoch where the
/// record gives none that can be read.
pub open spec fn instant_or_epoch(parsed: Option<i64>) -> i64 {
    match parsed {
        Some(millis) => millis,
        None => 0,
    }
}

/// The time of the event that `record` describes.
pub open spec fn instant_of(record: Value, time_key: Seq<char>) -> i64 {
    match text_at(record, time_key) {
        Some(t) => instant_or_epoch(rfc3339_millis(t)),
        None => 0,
    }
}

/// Whether `e` is the enrichment of `record`: the record itself, its origin
/// and position, the time of its event, and for each path of `keys` the
/// text that the record has there. Paths outside `keys` are not held.
pub open spec fn enriches(
    e: EnrichedRecord,
    record: Value,
    origin: Seq<char>,
    position: int,
    keys: Seq<String>,
    time_key: Seq<char>,
) -> bool {
    &&& e.record == record
    &&& e.origin@ == origin
    &&& e.position == position
    &&& e.timestamp == instant_of(record, time_key)
    &&& forall|key: Seq<char>| #[trigger]
        e.cached(key) == (if lists(keys, key) {
            text_at(record, key)
        } else {
            None
        })
}

/// Appending a field leaves every earlier answer as it was and answers for
/// the new path where there was no answer before.
pub proof fn lemma_cache_push(cache: Seq<CachedField>, field: CachedField, key: Seq<char>, from: int)
    requires
        0 <= from <= cache.len(),
    ensures
        cache_from(cache.push(field), key, from) == (match cache_from(cache, key, from) {
            Some(t) => Some(t),
            None => if field.key@ == key {
                Some(field.value@)
            } else {
                None
            },
        }),
    decreases cache.len() - from,
{
    let longer = cache.push(field);
    if from < cache.len() {
        assert(longer[from] == cache[from]);
        lemma_cache_push(cache, field, key, from + 1);
    } else {
        assert(longer[from] == field);
        assert(cache_from(longer, key, from + 1) is None);
    }
}

/// The time to use for an event, given what parsing its time field gave.
pub fn timestamp_or_epoch(parsed: Option<i64>) -> (r: i64)
    ensures
        r == instant_or_epoch(parsed),
{
    match parsed {
        Some(millis) => millis,
        None => 0,
    }
}

impl EnrichedRecord {
    /// The text held for the path `key`.
    pub open spec fn cached(self, key: Seq<char>) -> Option<Seq<char>> {
        cache_from(self.cache@, key, 0)
    }

    /// The text held for the path `key`.
    pub fn field(&self, key: &str) -> (r: Option<&String>)
        ensures
            match r {
                Some(t) => self.cached(key@) == Some(t@),
                None => self.cached(key@) is None,
            },
    {
        let mut i: usize = 0;
        while i < self.cache.len()
            invariant
                i <= self.cache@.len(),
                cache_from(self.cache@, key@, 0) == cache_from(self.cache@, key@, i as int),
            decreases self.cache@.len() - i,
        {
            if same_text(self.cache[i].key.as_str(), key) {
                return Some(&self.cache[i].value);
            }
            i += 1;
        }
        None
    }
}

/// The time of the event that `record` describes: its time field read as an
/// RFC 3339 instant, or the epoch where that cannot be done.
pub fn event_time(record: &Value, time_key: &str) -> (r: i64)
    ensures
        r == instant_of(*record, time_key@),
{
    match lookup_text(record, time_key) {
        Some(t) => timestamp_or_epoch(parse_rfc3339(t.as_str())),
        None => 0,
    }
}

/// Enriches one record: looks up each path of `keys` once and keeps the
/// texts found.
pub fn enrich_record(
    record: Value,
    origin: &str,
    position: usize,
    keys: &Vec<String>,
    time_key: &str,
) -> (e: EnrichedRecord)
    ensures
        enriches(e, record, origin@, position as int, keys@, time_key@),
{
    let timestamp = event_time(&record, time_key);
    let mut cache: Vec<CachedField> = Vec::new();
    let mut i: usize = 0;
    while i < keys.len()
        invariant
            i <= keys@.len(),
            forall|key: Seq<char>| #[trigger]
                cache_from(cache@, key, 0) == (if lists(keys@.take(i as int), key) {
                    text_at(record, key)
                } else {
                    None
                }),
        decreases keys@.len() - i,
    {
        let found = lookup_text(&record, keys[i].as_str());
        let ghost before = cache@;
        let ghost name = keys@[i as int]@;
        proof {
            assert forall|key: Seq<char>|
                lists(keys@.take(i + 1), key) == (lists(keys@.take(i as int), key) || key
                    == name) by {
                let shorter = keys@.take(i as int);
                let longer = keys@.take(i + 1);
                if lists(shorter, key) {
                    let j = choose|j: int| 0 <= j < shorter.len() && (#[trigger] shorter[j])@ == key;
                    assert(longer[j]@ == key);
                }
                if key == name {
                    assert(longer[i as int]@ == key);
                }
                if lists(longer, key) {
                    let j = choose|j: int| 0 <= j < longer.len() && (#[trigger] longer[j])@ == key;
                    if j < i {
                        assert(shorter[j]@ == key);
                    }
                }
            }
        }
        match found {
            Some(value) => {
                let field = CachedField { key: keys[i].clone(), value };
                cache.push(field);
                proof {
                    assert forall|key: Seq<char>| #[trigger]
                        cache_from(cache@, key, 0) == (if lists(keys@.take(i + 1), key) {
                            text_at(record, key)
                        } else {
                            None
                        }) by {
                        lemma_cache_push(before, field, key, 0);
                        assert(cache_from(before, key, 0) == (if lists(keys@.take(i as int), key) {
                            text_at(record, key)
                        } else {
                            None
                        }));
                    }
                }
            },
            None => {
                proof {
                    assert forall|key: Seq<char>| #[trigger]
                        cache_from(cache@, key, 0) == (if lists(keys@.take(i + 1), key) {
                            text_at(record, key)
                        } else {
                            None
                        }) by {
                        assert(cache_from(before, key, 0) == (if lists(keys@.take(i as int), key) {
                            text_at(record, key)
                        } else {
                            None
                        }));
                    }
                }
            },
        }
        i += 1;
    }
    assert(keys@.take(i as int) =~= keys@);
    EnrichedRecord { record, origin: origin.to_owned(), position, timestamp, cache }
}

/// Enriches a batch, record by record. The result has the records of the
/// batch in the order of the batch, each with its place in the batch as
/// its position.
pub fn enrich_batch(batch: Vec<Value>, origin: &str, keys: &Vec<String>, time_key: &str) -> (out:
    Vec<EnrichedRecord>)
    ensures
        out@.len() == batch@.len(),
        forall|i: int|
            0 <= i < batch@.len() ==> enriches(
                #[trigger] out@[i],
                batch@[i],
                origin@,
                i,
                keys@,
                time_key@,
            ),
{
    let mut out: Vec<EnrichedRecord> = Vec::new();
    let ghost all = batch@;
    for record in it: batch
        invariant
            it.seq() == all,
            out@.len() == it.index(),
            forall|i: int|
                0 <= i < it.index() ==> enriches(
                    #[trigger] out@[i],
                    all[i],
                    origin@,
                    i,
                    keys@,
                    time_key@,
                ),
    {
        let position: usize = out.len();
        let e = enrich_record(record, origin, position, keys, time_key);
        out.push(e);
    }
    out
}

} // verus!
