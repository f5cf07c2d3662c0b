//! Statistics: how often each value of a chosen field was seen among the
//! records of a run, whatever the rules made of them.

use vstd::prelude::*;
use crate::enrich::EnrichedRecord;
use crate::record::{lookup_text, text_at, Value};
use crate::text::same_text;

verus! {

/// How often one value of one field was seen.
#[derive(Clone, Debug, PartialEq, Eq)]
pub struct Counter {
    pub field: String,
    pub value: String,
    pub count: u64,
}

/// The count of the first counter from position `from` on that is kept for
/// the value `value` of the field `field`; zero where there is none.
pub open spec fn tally_from(counters: Seq<Counter>, field: Seq<char>, value: Seq<char>, from: int) -> nat
    decreases counters.len() - from,
{
    if from < 0 || from >= counters.len() {
        0
    } else if counters[from].field@ == field && counters[from].value@ == value {
        counters[from].count as nat
    } else {
        tally_from(counters, field, value, from + 1)
    }
}

/// A count that has reached the largest number a counter holds stays there.
pub open spec fn capped(n: nat) -> nat {
    if n >= u64::MAX {
        u64::MAX as nat
    } else {
        n
    }
}

/// How many of the first `n` of `fields` are the field `field` while the
/// record has the value `value` there.
pub open spec fn sightings(fields: Seq<String>, record: Value, field: Seq<char>, value: Seq<char>, n: int) -> nat
    decreases n,
{
    if n <= 0 {
        0
    } else {
        let before = sightings(fields, record, field, value, n - 1);
        if fields[n - 1]@ == field && text_at(record, field) == Some(value) {
            before + 1
        } else {
            before
        }
    }
}

/// The sightings in the first `m` records of a batch, added up.
pub open spec fn batch_sightings(
    fields: Seq<String>,
    batch: Seq<EnrichedRecord>,
    field: Seq<char>,
    value: Seq<char>,
    m: int,
) -> nat
    decreases m,
{
    if m <= 0 {
        0
    } else {
        batch_sightings(fields, batch, field, value, m - 1) + sightings(
            fields,
            batch[m - 1].record,
            field,
            value,
            fields.len() as int,
        )
    }
}

/// No count is larger than a counter can hold.
pub proof fn lemma_tally_bounded(counters: Seq<Counter>, field: Seq<char>, value: Seq<char>, from: int)
    ensures
        tally_from(counters, field, value, from) <= u64::MAX,
    decreases counters.len() - from,
{
    if 0 <= from < counters.len() {
        lemma_tally_bounded(counters, field, value, from + 1);
    }
}

proof fn lemma_tally_update(
    counters: Seq<Counter>,
    at: int,
    changed: Counter,
    field: Seq<char>,
    value: Seq<char>,
    from: int,
)
    requires
        0 <= from <= at < counters.len(),
        changed.field@ == counters[at].field@,
        changed.value@ == counters[at].value@,
        forall|j: int|
            0 <= j < at ==> !((#[trigger] counters[j]).field@ == changed.field@ && counters[j].value@
                == changed.value@),
    ensures
        tally_from(counters.update(at, changed), field, value, from) == (if field == changed.field@
            && value == changed.value@ {
            changed.count as nat
        } else {
            tally_from(counters, field, value, from)
        }),
    decreases at - from,
{
    let after = counters.update(at, changed);
    if from < at {
        assert(after[from] == counters[from]);
        lemma_tally_update(counters, at, changed, field, value, from + 1);
    } else {
        assert(after[at] == changed);
        if !(field == changed.field@ && value == changed.value@) {
            lemma_tally_same_tail(counters, after, field, value, at + 1);
        }
    }
}

proof fn lemma_tally_same_tail(
    a: Seq<Counter>,
    b: Seq<Counter>,
    field: Seq<char>,
    value: Seq<char>,
    from: int,
)
    requires
        a.len() == b.len(),
        0 <= from,
        forall|j: int| from <= j < a.len() ==> a[j] == b[j],
    ensures
        tally_from(a, field, value, from) == tally_from(b, field, value, from),
    decreases a.len() - from,
{
    if from < a.len() {
        lemma_tally_same_tail(a, b, field, value, from + 1);
    }
}

proof fn lemma_tally_push(
    counters: Seq<Counter>,
    added: Counter,
    field: Seq<char>,
    value: Seq<char>,
    from: int,
)
    requires
        0 <= from <= counters.len(),
        forall|j: int|
            0 <= j < counters.len() ==> !((#[trigger] counters[j]).field@ == added.field@
                && counters[j].value@ == added.value@),
    ensures
        tally_from(counters.push(added), field, value, from) == (if field == added.field@ && value
            == added.value@ {
            added.count as nat
        } else {
            tally_from(counters, field, value, from)
        }),
    decreases counters.len() - from,
{
    let after = counters.push(added);
    if from < counters.len() {
        assert(after[from] == counters[from]);
        lemma_tally_push(counters, added, field, value, from + 1);
    } else {
        assert(after[from] == added);
        assert(tally_from(after, field, value, from + 1) == 0);
    }
}

/// The counters of a run.
pub struct StatCounters {
    counters: Vec<Counter>,
}

impl StatCounters {
    /// How often the value `value` of the field `field` has been counted.
    pub closed spec fn tally(self, field: Seq<char>, value: Seq<char>) -> nat {
        tally_from(self.counters@, field, value, 0)
    }

    /// The counters that are kept, in the order in which their values were
    /// first seen.
    pub closed spec fn entries(self) -> Seq<Counter> {
        self.counters@
    }

    /// No count is larger than a counter can hold.
    pub proof fn lemma_bounded(self)
        ensures
            forall|field: Seq<char>, value: Seq<char>| #[trigger] self.tally(field, value) <= u64::MAX,
    {
        assert forall|field: Seq<char>, value: Seq<char>| #[trigger]
            self.tally(field, value) <= u64::MAX by {
            lemma_tally_bounded(self.counters@, field, value, 0);
        }
    }

    /// Counters that have counted nothing.
    pub fn new() -> (s: StatCounters)
        ensures
            forall|field: Seq<char>, value: Seq<char>| #[trigger] s.tally(field, value) == 0,
            s.entries().len() == 0,
    {
        StatCounters { counters: Vec::new() }
    }

    /// How often the value `value` of the field `field` has been counted.
    pub fn count(&self, field: &str, value: &str) -> (r: u64)
        ensures
            r == self.tally(field@, value@),
    {
        let mut i: usize = 0;
        while i < self.counters.len()
            invariant
                i <= self.counters@.len(),
                tally_from(self.counters@, field@, value@, 0) == tally_from(
                    self.counters@,
                    field@,
                    value@,
                    i as int,
                ),
            decreases self.counters@.len() - i,
        {
            if same_text(self.counters[i].field.as_str(), field) && same_text(
                self.counters[i].value.as_str(),
                value,
            ) {
                return self.counters[i].count;
            }
            i += 1;
        }
        0
    }

    /// Counts the value `value` of the field `field` once more.
    pub fn bump(&mut self, field: &str, value: &str)
        ensures
            forall|f: Seq<char>, v: Seq<char>| #[trigger]
                final(self).tally(f, v) == (if f == field@ && v == value@ {
                    capped(old(self).tally(f, v) + 1)
                } else {
                    old(self).tally(f, v)
                }),
    {
        let ghost before = self.counters@;
        let mut i: usize = 0;
        while i < self.counters.len()
            invariant
                i <= self.counters@.len(),
                self.counters@ == before,
                before == old(self).counters@,
                tally_from(before, field@, value@, 0) == tally_from(before, field@, value@, i as int),
                forall|j: int|
                    0 <= j < i ==> !((#[trigger] before[j]).field@ == field@ && before[j].value@
                        == value@),
            decreases self.counters@.len() - i,
        {
            if same_text(self.counters[i].field.as_str(), field) && same_text(
                self.counters[i].value.as_str(),
                value,
            ) {
                let seen: u64 = self.counters[i].count;
                let next: u64 = if seen < u64::MAX { seen + 1 } else { seen };
                let changed = Counter { field: field.to_owned(), value: value.to_owned(), count: next };
                self.counters.set(i, changed);
                proof {
                    assert forall|f: Seq<char>, v: Seq<char>| #[trigger]
                        tally_from(self.counters@, f, v, 0) == (if f == field@ && v == value@ {
                            capped(tally_from(before, f, v, 0) + 1)
                        } else {
                            tally_from(before, f, v, 0)
                        }) by {
                        lemma_tally_update(before, i as int, changed, f, v, 0);
                    }
                }
                return ;
            }
            i += 1;
        }
        let added = Counter { field: field.to_owned(), value: value.to_owned(), count: 1 };
        self.counters.push(added);
        proof {
            assert forall|f: Seq<char>, v: Seq<char>| #[trigger]
                tally_from(self.counters@, f, v, 0) == (if f == field@ && v == value@ {
                    capped(tally_from(before, f, v, 0) + 1)
                } else {
                    tally_from(before, f, v, 0)
                }) by {
                lemma_tally_push(before, added, f, v, 0);
            }
        }
    }

    /// Counts, for each of `fields` that the record has a value for, that
    /// value once more.
    pub fn update(&mut self, fields: &Vec<String>, record: &Value)
        ensures
            forall|f: Seq<char>, v: Seq<char>| #[trigger]
                final(self).tally(f, v) == capped(
                    old(self).tally(f, v) + sightings(fields@, *record, f, v, fields@.len() as int),
                ),
    {
        let ghost start = *self;
        proof {
            start.lemma_bounded();
        }
        let mut i: usize = 0;
        while i < fields.len()
            invariant
                i <= fields@.len(),
                forall|f: Seq<char>, v: Seq<char>| #[trigger]
                    self.tally(f, v) == capped(
                        start.tally(f, v) + sightings(fields@, *record, f, v, i as int),
                    ),
            decreases fields@.len() - i,
        {
            let ghost held = *self;
            match lookup_text(record, fields[i].as_str()) {
                Some(value) => {
                    self.bump(fields[i].as_str(), value.as_str());
                },
                None => {},
            }
            proof {
                assert forall|f: Seq<char>, v: Seq<char>| #[trigger]
                    self.tally(f, v) == capped(
                        start.tally(f, v) + sightings(fields@, *record, f, v, i + 1),
                    ) by {
                    assert(held.tally(f, v) == capped(
                        start.tally(f, v) + sightings(fields@, *record, f, v, i as int),
                    ));
                }
            }
            i += 1;
        }
    }

    /// Counts the records of a batch, one after the other.
    pub fn update_all(&mut self, fields: &Vec<String>, batch: &Vec<EnrichedRecord>)
        ensures
            forall|f: Seq<char>, v: Seq<char>| #[trigger]
                final(self).tally(f, v) == capped(
                    old(self).tally(f, v) + batch_sightings(
                        fields@,
                        batch@,
                        f,
                        v,
                        batch@.len() as int,
                    ),
                ),
    {
        let ghost start = *self;
        proof {
            start.lemma_bounded();
        }
        let mut i: usize = 0;
        while i < batch.len()
            invariant
                i <= batch@.len(),
                forall|f: Seq<char>, v: Seq<char>| #[trigger]
                    self.tally(f, v) == capped(
                        start.tally(f, v) + batch_sightings(fields@, batch@, f, v, i as int),
                    ),
            decreases batch@.len() - i,
        {
            let ghost held = *self;
            self.update(fields, &batch[i].record);
            proof {
                assert forall|f: Seq<char>, v: Seq<char>| #[trigger]
                    self.tally(f, v) == capped(
                        start.tally(f, v) + batch_sightings(fields@, batch@, f, v, i + 1),
                    ) by {
                    assert(held.tally(f, v) == capped(
                        start.tally(f, v) + batch_sightings(fields@, batch@, f, v, i as int),
                    ));
                }
            }
            i += 1;
        }
    }

    /// The counters as they stand, for the report at the end of the run.
    pub fn snapshot(&self) -> (out: Vec<Counter>)
        ensures
            out@.len() == self.entries().len(),
            forall|i: int|
                0 <= i < out@.len() ==> {
                    &&& (#[trigger] out@[i]).field@ == self.entries()[i].field@
                    &&& out@[i].value@ == self.entries()[i].value@
                    &&& out@[i].count == self.entries()[i].count
                },
            forall|f: Seq<char>, v: Seq<char>| #[trigger] tally_from(out@, f, v, 0) == self.tally(f, v),
    {
        let mut out: Vec<Counter> = Vec::new();
        let mut i: usize = 0;
        while i < self.counters.len()
            invariant
                i <= self.counters@.len(),
                out@.len() == i,
                forall|k: int| 0 <= k < i ==> out@[k] == self.counters@[k],
            decreases self.counters@.len() - i,
        {
            let c = &self.counters[i];
            out.push(Counter { field: c.field.clone(), value: c.value.clone(), count: c.count });
            i += 1;
        }
        assert(out@ =~= self.counters@);
        out
    }
}

} // verus!
