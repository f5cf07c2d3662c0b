//! What an update of the rules folder changed: which rule files are new or
//! newer than before, how many of each type, and what to tell the user.

use vstd::prelude::*;
use vstd::string::*;
use crate::bindings::{key_set_contents, key_set_insert, key_set_new};
use crate::stats::{capped, StatCounters};

verus! {

/// What identifies one state of a rule file.
#[derive(Clone, Debug, PartialEq, Eq)]
pub struct RuleStamp {
    /// The title of the rule; empty where the file gives none.
    pub title: String,
    /// When the rule was last modified, as the file says.
    pub modified: String,
    /// The path of the file.
    pub path: String,
    /// The type of the rule.
    pub ruletype: String,
}

/// The text of an optional string slice.
pub open spec fn slice_opt(o: Option<&str>) -> Option<Seq<char>> {
    match o {
        Some(s) => Some(s@),
        None => None,
    }
}

/// The text found, or `fallback` where none was found.
pub open spec fn or_text(found: Option<Seq<char>>, fallback: Seq<char>) -> Seq<char> {
    match found {
        Some(t) => t,
        None => fallback,
    }
}

/// The stamp of a rule file from what the file says of itself. A file
/// without a title has the empty title. A file without a date of
/// modification has its date of creation there, and `-` where it has
/// neither. A file without a type has the type `Other`.
pub fn rule_stamp(
    title: Option<&str>,
    modified: Option<&str>,
    date: Option<&str>,
    path: &str,
    ruletype: Option<&str>,
) -> (stamp: RuleStamp)
    ensures
        stamp.title@ == or_text(slice_opt(title), Seq::<char>::empty()),
        stamp.modified@ == or_text(slice_opt(modified), or_text(slice_opt(date), "-"@)),
        stamp.path@ == path@,
        stamp.ruletype@ == or_text(slice_opt(ruletype), "Other"@),
{
    let title = match title {
        Some(t) => t.to_owned(),
        None => String::new(),
    };
    let modified = match modified {
        Some(m) => m.to_owned(),
        None => match date {
            Some(d) => d.to_owned(),
            None => "-".to_owned(),
        },
    };
    let ruletype = match ruletype {
        Some(r) => r.to_owned(),
        None => "Other".to_owned(),
    };
    RuleStamp { title, modified, path: path.to_owned(), ruletype }
}

impl RuleStamp {
    /// The key of the stamp: title, date of modification, path and type,
    /// with `|` between them.
    pub open spec fn key_text(self) -> Seq<char> {
        self.title@ + "|"@ + self.modified@ + "|"@ + self.path@ + "|"@ + self.ruletype@
    }

    /// The key of the stamp.
    pub fn key(&self) -> (key: String)
        ensures
            key@ == self.key_text(),
    {
        let mut key = self.title.clone();
        key.append("|");
        key.append(self.modified.as_str());
        key.append("|");
        key.append(self.path.as_str());
        key.append("|");
        key.append(self.ruletype.as_str());
        key
    }
}

/// Whether one of the first `n` of `stamps` has the key `key`.
pub open spec fn has_key(stamps: Seq<RuleStamp>, key: Seq<char>, n: int) -> bool {
    exists|j: int| 0 <= j < n && j < stamps.len() && (#[trigger] stamps[j]).key_text() == key
}

proof fn lemma_has_key_step(stamps: Seq<RuleStamp>, key: Seq<char>, n: int)
    requires
        0 <= n < stamps.len(),
    ensures
        has_key(stamps, key, n + 1) == (has_key(stamps, key, n) || stamps[n].key_text() == key),
{
    if has_key(stamps, key, n) {
        let j = choose|j: int| 0 <= j < n && j < stamps.len() && (#[trigger] stamps[j]).key_text() == key;
        assert(0 <= j < n + 1 && stamps[j].key_text() == key);
    }
    if stamps[n].key_text() == key {
        assert(0 <= n < n + 1 && stamps[n].key_text() == key);
    }
    if has_key(stamps, key, n + 1) {
        let j = choose|j: int|
            0 <= j < n + 1 && j < stamps.len() && (#[trigger] stamps[j]).key_text() == key;
        if j < n {
            assert(0 <= j < n && stamps[j].key_text() == key);
        }
    }
}

/// Those of the first `n` stamps of `updated` whose key neither `prev` has
/// nor an earlier stamp of `updated`, in the order of `updated`.
pub open spec fn changed(prev: Seq<RuleStamp>, updated: Seq<RuleStamp>, n: int) -> Seq<RuleStamp>
    decreases n,
{
    if n <= 0 {
        Seq::<RuleStamp>::empty()
    } else {
        let before = changed(prev, updated, n - 1);
        let key = updated[n - 1].key_text();
        if has_key(prev, key, prev.len() as int) || has_key(updated, key, n - 1) {
            before
        } else {
            before.push(updated[n - 1])
        }
    }
}

/// The rule files that an update changed: the stamps found after it whose
/// key was not among those found before it, each key once.
pub fn updated_since(prev: &Vec<RuleStamp>, updated: Vec<RuleStamp>) -> (out: Vec<RuleStamp>)
    ensures
        out@ == changed(prev@, updated@, updated@.len() as int),
{
    let mut seen = key_set_new();
    let mut i: usize = 0;
    while i < prev.len()
        invariant
            i <= prev@.len(),
            forall|k: Seq<char>| #[trigger]
                key_set_contents(seen).contains(k) == has_key(prev@, k, i as int),
        decreases prev@.len() - i,
    {
        proof {
            assert forall|k: Seq<char>|
                has_key(prev@, k, i + 1) == (has_key(prev@, k, i as int) || prev@[i as int].key_text()
                    == k) by {
                lemma_has_key_step(prev@, k, i as int);
            }
        }
        key_set_insert(&mut seen, prev[i].key());
        i += 1;
    }
    let mut out: Vec<RuleStamp> = Vec::new();
    let ghost all = updated@;
    for stamp in it: updated
        invariant
            it.seq() == all,
            out@ == changed(prev@, all, it.index() as int),
            forall|k: Seq<char>| #[trigger]
                key_set_contents(seen).contains(k) == (has_key(prev@, k, prev@.len() as int)
                    || has_key(all, k, it.index() as int)),
    {
        proof {
            let n = it.index() as int;
            assert forall|k: Seq<char>|
                has_key(all, k, n + 1) == (has_key(all, k, n) || all[n].key_text() == k) by {
                lemma_has_key_step(all, k, n);
            }
        }
        let fresh = key_set_insert(&mut seen, stamp.key());
        if fresh {
            out.push(stamp);
        }
    }
    out
}

/// How many of the first `n` of `stamps` have the type `ruletype`.
pub open spec fn typed(stamps: Seq<RuleStamp>, ruletype: Seq<char>, n: int) -> nat
    decreases n,
{
    if n <= 0 {
        0
    } else {
        typed(stamps, ruletype, n - 1) + if stamps[n - 1].ruletype@ == ruletype {
            1nat
        } else {
            0nat
        }
    }
}

/// Counts the changed rule files by type, under the field `ruletype`.
pub fn count_by_type(stamps: &Vec<RuleStamp>) -> (counts: StatCounters)
    ensures
        forall|t: Seq<char>| #[trigger]
            counts.tally("ruletype"@, t) == capped(typed(stamps@, t, stamps@.len() as int)),
        forall|f: Seq<char>, t: Seq<char>| f != "ruletype"@ ==> #[trigger] counts.tally(f, t) == 0,
{
    let mut counts = StatCounters::new();
    let mut i: usize = 0;
    while i < stamps.len()
        invariant
            i <= stamps@.len(),
            forall|t: Seq<char>| #[trigger]
                counts.tally("ruletype"@, t) == capped(typed(stamps@, t, i as int)),
            forall|f: Seq<char>, t: Seq<char>|
                f != "ruletype"@ ==> #[trigger] counts.tally(f, t) == 0,
        decreases stamps@.len() - i,
    {
        let ghost held = counts;
        counts.bump("ruletype", stamps[i].ruletype.as_str());
        proof {
            assert forall|t: Seq<char>| #[trigger]
                counts.tally("ruletype"@, t) == capped(typed(stamps@, t, i + 1)) by {
                assert(held.tally("ruletype"@, t) == capped(typed(stamps@, t, i as int)));
            }
            assert forall|f: Seq<char>, t: Seq<char>| f != "ruletype"@ implies #[trigger] counts.tally(
                f,
                t,
            ) == 0 by {
                assert(held.tally(f, t) == 0);
            }
        }
        i += 1;
    }
    counts
}

/// What the user is told at the end of an update.
pub open spec fn update_verdict(changed: nat) -> Seq<char> {
    if changed > 0 {
        "Rule updated"@
    } else {
        "You currently have the latest rules."@
    }
}

/// What the user is told at the end of an update that changed `changed`
/// rule files.
pub fn update_message(changed: usize) -> (message: String)
    ensures
        message@ == update_verdict(changed as nat),
{
    if changed > 0 {
        "Rule updated".to_owned()
    } else {
        "You currently have the latest rules.".to_owned()
    }
}

} // verus!
