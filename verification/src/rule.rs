//! Detection rules: a condition tree over field selections, with an
//! optional aggregation clause, and what it means for a rule to match an
//! enriched record.

use vstd::prelude::*;
use crate::bindings::{
    key_set_contents, key_set_insert, key_set_into_vec, key_set_new, regex_search, regex_verdict,
};
use crate::enrich::EnrichedRecord;
use crate::record::{text_at, Value};
use crate::text::{
    i64_of_text, is_listed, lemma_lists_push, lemma_lists_texts, lists, parse_int, texts,
};
use crate::wildcard::{glob_matches, wildcard_match};

verus! {

/// How severe a finding is, least severe first.
#[derive(Clone, Copy, Debug, PartialEq, Eq, Structural, PartialOrd, Ord, Hash)]
pub enum Level {
    Informational,
    Low,
    Medium,
    High,
    Critical,
}

impl Level {
    /// The place of a level in the order of severity, from 0.
    pub open spec fn rank(self) -> int {
        match self {
            Level::Informational => 0,
            Level::Low => 1,
            Level::Medium => 2,
            Level::High => 3,
            Level::Critical => 4,
        }
    }

    /// The place of a level in the order of severity, from 0.
    pub fn severity(self) -> (r: u8)
        ensures
            r == self.rank(),
    {
        match self {
            Level::Informational => 0,
            Level::Low => 1,
            Level::Medium => 2,
            Level::High => 3,
            Level::Critical => 4,
        }
    }

    /// Whether this level is `min` or more severe.
    pub fn at_least(self, min: Level) -> (r: bool)
        ensures
            r == (self.rank() >= min.rank()),
    {
        self.severity() >= min.severity()
    }
}

/// A comparison of a number with a bound.
#[derive(Clone, Copy, Debug, PartialEq, Eq, Structural)]
pub enum CompareOp {
    Greater,
    GreaterOrEqual,
    Equal,
    Less,
    LessOrEqual,
}

impl CompareOp {
    /// Whether `value` stands to `bound` as the comparison says.
    pub open spec fn admits(self, value: int, bound: int) -> bool {
        match self {
            CompareOp::Greater => value > bound,
            CompareOp::GreaterOrEqual => value >= bound,
            CompareOp::Equal => value == bound,
            CompareOp::Less => value < bound,
            CompareOp::LessOrEqual => value <= bound,
        }
    }

    /// Whether the signed `value` stands to `bound` as the comparison says.
    pub fn test_signed(self, value: i64, bound: i64) -> (r: bool)
        ensures
            r == self.admits(value as int, bound as int),
    {
        match self {
            CompareOp::Greater => value > bound,
            CompareOp::GreaterOrEqual => value >= bound,
            CompareOp::Equal => value == bound,
            CompareOp::Less => value < bound,
            CompareOp::LessOrEqual => value <= bound,
        }
    }

    /// Whether the count `value` stands to `bound` as the comparison says.
    pub fn test_count(self, value: u64, bound: u64) -> (r: bool)
        ensures
            r == self.admits(value as int, bound as int),
    {
        match self {
            CompareOp::Greater => value > bound,
            CompareOp::GreaterOrEqual => value >= bound,
            CompareOp::Equal => value == bound,
            CompareOp::Less => value < bound,
            CompareOp::LessOrEqual => value <= bound,
        }
    }
}

/// What a selection asks of the text of a field.
#[derive(Clone, Debug, PartialEq, Eq)]
pub enum Matcher {
    /// The text is exactly this one, case and all.
    Exact(String),
    /// The text as a whole matches this wildcard pattern.
    Wildcard(String),
    /// This regular expression finds a match in the text.
    Regex(String),
    /// The text is a decimal integer that stands to the bound as said.
    Numeric(CompareOp, i64),
    /// The text is exactly one of these.
    OneOf(Vec<String>),
}

/// Whether a search with a regular expression counts as a match: only when
/// the expression compiled and found one.
pub open spec fn regex_accepts(verdict: Option<bool>) -> bool {
    verdict == Some(true)
}

/// Whether a search with a regular expression counts as a match, given
/// what the search gave. An expression that does not compile matches
/// nothing.
pub fn regex_decision(verdict: Option<bool>) -> (r: bool)
    ensures
        r == regex_accepts(verdict),
{
    match verdict {
        Some(found) => found,
        None => false,
    }
}

impl Matcher {
    /// Whether the matcher accepts `text`. A text that is no number fails a
    /// numeric comparison.
    pub open spec fn accepts(self, text: Seq<char>) -> bool {
        match self {
            Matcher::Exact(wanted) => wanted@ == text,
            Matcher::Wildcard(pattern) => glob_matches(pattern@, text),
            Matcher::Regex(pattern) => regex_accepts(regex_verdict(pattern@, text)),
            Matcher::Numeric(op, bound) => match i64_of_text(text) {
                Some(n) => op.admits(n as int, bound as int),
                None => false,
            },
            Matcher::OneOf(list) => lists(list@, text),
        }
    }

    /// A matcher of its own that accepts what this one accepts.
    pub fn duplicate(&self) -> (r: Matcher)
        ensures
            forall|text: Seq<char>| #[trigger] r.accepts(text) == self.accepts(text),
    {
        match self {
            Matcher::Exact(wanted) => Matcher::Exact(wanted.clone()),
            Matcher::Wildcard(pattern) => Matcher::Wildcard(pattern.clone()),
            Matcher::Regex(pattern) => Matcher::Regex(pattern.clone()),
            Matcher::Numeric(op, bound) => Matcher::Numeric(*op, *bound),
            Matcher::OneOf(list) => {
                let mut copies: Vec<String> = Vec::new();
                let mut i: usize = 0;
                while i < list.len()
                    invariant
                        i <= list@.len(),
                        copies@ == list@.take(i as int),
                    decreases list@.len() - i,
                {
                    copies.push(list[i].clone());
                    assert(copies@ =~= list@.take(i + 1));
                    i += 1;
                }
                assert(list@.take(i as int) =~= list@);
                Matcher::OneOf(copies)
            },
        }
    }

    /// Whether the matcher accepts `text`.
    pub fn test(&self, text: &str) -> (r: bool)
        ensures
            r == self.accepts(text@),
    {
        match self {
            Matcher::Exact(wanted) => crate::text::same_text(wanted.as_str(), text),
            Matcher::Wildcard(pattern) => wildcard_match(pattern.as_str(), text),
            Matcher::Regex(pattern) => regex_decision(regex_search(pattern.as_str(), text)),
            Matcher::Numeric(op, bound) => match parse_int(text) {
                Some(n) => op.test_signed(n, *bound),
                None => false,
            },
            Matcher::OneOf(list) => is_listed(list, text),
        }
    }
}

/// The condition of a rule.
#[derive(Debug, PartialEq, Eq)]
pub enum ConditionExpr {
    /// Every child holds.
    And(Vec<ConditionExpr>),
    /// Some child holds.
    Or(Vec<ConditionExpr>),
    /// The child does not hold.
    Not(Box<ConditionExpr>),
    /// The record has the field and the matcher accepts its text.
    Selection(String, Matcher),
}

impl ConditionExpr {
    /// Whether the condition holds of `rec`. A selection on a field that
    /// the record lacks does not hold.
    pub open spec fn holds(self, rec: EnrichedRecord) -> bool
        decreases self,
    {
        match self {
            ConditionExpr::And(children) => forall|i: int|
                0 <= i < children@.len() ==> (#[trigger] children@[i]).holds(rec),
            ConditionExpr::Or(children) => exists|i: int|
                0 <= i < children@.len() && (#[trigger] children@[i]).holds(rec),
            ConditionExpr::Not(child) => !child.holds(rec),
            ConditionExpr::Selection(key, matcher) => match rec.cached(key@) {
                Some(text) => matcher.accepts(text),
                None => false,
            },
        }
    }

    /// Whether the condition holds of the record itself, each field looked
    /// up in the tree.
    pub open spec fn holds_on(self, record: Value) -> bool
        decreases self,
    {
        match self {
            ConditionExpr::And(children) => forall|i: int|
                0 <= i < children@.len() ==> (#[trigger] children@[i]).holds_on(record),
            ConditionExpr::Or(children) => exists|i: int|
                0 <= i < children@.len() && (#[trigger] children@[i]).holds_on(record),
            ConditionExpr::Not(child) => !child.holds_on(record),
            ConditionExpr::Selection(key, matcher) => match text_at(record, key@) {
                Some(text) => matcher.accepts(text),
                None => false,
            },
        }
    }

    /// Whether the condition reads the field at the path `key`.
    pub open spec fn mentions(self, key: Seq<char>) -> bool
        decreases self,
    {
        match self {
            ConditionExpr::And(children) => exists|i: int|
                0 <= i < children@.len() && (#[trigger] children@[i]).mentions(key),
            ConditionExpr::Or(children) => exists|i: int|
                0 <= i < children@.len() && (#[trigger] children@[i]).mentions(key),
            ConditionExpr::Not(child) => child.mentions(key),
            ConditionExpr::Selection(own, _) => own@ == key,
        }
    }

    /// Evaluates the condition on `rec`.
    pub fn evaluate(&self, rec: &EnrichedRecord) -> (r: bool)
        ensures
            r == self.holds(*rec),
        decreases *self,
    {
        match self {
            ConditionExpr::And(children) => {
                proof {
                    lemma_children_smaller(*self, *children);
                    lemma_holds_unfold(*children, *rec);
                }
                let mut i: usize = 0;
                while i < children.len()
                    invariant
                        i <= children@.len(),
                        self.holds(*rec) == (forall|k: int|
                            0 <= k < children@.len() ==> (#[trigger] children@[k]).holds(*rec)),
                        forall|k: int|
                            0 <= k < children@.len() ==> decreases_to!(*self => #[trigger] children@[k]),
                        forall|k: int| 0 <= k < i ==> (#[trigger] children@[k]).holds(*rec),
                    decreases children@.len() - i,
                {
                    if !children[i].evaluate(rec) {
                        return false;
                    }
                    i += 1;
                }
                true
            },
            ConditionExpr::Or(children) => {
                proof {
                    lemma_children_smaller(*self, *children);
                    lemma_holds_unfold(*children, *rec);
                }
                let mut i: usize = 0;
                while i < children.len()
                    invariant
                        i <= children@.len(),
                        self.holds(*rec) == (exists|k: int|
                            0 <= k < children@.len() && (#[trigger] children@[k]).holds(*rec)),
                        forall|k: int|
                            0 <= k < children@.len() ==> decreases_to!(*self => #[trigger] children@[k]),
                        forall|k: int| 0 <= k < i ==> !(#[trigger] children@[k]).holds(*rec),
                    decreases children@.len() - i,
                {
                    if children[i].evaluate(rec) {
                        return true;
                    }
                    i += 1;
                }
                false
            },
            ConditionExpr::Not(child) => !child.evaluate(rec),
            ConditionExpr::Selection(key, matcher) => match rec.field(key.as_str()) {
                Some(text) => matcher.test(text.as_str()),
                None => false,
            },
        }
    }

    /// A condition of its own that holds of the records of which this one
    /// holds and reads the fields that this one reads.
    pub fn duplicate(&self) -> (r: ConditionExpr)
        ensures
            forall|rec: EnrichedRecord| #[trigger] r.holds(rec) == self.holds(rec),
            forall|key: Seq<char>| #[trigger] r.mentions(key) == self.mentions(key),
        decreases *self,
    {
        match self {
            ConditionExpr::And(children) => {
                proof {
                    lemma_children_smaller(*self, *children);
                }
                let mut copies: Vec<ConditionExpr> = Vec::new();
                let mut i: usize = 0;
                while i < children.len()
                    invariant
                        i <= children@.len(),
                        copies@.len() == i,
                        forall|k: int|
                            0 <= k < children@.len() ==> decreases_to!(*self => #[trigger] children@[k]),
                        forall|k: int, rec: EnrichedRecord|
                            0 <= k < i ==> #[trigger] copies@[k].holds(rec) == children@[k].holds(rec),
                        forall|k: int, key: Seq<char>|
                            0 <= k < i ==> #[trigger] copies@[k].mentions(key) == children@[k].mentions(
                                key,
                            ),
                    decreases children@.len() - i,
                {
                    let copy = children[i].duplicate();
                    copies.push(copy);
                    i += 1;
                }
                let r = ConditionExpr::And(copies);
                proof {
                    lemma_same_children(*children, copies);
                    assert(forall|rec: EnrichedRecord| #[trigger] r.holds(rec) == self.holds(rec));
                    assert(forall|key: Seq<char>| #[trigger] r.mentions(key) == self.mentions(key));
                }
                r
            },
            ConditionExpr::Or(children) => {
                proof {
                    lemma_children_smaller(*self, *children);
                }
                let mut copies: Vec<ConditionExpr> = Vec::new();
                let mut i: usize = 0;
                while i < children.len()
                    invariant
                        i <= children@.len(),
                        copies@.len() == i,
                        forall|k: int|
                            0 <= k < children@.len() ==> decreases_to!(*self => #[trigger] children@[k]),
                        forall|k: int, rec: EnrichedRecord|
                            0 <= k < i ==> #[trigger] copies@[k].holds(rec) == children@[k].holds(rec),
                        forall|k: int, key: Seq<char>|
                            0 <= k < i ==> #[trigger] copies@[k].mentions(key) == children@[k].mentions(
                                key,
                            ),
                    decreases children@.len() - i,
                {
                    let copy = children[i].duplicate();
                    copies.push(copy);
                    i += 1;
                }
                let r = ConditionExpr::Or(copies);
                proof {
                    lemma_same_children(*children, copies);
                    assert(forall|rec: EnrichedRecord| #[trigger] r.holds(rec) == self.holds(rec));
                    assert(forall|key: Seq<char>| #[trigger] r.mentions(key) == self.mentions(key));
                }
                r
            },
            ConditionExpr::Not(child) => {
                let inner = child.duplicate();
                let r = ConditionExpr::Not(Box::new(inner));
                proof {
                    assert(forall|rec: EnrichedRecord| #[trigger] r.holds(rec) == !inner.holds(rec));
                    assert(forall|rec: EnrichedRecord| #[trigger] r.holds(rec) == self.holds(rec));
                    assert(forall|key: Seq<char>| #[trigger] r.mentions(key) == inner.mentions(key));
                    assert(forall|key: Seq<char>| #[trigger] r.mentions(key) == self.mentions(key));
                }
                r
            },
            ConditionExpr::Selection(key, matcher) => {
                let own = matcher.duplicate();
                let r = ConditionExpr::Selection(key.clone(), own);
                proof {
                    assert forall|rec: EnrichedRecord| #[trigger] r.holds(rec) == self.holds(rec) by {
                        match rec.cached(key@) {
                            Some(text) => {
                                assert(own.accepts(text) == matcher.accepts(text));
                            },
                            None => {},
                        }
                    }
                    assert(forall|key: Seq<char>| #[trigger] r.mentions(key) == self.mentions(key));
                }
                r
            },
        }
    }

    /// Appends to `out` the path of every selection of the condition.
    pub fn collect_keys(&self, out: &mut Vec<String>)
        ensures
            forall|key: Seq<char>| #[trigger]
                lists(final(out)@, key) == (lists(old(out)@, key) || self.mentions(key)),
        decreases *self,
    {
        let ghost start = out@;
        match self {
            ConditionExpr::And(children) => {
                proof {
                    lemma_children_smaller(*self, *children);
                    lemma_mentions_unfold(*children);
                }
                let mut i: usize = 0;
                while i < children.len()
                    invariant
                        i <= children@.len(),
                        forall|key: Seq<char>| #[trigger]
                            self.mentions(key) == mentioned_by(children@, key, children@.len() as int),
                        forall|k: int|
                            0 <= k < children@.len() ==> decreases_to!(*self => #[trigger] children@[k]),
                        forall|key: Seq<char>| #[trigger]
                            lists(out@, key) == (lists(start, key) || mentioned_by(
                                children@,
                                key,
                                i as int,
                            )),
                    decreases children@.len() - i,
                {
                    let ghost before = out@;
                    children[i].collect_keys(out);
                    proof {
                        assert forall|key: Seq<char>| #[trigger]
                            lists(out@, key) == (lists(start, key) || mentioned_by(
                                children@,
                                key,
                                i + 1,
                            )) by {
                            assert(lists(before, key) == (lists(start, key) || mentioned_by(
                                children@,
                                key,
                                i as int,
                            )));
                            lemma_mentioned_by_step(children@, key, i as int);
                        }
                    }
                    i += 1;
                }
            },
            ConditionExpr::Or(children) => {
                proof {
                    lemma_children_smaller(*self, *children);
                    lemma_mentions_unfold(*children);
                }
                let mut i: usize = 0;
                while i < children.len()
                    invariant
                        i <= children@.len(),
                        forall|key: Seq<char>| #[trigger]
                            self.mentions(key) == mentioned_by(children@, key, children@.len() as int),
                        forall|k: int|
                            0 <= k < children@.len() ==> decreases_to!(*self => #[trigger] children@[k]),
                        forall|key: Seq<char>| #[trigger]
                            lists(out@, key) == (lists(start, key) || mentioned_by(
                                children@,
                                key,
                                i as int,
                            )),
                    decreases children@.len() - i,
                {
                    let ghost before = out@;
                    children[i].collect_keys(out);
                    proof {
                        assert forall|key: Seq<char>| #[trigger]
                            lists(out@, key) == (lists(start, key) || mentioned_by(
                                children@,
                                key,
                                i + 1,
                            )) by {
                            assert(lists(before, key) == (lists(start, key) || mentioned_by(
                                children@,
                                key,
                                i as int,
                            )));
                            lemma_mentioned_by_step(children@, key, i as int);
                        }
                    }
                    i += 1;
                }
            },
            ConditionExpr::Not(child) => {
                child.collect_keys(out);
            },
            ConditionExpr::Selection(key, _) => {
                out.push(key.clone());
                proof {
                    assert forall|k: Seq<char>| #[trigger]
                        lists(out@, k) == (lists(start, k) || self.mentions(k)) by {
                        lemma_lists_push(start, *key, k);
                    }
                }
            },
        }
    }
}

/// Whether one of the first `n` of `children` reads the field at `key`.
pub open spec fn mentioned_by(children: Seq<ConditionExpr>, key: Seq<char>, n: int) -> bool {
    exists|i: int| 0 <= i < n && i < children.len() && (#[trigger] children[i]).mentions(key)
}

proof fn lemma_mentioned_by_step(children: Seq<ConditionExpr>, key: Seq<char>, n: int)
    requires
        0 <= n < children.len(),
    ensures
        mentioned_by(children, key, n + 1) == (mentioned_by(children, key, n)
            || children[n].mentions(key)),
{
    if mentioned_by(children, key, n) {
        let i = choose|i: int| 0 <= i < n && i < children.len() && (#[trigger] children[i]).mentions(key);
        assert(0 <= i < n + 1 && children[i].mentions(key));
    }
    if children[n].mentions(key) {
        assert(0 <= n < n + 1 && children[n].mentions(key));
    }
    if mentioned_by(children, key, n + 1) {
        let i = choose|i: int|
            0 <= i < n + 1 && i < children.len() && (#[trigger] children[i]).mentions(key);
        if i < n {
            assert(0 <= i < n && children[i].mentions(key));
        }
    }
}

/// Every child of a conjunction or disjunction is smaller than it.
proof fn lemma_children_smaller(e: ConditionExpr, children: Vec<ConditionExpr>)
    requires
        e == ConditionExpr::And(children) || e == ConditionExpr::Or(children),
    ensures
        forall|i: int| 0 <= i < children@.len() ==> decreases_to!(e => #[trigger] children@[i]),
{
    assert forall|i: int| 0 <= i < children@.len() implies decreases_to!(e => #[trigger] children@[i]) by {
        assert(decreases_to!(children => children@));
        assert(decreases_to!(children@ => children@[i]));
        if e is And {
            assert(decreases_to!(e => e->And_0));
        } else {
            assert(decreases_to!(e => e->Or_0));
        }
    }
}

/// A conjunction holds exactly if every child does, a disjunction exactly
/// if some child does.
pub proof fn lemma_holds_unfold(children: Vec<ConditionExpr>, rec: EnrichedRecord)
    ensures
        ConditionExpr::And(children).holds(rec) == (forall|i: int|
            0 <= i < children@.len() ==> (#[trigger] children@[i]).holds(rec)),
        ConditionExpr::Or(children).holds(rec) == (exists|i: int|
            0 <= i < children@.len() && (#[trigger] children@[i]).holds(rec)),
{
    let all = ConditionExpr::And(children);
    let a = all->And_0;
    if all.holds(rec) {
        assert(forall|i: int| 0 <= i < a@.len() ==> (#[trigger] a@[i]).holds(rec));
    }
    if forall|i: int| 0 <= i < a@.len() ==> (#[trigger] a@[i]).holds(rec) {
        assert(all.holds(rec));
    }
    let any = ConditionExpr::Or(children);
    let o = any->Or_0;
    if any.holds(rec) {
        assert(exists|i: int| 0 <= i < o@.len() && (#[trigger] o@[i]).holds(rec));
    }
    if exists|i: int| 0 <= i < o@.len() && (#[trigger] o@[i]).holds(rec) {
        assert(any.holds(rec));
    }
}

/// Conjunctions, and disjunctions, whose children agree one by one on
/// every record and on every field agree themselves.
pub proof fn lemma_same_children(a: Vec<ConditionExpr>, b: Vec<ConditionExpr>)
    requires
        a@.len() == b@.len(),
        forall|k: int, rec: EnrichedRecord|
            0 <= k < a@.len() ==> #[trigger] b@[k].holds(rec) == a@[k].holds(rec),
        forall|k: int, key: Seq<char>|
            0 <= k < a@.len() ==> #[trigger] b@[k].mentions(key) == a@[k].mentions(key),
    ensures
        forall|rec: EnrichedRecord| #[trigger]
            ConditionExpr::And(b).holds(rec) == ConditionExpr::And(a).holds(rec),
        forall|rec: EnrichedRecord| #[trigger]
            ConditionExpr::Or(b).holds(rec) == ConditionExpr::Or(a).holds(rec),
        forall|key: Seq<char>| #[trigger]
            ConditionExpr::And(b).mentions(key) == ConditionExpr::And(a).mentions(key),
        forall|key: Seq<char>| #[trigger]
            ConditionExpr::Or(b).mentions(key) == ConditionExpr::Or(a).mentions(key),
{
    assert forall|rec: EnrichedRecord| #[trigger]
        ConditionExpr::And(b).holds(rec) == ConditionExpr::And(a).holds(rec) by {
        lemma_holds_unfold(a, rec);
        lemma_holds_unfold(b, rec);
        if ConditionExpr::And(a).holds(rec) {
            assert forall|i: int| 0 <= i < b@.len() implies (#[trigger] b@[i]).holds(rec) by {
                assert(a@[i].holds(rec));
            }
        }
        if ConditionExpr::And(b).holds(rec) {
            assert forall|i: int| 0 <= i < a@.len() implies (#[trigger] a@[i]).holds(rec) by {
                assert(b@[i].holds(rec));
            }
        }
    }
    assert forall|rec: EnrichedRecord| #[trigger]
        ConditionExpr::Or(b).holds(rec) == ConditionExpr::Or(a).holds(rec) by {
        lemma_holds_unfold(a, rec);
        lemma_holds_unfold(b, rec);
        if ConditionExpr::Or(a).holds(rec) {
            let i = choose|i: int| 0 <= i < a@.len() && (#[trigger] a@[i]).holds(rec);
            assert(b@[i].holds(rec));
        }
        if ConditionExpr::Or(b).holds(rec) {
            let i = choose|i: int| 0 <= i < b@.len() && (#[trigger] b@[i]).holds(rec);
            assert(a@[i].holds(rec));
        }
    }
    lemma_mentions_unfold(a);
    lemma_mentions_unfold(b);
    assert forall|key: Seq<char>|
        mentioned_by(b@, key, b@.len() as int) == mentioned_by(a@, key, a@.len() as int) by {
        if mentioned_by(a@, key, a@.len() as int) {
            let i = choose|i: int|
                0 <= i < a@.len() && i < a@.len() && (#[trigger] a@[i]).mentions(key);
            assert(b@[i].mentions(key));
        }
        if mentioned_by(b@, key, b@.len() as int) {
            let i = choose|i: int|
                0 <= i < b@.len() && i < b@.len() && (#[trigger] b@[i]).mentions(key);
            assert(a@[i].mentions(key));
        }
    }
}

/// A conjunction or disjunction reads a field exactly if a child does.
pub proof fn lemma_mentions_unfold(children: Vec<ConditionExpr>)
    ensures
        forall|key: Seq<char>| #[trigger]
            ConditionExpr::And(children).mentions(key) == mentioned_by(
                children@,
                key,
                children@.len() as int,
            ),
        forall|key: Seq<char>| #[trigger]
            ConditionExpr::Or(children).mentions(key) == mentioned_by(
                children@,
                key,
                children@.len() as int,
            ),
{
    let all = ConditionExpr::And(children);
    let a = all->And_0;
    let any = ConditionExpr::Or(children);
    let o = any->Or_0;
    assert forall|key: Seq<char>| #[trigger]
        all.mentions(key) == mentioned_by(children@, key, children@.len() as int) by {
        if all.mentions(key) {
            assert(exists|i: int| 0 <= i < a@.len() && (#[trigger] a@[i]).mentions(key));
        }
        if mentioned_by(children@, key, children@.len() as int) {
            let i = choose|i: int|
                0 <= i < children@.len() && i < children@.len() && (#[trigger] children@[i]).mentions(key);
            assert(a@[i].mentions(key));
            assert(all.mentions(key));
        }
    }
    assert forall|key: Seq<char>| #[trigger]
        any.mentions(key) == mentioned_by(children@, key, children@.len() as int) by {
        if any.mentions(key) {
            assert(exists|i: int| 0 <= i < o@.len() && (#[trigger] o@[i]).mentions(key));
        }
        if mentioned_by(children@, key, children@.len() as int) {
            let i = choose|i: int|
                0 <= i < children@.len() && i < children@.len() && (#[trigger] children@[i]).mentions(key);
            assert(o@[i].mentions(key));
            assert(any.mentions(key));
        }
    }
}

/// What an aggregation clause counts.
#[derive(Clone, Debug, PartialEq, Eq)]
pub enum CountMode {
    /// The matches themselves.
    Matches,
    /// The distinct texts of this field among the matches.
    Distinct(String),
}

/// The aggregation clause of a rule: matches are counted per group and time
/// window, and the count is compared with a threshold when the run ends.
#[derive(Clone, Debug, PartialEq, Eq)]
pub struct AggregationClause {
    /// What is counted.
    pub mode: CountMode,
    /// The field whose text tells the groups apart; `None` for one group.
    pub group_by: Option<String>,
    /// How the count is compared with the threshold.
    pub op: CompareOp,
    /// The threshold.
    pub threshold: u64,
    /// The length of a time window in milliseconds; `None` for one window
    /// over the whole run.
    pub window: Option<u64>,
}

impl AggregationClause {
    /// Whether the clause reads the field at the path `key`.
    pub open spec fn reads(self, key: Seq<char>) -> bool {
        ||| (self.group_by matches Some(g) && g@ == key)
        ||| (self.mode matches CountMode::Distinct(f) && f@ == key)
    }
}

/// One detection rule.
#[derive(Debug, PartialEq, Eq)]
pub struct Rule {
    /// The identifier of the rule, unique in its corpus.
    pub id: String,
    /// The title shown with its findings.
    pub title: String,
    /// The severity of its findings.
    pub level: Level,
    /// What a record has to satisfy.
    pub condition: ConditionExpr,
    /// How matches are aggregated; `None` when each match is a finding.
    pub aggregation: Option<AggregationClause>,
    /// Whether the rule takes part in the run.
    pub enabled: bool,
}

impl Rule {
    /// Whether the rule reads the field at the path `key`, in its condition
    /// or in its aggregation clause.
    pub open spec fn references(self, key: Seq<char>) -> bool {
        self.condition.mentions(key) || (self.aggregation matches Some(clause) && clause.reads(key))
    }

    /// Whether the rule matches `rec`: it is enabled and its condition
    /// holds.
    pub open spec fn fires(self, rec: EnrichedRecord) -> bool {
        self.enabled && self.condition.holds(rec)
    }

    /// Whether the rule matches `rec`.
    pub fn applies(&self, rec: &EnrichedRecord) -> (r: bool)
        ensures
            r == self.fires(*rec),
    {
        self.enabled && self.condition.evaluate(rec)
    }

    /// The paths of the fields that the rule reads.
    pub fn keys(&self) -> (keys: Vec<String>)
        ensures
            forall|key: Seq<char>| #[trigger] lists(keys@, key) == self.references(key),
    {
        let mut keys: Vec<String> = Vec::new();
        assert forall|key: Seq<char>| !lists(keys@, key) by {}
        self.condition.collect_keys(&mut keys);
        match &self.aggregation {
            Some(clause) => {
                match &clause.group_by {
                    Some(g) => {
                        let ghost before = keys@;
                        keys.push(g.clone());
                        proof {
                            assert forall|key: Seq<char>| #[trigger]
                                lists(keys@, key) == (lists(before, key) || g@ == key) by {
                                lemma_lists_push(before, *g, key);
                            }
                        }
                    },
                    None => {},
                }
                match &clause.mode {
                    CountMode::Distinct(f) => {
                        let ghost before = keys@;
                        keys.push(f.clone());
                        proof {
                            assert forall|key: Seq<char>| #[trigger]
                                lists(keys@, key) == (lists(before, key) || f@ == key) by {
                                lemma_lists_push(before, *f, key);
                            }
                        }
                    },
                    CountMode::Matches => {},
                }
            },
            None => {},
        }
        keys
    }
}

/// Whether one of the first `n` of `rules` reads the field at `key`.
pub open spec fn referenced(rules: Seq<Rule>, key: Seq<char>, n: int) -> bool {
    exists|i: int| 0 <= i < n && i < rules.len() && (#[trigger] rules[i]).references(key)
}

proof fn lemma_referenced_step(rules: Seq<Rule>, key: Seq<char>, n: int)
    requires
        0 <= n < rules.len(),
    ensures
        referenced(rules, key, n + 1) == (referenced(rules, key, n) || rules[n].references(key)),
{
    if referenced(rules, key, n) {
        let i = choose|i: int| 0 <= i < n && i < rules.len() && (#[trigger] rules[i]).references(key);
        assert(0 <= i < n + 1 && rules[i].references(key));
    }
    if rules[n].references(key) {
        assert(0 <= n < n + 1 && rules[n].references(key));
    }
    if referenced(rules, key, n + 1) {
        let i = choose|i: int|
            0 <= i < n + 1 && i < rules.len() && (#[trigger] rules[i]).references(key);
        if i < n {
            assert(0 <= i < n && rules[i].references(key));
        }
    }
}

/// The paths of the fields that the rules of a corpus read, each once, in
/// no order that could be relied on.
pub fn get_all_keys(rules: &Vec<Rule>) -> (keys: Vec<String>)
    ensures
        texts(keys@).no_duplicates(),
        forall|key: Seq<char>| #[trigger]
            lists(keys@, key) == referenced(rules@, key, rules@.len() as int),
{
    let mut set = key_set_new();
    let mut i: usize = 0;
    while i < rules.len()
        invariant
            i <= rules@.len(),
            forall|key: Seq<char>| #[trigger]
                key_set_contents(set).contains(key) == referenced(rules@, key, i as int),
        decreases rules@.len() - i,
    {
        let own = rules[i].keys();
        let ghost before = key_set_contents(set);
        let ghost listed = own@;
        for key in it: own
            invariant
                it.seq() == listed,
                forall|k: Seq<char>| #[trigger]
                    key_set_contents(set).contains(k) == (before.contains(k) || lists(
                        listed.take(it.index() as int),
                        k,
                    )),
        {
            proof {
                let n = it.index() as int;
                assert(listed.take(n + 1) =~= listed.take(n).push(key));
                assert forall|k: Seq<char>| #[trigger]
                    lists(listed.take(n + 1), k) == (lists(listed.take(n), k) || key@ == k) by {
                    lemma_lists_push(listed.take(n), key, k);
                }
            }
            key_set_insert(&mut set, key);
        }
        proof {
            assert(listed.take(listed.len() as int) =~= listed);
            assert forall|key: Seq<char>| #[trigger]
                key_set_contents(set).contains(key) == referenced(rules@, key, i + 1) by {
                lemma_referenced_step(rules@, key, i as int);
                assert(before.contains(key) == referenced(rules@, key, i as int));
                assert(lists(listed, key) == rules@[i as int].references(key));
            }
        }
        i += 1;
    }
    let keys = key_set_into_vec(set);
    proof {
        assert forall|key: Seq<char>| #[trigger]
            lists(keys@, key) == referenced(rules@, key, rules@.len() as int) by {
            lemma_lists_texts(keys@, key);
            assert(texts(keys@).to_set().contains(key) == texts(keys@).contains(key));
        }
    }
    keys
}

/// A selection on a field that the record lacks does not hold, whatever
/// its matcher.
pub proof fn lemma_absent_field_fails(key: String, matcher: Matcher, rec: EnrichedRecord)
    requires
        rec.cached(key@) is None,
    ensures
        !ConditionExpr::Selection(key, matcher).holds(rec),
{
}

/// A conjunction with a selection on a field that the record lacks does
/// not hold.
pub proof fn lemma_absent_field_fails_and(
    children: Vec<ConditionExpr>,
    at: int,
    rec: EnrichedRecord,
)
    requires
        0 <= at < children@.len(),
        children@[at] matches ConditionExpr::Selection(key, _) && rec.cached(key@) is None,
    ensures
        !ConditionExpr::And(children).holds(rec),
{
    lemma_holds_unfold(children, rec);
    assert(!children@[at].holds(rec));
}

/// In a disjunction a selection on a field that the record lacks counts
/// for nothing: the disjunction holds exactly if one of the other children
/// holds.
pub proof fn lemma_absent_field_skipped_in_or(
    children: Vec<ConditionExpr>,
    at: int,
    rec: EnrichedRecord,
)
    requires
        0 <= at < children@.len(),
        children@[at] matches ConditionExpr::Selection(key, _) && rec.cached(key@) is None,
    ensures
        ConditionExpr::Or(children).holds(rec) == (exists|i: int|
            0 <= i < children@.len() && i != at && (#[trigger] children@[i]).holds(rec)),
{
    lemma_holds_unfold(children, rec);
    assert(!children@[at].holds(rec));
    if ConditionExpr::Or(children).holds(rec) {
        let i = choose|i: int| 0 <= i < children@.len() && (#[trigger] children@[i]).holds(rec);
        assert(i != at && children@[i].holds(rec));
    }
}

/// Whether a rule stays in the corpus of a run: it is at least as severe
/// as `min` and its identifier is not among the `excluded`.
pub open spec fn selected(rule: Rule, min: Level, excluded: Seq<String>) -> bool {
    rule.level.rank() >= min.rank() && !lists(excluded, rule.id@)
}

/// Those of the first `n` rules that stay in the corpus, in their order.
pub open spec fn selection(rules: Seq<Rule>, min: Level, excluded: Seq<String>, n: int) -> Seq<Rule>
    decreases n,
{
    if n <= 0 {
        Seq::<Rule>::empty()
    } else {
        let before = selection(rules, min, excluded, n - 1);
        if selected(rules[n - 1], min, excluded) {
            before.push(rules[n - 1])
        } else {
            before
        }
    }
}

/// Drops from a corpus the rules that are less severe than `min` and those
/// whose identifier is among the `excluded`. The others keep their order.
pub fn select_rules(rules: Vec<Rule>, min: Level, excluded: &Vec<String>) -> (kept: Vec<Rule>)
    ensures
        kept@ == selection(rules@, min, excluded@, rules@.len() as int),
{
    let mut kept: Vec<Rule> = Vec::new();
    let ghost all = rules@;
    for rule in it: rules
        invariant
            it.seq() == all,
            kept@ == selection(all, min, excluded@, it.index() as int),
    {
        if rule.level.at_least(min) && !is_listed(excluded, rule.id.as_str()) {
            kept.push(rule);
        }
    }
    kept
}

/// A conjunction holds of a record itself exactly if every child does, a
/// disjunction exactly if some child does.
pub proof fn lemma_holds_on_unfold(children: Vec<ConditionExpr>, record: Value)
    ensures
        ConditionExpr::And(children).holds_on(record) == (forall|i: int|
            0 <= i < children@.len() ==> (#[trigger] children@[i]).holds_on(record)),
        ConditionExpr::Or(children).holds_on(record) == (exists|i: int|
            0 <= i < children@.len() && (#[trigger] children@[i]).holds_on(record)),
{
    let all = ConditionExpr::And(children);
    let a = all->And_0;
    if all.holds_on(record) {
        assert(forall|i: int| 0 <= i < a@.len() ==> (#[trigger] a@[i]).holds_on(record));
    }
    if forall|i: int| 0 <= i < a@.len() ==> (#[trigger] a@[i]).holds_on(record) {
        assert(all.holds_on(record));
    }
    let any = ConditionExpr::Or(children);
    let o = any->Or_0;
    if any.holds_on(record) {
        assert(exists|i: int| 0 <= i < o@.len() && (#[trigger] o@[i]).holds_on(record));
    }
    if exists|i: int| 0 <= i < o@.len() && (#[trigger] o@[i]).holds_on(record) {
        assert(any.holds_on(record));
    }
}

/// Enrichment loses nothing that a condition reads: where the enriched
/// record holds, for every path of `keys`, the text that the record has
/// there, a condition that reads only paths of `keys` holds of the
/// enriched record exactly if it holds of the record itself.
pub proof fn lemma_enrichment_suffices(
    condition: ConditionExpr,
    rec: EnrichedRecord,
    record: Value,
    keys: Seq<String>,
)
    requires
        forall|key: Seq<char>| #[trigger] condition.mentions(key) ==> lists(keys, key),
        forall|key: Seq<char>| lists(keys, key) ==> #[trigger] rec.cached(key) == text_at(record, key),
    ensures
        condition.holds(rec) == condition.holds_on(record),
    decreases condition,
{
    match condition {
        ConditionExpr::And(children) => {
            lemma_children_smaller(condition, children);
            lemma_holds_unfold(children, rec);
            lemma_holds_on_unfold(children, record);
            lemma_mentions_unfold(children);
            assert forall|i: int| 0 <= i < children@.len() implies (#[trigger] children@[i]).holds(
                rec,
            ) == children@[i].holds_on(record) by {
                assert forall|key: Seq<char>| #[trigger]
                    children@[i].mentions(key) implies lists(keys, key) by {
                    assert(mentioned_by(children@, key, children@.len() as int));
                    assert(condition.mentions(key));
                }
                lemma_enrichment_suffices(children@[i], rec, record, keys);
            }
        },
        ConditionExpr::Or(children) => {
            lemma_children_smaller(condition, children);
            lemma_holds_unfold(children, rec);
            lemma_holds_on_unfold(children, record);
            lemma_mentions_unfold(children);
            assert forall|i: int| 0 <= i < children@.len() implies (#[trigger] children@[i]).holds(
                rec,
            ) == children@[i].holds_on(record) by {
                assert forall|key: Seq<char>| #[trigger]
                    children@[i].mentions(key) implies lists(keys, key) by {
                    assert(mentioned_by(children@, key, children@.len() as int));
                    assert(condition.mentions(key));
                }
                lemma_enrichment_suffices(children@[i], rec, record, keys);
            }
        },
        ConditionExpr::Not(child) => {
            assert forall|key: Seq<char>| #[trigger] child.mentions(key) implies lists(keys, key) by {
                assert(condition.mentions(key));
            }
            lemma_enrichment_suffices(*child, rec, record, keys);
        },
        ConditionExpr::Selection(key, matcher) => {
            assert(condition.mentions(key@));
        },
    }
}

} // verus!
