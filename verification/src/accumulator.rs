//! The aggregation accumulator. Matches of rules with an aggregation clause
//! are counted in buckets, one for each rule, group and time window. A
//! bucket is opened by the first match that no open bucket takes; it is
//! closed only when the run ends, and then yields one summary if its count
//! satisfies the threshold of the clause, and nothing otherwise.
//!
//! Where a window begins is a setting of the run. With `FirstMatch` a
//! window begins at the time of the match that opens the bucket. With
//! `Fixed` it begins at the last multiple of the window length that is not
//! after that time. Either way the bucket takes the matches from its
//! beginning up to, but not at, one window length later. A window of no
//! length is taken as one of a millisecond, the shortest time that can be
//! told. A clause without a window has one bucket for each group, which
//! takes every match.

use vstd::prelude::*;
use vstd::arithmetic::div_mod::lemma_fundamental_div_mod_converse;
use vstd::arithmetic::div_mod::lemma_fundamental_div_mod;
use crate::context::WindowAlignment;
use crate::rule::{AggregationClause, CompareOp, CountMode};
use crate::text::{is_listed, lemma_lists_texts, same_text, text_opt, texts};

verus! {

/// The state of one bucket.
#[derive(Clone, Debug, PartialEq, Eq)]
pub struct Bucket {
    /// The place of the rule in its corpus.
    pub rule: usize,
    /// The text of the group-by field that the matches share.
    pub group: Option<String>,
    /// Where the window begins; without a window, the earliest match.
    pub start: i64,
    /// Where the window ends; without a window, the latest match.
    pub end: i64,
    /// The matches counted, or the distinct values among them.
    pub count: u64,
    /// The distinct values seen, where those are what is counted.
    pub values: Vec<String>,
    /// Whether distinct values are counted rather than matches.
    pub distinct: bool,
    /// The length of the window.
    pub window: Option<u64>,
    /// How the count is compared with the threshold.
    pub op: CompareOp,
    /// The threshold.
    pub threshold: u64,
}

/// A bucket as a value of texts and numbers.
pub struct BucketView {
    pub rule: usize,
    pub group: Option<Seq<char>>,
    pub start: i64,
    pub end: i64,
    pub count: u64,
    pub values: Seq<Seq<char>>,
    pub distinct: bool,
    pub window: Option<u64>,
    pub op: CompareOp,
    pub threshold: u64,
}

impl View for Bucket {
    type V = BucketView;

    open spec fn view(&self) -> BucketView {
        BucketView {
            rule: self.rule,
            group: text_opt(self.group),
            start: self.start,
            end: self.end,
            count: self.count,
            values: texts(self.values@),
            distinct: self.distinct,
            window: self.window,
            op: self.op,
            threshold: self.threshold,
        }
    }
}

/// What a bucket yields when its count satisfies the threshold.
#[derive(Clone, Debug, PartialEq, Eq)]
pub struct GroupSummary {
    pub rule: usize,
    pub group: Option<String>,
    pub count: u64,
    pub start: i64,
    pub end: i64,
}

/// A summary as a value of texts and numbers.
pub struct GroupSummaryView {
    pub rule: usize,
    pub group: Option<Seq<char>>,
    pub count: u64,
    pub start: i64,
    pub end: i64,
}

impl View for GroupSummary {
    type V = GroupSummaryView;

    open spec fn view(&self) -> GroupSummaryView {
        GroupSummaryView {
            rule: self.rule,
            group: text_opt(self.group),
            count: self.count,
            start: self.start,
            end: self.end,
        }
    }
}

/// The views of a list of buckets.
pub open spec fn bucket_views(buckets: Seq<Bucket>) -> Seq<BucketView> {
    buckets.map_values(|b: Bucket| b@)
}

/// The views of a list of summaries.
pub open spec fn summary_views(summaries: Seq<GroupSummary>) -> Seq<GroupSummaryView> {
    summaries.map_values(|s: GroupSummary| s@)
}

/// The length of a window in milliseconds, which is never less than one.
pub open spec fn span(length: u64) -> int {
    if length == 0 {
        1
    } else {
        length as int
    }
}

/// The last multiple of the window length that is not after `time`, or
/// the earliest time there is where that multiple would be before it.
pub open spec fn floor_to(time: i64, length: u64) -> i64 {
    let floored = time - (time as int % span(length));
    if floored < i64::MIN {
        i64::MIN
    } else {
        floored as i64
    }
}

/// Where the window of a bucket begins that a match at `time` opens.
pub open spec fn window_start(alignment: WindowAlignment, window: Option<u64>, time: i64) -> i64 {
    match window {
        Some(length) => if alignment == WindowAlignment::Fixed {
            floor_to(time, length)
        } else {
            time
        },
        None => time,
    }
}

/// Where the window that begins at `start` ends: one window length later,
/// or at the latest time there is where that would be after it. Without a
/// window, the time of the match.
pub open spec fn window_end(start: i64, window: Option<u64>, time: i64) -> i64 {
    match window {
        Some(length) => if start + span(length) > i64::MAX {
            i64::MAX
        } else {
            (start + span(length)) as i64
        },
        None => time,
    }
}

/// Whether a bucket takes a match of `rule` in `group` at `time`.
pub open spec fn takes(b: BucketView, rule: usize, group: Option<Seq<char>>, time: i64) -> bool {
    &&& b.rule == rule
    &&& b.group == group
    &&& match b.window {
        Some(length) => b.start <= time && time - b.start < span(length),
        None => true,
    }
}

/// The place of the first bucket from `from` on that takes the match.
pub open spec fn first_taker(
    state: Seq<BucketView>,
    rule: usize,
    group: Option<Seq<char>>,
    time: i64,
    from: int,
) -> Option<int>
    decreases state.len() - from,
{
    if from < 0 || from >= state.len() {
        None
    } else if takes(state[from], rule, group, time) {
        Some(from)
    } else {
        first_taker(state, rule, group, time, from + 1)
    }
}

/// One more: a count that has reached the largest number it can hold
/// stays there.
pub open spec fn one_more(count: u64) -> u64 {
    if count < u64::MAX {
        (count + 1) as u64
    } else {
        count
    }
}

/// The bucket that the first match opens.
pub open spec fn opened(
    alignment: WindowAlignment,
    rule: usize,
    clause: AggregationClause,
    group: Option<Seq<char>>,
    value: Option<Seq<char>>,
    time: i64,
) -> BucketView {
    let start = window_start(alignment, clause.window, time);
    BucketView {
        rule,
        group,
        start,
        end: window_end(start, clause.window, time),
        count: 1,
        values: match value {
            Some(v) => if clause.mode is Distinct {
                seq![v]
            } else {
                Seq::<Seq<char>>::empty()
            },
            None => Seq::<Seq<char>>::empty(),
        },
        distinct: clause.mode is Distinct,
        window: clause.window,
        op: clause.op,
        threshold: clause.threshold,
    }
}

/// The bucket after it has taken one more match. A bucket that counts
/// matches counts one more. A bucket that counts distinct values counts
/// one more only for a value it has not seen. Without a window the bucket
/// stretches to the time of the match.
pub open spec fn absorbed(b: BucketView, value: Option<Seq<char>>, time: i64) -> BucketView {
    let fresh = b.distinct && value is Some && !b.values.contains(value->0);
    BucketView {
        count: if !b.distinct || fresh {
            one_more(b.count)
        } else {
            b.count
        },
        values: if fresh {
            b.values.push(value->0)
        } else {
            b.values
        },
        start: if b.window is None && time < b.start {
            time
        } else {
            b.start
        },
        end: if b.window is None && time > b.end {
            time
        } else {
            b.end
        },
        ..b
    }
}

/// The buckets after one more match of `rule` has been fed. A match that
/// lacks the field whose distinct values are counted is not fed at all.
pub open spec fn fed(
    state: Seq<BucketView>,
    alignment: WindowAlignment,
    rule: usize,
    clause: AggregationClause,
    group: Option<Seq<char>>,
    value: Option<Seq<char>>,
    time: i64,
) -> Seq<BucketView> {
    if clause.mode is Distinct && value is None {
        state
    } else {
        match first_taker(state, rule, group, time, 0) {
            Some(k) => state.update(k, absorbed(state[k], value, time)),
            None => state.push(opened(alignment, rule, clause, group, value, time)),
        }
    }
}

/// Whether the count of a bucket satisfies its threshold.
pub open spec fn satisfied(b: BucketView) -> bool {
    b.op.admits(b.count as int, b.threshold as int)
}

/// What a bucket yields when its count satisfies the threshold.
pub open spec fn summary_of(b: BucketView) -> GroupSummaryView {
    GroupSummaryView { rule: b.rule, group: b.group, count: b.count, start: b.start, end: b.end }
}

/// What the first `n` buckets yield when the run ends: for each bucket
/// whose count satisfies its threshold one summary, in the order in which
/// the buckets were opened.
pub open spec fn flushed(state: Seq<BucketView>, n: int) -> Seq<GroupSummaryView>
    decreases n,
{
    if n <= 0 {
        Seq::<GroupSummaryView>::empty()
    } else {
        let before = flushed(state, n - 1);
        if satisfied(state[n - 1]) {
            before.push(summary_of(state[n - 1]))
        } else {
            before
        }
    }
}

/// The buckets after the first `n` of `stamps` have been fed as matches of
/// one rule in one group.
pub open spec fn fed_all(
    state: Seq<BucketView>,
    alignment: WindowAlignment,
    rule: usize,
    clause: AggregationClause,
    group: Option<Seq<char>>,
    stamps: Seq<i64>,
    n: int,
) -> Seq<BucketView>
    decreases n,
{
    if n <= 0 {
        state
    } else {
        fed(
            fed_all(state, alignment, rule, clause, group, stamps, n - 1),
            alignment,
            rule,
            clause,
            group,
            None,
            stamps[n - 1],
        )
    }
}

/// Whether a match at `time` falls in the window that a match at `first`
/// opens.
pub open spec fn in_window_of(
    alignment: WindowAlignment,
    window: Option<u64>,
    first: i64,
    time: i64,
) -> bool {
    match window {
        Some(length) => window_start(alignment, window, first) <= time && time - window_start(
            alignment,
            window,
            first,
        ) < span(length),
        None => true,
    }
}

/// The first taker, where there is one, is a bucket of the state and takes
/// the match, and no bucket before it does.
pub proof fn lemma_first_taker(
    state: Seq<BucketView>,
    rule: usize,
    group: Option<Seq<char>>,
    time: i64,
    from: int,
)
    requires
        0 <= from,
    ensures
        match first_taker(state, rule, group, time, from) {
            Some(k) => {
                &&& from <= k < state.len()
                &&& takes(state[k], rule, group, time)
                &&& forall|j: int| from <= j < k ==> !takes(#[trigger] state[j], rule, group, time)
            },
            None => forall|j: int|
                from <= j < state.len() ==> !takes(#[trigger] state[j], rule, group, time),
        },
    decreases state.len() - from,
{
    if from < state.len() && !takes(state[from], rule, group, time) {
        lemma_first_taker(state, rule, group, time, from + 1);
    }
}

/// Every summary is that of a bucket: its rule is the rule of a bucket.
pub proof fn lemma_flushed_keeps_rules(state: Seq<BucketView>, n: int, bound: int)
    requires
        0 <= n <= state.len(),
        forall|k: int| 0 <= k < state.len() ==> (#[trigger] state[k]).rule < bound,
    ensures
        forall|k: int| 0 <= k < flushed(state, n).len() ==> (#[trigger] flushed(state, n)[k]).rule < bound,
    decreases n,
{
    if n > 0 {
        lemma_flushed_keeps_rules(state, n - 1, bound);
    }
}

/// A window begins at or before the match that opens it and takes that
/// match.
pub proof fn lemma_window_takes_its_first(alignment: WindowAlignment, length: u64, time: i64)
    ensures
        window_start(alignment, Some(length), time) <= time,
        time - window_start(alignment, Some(length), time) < span(length),
{
    vstd::arithmetic::div_mod::lemma_mod_bound(time as int, span(length));
}

/// Whether no two buckets of one rule and one group begin at the same
/// time. Buckets without a window have their rule and group to themselves.
pub open spec fn apart(state: Seq<BucketView>) -> bool {
    forall|i: int, j: int|
        0 <= i < j < state.len() && (#[trigger] state[i]).rule == (#[trigger] state[j]).rule
            && state[i].group == state[j].group ==> {
            &&& state[i].window is Some
            &&& state[j].window is Some
            &&& state[i].start != state[j].start
        }
}

/// Whether every bucket of `rule` has the window `window`.
pub open spec fn windowed_as(state: Seq<BucketView>, rule: usize, window: Option<u64>) -> bool {
    forall|k: int| 0 <= k < state.len() && (#[trigger] state[k]).rule == rule ==> state[k].window == window
}

/// Feeding a match keeps the buckets apart: as long as a rule is always fed
/// with the same window, no two of its buckets for one group ever begin at
/// the same time, so that a rule and a group have one bucket for a window
/// and no more.
pub proof fn lemma_fed_keeps_apart(
    state: Seq<BucketView>,
    alignment: WindowAlignment,
    rule: usize,
    clause: AggregationClause,
    group: Option<Seq<char>>,
    value: Option<Seq<char>>,
    time: i64,
)
    requires
        apart(state),
        windowed_as(state, rule, clause.window),
    ensures
        apart(fed(state, alignment, rule, clause, group, value, time)),
        windowed_as(fed(state, alignment, rule, clause, group, value, time), rule, clause.window),
{
    let after = fed(state, alignment, rule, clause, group, value, time);
    lemma_first_taker(state, rule, group, time, 0);
    if !(clause.mode is Distinct && value is None) {
        match first_taker(state, rule, group, time, 0) {
            Some(k) => {
                assert forall|i: int, j: int|
                    0 <= i < j < after.len() && (#[trigger] after[i]).rule == (#[trigger] after[j]).rule
                        && after[i].group == after[j].group implies after[i].window is Some
                    && after[j].window is Some && after[i].start != after[j].start by {
                    assert(state[i].rule == state[j].rule && state[i].group == state[j].group);
                }
            },
            None => {
                let fresh = opened(alignment, rule, clause, group, value, time);
                assert forall|i: int, j: int|
                    0 <= i < j < after.len() && (#[trigger] after[i]).rule == (#[trigger] after[j]).rule
                        && after[i].group == after[j].group implies after[i].window is Some
                    && after[j].window is Some && after[i].start != after[j].start by {
                    if j == state.len() {
                        assert(after[i] == state[i]);
                        assert(state[i].window == clause.window);
                        assert(!takes(state[i], rule, group, time));
                        if clause.window is Some {
                            lemma_window_takes_its_first(alignment, clause.window->0, time);
                        }
                    } else {
                        assert(state[i].rule == state[j].rule && state[i].group == state[j].group);
                    }
                }
            },
        }
    }
}

/// Whether no two summaries of one rule and one group begin at the same
/// time.
pub open spec fn summaries_apart(out: Seq<GroupSummaryView>) -> bool {
    forall|i: int, j: int|
        0 <= i < j < out.len() ==> !((#[trigger] out[i]).rule == (#[trigger] out[j]).rule && out[i].group
            == out[j].group && out[i].start == out[j].start)
}

/// Whether `summary` is the summary of one of the first `n` buckets.
pub open spec fn summarises(state: Seq<BucketView>, summary: GroupSummaryView, n: int) -> bool {
    exists|k: int| 0 <= k < n && k < state.len() && summary == summary_of(#[trigger] state[k])
}

/// Buckets that are apart yield summaries that are apart: a rule and a
/// group yield at most one summary for a window.
pub proof fn lemma_flushed_apart(state: Seq<BucketView>, n: int)
    requires
        apart(state),
        0 <= n <= state.len(),
    ensures
        summaries_apart(flushed(state, n)),
        forall|i: int|
            0 <= i < flushed(state, n).len() ==> summarises(state, #[trigger] flushed(state, n)[i], n),
    decreases n,
{
    if n > 0 {
        lemma_flushed_apart(state, n - 1);
        let before = flushed(state, n - 1);
        let out = flushed(state, n);
        assert forall|i: int| 0 <= i < out.len() implies summarises(state, #[trigger] out[i], n) by {
            if i < before.len() {
                assert(summarises(state, before[i], n - 1));
                let k = choose|k: int|
                    0 <= k < n - 1 && k < state.len() && before[i] == summary_of(#[trigger] state[k]);
                assert(out[i] == summary_of(state[k]));
            } else {
                assert(out[i] == summary_of(state[n - 1]));
            }
        }
        assert forall|i: int, j: int| 0 <= i < j < out.len() implies !((#[trigger] out[i]).rule == (
        #[trigger] out[j]).rule && out[i].group == out[j].group && out[i].start == out[j].start) by {
            if j == before.len() {
                assert(summarises(state, before[i], n - 1));
                let k = choose|k: int|
                    0 <= k < n - 1 && k < state.len() && before[i] == summary_of(#[trigger] state[k]);
                assert(out[j] == summary_of(state[n - 1]));
                assert(state[k].rule == state[n - 1].rule && state[k].group == state[n - 1].group
                    ==> state[k].start != state[n - 1].start);
            } else {
                assert(out[i] == before[i] && out[j] == before[j]);
            }
        }
    }
}

/// Every bucket yields at most one summary.
pub proof fn lemma_flushed_at_most_one_each(state: Seq<BucketView>, n: int)
    requires
        0 <= n <= state.len(),
    ensures
        flushed(state, n).len() <= n,
    decreases n,
{
    if n > 0 {
        lemma_flushed_at_most_one_each(state, n - 1);
    }
}

/// Matches of one rule in one group that fall in one window are counted in
/// one bucket: after `n` of them there is one bucket, with the count `n`.
pub proof fn lemma_one_window_one_bucket(
    alignment: WindowAlignment,
    rule: usize,
    clause: AggregationClause,
    group: Option<Seq<char>>,
    stamps: Seq<i64>,
    n: int,
)
    requires
        clause.mode is Matches,
        1 <= n <= stamps.len(),
        n <= u64::MAX,
        forall|i: int|
            0 <= i < stamps.len() ==> in_window_of(alignment, clause.window, stamps[0], #[trigger] stamps[i]),
    ensures
        ({
            let state = fed_all(
                Seq::<BucketView>::empty(),
                alignment,
                rule,
                clause,
                group,
                stamps,
                n,
            );
            &&& state.len() == 1
            &&& state[0].rule == rule
            &&& state[0].group == group
            &&& state[0].count == n
            &&& state[0].window == clause.window
            &&& state[0].op == clause.op
            &&& state[0].threshold == clause.threshold
            &&& !state[0].distinct
            &&& clause.window is Some ==> state[0].start == window_start(
                alignment,
                clause.window,
                stamps[0],
            )
        }),
    decreases n,
{
    let empty = Seq::<BucketView>::empty();
    if n == 1 {
        assert(fed_all(empty, alignment, rule, clause, group, stamps, 0) == empty);
        assert(first_taker(empty, rule, group, stamps[0], 0) is None);
    } else {
        lemma_one_window_one_bucket(alignment, rule, clause, group, stamps, n - 1);
        let before = fed_all(empty, alignment, rule, clause, group, stamps, n - 1);
        assert(in_window_of(alignment, clause.window, stamps[0], stamps[n - 1]));
        assert(takes(before[0], rule, group, stamps[n - 1]));
        assert(first_taker(before, rule, group, stamps[n - 1], 0) == Some(0int));
    }
}

/// When the run ends, matches of one rule in one group that fell in one
/// window yield exactly one summary if their number satisfies the
/// threshold of the clause, and none if it does not.
pub proof fn lemma_one_summary_iff_threshold_met(
    alignment: WindowAlignment,
    rule: usize,
    clause: AggregationClause,
    group: Option<Seq<char>>,
    stamps: Seq<i64>,
)
    requires
        clause.mode is Matches,
        1 <= stamps.len() <= u64::MAX,
        forall|i: int|
            0 <= i < stamps.len() ==> in_window_of(alignment, clause.window, stamps[0], #[trigger] stamps[i]),
    ensures
        ({
            let state = fed_all(
                Seq::<BucketView>::empty(),
                alignment,
                rule,
                clause,
                group,
                stamps,
                stamps.len() as int,
            );
            let out = flushed(state, state.len() as int);
            if clause.op.admits(stamps.len() as int, clause.threshold as int) {
                &&& out.len() == 1
                &&& out[0].rule == rule
                &&& out[0].group == group
                &&& out[0].count == stamps.len()
            } else {
                out.len() == 0
            }
        }),
{
    lemma_one_window_one_bucket(alignment, rule, clause, group, stamps, stamps.len() as int);
    let state = fed_all(
        Seq::<BucketView>::empty(),
        alignment,
        rule,
        clause,
        group,
        stamps,
        stamps.len() as int,
    );
    assert(flushed(state, 0).len() == 0);
}

/// The last multiple of the window length that is not after `time`.
pub fn floor_time(time: i64, length: u64) -> (r: i64)
    ensures
        r == floor_to(time, length),
{
    let width: u64 = if length == 0 { 1 } else { length };
    if time >= 0 {
        let rest: u64 = (time as u64) % width;
        proof {
            vstd::arithmetic::div_mod::lemma_mod_decreases(time as nat, width as nat);
        }
        time - (rest as i64)
    } else {
        let size: u128 = (-(time as i128)) as u128;
        let over: u128 = size % (width as u128);
        let rest: u128 = if over == 0 { 0 } else { width as u128 - over };
        proof {
            let w = width as int;
            let whole = (size / (width as u128)) as int;
            lemma_fundamental_div_mod(size as int, w);
            assert(size as int == w * whole + over);
            if over == 0 {
                assert(time as int == (-whole) * w + 0) by (nonlinear_arith)
                    requires
                        time as int == -(w * whole),
                ;
                lemma_fundamental_div_mod_converse(time as int, w, -whole, 0);
            } else {
                assert(time as int == (-whole - 1) * w + (w - over)) by (nonlinear_arith)
                    requires
                        time as int == -(w * whole + over),
                ;
                lemma_fundamental_div_mod_converse(time as int, w, -whole - 1, w - over);
            }
            assert(time as int % w == rest);
        }
        let floored: i128 = time as i128 - rest as i128;
        if floored < i64::MIN as i128 {
            i64::MIN
        } else {
            floored as i64
        }
    }
}

/// Whether two optional strings have the same text, or are both absent.
pub fn same_group(a: &Option<String>, b: &Option<String>) -> (r: bool)
    ensures
        r == (text_opt(*a) == text_opt(*b)),
{
    match a {
        Some(x) => match b {
            Some(y) => same_text(x.as_str(), y.as_str()),
            None => false,
        },
        None => match b {
            Some(_) => false,
            None => true,
        },
    }
}

/// The buckets of a run.
pub struct Accumulator {
    alignment: WindowAlignment,
    buckets: Vec<Bucket>,
}

impl View for Accumulator {
    type V = Seq<BucketView>;

    closed spec fn view(&self) -> Seq<BucketView> {
        bucket_views(self.buckets@)
    }
}

impl Accumulator {
    /// Where the windows of this accumulator begin.
    pub closed spec fn alignment(self) -> WindowAlignment {
        self.alignment
    }

    /// An accumulator without buckets.
    pub fn new(alignment: WindowAlignment) -> (a: Accumulator)
        ensures
            a@ == Seq::<BucketView>::empty(),
            a.alignment() == alignment,
    {
        let a = Accumulator { alignment, buckets: Vec::new() };
        assert(a@ =~= Seq::<BucketView>::empty());
        a
    }

    /// How many buckets are open.
    pub fn open_buckets(&self) -> (n: usize)
        ensures
            n == self@.len(),
    {
        self.buckets.len()
    }

    /// Feeds one match of the rule at place `rule`, whose aggregation
    /// clause is `clause`: `group` is the text of the group-by field of the
    /// matching record, `value` the text of the field whose distinct
    /// values are counted, `time` the time of the event.
    pub fn feed(
        &mut self,
        rule: usize,
        clause: &AggregationClause,
        group: Option<String>,
        value: Option<String>,
        time: i64,
    )
        ensures
            final(self).alignment() == old(self).alignment(),
            final(self)@ == fed(
                old(self)@,
                old(self).alignment(),
                rule,
                *clause,
                text_opt(group),
                text_opt(value),
                time,
            ),
    {
        let distinct: bool = match &clause.mode {
            CountMode::Distinct(_) => true,
            CountMode::Matches => false,
        };
        if distinct && value.is_none() {
            return ;
        }
        let ghost before = self.buckets@;
        let ghost state = bucket_views(before);
        let mut i: usize = 0;
        let mut hit: bool = false;
        while i < self.buckets.len() && !hit
            invariant
                i <= self.buckets@.len(),
                self.buckets@ == before,
                state == bucket_views(before),
                first_taker(state, rule, text_opt(group), time, 0) == first_taker(
                    state,
                    rule,
                    text_opt(group),
                    time,
                    i as int,
                ),
                hit ==> i < self.buckets@.len() && takes(state[i as int], rule, text_opt(group), time),
            decreases self.buckets@.len() - i + (if hit { 0int } else { 1int }),
        {
            let b = &self.buckets[i];
            assert(state[i as int] == b@);
            let in_time: bool = match b.window {
                Some(length) => {
                    let width: u64 = if length == 0 { 1 } else { length };
                    b.start <= time && (time as i128 - b.start as i128) < (width as i128)
                },
                None => true,
            };
            if b.rule == rule && in_time && same_group(&b.group, &group) {
                hit = true;
            } else {
                i += 1;
            }
        }
        if hit {
            let mut b = self.buckets.remove(i);
            let ghost was = b@;
            assert(was == state[i as int]);
            let fresh: bool = b.distinct && match &value {
                Some(v) => !is_listed(&b.values, v.as_str()),
                None => false,
            };
            proof {
                if value is Some {
                    lemma_lists_texts(b.values@, value->0@);
                }
            }
            if !b.distinct || fresh {
                b.count = if b.count < u64::MAX { b.count + 1 } else { b.count };
            }
            if fresh {
                match value {
                    Some(v) => {
                        let ghost held = b.values@;
                        b.values.push(v);
                        assert(texts(b.values@) =~= texts(held).push(v@));
                    },
                    None => {},
                }
            }
            if b.window.is_none() && time < b.start {
                b.start = time;
            }
            if b.window.is_none() && time > b.end {
                b.end = time;
            }
            assert(b@ == absorbed(was, text_opt(value), time));
            self.buckets.insert(i, b);
            assert(bucket_views(self.buckets@) =~= state.update(i as int, absorbed(
                was,
                text_opt(value),
                time,
            )));
        } else {
            let start: i64 = match clause.window {
                Some(length) => match self.alignment {
                    WindowAlignment::Fixed => floor_time(time, length),
                    WindowAlignment::FirstMatch => time,
                },
                None => time,
            };
            let end: i64 = match clause.window {
                Some(length) => {
                    let width: u64 = if length == 0 { 1 } else { length };
                    let sum: i128 = start as i128 + width as i128;
                    if sum > i64::MAX as i128 {
                        i64::MAX
                    } else {
                        sum as i64
                    }
                },
                None => time,
            };
            let mut values: Vec<String> = Vec::new();
            assert(texts(values@) =~= Seq::<Seq<char>>::empty());
            if distinct {
                match value {
                    Some(v) => {
                        values.push(v);
                        assert(texts(values@) =~= seq![v@]);
                    },
                    None => {},
                }
            }
            let b = Bucket {
                rule,
                group,
                start,
                end,
                count: 1,
                values,
                distinct,
                window: clause.window,
                op: clause.op,
                threshold: clause.threshold,
            };
            assert(b@ == opened(
                self.alignment,
                rule,
                *clause,
                text_opt(group),
                text_opt(value),
                time,
            ));
            self.buckets.push(b);
            assert(bucket_views(self.buckets@) =~= state.push(b@));
        }
    }

    /// Ends the run: every bucket is closed, and each whose count
    /// satisfies its threshold yields one summary. The summaries come in
    /// the order in which their buckets were opened. No bucket is left.
    pub fn flush(&mut self) -> (out: Vec<GroupSummary>)
        ensures
            summary_views(out@) == flushed(old(self)@, old(self)@.len() as int),
            out@.len() <= old(self)@.len(),
            final(self)@ == Seq::<BucketView>::empty(),
            final(self).alignment() == old(self).alignment(),
    {
        let mut taken: Vec<Bucket> = Vec::new();
        core::mem::swap(&mut self.buckets, &mut taken);
        assert(bucket_views(self.buckets@) =~= Seq::<BucketView>::empty());
        let mut out: Vec<GroupSummary> = Vec::new();
        let ghost all = taken@;
        let ghost state = bucket_views(all);
        assert(summary_views(out@) =~= flushed(state, 0));
        for b in it: taken
            invariant
                it.seq() == all,
                state == bucket_views(all),
                summary_views(out@) == flushed(state, it.index() as int),
                out@.len() <= it.index(),
        {
            assert(state[it.index() as int] == b@);
            if b.op.test_count(b.count, b.threshold) {
                let ghost held = out@;
                let s = GroupSummary {
                    rule: b.rule,
                    group: b.group,
                    count: b.count,
                    start: b.start,
                    end: b.end,
                };
                out.push(s);
                assert(summary_views(out@) =~= summary_views(held).push(s@));
            }
        }
        out
    }
}

} // verus!
