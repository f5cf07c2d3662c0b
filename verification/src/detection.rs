//! The detection engine. It evaluates every record of a batch against
//! every rule of the corpus, in the order of the batch and of the corpus.
//! A match of a rule without an aggregation clause is a finding at once. A
//! match of a rule with one is fed to the accumulator and is never a
//! finding by itself; what the accumulator has counted becomes findings
//! when the run ends.

use vstd::prelude::*;
use crate::accumulator::{
    apart, fed, first_taker, flushed, lemma_fed_keeps_apart, lemma_first_taker, lemma_flushed_apart,
    lemma_flushed_keeps_rules, summaries_apart, summary_views, windowed_as, Accumulator, BucketView,
    GroupSummary, GroupSummaryView,
};
use crate::context::WindowAlignment;
use crate::enrich::EnrichedRecord;
use crate::rule::{AggregationClause, CountMode, Level, Rule};
use crate::text::text_opt;

verus! {

/// What a finding rests on.
#[derive(Clone, Debug, PartialEq, Eq)]
pub enum FindingSource {
    /// One record: the container it came from and its position.
    Record { origin: String, position: usize },
    /// The matches counted in one bucket of the accumulator.
    Group { group: Option<String>, count: u64, start: i64, end: i64 },
}

/// What a finding rests on, as a value of texts and numbers.
pub enum FindingSourceView {
    Record { origin: Seq<char>, position: usize },
    Group { group: Option<Seq<char>>, count: u64, start: i64, end: i64 },
}

impl View for FindingSource {
    type V = FindingSourceView;

    open spec fn view(&self) -> FindingSourceView {
        match *self {
            FindingSource::Record { origin, position } => FindingSourceView::Record {
                origin: origin@,
                position,
            },
            FindingSource::Group { group, count, start, end } => FindingSourceView::Group {
                group: text_opt(group),
                count,
                start,
                end,
            },
        }
    }
}

/// One detection result.
#[derive(Clone, Debug, PartialEq, Eq)]
pub struct Finding {
    /// The identifier of the rule that matched.
    pub rule_id: String,
    /// The title of that rule.
    pub title: String,
    /// The severity of that rule.
    pub level: Level,
    /// The time of the event, or the beginning of the bucket.
    pub timestamp: i64,
    /// What the finding rests on.
    pub source: FindingSource,
}

/// A finding as a value of texts and numbers.
pub struct FindingView {
    pub rule_id: Seq<char>,
    pub title: Seq<char>,
    pub level: Level,
    pub timestamp: i64,
    pub source: FindingSourceView,
}

impl View for Finding {
    type V = FindingView;

    open spec fn view(&self) -> FindingView {
        FindingView {
            rule_id: self.rule_id@,
            title: self.title@,
            level: self.level,
            timestamp: self.timestamp,
            source: self.source@,
        }
    }
}

/// The views of a list of findings.
pub open spec fn finding_views(findings: Seq<Finding>) -> Seq<FindingView> {
    findings.map_values(|f: Finding| f@)
}

/// Why an engine cannot be made.
#[derive(Clone, Copy, Debug, PartialEq, Eq, Structural)]
pub enum DetectionError {
    /// The corpus holds no rule, so no run can find anything.
    EmptyCorpus,
}

/// Whether a match of `rule` on `rec` is a finding at once.
pub open spec fn immediate(rule: Rule, rec: EnrichedRecord) -> bool {
    rule.aggregation is None && rule.fires(rec)
}

/// Whether a match of `rule` on `rec` is fed to the accumulator.
pub open spec fn contributes(rule: Rule, rec: EnrichedRecord) -> bool {
    rule.aggregation is Some && rule.fires(rec)
}

/// The finding for a match of `rule` on `rec`.
pub open spec fn record_finding(rule: Rule, rec: EnrichedRecord) -> FindingView {
    FindingView {
        rule_id: rule.id@,
        title: rule.title@,
        level: rule.level,
        timestamp: rec.timestamp,
        source: FindingSourceView::Record { origin: rec.origin@, position: rec.position },
    }
}

/// The finding for a summary of the accumulator under `rule`.
pub open spec fn group_finding(rule: Rule, summary: GroupSummaryView) -> FindingView {
    FindingView {
        rule_id: rule.id@,
        title: rule.title@,
        level: rule.level,
        timestamp: summary.start,
        source: FindingSourceView::Group {
            group: summary.group,
            count: summary.count,
            start: summary.start,
            end: summary.end,
        },
    }
}

/// The pairs of record `at` and a rule among the first `n` whose match is
/// a finding at once, in the order of the corpus.
pub open spec fn record_hits(rules: Seq<Rule>, rec: EnrichedRecord, at: int, n: int) -> Seq<
    (int, int),
>
    decreases n,
{
    if n <= 0 {
        Seq::<(int, int)>::empty()
    } else {
        let before = record_hits(rules, rec, at, n - 1);
        if immediate(rules[n - 1], rec) {
            before.push((at, n - 1))
        } else {
            before
        }
    }
}

/// The pairs of a record among the first `m` and a rule whose match is a
/// finding at once: record by record, and for each record rule by rule.
pub open spec fn batch_hits(rules: Seq<Rule>, records: Seq<EnrichedRecord>, m: int) -> Seq<
    (int, int),
>
    decreases m,
{
    if m <= 0 {
        Seq::<(int, int)>::empty()
    } else {
        batch_hits(rules, records, m - 1) + record_hits(
            rules,
            records[m - 1],
            m - 1,
            rules.len() as int,
        )
    }
}

/// The findings for a list of pairs of record and rule.
pub open spec fn findings_of(
    rules: Seq<Rule>,
    records: Seq<EnrichedRecord>,
    hits: Seq<(int, int)>,
) -> Seq<FindingView> {
    hits.map_values(|h: (int, int)| record_finding(rules[h.1], records[h.0]))
}

/// The findings for a list of summaries of the accumulator.
pub open spec fn group_findings(rules: Seq<Rule>, summaries: Seq<GroupSummaryView>) -> Seq<
    FindingView,
> {
    summaries.map_values(|s: GroupSummaryView| group_finding(rules[s.rule as int], s))
}

/// The text by which the clause groups the matches of `rec`.
pub open spec fn group_of(clause: AggregationClause, rec: EnrichedRecord) -> Option<Seq<char>> {
    match clause.group_by {
        Some(field) => rec.cached(field@),
        None => None,
    }
}

/// The text whose distinct values the clause counts, as `rec` has it.
pub open spec fn counted_value(clause: AggregationClause, rec: EnrichedRecord) -> Option<
    Seq<char>,
> {
    match clause.mode {
        CountMode::Distinct(field) => rec.cached(field@),
        CountMode::Matches => None,
    }
}

/// The buckets after `rec` has been evaluated against the first `n` rules.
pub open spec fn record_fed(
    state: Seq<BucketView>,
    alignment: WindowAlignment,
    rules: Seq<Rule>,
    rec: EnrichedRecord,
    n: int,
) -> Seq<BucketView>
    decreases n,
{
    if n <= 0 {
        state
    } else {
        let before = record_fed(state, alignment, rules, rec, n - 1);
        if contributes(rules[n - 1], rec) {
            let clause = rules[n - 1].aggregation->0;
            fed(
                before,
                alignment,
                (n - 1) as usize,
                clause,
                group_of(clause, rec),
                counted_value(clause, rec),
                rec.timestamp,
            )
        } else {
            before
        }
    }
}

/// The buckets after the first `m` records have been evaluated.
pub open spec fn batch_fed(
    state: Seq<BucketView>,
    alignment: WindowAlignment,
    rules: Seq<Rule>,
    records: Seq<EnrichedRecord>,
    m: int,
) -> Seq<BucketView>
    decreases m,
{
    if m <= 0 {
        state
    } else {
        record_fed(
            batch_fed(state, alignment, rules, records, m - 1),
            alignment,
            rules,
            records[m - 1],
            rules.len() as int,
        )
    }
}

/// How often the pair `h` occurs in `hits`.
pub open spec fn occurrences(hits: Seq<(int, int)>, h: (int, int)) -> nat
    decreases hits.len(),
{
    if hits.len() == 0 {
        0
    } else {
        occurrences(hits.drop_last(), h) + if hits.last() == h {
            1nat
        } else {
            0nat
        }
    }
}

proof fn lemma_occurrences_add(a: Seq<(int, int)>, b: Seq<(int, int)>, h: (int, int))
    ensures
        occurrences(a + b, h) == occurrences(a, h) + occurrences(b, h),
    decreases b.len(),
{
    if b.len() == 0 {
        assert(a + b =~= a);
    } else {
        lemma_occurrences_add(a, b.drop_last(), h);
        assert((a + b).drop_last() =~= a + b.drop_last());
    }
}

proof fn lemma_record_hits_once(rules: Seq<Rule>, rec: EnrichedRecord, at: int, n: int, h: (int, int))
    requires
        0 <= n <= rules.len(),
    ensures
        occurrences(record_hits(rules, rec, at, n), h) == (if h.0 == at && 0 <= h.1 < n && immediate(
            rules[h.1],
            rec,
        ) {
            1nat
        } else {
            0nat
        }),
    decreases n,
{
    if n > 0 {
        lemma_record_hits_once(rules, rec, at, n - 1, h);
        let before = record_hits(rules, rec, at, n - 1);
        if immediate(rules[n - 1], rec) {
            assert(before.push((at, n - 1)).drop_last() =~= before);
        }
    }
}

proof fn lemma_batch_hits_once(rules: Seq<Rule>, records: Seq<EnrichedRecord>, m: int, h: (int, int))
    requires
        0 <= m <= records.len(),
    ensures
        occurrences(batch_hits(rules, records, m), h) == (if 0 <= h.0 < m && 0 <= h.1 < rules.len()
            && immediate(rules[h.1], records[h.0]) {
            1nat
        } else {
            0nat
        }),
    decreases m,
{
    if m > 0 {
        lemma_batch_hits_once(rules, records, m - 1, h);
        lemma_record_hits_once(rules, records[m - 1], m - 1, rules.len() as int, h);
        lemma_occurrences_add(
            batch_hits(rules, records, m - 1),
            record_hits(rules, records[m - 1], m - 1, rules.len() as int),
            h,
        );
    }
}

/// A record and a rule without an aggregation clause give exactly one
/// finding when the rule matches the record, and none when it does not:
/// the pair of record `i` and rule `j` stands once among the pairs that
/// the findings of a batch are made for, or not at all.
pub proof fn lemma_one_finding_per_match(
    rules: Seq<Rule>,
    records: Seq<EnrichedRecord>,
    i: int,
    j: int,
)
    requires
        0 <= i < records.len(),
        0 <= j < rules.len(),
    ensures
        occurrences(batch_hits(rules, records, records.len() as int), (i, j)) == (if immediate(
            rules[j],
            records[i],
        ) {
            1nat
        } else {
            0nat
        }),
{
    lemma_batch_hits_once(rules, records, records.len() as int, (i, j));
}

/// A match of a rule with an aggregation clause is never a finding by
/// itself: no pair with such a rule stands among the pairs that the
/// findings of a batch are made for.
pub proof fn lemma_aggregated_match_is_no_finding(
    rules: Seq<Rule>,
    records: Seq<EnrichedRecord>,
    i: int,
    j: int,
)
    requires
        0 <= i < records.len(),
        0 <= j < rules.len(),
        rules[j].aggregation is Some,
    ensures
        occurrences(batch_hits(rules, records, records.len() as int), (i, j)) == 0,
{
    lemma_batch_hits_once(rules, records, records.len() as int, (i, j));
}

/// Whether every bucket belongs to a rule of the corpus that has an
/// aggregation clause, and has the window of that clause.
pub open spec fn agrees(state: Seq<BucketView>, rules: Seq<Rule>) -> bool {
    forall|k: int|
        0 <= k < state.len() ==> {
            &&& (#[trigger] state[k]).rule < rules.len()
            &&& rules[state[k].rule as int].aggregation is Some
            &&& state[k].window == rules[state[k].rule as int].aggregation->0.window
        }
}

/// Feeding a match of a rule of the corpus under its own clause leaves the
/// buckets in agreement with the corpus.
pub proof fn lemma_fed_keeps_agreement(
    state: Seq<BucketView>,
    alignment: WindowAlignment,
    rules: Seq<Rule>,
    rule: usize,
    group: Option<Seq<char>>,
    value: Option<Seq<char>>,
    time: i64,
)
    requires
        agrees(state, rules),
        rule < rules.len(),
        rules[rule as int].aggregation is Some,
    ensures
        agrees(fed(state, alignment, rule, rules[rule as int].aggregation->0, group, value, time), rules),
        windowed_as(state, rule, rules[rule as int].aggregation->0.window),
{
    lemma_first_taker(state, rule, group, time, 0);
}

fn copy_text(found: Option<&String>) -> (r: Option<String>)
    ensures
        match found {
            Some(t) => r matches Some(own) && own@ == t@,
            None => r is None,
        },
{
    match found {
        Some(t) => Some(t.clone()),
        None => None,
    }
}

/// The engine: the rule corpus and the accumulator of the run.
pub struct Detection {
    rules: Vec<Rule>,
    accumulator: Accumulator,
}

impl Detection {
    /// The rule corpus.
    pub closed spec fn rules(self) -> Seq<Rule> {
        self.rules@
    }

    /// The buckets of the accumulator.
    pub closed spec fn buckets(self) -> Seq<BucketView> {
        self.accumulator@
    }

    /// Where the windows of the accumulator begin.
    pub closed spec fn alignment(self) -> WindowAlignment {
        self.accumulator.alignment()
    }

    /// Every bucket belongs to a rule of the corpus and has the window of
    /// its clause, and no two buckets of one rule and one group begin at
    /// the same time.
    #[verifier::type_invariant]
    spec fn buckets_in_order(self) -> bool {
        agrees(self.accumulator@, self.rules@) && apart(self.accumulator@)
    }

    /// An engine for the corpus `rules`. An empty corpus is refused: a run
    /// without rules would report nothing and look like a clean result.
    pub fn new(rules: Vec<Rule>, alignment: WindowAlignment) -> (r: Result<
        Detection,
        DetectionError,
    >)
        ensures
            match r {
                Ok(engine) => {
                    &&& rules@.len() > 0
                    &&& engine.rules() == rules@
                    &&& engine.buckets() == Seq::<BucketView>::empty()
                    &&& engine.alignment() == alignment
                },
                Err(e) => rules@.len() == 0 && e == DetectionError::EmptyCorpus,
            },
    {
        if rules.len() == 0 {
            return Err(DetectionError::EmptyCorpus);
        }
        Ok(Detection { rules, accumulator: Accumulator::new(alignment) })
    }

    /// The rule corpus.
    pub fn corpus(&self) -> (rules: &Vec<Rule>)
        ensures
            rules@ == self.rules(),
    {
        &self.rules
    }

    /// How many buckets the accumulator holds.
    pub fn open_buckets(&self) -> (n: usize)
        ensures
            n == self.buckets().len(),
    {
        self.accumulator.open_buckets()
    }

    /// Evaluates a batch. The findings are those of the matches of rules
    /// without an aggregation clause, record by record and for each record
    /// rule by rule. The matches of the other rules are fed to the
    /// accumulator in the same order.
    pub fn start(&mut self, records: &Vec<EnrichedRecord>) -> (out: Vec<Finding>)
        ensures
            final(self).rules() == old(self).rules(),
            final(self).alignment() == old(self).alignment(),
            finding_views(out@) == findings_of(
                old(self).rules(),
                records@,
                batch_hits(old(self).rules(), records@, records@.len() as int),
            ),
            final(self).buckets() == batch_fed(
                old(self).buckets(),
                old(self).alignment(),
                old(self).rules(),
                records@,
                records@.len() as int,
            ),
    {
        proof {
            use_type_invariant(&*self);
        }
        let ghost rules = self.rules@;
        let ghost state = self.accumulator@;
        let ghost alignment = self.accumulator.alignment();
        let mut acc = Accumulator::new(WindowAlignment::FirstMatch);
        core::mem::swap(&mut self.accumulator, &mut acc);
        let mut out: Vec<Finding> = Vec::new();
        assert(finding_views(out@) =~= findings_of(rules, records@, batch_hits(rules, records@, 0)));
        let mut m: usize = 0;
        while m < records.len()
            invariant
                m <= records@.len(),
                self.rules@ == rules,
                acc.alignment() == alignment,
                self.accumulator@ == Seq::<BucketView>::empty(),
                finding_views(out@) == findings_of(
                    rules,
                    records@,
                    batch_hits(rules, records@, m as int),
                ),
                acc@ == batch_fed(state, alignment, rules, records@, m as int),
                agrees(acc@, rules),
                apart(acc@),
            decreases records@.len() - m,
        {
            let rec = &records[m];
            let ghost done = batch_hits(rules, records@, m as int);
            let ghost held = batch_fed(state, alignment, rules, records@, m as int);
            assert(done + record_hits(rules, *rec, m as int, 0) =~= done);
            let mut n: usize = 0;
            while n < self.rules.len()
                invariant
                    n <= rules.len(),
                    m < records@.len(),
                    *rec == records@[m as int],
                    self.rules@ == rules,
                    acc.alignment() == alignment,
                    self.accumulator@ == Seq::<BucketView>::empty(),
                    finding_views(out@) == findings_of(
                        rules,
                        records@,
                        done + record_hits(rules, *rec, m as int, n as int),
                    ),
                    acc@ == record_fed(held, alignment, rules, *rec, n as int),
                    agrees(acc@, rules),
                    apart(acc@),
                decreases rules.len() - n,
            {
                let rule = &self.rules[n];
                let ghost hits = done + record_hits(rules, *rec, m as int, n as int);
                if rule.applies(rec) {
                    match &rule.aggregation {
                        None => {
                            let finding = Finding {
                                rule_id: rule.id.clone(),
                                title: rule.title.clone(),
                                level: rule.level,
                                timestamp: rec.timestamp,
                                source: FindingSource::Record {
                                    origin: rec.origin.clone(),
                                    position: rec.position,
                                },
                            };
                            let ghost was = out@;
                            out.push(finding);
                            proof {
                                let pair = (m as int, n as int);
                                assert(finding@ == record_finding(rules[pair.1], records@[pair.0]));
                                assert(done + record_hits(rules, *rec, m as int, n + 1) =~= hits.push(
                                    pair,
                                ));
                                assert(finding_views(out@) =~= finding_views(was).push(finding@));
                                assert(findings_of(rules, records@, hits.push(pair)) =~= findings_of(
                                    rules,
                                    records@,
                                    hits,
                                ).push(record_finding(rules[pair.1], records@[pair.0])));
                            }
                        },
                        Some(clause) => {
                            let group = match &clause.group_by {
                                Some(field) => copy_text(rec.field(field.as_str())),
                                None => None,
                            };
                            let value = match &clause.mode {
                                CountMode::Distinct(field) => copy_text(rec.field(field.as_str())),
                                CountMode::Matches => None,
                            };
                            proof {
                                assert(*clause == rules[n as int].aggregation->0);
                                lemma_fed_keeps_agreement(
                                    acc@,
                                    alignment,
                                    rules,
                                    n,
                                    text_opt(group),
                                    text_opt(value),
                                    rec.timestamp,
                                );
                                lemma_fed_keeps_apart(
                                    acc@,
                                    alignment,
                                    n,
                                    *clause,
                                    text_opt(group),
                                    text_opt(value),
                                    rec.timestamp,
                                );
                            }
                            acc.feed(n, clause, group, value, rec.timestamp);
                        },
                    }
                }
                n += 1;
            }
            m += 1;
        }
        self.accumulator = acc;
        out
    }

    /// Ends the run: closes every bucket of the accumulator and gives, for
    /// each whose count satisfies its threshold, one finding under the rule
    /// of the bucket, in the order in which the buckets were opened. No two
    /// of the findings are for the same rule, group and beginning of a
    /// window.
    pub fn flush(&mut self) -> (out: Vec<Finding>)
        ensures
            summaries_apart(flushed(old(self).buckets(), old(self).buckets().len() as int)),
            final(self).rules() == old(self).rules(),
            final(self).alignment() == old(self).alignment(),
            final(self).buckets() == Seq::<BucketView>::empty(),
            finding_views(out@) == group_findings(
                old(self).rules(),
                flushed(old(self).buckets(), old(self).buckets().len() as int),
            ),
            out@.len() <= old(self).buckets().len(),
    {
        proof {
            use_type_invariant(&*self);
        }
        let ghost rules = self.rules@;
        let ghost state = self.accumulator@;
        let mut acc = Accumulator::new(WindowAlignment::FirstMatch);
        core::mem::swap(&mut self.accumulator, &mut acc);
        let summaries = acc.flush();
        self.accumulator = acc;
        let ghost all = summaries@;
        let ghost views = summary_views(all);
        proof {
            lemma_flushed_keeps_rules(state, state.len() as int, rules.len() as int);
            lemma_flushed_apart(state, state.len() as int);
        }
        let mut out: Vec<Finding> = Vec::new();
        assert(finding_views(out@) =~= group_findings(rules, views.take(0)));
        for summary in it: summaries
            invariant
                it.seq() == all,
                views == summary_views(all),
                self.rules@ == rules,
                forall|k: int| 0 <= k < views.len() ==> (#[trigger] views[k]).rule < rules.len(),
                out@.len() == it.index(),
                finding_views(out@) == group_findings(rules, views.take(it.index() as int)),
        {
            let ghost at = it.index() as int;
            assert(views[at] == summary@);
            let rule = &self.rules[summary.rule];
            let finding = Finding {
                rule_id: rule.id.clone(),
                title: rule.title.clone(),
                level: rule.level,
                timestamp: summary.start,
                source: FindingSource::Group {
                    group: summary.group,
                    count: summary.count,
                    start: summary.start,
                    end: summary.end,
                },
            };
            let ghost was = out@;
            out.push(finding);
            proof {
                assert(finding@ == group_finding(rules[views[at].rule as int], views[at]));
                assert(views.take(at + 1) =~= views.take(at).push(views[at]));
                assert(finding_views(out@) =~= finding_views(was).push(finding@));
                assert(group_findings(rules, views.take(at).push(views[at])) =~= group_findings(
                    rules,
                    views.take(at),
                ).push(group_finding(rules[views[at].rule as int], views[at])));
            }
        }
        assert(views.take(all.len() as int) =~= views);
        out
    }
}

} // verus!
