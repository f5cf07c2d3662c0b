//! One run: the settings, the fields that the corpus reads, the statistics
//! and the engine, and what happens to a batch on its way through them.

use vstd::prelude::*;
use crate::accumulator::{flushed, BucketView};
use crate::context::Context;
use crate::detection::{
    batch_fed, batch_hits, finding_views, findings_of, group_findings, Detection, DetectionError,
    Finding, FindingView,
};
use crate::enrich::{enrich_batch, enriches, EnrichedRecord};
use crate::record::Value;
use crate::rule::{get_all_keys, referenced, Rule};
use crate::stats::{batch_sightings, capped, StatCounters};
use crate::text::{lists, texts};

verus! {

/// The state of one run.
pub struct Pipeline {
    /// The settings of the run.
    pub ctx: Context,
    /// The paths of the fields that the corpus reads, each once.
    pub keys: Vec<String>,
    /// The statistics of the run so far.
    pub stats: StatCounters,
    /// The engine.
    pub detection: Detection,
}

impl Pipeline {
    /// Sets up a run over the corpus `rules`. An empty corpus is refused
    /// before any container is read.
    pub fn new(ctx: Context, rules: Vec<Rule>) -> (r: Result<Pipeline, DetectionError>)
        ensures
            match r {
                Ok(run) => {
                    &&& rules@.len() > 0
                    &&& run.ctx == ctx
                    &&& texts(run.keys@).no_duplicates()
                    &&& forall|key: Seq<char>| #[trigger]
                        lists(run.keys@, key) == referenced(rules@, key, rules@.len() as int)
                    &&& forall|field: Seq<char>, value: Seq<char>| #[trigger]
                        run.stats.tally(field, value) == 0
                    &&& run.detection.rules() == rules@
                    &&& run.detection.buckets() == Seq::<BucketView>::empty()
                    &&& run.detection.alignment() == ctx.alignment
                },
                Err(e) => rules@.len() == 0 && e == DetectionError::EmptyCorpus,
            },
    {
        let keys = get_all_keys(&rules);
        match Detection::new(rules, ctx.alignment) {
            Ok(detection) => Ok(Pipeline { ctx, keys, stats: StatCounters::new(), detection }),
            Err(e) => Err(e),
        }
    }

    /// Enriches a batch of the container `origin`, record by record and in
    /// the order of the batch, with the fields that the corpus reads.
    pub fn enrich(&self, origin: &str, batch: Vec<Value>) -> (out: Vec<EnrichedRecord>)
        ensures
            out@.len() == batch@.len(),
            forall|i: int|
                0 <= i < batch@.len() ==> enriches(
                    #[trigger] out@[i],
                    batch@[i],
                    origin@,
                    i,
                    self.keys@,
                    self.ctx.time_key@,
                ),
    {
        enrich_batch(batch, origin, &self.keys, self.ctx.time_key.as_str())
    }

    /// Takes an enriched batch through the run. Every record is counted in
    /// the statistics. Unless the run is for statistics only, the batch is
    /// then evaluated by the engine, and the findings are those of the
    /// engine.
    pub fn process_batch(&mut self, records: &Vec<EnrichedRecord>) -> (out: Vec<Finding>)
        ensures
            final(self).ctx == old(self).ctx,
            final(self).keys == old(self).keys,
            final(self).detection.rules() == old(self).detection.rules(),
            final(self).detection.alignment() == old(self).detection.alignment(),
            forall|f: Seq<char>, v: Seq<char>| #[trigger]
                final(self).stats.tally(f, v) == capped(
                    old(self).stats.tally(f, v) + batch_sightings(
                        old(self).ctx.stat_fields@,
                        records@,
                        f,
                        v,
                        records@.len() as int,
                    ),
                ),
            old(self).ctx.statistics_only ==> {
                &&& out@.len() == 0
                &&& final(self).detection.buckets() == old(self).detection.buckets()
            },
            !old(self).ctx.statistics_only ==> {
                &&& finding_views(out@) == findings_of(
                    old(self).detection.rules(),
                    records@,
                    batch_hits(old(self).detection.rules(), records@, records@.len() as int),
                )
                &&& final(self).detection.buckets() == batch_fed(
                    old(self).detection.buckets(),
                    old(self).detection.alignment(),
                    old(self).detection.rules(),
                    records@,
                    records@.len() as int,
                )
            },
    {
        self.stats.update_all(&self.ctx.stat_fields, records);
        if self.ctx.statistics_only {
            Vec::new()
        } else {
            self.detection.start(records)
        }
    }

    /// Ends the run: the findings of the aggregation clauses, which are
    /// known only now and so come after every finding of a single record.
    pub fn finish(&mut self) -> (out: Vec<Finding>)
        ensures
            final(self).ctx == old(self).ctx,
            final(self).keys == old(self).keys,
            final(self).stats == old(self).stats,
            final(self).detection.rules() == old(self).detection.rules(),
            final(self).detection.buckets() == Seq::<BucketView>::empty(),
            finding_views(out@) == group_findings(
                old(self).detection.rules(),
                flushed(
                    old(self).detection.buckets(),
                    old(self).detection.buckets().len() as int,
                ),
            ),
    {
        self.detection.flush()
    }
}

} // verus!
