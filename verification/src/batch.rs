//! The batching driver: it takes what a record source yields, one item at a
//! time, and says after each item what to do next. Records are handed on in
//! batches that never hold more than the limit of the run, so that memory
//! stays bounded however long the source is.

use vstd::prelude::*;
use vstd::string::*;
use vstd::arithmetic::div_mod::lemma_fundamental_div_mod_converse;
use vstd::arithmetic::mul::{lemma_mul_inequality, lemma_mul_is_distributive_add_other_way};
use crate::context::{passes, Context};
use crate::record::Value;

verus! {

/// What a record source yields when it is asked for the next item.
#[derive(Debug, PartialEq, Eq)]
pub enum SourceEvent {
    /// A decoded record.
    Record(Value),
    /// A record that could not be decoded, with the decoder's message.
    Failure(String),
    /// The source has nothing more.
    Exhausted,
}

/// What the driver wants done after an item.
#[derive(Debug, PartialEq, Eq)]
pub enum DriverAction {
    /// Ask the source for the next item.
    Pull,
    /// Process this batch, then ask the source for the next item.
    Dispatch(Vec<Value>),
    /// The container is done.
    Finish,
}

/// The entry of the error log for a record of `origin` that failed to
/// decode with the message `error`.
pub open spec fn failure_entry(origin: Seq<char>, error: Seq<char>) -> Seq<char> {
    "[ERROR] Failed to parse event file. EventFile:"@ + origin + " Error:"@ + error
}

/// Writes the entry of the error log for a record that failed to decode.
pub fn failure_message(origin: &str, error: &str) -> (entry: String)
    ensures
        entry@ == failure_entry(origin@, error@),
{
    let mut entry = "[ERROR] Failed to parse event file. EventFile:".to_owned();
    entry.append(origin);
    entry.append(" Error:");
    entry.append(error);
    entry
}

/// The state of the driver for one container: the records gathered for the
/// batch in the making, and the error log of the container so far.
pub struct BatchDriver {
    origin: String,
    limit: usize,
    pending: Vec<Value>,
    errors: Vec<String>,
}

impl BatchDriver {
    /// The container that the driver reads.
    pub closed spec fn origin(self) -> Seq<char> {
        self.origin@
    }

    /// The records gathered for the batch in the making.
    pub closed spec fn pending(self) -> Seq<Value> {
        self.pending@
    }

    /// The error log of the container so far.
    pub closed spec fn errors(self) -> Seq<String> {
        self.errors@
    }

    /// The largest number of records in one batch.
    pub closed spec fn limit(self) -> int {
        self.limit as int
    }

    /// The batch in the making is never full: a full one is handed on at
    /// once.
    #[verifier::type_invariant]
    spec fn never_full(self) -> bool {
        self.pending@.len() < self.limit
    }

    /// A driver for the container `origin`, with nothing gathered yet.
    pub fn new(ctx: &Context, origin: &str) -> (driver: BatchDriver)
        ensures
            driver.origin() == origin@,
            driver.limit() == ctx.batch_limit(),
            driver.pending() == Seq::<Value>::empty(),
            driver.errors() == Seq::<String>::empty(),
    {
        let limit: usize = if ctx.max_batch == 0 { 1 } else { ctx.max_batch };
        BatchDriver { origin: origin.to_owned(), limit, pending: Vec::new(), errors: Vec::new() }
    }

    /// Takes one item of the source and says what to do next.
    ///
    /// A record that passes the allow-set joins the batch in the making;
    /// when that fills the batch, the batch is handed on. A record that
    /// does not pass is dropped. A failure is noted in the error log,
    /// unless the run keeps such failures quiet, and reading goes on. When
    /// the source is exhausted, what has been gathered is handed on; with
    /// nothing gathered the container is done.
    pub fn step(&mut self, ctx: &Context, event: SourceEvent) -> (action: DriverAction)
        ensures
            final(self).origin() == old(self).origin(),
            final(self).limit() == old(self).limit(),
            match event {
                SourceEvent::Record(record) => {
                    &&& final(self).errors() == old(self).errors()
                    &&& if !passes(ctx.target_event_ids, ctx.event_id_key@, record) {
                        &&& action is Pull
                        &&& final(self).pending() == old(self).pending()
                    } else if old(self).pending().len() + 1 < old(self).limit() {
                        &&& action is Pull
                        &&& final(self).pending() == old(self).pending().push(record)
                    } else {
                        &&& action matches DriverAction::Dispatch(batch)
                        &&& batch@ == old(self).pending().push(record)
                        &&& final(self).pending() == Seq::<Value>::empty()
                    }
                },
                SourceEvent::Failure(error) => {
                    &&& action is Pull
                    &&& final(self).pending() == old(self).pending()
                    &&& if ctx.quiet_errors {
                        final(self).errors() == old(self).errors()
                    } else {
                        &&& final(self).errors().len() == old(self).errors().len() + 1
                        &&& final(self).errors().drop_last() == old(self).errors()
                        &&& final(self).errors().last()@ == failure_entry(old(self).origin(), error@)
                    }
                },
                SourceEvent::Exhausted => {
                    &&& final(self).errors() == old(self).errors()
                    &&& final(self).pending() == Seq::<Value>::empty()
                    &&& if old(self).pending().len() == 0 {
                        action is Finish
                    } else {
                        action matches DriverAction::Dispatch(batch) && batch@ == old(self).pending()
                    }
                },
            },
    {
        proof {
            use_type_invariant(&*self);
        }
        match event {
            SourceEvent::Record(record) => {
                if !ctx.is_target_event_id(&record) {
                    return DriverAction::Pull;
                }
                let mut batch: Vec<Value> = Vec::new();
                core::mem::swap(&mut self.pending, &mut batch);
                batch.push(record);
                if batch.len() < self.limit {
                    self.pending = batch;
                    DriverAction::Pull
                } else {
                    DriverAction::Dispatch(batch)
                }
            },
            SourceEvent::Failure(error) => {
                if !ctx.quiet_errors {
                    let entry = failure_message(self.origin.as_str(), error.as_str());
                    let ghost before = self.errors@;
                    let mut log: Vec<String> = Vec::new();
                    core::mem::swap(&mut self.errors, &mut log);
                    log.push(entry);
                    self.errors = log;
                    assert(self.errors@.drop_last() =~= before);
                }
                DriverAction::Pull
            },
            SourceEvent::Exhausted => {
                if self.pending.len() == 0 {
                    DriverAction::Finish
                } else {
                    let mut batch: Vec<Value> = Vec::new();
                    core::mem::swap(&mut self.pending, &mut batch);
                    DriverAction::Dispatch(batch)
                }
            },
        }
    }

    /// How many records the batch in the making holds: always fewer than
    /// a batch may hold.
    pub fn gathered(&self) -> (n: usize)
        ensures
            n == self.pending().len(),
            n < self.limit(),
    {
        proof {
            use_type_invariant(self);
        }
        self.pending.len()
    }

    /// Ends the driver and hands out the error log of its container.
    pub fn into_errors(self) -> (errors: Vec<String>)
        ensures
            errors@ == self.errors(),
    {
        self.errors
    }
}

/// What a finite source yields before it is exhausted: decoded records and
/// the messages of those that failed to decode.
pub type SourceItem = Result<Value, String>;

/// The records among the first `n` items that pass the allow-set, in the
/// order of the source.
pub open spec fn accepted(ctx: Context, items: Seq<SourceItem>, n: int) -> Seq<Value>
    decreases n,
{
    if n <= 0 {
        Seq::<Value>::empty()
    } else {
        let before = accepted(ctx, items, n - 1);
        match items[n - 1] {
            Ok(record) => if passes(ctx.target_event_ids, ctx.event_id_key@, record) {
                before.push(record)
            } else {
                before
            },
            Err(_) => before,
        }
    }
}

/// The entries that the first `n` items leave in the error log of the
/// container `origin`.
pub open spec fn failures(ctx: Context, origin: Seq<char>, items: Seq<SourceItem>, n: int) -> Seq<
    Seq<char>,
>
    decreases n,
{
    if n <= 0 {
        Seq::<Seq<char>>::empty()
    } else {
        let before = failures(ctx, origin, items, n - 1);
        match items[n - 1] {
            Ok(_) => before,
            Err(error) => if ctx.quiet_errors {
                before
            } else {
                before.push(failure_entry(origin, error@))
            },
        }
    }
}

/// How many batches `n` records make when a batch holds `limit` at most.
pub open spec fn chunk_count(n: int, limit: int) -> int {
    if n % limit == 0 {
        n / limit
    } else {
        n / limit + 1
    }
}

/// Batch number `i` of `records`: the records from place `i * limit` up to
/// place `(i + 1) * limit`, or up to the last one where there are fewer.
pub open spec fn chunk(records: Seq<Value>, limit: int, i: int) -> Seq<Value> {
    let end = if (i + 1) * limit <= records.len() {
        (i + 1) * limit
    } else {
        records.len() as int
    };
    records.subrange(i * limit, end)
}

/// The batches that `records` make, in order.
pub open spec fn chunks(records: Seq<Value>, limit: int) -> Seq<Seq<Value>> {
    Seq::new(chunk_count(records.len() as int, limit) as nat, |i: int| chunk(records, limit, i))
}

/// The records of each batch of a list of batches.
pub open spec fn batch_views(batches: Seq<Vec<Value>>) -> Seq<Seq<Value>> {
    batches.map_values(|batch: Vec<Value>| batch@)
}

/// `limit * k + r` records with `0 < r < limit` make `k` full batches and
/// then one batch of `r` records.
pub proof fn lemma_full_batches_then_rest(records: Seq<Value>, limit: int, k: int, r: int)
    requires
        limit > 0,
        k >= 0,
        0 < r < limit,
        records.len() == limit * k + r,
    ensures
        chunks(records, limit).len() == k + 1,
        forall|i: int| 0 <= i < k ==> (#[trigger] chunks(records, limit)[i]).len() == limit,
        chunks(records, limit)[k].len() == r,
{
    let n = records.len() as int;
    assert(limit * k == k * limit) by (nonlinear_arith);
    lemma_fundamental_div_mod_converse(n, limit, k, r);
    assert forall|i: int| 0 <= i < k implies (#[trigger] chunks(records, limit)[i]).len()
        == limit by {
        lemma_mul_inequality(i + 1, k, limit);
        lemma_mul_is_distributive_add_other_way(limit, i, 1);
        lemma_mul_inequality(0, i, limit);
    }
    lemma_mul_is_distributive_add_other_way(limit, k, 1);
}

/// No batch is empty and none holds more than the limit.
pub proof fn lemma_batches_bounded(records: Seq<Value>, limit: int)
    requires
        limit > 0,
    ensures
        forall|i: int|
            0 <= i < chunks(records, limit).len() ==> 0 < (#[trigger] chunks(records, limit)[i]).len()
                <= limit,
{
    let n = records.len() as int;
    let q = n / limit;
    let r = n % limit;
    vstd::arithmetic::div_mod::lemma_fundamental_div_mod(n, limit);
    vstd::arithmetic::div_mod::lemma_mod_bound(n, limit);
    assert(limit * q == q * limit) by (nonlinear_arith);
    assert(q >= 0) by {
        vstd::arithmetic::div_mod::lemma_div_pos_is_pos(n, limit);
    }
    assert forall|i: int| 0 <= i < chunks(records, limit).len() implies 0 < (#[trigger] chunks(
        records,
        limit,
    )[i]).len() <= limit by {
        lemma_mul_is_distributive_add_other_way(limit, i, 1);
        lemma_mul_inequality(0, i, limit);
        if i < q {
            lemma_mul_inequality(i + 1, q, limit);
        } else {
            lemma_mul_inequality(q, i, limit);
            lemma_mul_inequality(i, q, limit);
        }
    }
}

/// The batches hold every record once, in the order of the source: record
/// number `j` is in batch `j / limit`, at place `j % limit`.
pub proof fn lemma_batches_keep_order(records: Seq<Value>, limit: int, j: int)
    requires
        limit > 0,
        0 <= j < records.len(),
    ensures
        0 <= j / limit < chunks(records, limit).len(),
        0 <= j % limit < chunks(records, limit)[j / limit].len(),
        chunks(records, limit)[j / limit][j % limit] == records[j],
{
    let n = records.len() as int;
    let q = n / limit;
    let r = n % limit;
    let i = j / limit;
    vstd::arithmetic::div_mod::lemma_fundamental_div_mod(n, limit);
    vstd::arithmetic::div_mod::lemma_mod_bound(n, limit);
    vstd::arithmetic::div_mod::lemma_fundamental_div_mod(j, limit);
    vstd::arithmetic::div_mod::lemma_mod_bound(j, limit);
    vstd::arithmetic::div_mod::lemma_div_pos_is_pos(j, limit);
    vstd::arithmetic::div_mod::lemma_div_pos_is_pos(n, limit);
    assert(limit * q == q * limit) by (nonlinear_arith);
    assert(limit * i == i * limit) by (nonlinear_arith);
    lemma_mul_is_distributive_add_other_way(limit, i, 1);
    if i > q {
        lemma_mul_inequality(q + 1, i, limit);
        lemma_mul_is_distributive_add_other_way(limit, q, 1);
    }
    if i == q {
        assert(r != 0);
    }
}

/// Runs the driver over everything that a finite source yields and gives
/// the batches it hands on, in order, and the error log of the container.
///
/// The batches are the records that pass the allow-set, cut into runs of
/// the batch limit of the run, the last one shorter where the records do
/// not fill it.
pub fn batches_of(ctx: &Context, origin: &str, items: Vec<SourceItem>) -> (r: (
    Vec<Vec<Value>>,
    Vec<String>,
))
    ensures
        batch_views(r.0@) == chunks(
            accepted(*ctx, items@, items@.len() as int),
            ctx.batch_limit(),
        ),
        crate::text::texts(r.1@) == failures(*ctx, origin@, items@, items@.len() as int),
{
    let mut driver = BatchDriver::new(ctx, origin);
    let mut out: Vec<Vec<Value>> = Vec::new();
    let ghost all = items@;
    let ghost limit = ctx.batch_limit();
    for item in it: items
        invariant
            it.seq() == all,
            limit == ctx.batch_limit(),
            driver.limit() == limit,
            driver.origin() == origin@,
            crate::text::texts(driver.errors()) == failures(*ctx, origin@, all, it.index() as int),
            accepted(*ctx, all, it.index() as int).len() == out@.len() * limit
                + driver.pending().len(),
            driver.pending() == accepted(*ctx, all, it.index() as int).subrange(
                out@.len() * limit,
                accepted(*ctx, all, it.index() as int).len() as int,
            ),
            forall|k: int|
                0 <= k < out@.len() ==> (#[trigger] out@[k])@ == accepted(
                    *ctx,
                    all,
                    it.index() as int,
                ).subrange(k * limit, (k + 1) * limit),
    {
        let ghost n = it.index() as int;
        let ghost before = accepted(*ctx, all, n);
        let ghost after = accepted(*ctx, all, n + 1);
        let ghost done = out@;
        let ghost held = driver.pending();
        let ghost log = driver.errors();
        proof {
            use_type_invariant(&driver);
            assert(before.len() <= after.len());
            assert(after.subrange(0, before.len() as int) =~= before);
            assert forall|k: int| 0 <= k < done.len() implies (#[trigger] done[k])@
                == after.subrange(k * limit, (k + 1) * limit) by {
                lemma_mul_inequality(k + 1, done.len() as int, limit);
                lemma_mul_inequality(0, k, limit);
                lemma_mul_inequality(k, k + 1, limit);
                assert(0 <= k * limit <= (k + 1) * limit <= before.len());
                assert(forall|x: int| 0 <= x < before.len() ==> before[x] == after[x]);
                assert(before.subrange(k * limit, (k + 1) * limit) =~= after.subrange(
                    k * limit,
                    (k + 1) * limit,
                ));
            }
            lemma_mul_is_distributive_add_other_way(limit, done.len() as int, 1);
        }
        let ghost seen = item;
        let event = match item {
            Ok(record) => SourceEvent::Record(record),
            Err(error) => SourceEvent::Failure(error),
        };
        let action = driver.step(ctx, event);
        proof {
            match seen {
                Ok(_) => {},
                Err(error) => {
                    if !ctx.quiet_errors {
                        let now = driver.errors();
                        assert(now =~= now.drop_last().push(now.last()));
                        assert(crate::text::texts(now) =~= crate::text::texts(log).push(now.last()@));
                    }
                },
            }
        }
        match action {
            DriverAction::Dispatch(batch) => {
                out.push(batch);
                proof {
                    assert(out@[done.len() as int]@ =~= after.subrange(
                        done.len() * limit,
                        (done.len() + 1) * limit,
                    ));
                    assert(driver.pending() =~= after.subrange(
                        out@.len() * limit,
                        after.len() as int,
                    ));
                }
            },
            _ => {
                proof {
                    assert(driver.pending() =~= after.subrange(
                        out@.len() * limit,
                        after.len() as int,
                    ));
                }
            },
        }
    }
    let ghost records = accepted(*ctx, all, all.len() as int);
    let ghost full = out@;
    let ghost rest = driver.pending();
    proof {
        use_type_invariant(&driver);
    }
    let last = driver.step(ctx, SourceEvent::Exhausted);
    match last {
        DriverAction::Dispatch(batch) => {
            out.push(batch);
        },
        _ => {},
    }
    proof {
        let q = full.len() as int;
        let r = rest.len() as int;
        lemma_fundamental_div_mod_converse(records.len() as int, limit, q, r);
        lemma_mul_is_distributive_add_other_way(limit, q, 1);
        let cut = chunks(records, limit);
        assert(batch_views(out@).len() == cut.len());
        assert forall|k: int| 0 <= k < cut.len() implies batch_views(out@)[k] == cut[k] by {
            if k < q {
                lemma_mul_inequality(k + 1, q, limit);
                assert(out@[k] == full[k]);
            } else {
                assert(rest =~= records.subrange(q * limit, records.len() as int));
            }
        }
        assert(batch_views(out@) =~= cut);
    }
    (out, driver.into_errors())
}

} // verus!
