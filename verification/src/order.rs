//! Putting enriched records back in the order of their batch. Enrichment
//! may finish in any order; each enriched record carries its position in
//! the batch, and that alone decides where it goes.

use vstd::prelude::*;
use crate::enrich::EnrichedRecord;

verus! {

/// Whether one of the first `n` of `done` has the position `place`.
pub open spec fn holds_place(done: Seq<EnrichedRecord>, place: int, n: int) -> bool {
    exists|k: int| 0 <= k < n && k < done.len() && (#[trigger] done[k]).position == place
}

/// Whether the positions of `done` are those of one whole batch: each is a
/// place of the batch, no two are the same, and no place is left out.
pub open spec fn is_arrangement(done: Seq<EnrichedRecord>) -> bool {
    &&& forall|k: int| 0 <= k < done.len() ==> (#[trigger] done[k]).position < done.len()
    &&& forall|k: int, l: int|
        0 <= k < l < done.len() ==> (#[trigger] done[k]).position != (#[trigger] done[l]).position
    &&& forall|place: int|
        0 <= place < done.len() ==> #[trigger] holds_place(done, place, done.len() as int)
}

fn empty_slots(n: usize) -> (slots: Vec<Option<EnrichedRecord>>)
    ensures
        slots@.len() == n,
        forall|i: int| 0 <= i < n ==> slots@[i] is None,
{
    let mut slots: Vec<Option<EnrichedRecord>> = Vec::new();
    while slots.len() < n
        invariant
            slots@.len() <= n,
            forall|i: int| 0 <= i < slots@.len() ==> slots@[i] is None,
        decreases n - slots@.len(),
    {
        slots.push(None);
    }
    slots
}

/// Puts the enriched records of a batch, given in the order in which their
/// enrichment finished, back in the order of the batch.
///
/// `None` when the positions are not those of one whole batch; then a
/// record was lost or doubled on the way, and the batch cannot be used.
pub fn collect_in_order(done: Vec<EnrichedRecord>) -> (r: Option<Vec<EnrichedRecord>>)
    ensures
        r is Some == is_arrangement(done@),
        r matches Some(ordered) ==> {
            &&& ordered@.len() == done@.len()
            &&& forall|k: int|
                0 <= k < done@.len() ==> ordered@[(#[trigger] done@[k]).position as int] == done@[k]
        },
{
    let n: usize = done.len();
    let mut slots = empty_slots(n);
    let ghost all = done@;
    for e in it: done
        invariant
            it.seq() == all,
            n == all.len(),
            slots@.len() == n,
            forall|k: int|
                0 <= k < it.index() ==> (#[trigger] all[k]).position < n && slots@[all[k].position as int]
                    == Some(all[k]),
            forall|place: int|
                0 <= place < n && (#[trigger] slots@[place]) is Some ==> holds_place(
                    all,
                    place,
                    it.index() as int,
                ),
            forall|k: int, l: int|
                0 <= k < l < it.index() ==> (#[trigger] all[k]).position != (#[trigger] all[l]).position,
    {
        let ghost at = it.index() as int;
        let place: usize = e.position;
        if place >= n {
            assert(!(all[at].position < all.len()));
            return None;
        }
        if slots[place].is_some() {
            proof {
                assert(holds_place(all, place as int, at));
                let k = choose|k: int| 0 <= k < at && k < all.len() && (#[trigger] all[k]).position == place;
                assert(all[k].position == all[at].position);
            }
            return None;
        }
        let ghost before = slots@;
        slots.set(place, Some(e));
        proof {
            assert forall|p: int| 0 <= p < n && (#[trigger] slots@[p]) is Some implies holds_place(
                all,
                p,
                at + 1,
            ) by {
                if p == place {
                    assert(all[at].position == p);
                } else {
                    assert(before[p] is Some);
                    assert(holds_place(all, p, at));
                    let k = choose|k: int| 0 <= k < at && k < all.len() && (#[trigger] all[k]).position == p;
                    assert(0 <= k < at + 1 && all[k].position == p);
                }
            }
            assert forall|k: int, l: int| 0 <= k < l < at + 1 implies (#[trigger] all[k]).position != (
            #[trigger] all[l]).position by {
                if l == at {
                    assert(before[all[k].position as int] == Some(all[k]));
                }
            }
        }
    }
    let mut ordered: Vec<EnrichedRecord> = Vec::new();
    let ghost filled = slots@;
    for slot in it: slots
        invariant
            it.seq() == filled,
            all == done@,
            filled.len() == n,
            n == all.len(),
            ordered@.len() == it.index(),
            forall|i: int| 0 <= i < it.index() ==> filled[i] == Some(#[trigger] ordered@[i]),
            forall|k: int|
                0 <= k < all.len() ==> (#[trigger] all[k]).position < n && filled[all[k].position as int]
                    == Some(all[k]),
            forall|place: int|
                0 <= place < n && (#[trigger] filled[place]) is Some ==> holds_place(
                    all,
                    place,
                    all.len() as int,
                ),
            forall|k: int, l: int|
                0 <= k < l < all.len() ==> (#[trigger] all[k]).position != (#[trigger] all[l]).position,
    {
        let ghost place = it.index() as int;
        match slot {
            Some(e) => {
                ordered.push(e);
            },
            None => {
                proof {
                    if holds_place(all, place, all.len() as int) {
                        let k = choose|k: int|
                            0 <= k < all.len() && k < all.len() && (#[trigger] all[k]).position == place;
                        assert(filled[all[k].position as int] == Some(all[k]));
                    }
                }
                return None;
            },
        }
    }
    proof {
        assert forall|place: int| 0 <= place < all.len() implies #[trigger] holds_place(
            all,
            place,
            all.len() as int,
        ) by {
            assert(filled[place] == Some(ordered@[place]));
        }
    }
    Some(ordered)
}

/// Whether the order `finished` names the place `place`.
pub open spec fn names_place(finished: Seq<int>, place: int) -> bool {
    exists|k: int| 0 <= k < finished.len() && #[trigger] finished[k] == place
}

/// Whatever the order in which the enrichments of a batch finish, putting
/// them in order gives the batch as it was submitted.
///
/// `batch` is the enriched batch in the order of submission, so that each
/// record has its place as its position. `finished` says in which order
/// the enrichments finished: it names every place of the batch once, and
/// `done[k]` is the record of place `finished[k]`. Then `done` is an
/// arrangement, and the one list that has every record of `done` at its
/// position is `batch`.
pub proof fn lemma_order_restored(
    batch: Seq<EnrichedRecord>,
    finished: Seq<int>,
    done: Seq<EnrichedRecord>,
    ordered: Seq<EnrichedRecord>,
)
    requires
        forall|i: int| 0 <= i < batch.len() ==> (#[trigger] batch[i]).position == i,
        finished.len() == batch.len(),
        done.len() == batch.len(),
        forall|k: int| 0 <= k < finished.len() ==> 0 <= #[trigger] finished[k] < batch.len(),
        forall|k: int, l: int|
            0 <= k < l < finished.len() ==> #[trigger] finished[k] != #[trigger] finished[l],
        forall|i: int| 0 <= i < batch.len() ==> #[trigger] names_place(finished, i),
        forall|k: int| 0 <= k < done.len() ==> #[trigger] done[k] == batch[finished[k]],
        ordered.len() == done.len(),
        forall|k: int|
            0 <= k < done.len() ==> ordered[(#[trigger] done[k]).position as int] == done[k],
    ensures
        is_arrangement(done),
        ordered == batch,
{
    assert forall|k: int| 0 <= k < done.len() implies (#[trigger] done[k]).position
        == finished[k] by {
        assert(done[k] == batch[finished[k]]);
    }
    assert forall|place: int| 0 <= place < done.len() implies #[trigger] holds_place(
        done,
        place,
        done.len() as int,
    ) by {
        assert(names_place(finished, place));
        let k = choose|k: int| 0 <= k < finished.len() && #[trigger] finished[k] == place;
        assert(done[k].position == place);
    }
    assert forall|i: int| 0 <= i < batch.len() implies ordered[i] == batch[i] by {
        assert(names_place(finished, i));
        let k = choose|k: int| 0 <= k < finished.len() && #[trigger] finished[k] == i;
        assert(done[k].position == i);
        assert(ordered[done[k].position as int] == done[k]);
    }
    assert(ordered =~= batch);
}

} // verus!
