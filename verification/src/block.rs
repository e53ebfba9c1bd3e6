//! Reductions over a block: each warp reduces its own values, its first lane publishes the result
//! in the warp's slot of the shared array, and after a barrier every thread folds the slots.

use crate::binary32::F32;
use crate::binary32::ZERO;
use crate::fold;
use crate::warp;
use crate::warp::Reduction;
use crate::warp::LANES;
use vstd::prelude::*;

verus! {

/// The values that the threads of warp `w` hold.
pub open spec fn lanes_of(values: Seq<F32>, w: int) -> Seq<F32> {
    values.subrange(w * LANES, (w + 1) * LANES)
}

/// The shared array once every warp has published.
pub open spec fn slots(op: Reduction, values: Seq<F32>) -> Seq<F32> {
    Seq::new(
        values.len() / (LANES as nat),
        |w: int| warp::reduced(op, lanes_of(values, w))[0],
    )
}

/// The maximum over the block, as every thread gets it.
pub open spec fn maximum(values: Seq<F32>) -> F32 {
    fold::running_max(slots(Reduction::Max, values), values.len() / (LANES as nat))
}

/// The sum over the block, as every thread gets it.
pub open spec fn total(values: Seq<F32>) -> F32 {
    fold::running_sum(slots(Reduction::Sum, values), values.len() / (LANES as nat))
}

/// The position of a thread in its warp.
pub fn lane_id(tid: usize) -> (r: usize)
    ensures
        r == tid % LANES,
{
    tid % LANES
}

/// The warp that a thread belongs to.
pub fn warp_id(tid: usize) -> (r: usize)
    ensures
        r == tid / LANES,
{
    tid / LANES
}

/// Thread `tid` publishes in this slot: it is the first lane of the slot's warp.
pub open spec fn publishes(tid: int, slot: int) -> bool {
    tid % (LANES as int) == 0 && tid / (LANES as int) == slot
}

/// The shared array after thread `tid` has come to publish.
pub open spec fn published_by(op: Reduction, values: Seq<F32>, tid: int, shared: Seq<F32>) -> Seq<
    F32,
> {
    Seq::new(
        shared.len(),
        |w: int|
            if publishes(tid, w) {
                warp::reduced(op, lanes_of(values, w))[0]
            } else {
                shared[w]
            },
    )
}

/// Thread `tid` writes its warp's reduction into the warp's slot, if it is the warp's first lane.
pub fn publish_one(op: Reduction, values: &Vec<F32>, tid: usize, shared: &mut Vec<F32>)
    requires
        values.len() % LANES == 0,
        old(shared).len() == values.len() / LANES,
        tid < values.len(),
    ensures
        final(shared)@ == published_by(op, values@, tid as int, old(shared)@),
{
    if lane_id(tid) == 0 {
        let w: usize = warp_id(tid);
        let mut lanes: Vec<F32> = Vec::with_capacity(LANES);
        let mut lane: usize = 0;
        while lane < LANES
            invariant
                lane <= LANES,
                tid == w * LANES,
                tid + LANES <= values.len(),
                lanes@ == lanes_of(values@, w as int).take(lane as int),
            decreases LANES - lane,
        {
            lanes.push(values[tid + lane]);
            lane = lane + 1;
            assert(lanes@ =~= lanes_of(values@, w as int).take(lane as int));
        }
        assert(lanes@ =~= lanes_of(values@, w as int));
        let reduced = warp::reduce(op, &lanes);
        shared.set(w, reduced[0]);
    }
    assert(shared@ =~= published_by(op, values@, tid as int, old(shared)@));
}

/// Lets every thread come to publish.
pub fn publish(op: Reduction, values: &Vec<F32>) -> (shared: Vec<F32>)
    requires
        values.len() % LANES == 0,
    ensures
        shared@ == slots(op, values@),
{
    let mut shared: Vec<F32> = vec![F32 { bits: ZERO }; values.len() / LANES];
    let mut tid: usize = 0;
    while tid < values.len()
        invariant
            values.len() % LANES == 0,
            tid <= values.len(),
            shared.len() == slots(op, values@).len(),
            forall|w: int|
                0 <= w < shared.len() && w * LANES < tid ==> shared@[w] == #[trigger] slots(
                    op,
                    values@,
                )[w],
        decreases values.len() - tid,
    {
        let ghost before = shared@;
        publish_one(op, values, tid, &mut shared);
        proof {
            assert forall|w: int| 0 <= w < shared.len() && w * LANES < tid + 1 implies shared@[w]
                == #[trigger] slots(op, values@)[w] by {
                if w * LANES == tid {
                    assert(publishes(tid as int, w));
                }
            }
        }
        tid = tid + 1;
    }
    assert(shared@ =~= slots(op, values@));
    shared
}

/// The maximum of the values that the threads of a block hold.
pub fn reduce_max(values: &Vec<F32>) -> (r: F32)
    requires
        values.len() % LANES == 0,
        values.len() > 0,
    ensures
        r == maximum(values@),
{
    let shared = publish(Reduction::Max, values);
    fold::max_of(&shared)
}

/// The sum of the values that the threads of a block hold.
pub fn reduce_sum(values: &Vec<F32>) -> (r: F32)
    requires
        values.len() % LANES == 0,
    ensures
        r == total(values@),
{
    let shared = publish(Reduction::Sum, values);
    fold::sum_of(&shared)
}

/// Thread `tid` writes a slot between two barriers: the maxima are published in the first stretch,
/// the sums in the third.
pub open spec fn writes(stretch: int, tid: int, slot: int) -> bool {
    (stretch == 0 || stretch == 2) && publishes(tid, slot)
}

/// Thread `tid` reads a slot between two barriers: everyone reads the maxima in the second stretch
/// and the sums in the fourth.
pub open spec fn reads(stretch: int, tid: int, slot: int) -> bool {
    stretch == 1 || stretch == 3
}

/// Between two barriers no thread touches a slot that another one writes.
pub proof fn law_no_race(stretch: int, a: int, b: int, slot: int)
    requires
        a != b,
        writes(stretch, a, slot),
    ensures
        !writes(stretch, b, slot),
        !reads(stretch, b, slot),
{
}

/// Every slot that is read has been written in the stretch before, by one thread of the block.
pub proof fn law_slots_filled(stretch: int, warps: int, slot: int)
    requires
        stretch == 0 || stretch == 2,
        0 <= slot < warps,
    ensures
        0 <= slot * LANES < warps * LANES,
        writes(stretch, slot * LANES, slot),
        forall|tid: int| writes(stretch, tid, slot) ==> tid == slot * LANES,
{
}

/// Without the barrier between reading the maxima and publishing the sums, one thread could write a
/// slot that another has yet to read.
pub proof fn law_barrier_needed(warps: int, slot: int)
    requires
        0 <= slot < warps,
    ensures
        exists|a: int, b: int|
            a != b && 0 <= a < warps * LANES && 0 <= b < warps * LANES && #[trigger] reads(
                1,
                a,
                slot,
            ) && #[trigger] writes(2, b, slot),
{
    assert(reads(1, slot * LANES + 1, slot) && writes(2, slot * LANES, slot));
}

/// The shared array after the first `n` threads of a schedule have come to publish: those that are
/// first in their warp write their warp's slot.
pub open spec fn published(
    op: Reduction,
    values: Seq<F32>,
    before: Seq<F32>,
    schedule: Seq<int>,
    n: nat,
) -> Seq<F32>
    decreases n,
{
    if n == 0 {
        before
    } else {
        published_by(
            op,
            values,
            schedule[n - 1],
            published(op, values, before, schedule, (n - 1) as nat),
        )
    }
}

/// Whatever the slots held before, and in whatever order the threads of a block come to publish, at
/// the barrier the shared array is the same.
pub proof fn law_any_schedule(
    op: Reduction,
    values: Seq<F32>,
    before: Seq<F32>,
    schedule: Seq<int>,
)
    requires
        values.len() % (LANES as nat) == 0,
        before.len() == slots(op, values).len(),
        forall|i: int| 0 <= i < schedule.len() ==> 0 <= #[trigger] schedule[i] < values.len(),
        forall|tid: int| 0 <= tid < values.len() ==> schedule.contains(tid),
    ensures
        published(op, values, before, schedule, schedule.len()) == slots(op, values),
{
    let shared = published(op, values, before, schedule, schedule.len());
    lemma_published(op, values, before, schedule, schedule.len());
    assert forall|w: int| 0 <= w < shared.len() implies shared[w] == slots(op, values)[w] by {
        let tid: int = w * LANES;
        assert(schedule.contains(tid));
        let i = choose|i: int| 0 <= i < schedule.len() && schedule[i] == tid;
        assert(schedule[i] == w * LANES);
    }
    assert(shared =~= slots(op, values));
}

proof fn lemma_published(
    op: Reduction,
    values: Seq<F32>,
    before: Seq<F32>,
    schedule: Seq<int>,
    n: nat,
)
    requires
        values.len() % (LANES as nat) == 0,
        before.len() == slots(op, values).len(),
        n <= schedule.len(),
        forall|i: int| 0 <= i < schedule.len() ==> 0 <= #[trigger] schedule[i] < values.len(),
    ensures
        published(op, values, before, schedule, n).len() == before.len(),
        forall|w: int, i: int|
            0 <= w < before.len() && 0 <= i < n && #[trigger] schedule[i] == w * LANES
                ==> #[trigger] published(op, values, before, schedule, n)[w] == slots(op, values)[w],
    decreases n,
{
    if n > 0 {
        lemma_published(op, values, before, schedule, (n - 1) as nat);
    }
}

} // verus!
