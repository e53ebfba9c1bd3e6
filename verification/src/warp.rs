//! Reductions inside a warp: lanes exchange values over halving distances, until every lane has
//! combined all of them.

use crate::arith;
use crate::binary32;
use crate::binary32::F32;
use vstd::prelude::*;

verus! {

/// Lanes in a warp.
pub const LANES: usize = 32;

/// What a reduction combines its values with.
#[derive(Clone, Copy, Debug, PartialEq, Eq, Structural)]
pub enum Reduction {
    Max,
    Sum,
}

/// A lane's own value combined with the one that it received.
pub open spec fn combined(op: Reduction, own: F32, received: F32) -> F32 {
    match op {
        Reduction::Max => binary32::larger(own, received),
        Reduction::Sum => arith::sum(own, received),
    }
}

/// The lane that exchanges with `lane` over `distance`.
pub open spec fn partner(lane: int, distance: int) -> int {
    if (lane / distance) % 2 == 0 {
        lane + distance
    } else {
        lane - distance
    }
}

/// The values of all lanes after one exchange.
pub open spec fn exchanged(op: Reduction, v: Seq<F32>, distance: int) -> Seq<F32> {
    Seq::new(v.len(), |lane: int| combined(op, v[lane], v[partner(lane, distance)]))
}

/// The values of all lanes after the exchanges over 16, 8, 4, 2 and 1 lanes.
pub open spec fn reduced(op: Reduction, v: Seq<F32>) -> Seq<F32> {
    let a = exchanged(op, v, 16);
    let b = exchanged(op, a, 8);
    let c = exchanged(op, b, 4);
    let d = exchanged(op, c, 2);
    exchanged(op, d, 1)
}

/// The lanes of a warp exchange in pairs.
pub proof fn lemma_partner(lane: int, distance: int)
    requires
        0 <= lane < LANES,
        distance == 16 || distance == 8 || distance == 4 || distance == 2 || distance == 1,
    ensures
        0 <= partner(lane, distance) < LANES,
        partner(partner(lane, distance), distance) == lane,
        partner(lane, distance) != lane,
{
    if distance == 16 {
        assert(partner(lane, 16) == if (lane / 16) % 2 == 0 { lane + 16 } else { lane - 16 });
    } else if distance == 8 {
        assert(partner(lane, 8) == if (lane / 8) % 2 == 0 { lane + 8 } else { lane - 8 });
    } else if distance == 4 {
        assert(partner(lane, 4) == if (lane / 4) % 2 == 0 { lane + 4 } else { lane - 4 });
    } else if distance == 2 {
        assert(partner(lane, 2) == if (lane / 2) % 2 == 0 { lane + 2 } else { lane - 2 });
    } else {
        assert(partner(lane, 1) == if lane % 2 == 0 { lane + 1 } else { lane - 1 });
    }
}

fn combine(op: Reduction, own: F32, received: F32) -> (r: F32)
    ensures
        r == combined(op, own, received),
{
    match op {
        Reduction::Max => own.max(received),
        Reduction::Sum => own.add(received),
    }
}

/// One exchange: every lane combines its value with its partner's.
fn exchange(op: Reduction, v: &Vec<F32>, distance: usize) -> (r: Vec<F32>)
    requires
        v.len() == LANES,
        distance == 16 || distance == 8 || distance == 4 || distance == 2 || distance == 1,
    ensures
        r@ == exchanged(op, v@, distance as int),
{
    let mut r: Vec<F32> = Vec::with_capacity(LANES);
    let mut lane: usize = 0;
    while lane < LANES
        invariant
            v.len() == LANES,
            distance == 16 || distance == 8 || distance == 4 || distance == 2 || distance == 1,
            lane <= LANES,
            r@ == exchanged(op, v@, distance as int).take(lane as int),
        decreases LANES - lane,
    {
        proof {
            lemma_partner(lane as int, distance as int);
        }
        let other: usize = if (lane / distance) % 2 == 0 {
            lane + distance
        } else {
            lane - distance
        };
        r.push(combine(op, v[lane], v[other]));
        lane = lane + 1;
        assert(exchanged(op, v@, distance as int).take(lane as int) =~= exchanged(
            op,
            v@,
            distance as int,
        ).take(lane - 1).push(r@[lane - 1]));
    }
    r
}

/// Reduces the values of a warp; every lane gets the result.
pub fn reduce(op: Reduction, v: &Vec<F32>) -> (r: Vec<F32>)
    requires
        v.len() == LANES,
    ensures
        r@ == reduced(op, v@),
        r.len() == LANES,
{
    let a = exchange(op, v, 16);
    let b = exchange(op, &a, 8);
    let c = exchange(op, &b, 4);
    let d = exchange(op, &c, 2);
    exchange(op, &d, 1)
}

} // verus!
