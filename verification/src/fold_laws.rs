//! How the reductions grow: what one more number, or one more warp, does to a result.

use crate::arith;
use crate::binary32;
use crate::binary32::F32;
use crate::block;
use crate::fold;
use crate::pairs::Layout;
use crate::reference;
use crate::simt;
use crate::warp;
use crate::warp::Reduction;
use vstd::prelude::*;

verus! {

/// What is folded from the first `n` numbers depends on those alone.
pub proof fn law_prefix(start: F32, s: Seq<F32>, t: Seq<F32>, n: nat)
    requires
        n <= s.len(),
        n <= t.len(),
        forall|i: int| 0 <= i < n ==> s[i] == t[i],
    ensures
        fold::running_sum(s, n) == fold::running_sum(t, n),
        n > 0 ==> fold::running_max(s, n) == fold::running_max(t, n),
        fold::running_larger(start, s, n) == fold::running_larger(start, t, n),
    decreases n,
{
    if n > 0 {
        law_prefix(start, s, t, (n - 1) as nat);
        assert(s[n - 1] == t[n - 1]);
        assert(s[0] == t[0]);
    }
}

/// Nothing adds up to positive zero, and one more number is added to what there was.
pub proof fn law_sum_grows_by_one(s: Seq<F32>, v: F32)
    ensures
        fold::running_sum(Seq::empty(), 0).bits == 0,
        fold::running_sum(s.push(v), s.len() + 1) == arith::sum(fold::running_sum(s, s.len()), v),
{
    law_prefix(v, s, s.push(v), s.len());
}

/// The maximum of one number is that number; one more number takes its place only where it is above.
pub proof fn law_max_grows_by_one(s: Seq<F32>, v: F32)
    ensures
        fold::running_max(seq![v], 1) == v,
        s.len() > 0 ==> fold::running_max(s.push(v), s.len() + 1) == if binary32::above(
            v,
            fold::running_max(s, s.len()),
        ) {
            v
        } else {
            fold::running_max(s, s.len())
        },
{
    law_prefix(v, s, s.push(v), s.len());
}

/// The largest of nothing is what it started from; one more number is compared with what there was.
pub proof fn law_larger_grows_by_one(start: F32, s: Seq<F32>, v: F32)
    ensures
        fold::running_larger(start, Seq::empty(), 0) == start,
        fold::running_larger(start, s.push(v), s.len() + 1) == binary32::larger(
            fold::running_larger(start, s, s.len()),
            v,
        ),
{
    law_prefix(start, s, s.push(v), s.len());
}

/// Reducing by halves: the first half is combined with the second, number by number, until one is
/// left.
pub open spec fn halved(op: Reduction, v: Seq<F32>) -> F32
    decreases v.len(),
{
    if v.len() <= 1 {
        v[0]
    } else {
        let h = v.len() / 2;
        halved(
            op,
            Seq::new(
                h,
                |i: int|
                    match op {
                        Reduction::Max => binary32::larger(v[i], v[i + h]),
                        Reduction::Sum => arith::sum(v[i], v[i + h]),
                    },
            ),
        )
    }
}

/// The first lane of a warp gets what reducing by halves gives.
pub proof fn law_warp_halves(op: Reduction, v: Seq<F32>)
    requires
        v.len() == 32,
    ensures
        warp::reduced(op, v).len() == 32,
        warp::reduced(op, v)[0] == halved(op, v),
{
    let a = warp::exchanged(op, v, 16);
    let b = warp::exchanged(op, a, 8);
    let c = warp::exchanged(op, b, 4);
    let d = warp::exchanged(op, c, 2);
    let r = warp::exchanged(op, d, 1);
    lemma_half(op, v, a, 32, 16);
    lemma_half(op, a, b, 16, 8);
    lemma_half(op, b, c, 8, 4);
    lemma_half(op, c, d, 4, 2);
    lemma_half(op, d, r, 2, 1);
    assert(v.take(32) =~= v);
    assert(halved(op, r.take(1)) == r[0]);
}

proof fn lemma_half(op: Reduction, v: Seq<F32>, w: Seq<F32>, n: int, h: int)
    requires
        v.len() == 32,
        n == 2 * h,
        h == 16 || h == 8 || h == 4 || h == 2 || h == 1,
        w == warp::exchanged(op, v, h),
    ensures
        halved(op, v.take(n)) == halved(op, w.take(h)),
{
    let t = v.take(n);
    let u = Seq::new(
        h as nat,
        |i: int|
            match op {
                Reduction::Max => binary32::larger(t[i], t[i + h]),
                Reduction::Sum => arith::sum(t[i], t[i + h]),
            },
    );
    assert(t.len() / 2 == h);
    assert forall|i: int| 0 <= i < h implies u[i] == w.take(h)[i] by {
        assert((i / h) % 2 == 0);
        assert(warp::partner(i, h) == i + h);
    }
    assert(u =~= w.take(h));
    assert(halved(op, t) == halved(op, u));
}

/// The lane whose number has one binary digit turned, the one that counts `h`.
pub open spec fn turned(i: int, h: int) -> int {
    if (i / h) % 2 == 0 {
        i + h
    } else {
        i - h
    }
}

/// No lane is special: turning one digit in the numbers of all lanes turns it in the results. So every
/// lane gets what the first would get of the numbers seen from there.
pub proof fn law_lanes_alike(op: Reduction, v: Seq<F32>, h: int, lane: int)
    requires
        v.len() == 32,
        h == 16 || h == 8 || h == 4 || h == 2 || h == 1,
        0 <= lane < 32,
    ensures
        0 <= turned(lane, h) < 32,
        warp::reduced(op, Seq::new(32, |i: int| v[turned(i, h)]))[lane] == warp::reduced(op, v)[turned(
            lane,
            h,
        )],
{
    let w = Seq::new(32, |i: int| v[turned(i, h)]);
    let a = warp::exchanged(op, v, 16);
    let b = warp::exchanged(op, a, 8);
    let c = warp::exchanged(op, b, 4);
    let d = warp::exchanged(op, c, 2);
    let a2 = warp::exchanged(op, w, 16);
    let b2 = warp::exchanged(op, a2, 8);
    let c2 = warp::exchanged(op, b2, 4);
    let d2 = warp::exchanged(op, c2, 2);
    lemma_turn(op, v, w, h, 16);
    lemma_turn(op, a, a2, h, 8);
    lemma_turn(op, b, b2, h, 4);
    lemma_turn(op, c, c2, h, 2);
    lemma_turn(op, d, d2, h, 1);
    warp::lemma_partner(lane, h);
}

proof fn lemma_turn(op: Reduction, v: Seq<F32>, w: Seq<F32>, h: int, distance: int)
    requires
        v.len() == 32,
        w.len() == 32,
        h == 16 || h == 8 || h == 4 || h == 2 || h == 1,
        distance == 16 || distance == 8 || distance == 4 || distance == 2 || distance == 1,
        forall|i: int| 0 <= i < 32 ==> #[trigger] w[i] == v[turned(i, h)],
    ensures
        forall|i: int|
            0 <= i < 32 ==> #[trigger] warp::exchanged(op, w, distance)[i] == warp::exchanged(
                op,
                v,
                distance,
            )[turned(i, h)],
{
    assert forall|i: int| 0 <= i < 32 implies #[trigger] warp::exchanged(op, w, distance)[i]
        == warp::exchanged(op, v, distance)[turned(i, h)] by {
        warp::lemma_partner(i, distance);
        warp::lemma_partner(i, h);
        let j: int = warp::partner(i, distance);
        lemma_turns_commute(i, h, distance);
        assert(w[i] == v[turned(i, h)]);
        assert(w[j] == v[turned(j, h)]);
    }
}

proof fn lemma_turns_commute(i: int, h: int, d: int)
    requires
        0 <= i < 32,
        h == 16 || h == 8 || h == 4 || h == 2 || h == 1,
        d == 16 || d == 8 || d == 4 || d == 2 || d == 1,
    ensures
        turned(warp::partner(i, d), h) == warp::partner(turned(i, h), d),
{
    if h < d {
        lemma_digits(i, h, d);
    } else if d < h {
        lemma_digits(i, d, h);
    }
}

/// Turning one digit leaves the others.
proof fn lemma_digits(i: int, h: int, d: int)
    requires
        0 <= i < 32,
        h == 8 || h == 4 || h == 2 || h == 1,
        d == 16 || d == 8 || d == 4 || d == 2,
        h < d,
    ensures
        turned(i, h) / d == i / d,
        (turned(i, d) / h) % 2 == (i / h) % 2,
{
    if h == 1 && d == 2 {
        assert(turned(i, 1) / 2 == i / 2);
        assert((turned(i, 2) / 1) % 2 == (i / 1) % 2);
    } else if h == 1 && d == 4 {
        assert(turned(i, 1) / 4 == i / 4);
        assert((turned(i, 4) / 1) % 2 == (i / 1) % 2);
    } else if h == 1 && d == 8 {
        assert(turned(i, 1) / 8 == i / 8);
        assert((turned(i, 8) / 1) % 2 == (i / 1) % 2);
    } else if h == 1 && d == 16 {
        assert(turned(i, 1) / 16 == i / 16);
        assert((turned(i, 16) / 1) % 2 == (i / 1) % 2);
    } else if h == 2 && d == 4 {
        assert(turned(i, 2) / 4 == i / 4);
        assert((turned(i, 4) / 2) % 2 == (i / 2) % 2);
    } else if h == 2 && d == 8 {
        assert(turned(i, 2) / 8 == i / 8);
        assert((turned(i, 8) / 2) % 2 == (i / 2) % 2);
    } else if h == 2 && d == 16 {
        assert(turned(i, 2) / 16 == i / 16);
        assert((turned(i, 16) / 2) % 2 == (i / 2) % 2);
    } else if h == 4 && d == 8 {
        assert(turned(i, 4) / 8 == i / 8);
        assert((turned(i, 8) / 4) % 2 == (i / 4) % 2);
    } else if h == 4 && d == 16 {
        assert(turned(i, 4) / 16 == i / 16);
        assert((turned(i, 16) / 4) % 2 == (i / 4) % 2);
    } else if h == 8 && d == 16 {
        assert(turned(i, 8) / 16 == i / 16);
        assert((turned(i, 16) / 8) % 2 == (i / 8) % 2);
    }
}

/// The shared array holds one reduction for every 32 threads, that of their values.
pub proof fn law_slots(op: Reduction, values: Seq<F32>, w: int)
    requires
        values.len() % 32 == 0,
    ensures
        32 * block::slots(op, values).len() == values.len(),
        0 <= w && 32 * w < values.len() ==> block::slots(op, values)[w] == halved(
            op,
            values.subrange(32 * w, 32 * w + 32),
        ),
{
    if 0 <= w && 32 * w < values.len() {
        let lanes = values.subrange(32 * w, 32 * w + 32);
        assert(block::lanes_of(values, w) =~= lanes);
        law_warp_halves(op, lanes);
    }
}

/// A thread that comes to publish changes at most one slot: the first of every 32 writes its warp's
/// reduction, the others write nothing.
pub proof fn law_published_by(op: Reduction, values: Seq<F32>, tid: int, shared: Seq<F32>, w: int)
    requires
        values.len() % 32 == 0,
        0 <= tid < values.len(),
        0 <= w < shared.len(),
    ensures
        block::published_by(op, values, tid, shared).len() == shared.len(),
        tid == 32 * w ==> block::published_by(op, values, tid, shared)[w] == halved(
            op,
            values.subrange(32 * w, 32 * w + 32),
        ),
        tid != 32 * w ==> block::published_by(op, values, tid, shared)[w] == shared[w],
{
    if tid == 32 * w {
        law_slots(op, values, w);
        assert(block::publishes(tid, w));
    }
}

/// A block of no warps adds up to positive zero; one more warp adds its sum to what there was.
pub proof fn law_total_grows_by_warp(values: Seq<F32>, more: Seq<F32>)
    requires
        values.len() % 32 == 0,
        more.len() == 32,
    ensures
        block::total(Seq::empty()).bits == 0,
        block::total(values + more) == arith::sum(
            block::total(values),
            halved(Reduction::Sum, more),
        ),
{
    lemma_slots_grow(Reduction::Sum, values, more);
    law_sum_grows_by_one(
        block::slots(Reduction::Sum, values),
        halved(Reduction::Sum, more),
    );
}

/// The maximum of a block of one warp is that warp's; one more warp's takes its place only where it is
/// above.
pub proof fn law_maximum_grows_by_warp(values: Seq<F32>, more: Seq<F32>)
    requires
        values.len() % 32 == 0,
        more.len() == 32,
    ensures
        block::maximum(more) == halved(Reduction::Max, more),
        values.len() > 0 ==> block::maximum(values + more) == if binary32::above(
            halved(Reduction::Max, more),
            block::maximum(values),
        ) {
            halved(Reduction::Max, more)
        } else {
            block::maximum(values)
        },
{
    lemma_slots_grow(Reduction::Max, values, more);
    law_max_grows_by_one(
        block::slots(Reduction::Max, values),
        halved(Reduction::Max, more),
    );
    law_slots(Reduction::Max, more, 0);
    assert(more.subrange(0, 32) =~= more);
}

proof fn lemma_slots_grow(op: Reduction, values: Seq<F32>, more: Seq<F32>)
    requires
        values.len() % 32 == 0,
        more.len() == 32,
    ensures
        block::slots(op, values + more) == block::slots(op, values).push(halved(op, more)),
        block::slots(op, values).len() == values.len() / 32,
{
    let all = values + more;
    let n: int = (values.len() / 32) as int;
    let s = block::slots(op, all);
    let t = block::slots(op, values).push(halved(op, more));
    assert forall|w: int| 0 <= w < s.len() implies s[w] == t[w] by {
        law_slots(op, all, w);
        if w < n {
            law_slots(op, values, w);
            assert(all.subrange(32 * w, 32 * w + 32) =~= values.subrange(32 * w, 32 * w + 32));
        } else {
            assert(all.subrange(32 * w, 32 * w + 32) =~= more);
        }
    }
    assert(s =~= t);
}

/// Where a thread's elements are: half a row apart, or side by side.
pub proof fn law_columns(tid: int, k: int)
    ensures
        Layout::Strided.column(tid, k) == tid + 128 * k,
        Layout::Contiguous.column(tid, k) == 2 * tid + k,
{
}

/// What the threads of a row's block add up: with one thread per element the exponentials themselves,
/// with two the sums of two, from zero.
pub proof fn law_row_sums(e: Seq<F32>)
    requires
        e.len() == 256,
    ensures
        simt::row_sum(e) == block::total(e),
        Layout::Strided.row_sum(e) == block::total(
            Seq::new(128, |t: int| arith::sum(arith::sum(F32 { bits: 0 }, e[t]), e[t + 128])),
        ),
        Layout::Contiguous.row_sum(e) == block::total(
            Seq::new(128, |t: int| arith::sum(arith::sum(F32 { bits: 0 }, e[2 * t]), e[2 * t + 1])),
        ),
        reference::row_sum(e) == fold::running_sum(e, 256),
{
    reveal_with_fuel(fold::running_sum, 3);
    assert(Layout::Strided.thread_sums(e) =~= Seq::new(
        128,
        |t: int| arith::sum(arith::sum(F32 { bits: 0 }, e[t]), e[t + 128]),
    ));
    assert(Layout::Contiguous.thread_sums(e) =~= Seq::new(
        128,
        |t: int| arith::sum(arith::sum(F32 { bits: 0 }, e[2 * t]), e[2 * t + 1]),
    ));
}

/// What the threads of a row's block find the maximum of: with one thread per element the numbers
/// themselves, with two the second of two where it is above the first, else the first.
pub proof fn law_row_maxima(row: Seq<F32>)
    requires
        row.len() == 256,
    ensures
        simt::row_max(row) == block::maximum(row),
        Layout::Strided.row_max(row) == block::maximum(
            Seq::new(
                128,
                |t: int|
                    if binary32::above(row[t + 128], row[t]) {
                        row[t + 128]
                    } else {
                        row[t]
                    },
            ),
        ),
        Layout::Contiguous.row_max(row) == block::maximum(
            Seq::new(
                128,
                |t: int|
                    if binary32::above(row[2 * t + 1], row[2 * t]) {
                        row[2 * t + 1]
                    } else {
                        row[2 * t]
                    },
            ),
        ),
        reference::row_max(row) == fold::running_larger(F32 { bits: 0xff80_0000 }, row, 256),
{
    reveal_with_fuel(fold::running_max, 3);
    assert(Layout::Strided.thread_maxima(row) =~= Seq::new(
        128,
        |t: int|
            if binary32::above(row[t + 128], row[t]) {
                row[t + 128]
            } else {
                row[t]
            },
    ));
    assert(Layout::Contiguous.thread_maxima(row) =~= Seq::new(
        128,
        |t: int|
            if binary32::above(row[2 * t + 1], row[2 * t]) {
                row[2 * t + 1]
            } else {
                row[2 * t]
            },
    ));
}

} // verus!
