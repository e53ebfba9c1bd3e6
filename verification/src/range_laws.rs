//! How large the sum of a row can be, and how small the result of its largest number.

use crate::arith;
use crate::binary32;
use crate::binary32::F32;
use crate::binary32::ONE;
use crate::block;
use crate::fold;
use crate::input_laws;
use crate::max_laws;
use crate::number_laws;
use crate::order_laws;
use crate::pairs::Layout;
use crate::pairs::PER;
use crate::pairs::TPB;
use crate::reduction_laws;
use crate::reference;
use crate::rounding;
use crate::simt;
use crate::softmax;
use crate::softmax::COLS;
use crate::softmax_laws;
use crate::sum_laws;
use crate::warp;
use crate::warp::Reduction;
use crate::warp::LANES;
use vstd::arithmetic::power2::*;
use vstd::prelude::*;

verus! {

/// The pattern of 1/256.
pub const LEAST: u32 = 0x3b80_0000;

/// A finite number that is not negative and at most `n`.
pub open spec fn below(a: F32, n: int) -> bool {
    sum_laws::plain(a) && a.value() <= n * sum_laws::one()
}

/// Every number of the sequence is finite, not negative and at most `n`.
pub open spec fn all_below(s: Seq<F32>, n: int) -> bool {
    forall|i: int| 0 <= i < s.len() ==> below(#[trigger] s[i], n)
}

/// A sum is at most the sum of what its terms are at most: integers need no rounding, and rounding
/// keeps order.
proof fn lemma_sum_below(a: F32, b: F32, i: int, j: int)
    requires
        below(a, i),
        below(b, j),
        0 <= i,
        0 <= j,
        i + j <= 0x80_0000,
    ensures
        below(arith::sum(a, b), i + j),
{
    let p: int = sum_laws::one();
    let n: nat = (i + j) as nat;
    rounding::lemma_units_increase(0, a.magnitude());
    rounding::lemma_units_increase(0, b.magnitude());
    sum_laws::lemma_large();
    assert(n * p == i * p + j * p) by (nonlinear_arith)
        requires
            n == i + j,
    ;
    assert(0 <= i * p && 0 <= j * p) by (nonlinear_arith)
        requires
            i >= 0,
            j >= 0,
            p > 0,
    ;
    number_laws::law_sum_grows(a, b);
    input_laws::law_integer_exact(n);
    let r = arith::sum(a, b);
    let v: nat = (a.value() + b.value()) as nat;
    rounding::lemma_units_increase(0, r.magnitude());
    if v == 0 {
        number_laws::law_nearest_exact(0, 0, 1);
    } else {
        number_laws::law_nearest_ordered(v, 1, (n * p) as nat, 1);
        rounding::lemma_units_increase(r.magnitude(), binary32::nearest((n * p) as nat, 1));
    }
}

/// A running sum is at most as many times what each term is at most.
proof fn lemma_running_below(s: Seq<F32>, n: nat, k: int)
    requires
        n <= s.len(),
        all_below(s, k),
        0 <= k,
        n * k <= 0x80_0000,
    ensures
        below(fold::running_sum(s, n), n * k),
    decreases n,
{
    if n > 0 {
        let m: nat = (n - 1) as nat;
        assert(n * k == m * k + k && 0 <= m * k) by (nonlinear_arith)
            requires
                n == m + 1,
                k >= 0,
        ;
        lemma_running_below(s, m, k);
        assert(below(s[n - 1], k));
        lemma_sum_below(fold::running_sum(s, m), s[n - 1], m * k, k);
    } else {
        assert(0 * k == 0 && 0 * sum_laws::one() == 0);
    }
}

/// The sum of up to 2^22 numbers of at most one, from the first to the last, is at most their count, and
/// off by the rounding of every addition but the first.
pub proof fn law_running_sum(s: Seq<F32>, n: nat)
    requires
        0 < n <= s.len(),
        n <= 0x40_0000,
        forall|i: int|
            0 <= i < s.len() ==> sum_laws::plain(#[trigger] s[i]) && s[i].rank() <= ONE,
    ensures
        below(fold::running_sum(s, n), n as int),
        sum_laws::close(
            fold::running_sum(s, n),
            sum_laws::added(sum_laws::values(s), n),
            n - 1,
        ),
    decreases n,
{
    sum_laws::lemma_large();
    assert forall|i: int| 0 <= i < s.len() implies below(#[trigger] s[i], 1) by {
        assert(sum_laws::plain(s[i]) && s[i].rank() <= ONE);
        rounding::lemma_units_increase(0, s[i].magnitude());
        if !s[i].negative() {
            rounding::lemma_units_increase(s[i].magnitude(), ONE as nat);
        }
        assert(1 * sum_laws::one() == sum_laws::one());
    }
    lemma_running_below(s, n, 1);
    assert(n * 1 == n);
    sum_laws::lemma_values_plain(s);
    let x = sum_laws::values(s);
    assert(sum_laws::close(s[n - 1], x[n - 1], 0));
    if n == 1 {
        reveal_with_fuel(fold::running_sum, 2);
        reveal_with_fuel(sum_laws::added, 2);
        sum_laws::law_sum_from_zero(s[0]);
    } else {
        let k: nat = (n - 1) as nat;
        law_running_sum(s, k);
        assert(x[n - 1] >= 0);
        sum_laws::law_close_weaker(s[n - 1], x[n - 1], 0, k - 1);
        sum_laws::law_sum_close(
            fold::running_sum(s, k),
            s[n - 1],
            sum_laws::added(x, k),
            x[n - 1],
            k - 1,
        );
    }
}

proof fn lemma_exchange_below(v: Seq<F32>, distance: int, k: int)
    requires
        v.len() == LANES,
        distance == 16 || distance == 8 || distance == 4 || distance == 2 || distance == 1,
        all_below(v, k),
        0 <= k <= 512,
    ensures
        all_below(warp::exchanged(Reduction::Sum, v, distance), 2 * k),
{
    let u = warp::exchanged(Reduction::Sum, v, distance);
    assert forall|i: int| 0 <= i < u.len() implies below(#[trigger] u[i], 2 * k) by {
        warp::lemma_partner(i, distance);
        let o: int = warp::partner(i, distance);
        assert(below(v[i], k) && below(v[o], k));
        lemma_sum_below(v[i], v[o], k, k);
    }
}

/// A block's sum is at most as many times what each of its values is at most.
proof fn lemma_total_below(values: Seq<F32>, k: int)
    requires
        values.len() % (LANES as nat) == 0,
        all_below(values, k),
        0 <= k,
        values.len() * k <= 256,
        values.len() > 0,
    ensures
        below(block::total(values), values.len() * k),
{
    let warps: nat = values.len() / (LANES as nat);
    let slots = block::slots(Reduction::Sum, values);
    assert(32 * k <= values.len() * k && warps * (32 * k) == values.len() * k) by (nonlinear_arith)
        requires
            values.len() == 32 * warps,
            warps > 0,
            k >= 0,
    ;
    assert forall|w: int| 0 <= w < slots.len() implies below(#[trigger] slots[w], 32 * k) by {
        let v = block::lanes_of(values, w);
        assert forall|i: int| 0 <= i < v.len() implies below(#[trigger] v[i], k) by {
            assert(v[i] == values[w * LANES + i]);
        }
        let a = warp::exchanged(Reduction::Sum, v, 16);
        let b = warp::exchanged(Reduction::Sum, a, 8);
        let c = warp::exchanged(Reduction::Sum, b, 4);
        let d = warp::exchanged(Reduction::Sum, c, 2);
        lemma_exchange_below(v, 16, k);
        lemma_exchange_below(a, 8, 2 * k);
        lemma_exchange_below(b, 4, 4 * k);
        lemma_exchange_below(c, 2, 8 * k);
        lemma_exchange_below(d, 1, 16 * k);
        assert(below(warp::exchanged(Reduction::Sum, d, 1)[0], 32 * k));
    }
    lemma_running_below(slots, warps, 32 * k);
}

/// The sum of a row of numbers of at most one is at most 256, in every kernel and in the reference.
pub proof fn law_row_sum_range(e: Seq<F32>, layout: Layout)
    requires
        e.len() == COLS,
        softmax_laws::all_count(e),
        forall|c: int| 0 <= c < e.len() ==> (#[trigger] e[c]).rank() <= ONE,
    ensures
        below(simt::row_sum(e), 256),
        below(layout.row_sum(e), 256),
        below(reference::row_sum(e), 256),
{
    sum_laws::lemma_large();
    assert forall|c: int| 0 <= c < e.len() implies below(#[trigger] e[c], 1) by {
        assert(softmax_laws::counts(e[c]) && e[c].rank() <= ONE);
        rounding::lemma_units_increase(0, e[c].magnitude());
        if !e[c].negative() {
            rounding::lemma_units_increase(e[c].magnitude(), ONE as nat);
        }
        assert(1 * sum_laws::one() == sum_laws::one());
    }
    lemma_total_below(e, 1);
    lemma_running_below(e, COLS as nat, 1);
    let sums = layout.thread_sums(e);
    assert forall|tid: int| 0 <= tid < sums.len() implies below(#[trigger] sums[tid], 2) by {
        let held = layout.held(e, tid);
        assert forall|k: int| 0 <= k < held.len() implies below(#[trigger] held[k], 1) by {
            layout.law_columns_partition(tid, k, 0);
            assert(held[k] == e[layout.column(tid, k)]);
        }
        lemma_running_below(held, PER as nat, 1);
    }
    assert(sums.len() == TPB);
    lemma_total_below(sums, 2);
}

/// `sum` makes no more than 256 of a row of numbers of at most one.
pub open spec fn caps(sum: spec_fn(Seq<F32>) -> F32) -> bool {
    forall|e: Seq<F32>|
        e.len() == COLS && softmax_laws::all_count(e) && (forall|c: int|
            0 <= c < e.len() ==> (#[trigger] e[c]).rank() <= ONE) ==> below(#[trigger] sum(e), 256)
}

/// The sums of the kernels and of the reference are capped.
pub proof fn law_kernels_cap(layout: Layout)
    ensures
        caps(|e: Seq<F32>| simt::row_sum(e)),
        caps(|e: Seq<F32>| layout.row_sum(e)),
        caps(|e: Seq<F32>| reference::row_sum(e)),
{
    assert forall|e: Seq<F32>|
        e.len() == COLS && softmax_laws::all_count(e) && (forall|c: int|
            0 <= c < e.len() ==> (#[trigger] e[c]).rank() <= ONE) implies below(
        #[trigger] simt::row_sum(e),
        256,
    ) by {
        law_row_sum_range(e, layout);
    }
    assert forall|e: Seq<F32>|
        e.len() == COLS && softmax_laws::all_count(e) && (forall|c: int|
            0 <= c < e.len() ==> (#[trigger] e[c]).rank() <= ONE) implies below(
        #[trigger] layout.row_sum(e),
        256,
    ) by {
        law_row_sum_range(e, layout);
    }
    assert forall|e: Seq<F32>|
        e.len() == COLS && softmax_laws::all_count(e) && (forall|c: int|
            0 <= c < e.len() ==> (#[trigger] e[c]).rank() <= ONE) implies below(
        #[trigger] reference::row_sum(e),
        256,
    ) by {
        law_row_sum_range(e, layout);
    }
}

/// One over a sum of at most 256 is at least 1/256.
proof fn lemma_least(s: F32)
    requires
        below(s, 256),
        s.rank() >= ONE,
    ensures
        arith::quotient(F32 { bits: ONE }, s).rank() >= LEAST,
{
    let p: nat = pow2(149);
    let us: nat = binary32::units(s.magnitude());
    let least: nat = binary32::units(LEAST as nat);
    sum_laws::lemma_large();
    lemma_pow2_adds(23, 118);
    lemma_pow2_adds(8, 141);
    lemma2_to64();
    assert(0x3b80_0000int / 0x80_0000 == 119 && 0x3b80_0000int % 0x80_0000 == 0);
    assert(p == 256 * least);
    rounding::lemma_units_increase(0, s.magnitude());
    assert(least * us <= (p * p) * 1) by (nonlinear_arith)
        requires
            p == 256 * least,
            us <= 256 * p,
    ;
    number_laws::law_nearest(p * p, us);
    number_laws::law_nearest_ordered(least, 1, p * p, us);
    number_laws::law_nearest_exact(LEAST as nat, least, 1);
    softmax_laws::law_quotient_is_fraction(F32 { bits: ONE }, s);
}

/// In a proper row the largest number has the largest result, and that is at least 1/256.
pub proof fn law_largest_result<E: Fn(F32) -> F32>(
    exp: E,
    max: spec_fn(Seq<F32>) -> F32,
    sum: spec_fn(Seq<F32>) -> F32,
    d: int,
    x: Seq<F32>,
    y: Seq<F32>,
    rows: int,
    r: int,
    h: int,
    c: int,
)
    requires
        softmax_laws::exponential(exp),
        reduction_laws::finds(max),
        reduction_laws::adds(sum, d),
        caps(sum),
        rows * COLS <= y.len(),
        softmax::rows_done(exp, x, max, sum, y, rows),
        0 <= r < rows,
        softmax_laws::proper(softmax::row_of(x, r)),
        0 <= h < COLS,
        max_laws::is_maximum(softmax::row_of(x, r)[h], softmax::row_of(x, r)),
        0 <= c < COLS,
    ensures
        softmax::row_of(y, r)[c].rank() <= softmax::row_of(y, r)[h].rank(),
        softmax::row_of(y, r)[h].rank() >= LEAST,
{
    let row = softmax::row_of(x, r);
    let m = max(row);
    assert(max_laws::is_maximum(m, row));
    assert(softmax::row_done(exp, row, m, sum, y, r * COLS));
    let e = softmax_laws::lemma_row_written(exp, row, m, sum, y, r);
    softmax_laws::law_exponentials(exp, row, m, e);
    let s = sum(e);
    assert(softmax_laws::covers(s, e));
    assert(below(s, 256));
    let args = softmax::shifted(row, m);
    let at = choose|i: int| 0 <= i < row.len() && (#[trigger] row[i]).finite();
    let here = choose|i: int| 0 <= i < row.len() && row[i] == m;
    assert(row[at].rank() <= m.rank());
    assert(!row[here].nan() && row[here].rank() < binary32::INF);
    assert(row[here].rank() <= row[h].rank() && row[h].rank() <= m.rank() && !row[h].nan());
    max_laws::law_difference_not_positive(row[h], m);
    assert(exp.ensures((args[h],), e[h]));
    assert(e[h].bits == ONE);
    assert(softmax_laws::counts(e[c]) && e[c].rank() <= e[h].rank() <= s.rank());
    order_laws::law_quotient_ordered(e[c], e[h], s);
    lemma_least(s);
}

} // verus!
