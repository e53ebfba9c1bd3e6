//! What the four ways to find a row's maximum have in common, and what subtracting it does.

use crate::arith;
use crate::binary32;
use crate::binary32::F32;
use crate::binary32::NEG_INFINITY;
use crate::block;
use crate::fold;
use crate::number_laws;
use crate::pairs::Layout;
use crate::pairs::PER;
use crate::pairs::TPB;
use crate::reference;
use crate::simt;
use crate::softmax;
use crate::softmax::COLS;
use crate::warp;
use crate::warp::Reduction;
use crate::warp::LANES;
use vstd::prelude::*;

verus! {

/// No number of the sequence is a NaN.
pub open spec fn nan_free(s: Seq<F32>) -> bool {
    forall|i: int| 0 <= i < s.len() ==> !(#[trigger] s[i]).nan()
}

/// `m` is one of the numbers, and none of them exceeds it.
pub open spec fn is_maximum(m: F32, s: Seq<F32>) -> bool {
    &&& s.contains(m)
    &&& forall|i: int| 0 <= i < s.len() ==> (#[trigger] s[i]).rank() <= m.rank()
}

/// Keeping what exceeds finds the maximum.
pub proof fn law_running_max(s: Seq<F32>, n: nat)
    requires
        0 < n <= s.len(),
        nan_free(s),
    ensures
        is_maximum(fold::running_max(s, n), s.take(n as int)),
        !fold::running_max(s, n).nan(),
    decreases n,
{
    let t = s.take(n as int);
    if n == 1 {
        assert(t[0] == s[0]);
        assert(!s[0].nan());
    } else {
        law_running_max(s, (n - 1) as nat);
        let before = s.take(n - 1);
        let best = fold::running_max(s, (n - 1) as nat);
        assert(!s[n - 1].nan());
        assert(t[n - 1] == s[n - 1]);
        assert forall|i: int| 0 <= i < n implies (#[trigger] t[i]).rank() <= fold::running_max(
            s,
            n,
        ).rank() by {
            if i < n - 1 {
                assert(before[i] == t[i]);
            }
        }
        let at = choose|i: int| 0 <= i < before.len() && before[i] == best;
        assert(t[at] == best);
    }
}

/// Where the first number is a NaN it stays, whatever follows.
pub proof fn law_leading_nan_stays(s: Seq<F32>, n: nat)
    requires
        0 < n <= s.len(),
        s[0].nan(),
    ensures
        fold::running_max(s, n) == s[0],
    decreases n,
{
    if n > 1 {
        law_leading_nan_stays(s, (n - 1) as nat);
    }
}

/// Taking the larger of two, a NaN is passed over: only two of them give one.
pub proof fn law_larger_passes_over_nan(a: F32, b: F32)
    ensures
        binary32::larger(a, b).nan() <==> a.nan() && b.nan(),
        !a.nan() && b.nan() ==> binary32::larger(a, b) == a,
        a.nan() && !b.nan() ==> binary32::larger(a, b) == b,
{
}

/// Taking the larger from negative infinity on finds the maximum.
pub proof fn law_running_larger(s: Seq<F32>, n: nat)
    requires
        0 < n <= s.len(),
        nan_free(s),
    ensures
        is_maximum(
            fold::running_larger(F32 { bits: NEG_INFINITY }, s, n),
            s.take(n as int),
        ),
        !fold::running_larger(F32 { bits: NEG_INFINITY }, s, n).nan(),
    decreases n,
{
    let start = F32 { bits: NEG_INFINITY };
    let t = s.take(n as int);
    assert(!s[n - 1].nan());
    assert(t[n - 1] == s[n - 1]);
    if n == 1 {
        reveal_with_fuel(fold::running_larger, 2);
    } else {
        law_running_larger(s, (n - 1) as nat);
        let before = s.take(n - 1);
        let best = fold::running_larger(start, s, (n - 1) as nat);
        assert forall|i: int| 0 <= i < n implies (#[trigger] t[i]).rank() <= fold::running_larger(
            start,
            s,
            n,
        ).rank() by {
            if i < n - 1 {
                assert(before[i] == t[i]);
            }
        }
        let at = choose|i: int| 0 <= i < before.len() && before[i] == best;
        assert(t[at] == best);
    }
}

/// Every lane holds one of the numbers of `v`, and none of the lanes that share its place modulo
/// `m` held a larger one.
spec fn spread(v: Seq<F32>, w: Seq<F32>, m: int) -> bool {
    &&& w.len() == LANES
    &&& nan_free(w)
    &&& forall|i: int| 0 <= i < LANES ==> v.contains(#[trigger] w[i])
    &&& forall|i: int, k: int|
        0 <= i < LANES && 0 <= k < LANES && i % m == k % m ==> (#[trigger] v[k]).rank() <= (
        #[trigger] w[i]).rank()
}

proof fn lemma_spread_step(v: Seq<F32>, w: Seq<F32>, m: int)
    requires
        v.len() == LANES,
        m == 32 || m == 16 || m == 8 || m == 4 || m == 2,
        spread(v, w, m),
    ensures
        spread(v, warp::exchanged(Reduction::Max, w, m / 2), m / 2),
{
    let h: int = m / 2;
    let u = warp::exchanged(Reduction::Max, w, h);
    assert forall|i: int| 0 <= i < LANES implies v.contains(#[trigger] u[i]) && !u[i].nan() by {
        warp::lemma_partner(i, h);
        assert(v.contains(w[i]) && v.contains(w[warp::partner(i, h)]));
        assert(!w[i].nan() && !w[warp::partner(i, h)].nan());
    }
    assert forall|i: int, k: int| 0 <= i < LANES && 0 <= k < LANES && i % h == k % h implies (
    #[trigger] v[k]).rank() <= (#[trigger] u[i]).rank() by {
        warp::lemma_partner(i, h);
        let p: int = warp::partner(i, h);
        assert(!w[i].nan() && !w[p].nan());
        assert(u[i].rank() >= w[i].rank() && u[i].rank() >= w[p].rank());
        lemma_residues(i, k, m);
        if i % m == k % m {
            assert(v[k].rank() <= w[i].rank());
        } else {
            assert(v[k].rank() <= w[p].rank());
        }
    }
}

/// A lane and its partner share their place modulo `h`, and take its two places modulo twice `h`.
pub proof fn lemma_partner_class(i: int, h: int)
    requires
        0 <= i < LANES,
        h == 16 || h == 8 || h == 4 || h == 2 || h == 1,
    ensures
        warp::partner(i, h) % h == i % h,
        (i % (2 * h) == i % h && warp::partner(i, h) % (2 * h) == i % h + h) || (i % (2 * h) == i
            % h + h && warp::partner(i, h) % (2 * h) == i % h),
{
    let p: int = warp::partner(i, h);
    lemma_double(i, h);
    warp::lemma_partner(i, h);
    lemma_double(p, h);
    vstd::arithmetic::div_mod::lemma_fundamental_div_mod(i, h);
    let q: int = i / h;
    let turned: int = if q % 2 == 0 { q + 1 } else { q - 1 };
    assert(p == turned * h + i % h) by (nonlinear_arith)
        requires
            i == h * q + i % h,
            q % 2 == 0 ==> p == i + h && turned == q + 1,
            q % 2 != 0 ==> p == i - h && turned == q - 1,
    ;
    vstd::arithmetic::div_mod::lemma_fundamental_div_mod_converse(p, h, turned, i % h);
    assert(h * 0 == 0 && h * 1 == h);
}

/// A lane and its partner cover both places that fold together.
pub proof fn lemma_residues(i: int, k: int, m: int)
    requires
        0 <= i < LANES,
        0 <= k < LANES,
        m == 32 || m == 16 || m == 8 || m == 4 || m == 2,
        i % (m / 2) == k % (m / 2),
    ensures
        i % m == k % m || warp::partner(i, m / 2) % m == k % m,
{
    let h: int = m / 2;
    lemma_partner_class(i, h);
    lemma_double(k, h);
    let bit: int = (k / h) % 2;
    assert(h * bit == (if bit == 0 { 0 } else { h })) by (nonlinear_arith)
        requires
            bit == 0 || bit == 1,
    ;
}

/// The remainder by twice `h`, from the quotient and the remainder by `h`.
pub proof fn lemma_double(i: int, h: int)
    requires
        0 <= i,
        h > 0,
    ensures
        i % (2 * h) == h * ((i / h) % 2) + i % h,
{
    let q: int = i / h;
    vstd::arithmetic::div_mod::lemma_fundamental_div_mod(i, h);
    let rest: int = h * (q % 2) + i % h;
    assert(i == (q / 2) * (2 * h) + rest) by (nonlinear_arith)
        requires
            i == h * q + i % h,
            q == 2 * (q / 2) + q % 2,
            rest == h * (q % 2) + i % h,
    ;
    assert(0 <= rest < 2 * h) by (nonlinear_arith)
        requires
            rest == h * (q % 2) + i % h,
            0 <= q % 2 <= 1,
            0 <= i % h < h,
    ;
    vstd::arithmetic::div_mod::lemma_fundamental_div_mod_converse(i, 2 * h, q / 2, rest);
}

/// A warp finds the maximum, in every lane.
pub proof fn law_warp_max(v: Seq<F32>, lane: int)
    requires
        v.len() == LANES,
        nan_free(v),
        0 <= lane < LANES,
    ensures
        is_maximum(warp::reduced(Reduction::Max, v)[lane], v),
        !warp::reduced(Reduction::Max, v)[lane].nan(),
{
    assert forall|i: int, k: int| 0 <= i < LANES && 0 <= k < LANES && i % 32 == k % 32 implies (
    #[trigger] v[k]).rank() <= (#[trigger] v[i]).rank() by {
        assert(i == k);
    }
    assert(spread(v, v, 32));
    let a = warp::exchanged(Reduction::Max, v, 16);
    let b = warp::exchanged(Reduction::Max, a, 8);
    let c = warp::exchanged(Reduction::Max, b, 4);
    let d = warp::exchanged(Reduction::Max, c, 2);
    lemma_spread_step(v, v, 32);
    lemma_spread_step(v, a, 16);
    lemma_spread_step(v, b, 8);
    lemma_spread_step(v, c, 4);
    lemma_spread_step(v, d, 2);
    let r = warp::exchanged(Reduction::Max, d, 1);
    assert(spread(v, r, 1));
    assert forall|k: int| 0 <= k < v.len() implies (#[trigger] v[k]).rank() <= r[lane].rank() by {
        assert(lane % 1 == k % 1);
    }
}

/// A block finds the maximum.
pub proof fn law_block_max(values: Seq<F32>)
    requires
        values.len() > 0,
        values.len() % (LANES as nat) == 0,
        nan_free(values),
    ensures
        is_maximum(block::maximum(values), values),
        !block::maximum(values).nan(),
{
    let n: nat = values.len() / (LANES as nat);
    let slots = block::slots(Reduction::Max, values);
    assert forall|w: int| 0 <= w < n implies is_maximum(
        #[trigger] slots[w],
        block::lanes_of(values, w),
    ) && !slots[w].nan() by {
        let lanes = block::lanes_of(values, w);
        assert forall|i: int| 0 <= i < lanes.len() implies !(#[trigger] lanes[i]).nan() by {
            assert(!values[w * LANES + i].nan());
        }
        law_warp_max(lanes, 0);
    }
    law_running_max(slots, n);
    assert(slots.take(n as int) =~= slots);
    let m = block::maximum(values);
    assert forall|i: int| 0 <= i < values.len() implies (#[trigger] values[i]).rank()
        <= m.rank() by {
        let w: int = i / (LANES as int);
        let lanes = block::lanes_of(values, w);
        assert(is_maximum(slots[w], lanes));
        assert(lanes[i - w * LANES] == values[i]);
    }
    let w = choose|w: int| 0 <= w < slots.len() && slots[w] == m;
    let lanes = block::lanes_of(values, w);
    assert(is_maximum(slots[w], lanes));
    let at = choose|i: int| 0 <= i < lanes.len() && lanes[i] == m;
    assert(values[w * LANES + at] == m);
}

/// Every kernel and the reference find a maximum of the row.
pub proof fn law_row_max(row: Seq<F32>, layout: Layout)
    requires
        row.len() == COLS,
        nan_free(row),
    ensures
        is_maximum(simt::row_max(row), row),
        is_maximum(layout.row_max(row), row),
        is_maximum(reference::row_max(row), row),
{
    law_block_max(row);
    law_running_larger(row, COLS as nat);
    assert(row.take(COLS as int) =~= row);
    let maxima = layout.thread_maxima(row);
    assert forall|tid: int| 0 <= tid < TPB implies is_maximum(
        #[trigger] maxima[tid],
        layout.held(row, tid),
    ) && !maxima[tid].nan() by {
        let held = layout.held(row, tid);
        assert forall|k: int| 0 <= k < held.len() implies !(#[trigger] held[k]).nan() by {
            layout.law_columns_partition(tid, k, 0);
            assert(!row[layout.column(tid, k)].nan());
        }
        law_running_max(held, PER as nat);
        assert(held.take(PER as int) =~= held);
    }
    law_block_max(maxima);
    let m = layout.row_max(row);
    assert forall|c: int| 0 <= c < row.len() implies (#[trigger] row[c]).rank() <= m.rank() by {
        layout.law_columns_partition(0, 0, c);
        let tid: int = layout.owner(c);
        let held = layout.held(row, tid);
        assert(is_maximum(maxima[tid], held));
        assert(held[layout.step(c)] == row[c]);
    }
    let tid = choose|tid: int| 0 <= tid < maxima.len() && maxima[tid] == m;
    let held = layout.held(row, tid);
    assert(is_maximum(maxima[tid], held));
    let k = choose|k: int| 0 <= k < held.len() && held[k] == m;
    layout.law_columns_partition(tid, k, 0);
    assert(row[layout.column(tid, k)] == m);
}

/// Two maxima of a NaN-free row are the same number, but for the sign of a zero.
pub proof fn law_maximum_unique(a: F32, b: F32, row: Seq<F32>)
    requires
        nan_free(row),
        is_maximum(a, row),
        is_maximum(b, row),
    ensures
        a.rank() == b.rank(),
        a.rank() != 0 ==> a == b,
{
    let i = choose|i: int| 0 <= i < row.len() && row[i] == a;
    let k = choose|k: int| 0 <= k < row.len() && row[k] == b;
    assert(row[i].rank() <= b.rank());
    assert(row[k].rank() <= a.rank());
}

/// On a row without NaN, the kernels and the reference find the same maximum, but for the sign of
/// a zero.
pub proof fn law_row_max_agree(row: Seq<F32>, layout: Layout)
    requires
        row.len() == COLS,
        nan_free(row),
    ensures
        simt::row_max(row).rank() == reference::row_max(row).rank(),
        layout.row_max(row).rank() == reference::row_max(row).rank(),
        reference::row_max(row).rank() != 0 ==> simt::row_max(row) == reference::row_max(row)
            && layout.row_max(row) == reference::row_max(row),
{
    law_row_max(row, layout);
    law_maximum_unique(simt::row_max(row), reference::row_max(row), row);
    law_maximum_unique(layout.row_max(row), reference::row_max(row), row);
}

/// The difference to a finite number that is no smaller is no more than zero.
pub proof fn law_difference_not_positive(a: F32, m: F32)
    requires
        !a.nan(),
        m.finite(),
        a.rank() <= m.rank(),
    ensures
        !arith::difference(a, m).nan(),
        arith::difference(a, m).rank() <= 0,
        a.rank() == m.rank() <==> arith::difference(a, m).rank() == 0,
        a == m ==> arith::difference(a, m) == (F32 { bits: binary32::ZERO }),
{
    let b = binary32::opposite(m);
    assert(b.magnitude() == m.magnitude() && b.negative() != m.negative());
    if a.finite() {
        number_laws::law_rank_is_order(a, m);
        let total: int = a.value() + b.value();
        assert(total == a.value() - m.value());
        if total < 0 {
            let size: nat = (-total) as nat;
            number_laws::law_nearest(size, 1);
            number_laws::law_nearest_exact(1, 1, 1);
            number_laws::law_nearest_ordered(1, 1, size, 1);
        }
    }
}

/// Subtracting a finite maximum leaves nothing above zero and nothing undefined, and makes the
/// maximum itself zero: so the exponential cannot overflow, and one of its arguments is zero.
pub proof fn law_shift_bounds(row: Seq<F32>, m: F32)
    requires
        nan_free(row),
        is_maximum(m, row),
        m.finite(),
    ensures
        nan_free(softmax::shifted(row, m)),
        forall|c: int|
            0 <= c < row.len() ==> (#[trigger] softmax::shifted(row, m)[c]).rank() <= 0,
        softmax::shifted(row, m).contains(F32 { bits: binary32::ZERO }),
{
    let args = softmax::shifted(row, m);
    assert forall|c: int| 0 <= c < row.len() implies (#[trigger] args[c]).rank() <= 0
        && !args[c].nan() by {
        assert(!row[c].nan());
        law_difference_not_positive(row[c], m);
    }
    let at = choose|c: int| 0 <= c < row.len() && row[c] == m;
    law_difference_not_positive(row[at], m);
    assert(args[at] == (F32 { bits: binary32::ZERO }));
}

} // verus!
