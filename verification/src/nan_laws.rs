//! What a NaN or an infinity in a row does: a NaN reaches the sum, and through it every element of
//! the row; so does the infinite maximum of a row. Negative infinity is nothing.

use crate::binary32;
use crate::binary32::F32;
use crate::block;
use crate::fold;
use crate::max_laws;
use crate::number_laws;
use crate::pairs::Layout;
use crate::pairs::PER;
use crate::reduction_laws;
use crate::reference;
use crate::rounding;
use crate::simt;
use crate::softmax;
use crate::softmax::COLS;
use crate::softmax_laws;
use crate::warp;
use crate::warp::Reduction;
use crate::warp::LANES;
use vstd::arithmetic::power2::*;
use vstd::prelude::*;

verus! {

/// A running sum with a NaN among its terms is a NaN.
pub proof fn law_running_sum_nan(s: Seq<F32>, n: nat, i: int)
    requires
        0 <= i < n <= s.len(),
        s[i].nan(),
    ensures
        fold::running_sum(s, n).nan(),
    decreases n,
{
    if i < n - 1 {
        law_running_sum_nan(s, (n - 1) as nat, i);
    }
}

/// Every lane that shares the place of lane `at` modulo `m` holds a NaN.
spec fn spread(w: Seq<F32>, at: int, m: int) -> bool {
    &&& w.len() == LANES
    &&& forall|i: int| 0 <= i < LANES && i % m == at % m ==> (#[trigger] w[i]).nan()
}

proof fn lemma_spread_step(w: Seq<F32>, at: int, m: int)
    requires
        0 <= at < LANES,
        m == 32 || m == 16 || m == 8 || m == 4 || m == 2,
        spread(w, at, m),
    ensures
        spread(warp::exchanged(Reduction::Sum, w, m / 2), at, m / 2),
{
    let h: int = m / 2;
    let u = warp::exchanged(Reduction::Sum, w, h);
    assert forall|i: int| 0 <= i < LANES && i % h == at % h implies (#[trigger] u[i]).nan() by {
        warp::lemma_partner(i, h);
        max_laws::lemma_residues(i, at, m);
        assert(w[i].nan() || w[warp::partner(i, h)].nan());
    }
}

/// A warp's sum with a NaN among its terms is a NaN in every lane.
pub proof fn law_warp_sum_nan(v: Seq<F32>, at: int, lane: int)
    requires
        v.len() == LANES,
        0 <= at < LANES,
        v[at].nan(),
        0 <= lane < LANES,
    ensures
        warp::reduced(Reduction::Sum, v)[lane].nan(),
{
    assert forall|i: int| 0 <= i < LANES && i % 32 == at % 32 implies (#[trigger] v[i]).nan() by {
        assert(i == at);
    }
    assert(spread(v, at, 32));
    let a = warp::exchanged(Reduction::Sum, v, 16);
    let b = warp::exchanged(Reduction::Sum, a, 8);
    let c = warp::exchanged(Reduction::Sum, b, 4);
    let d = warp::exchanged(Reduction::Sum, c, 2);
    lemma_spread_step(v, at, 32);
    lemma_spread_step(a, at, 16);
    lemma_spread_step(b, at, 8);
    lemma_spread_step(c, at, 4);
    lemma_spread_step(d, at, 2);
    let r = warp::exchanged(Reduction::Sum, d, 1);
    assert(spread(r, at, 1));
    assert(lane % 1 == at % 1);
}

/// A block's sum with a NaN among its terms is a NaN.
pub proof fn law_block_sum_nan(values: Seq<F32>, at: int)
    requires
        values.len() % (LANES as nat) == 0,
        0 <= at < values.len(),
        values[at].nan(),
    ensures
        block::total(values).nan(),
{
    let w: int = at / (LANES as int);
    let lanes = block::lanes_of(values, w);
    assert(lanes[at - w * LANES] == values[at]);
    law_warp_sum_nan(lanes, at - w * LANES, 0);
    let slots = block::slots(Reduction::Sum, values);
    assert(slots[w].nan());
    law_running_sum_nan(slots, values.len() / (LANES as nat), w);
}

/// With a NaN among the exponentials, every kernel's sum and the reference's is a NaN.
pub proof fn law_row_sum_nan(e: Seq<F32>, layout: Layout, c: int)
    requires
        e.len() == COLS,
        0 <= c < COLS,
        e[c].nan(),
    ensures
        simt::row_sum(e).nan(),
        layout.row_sum(e).nan(),
        reference::row_sum(e).nan(),
{
    law_block_sum_nan(e, c);
    law_running_sum_nan(e, COLS as nat, c);
    layout.law_columns_partition(0, 0, c);
    let tid: int = layout.owner(c);
    let held = layout.held(e, tid);
    assert(held[layout.step(c)] == e[c]);
    law_running_sum_nan(held, PER as nat, layout.step(c));
    let sums = layout.thread_sums(e);
    assert(sums[tid].nan());
    law_block_sum_nan(sums, tid);
}

/// `sum` makes a NaN of every row with a NaN in it.
pub open spec fn taints(sum: spec_fn(Seq<F32>) -> F32) -> bool {
    forall|e: Seq<F32>, c: int|
        e.len() == COLS && 0 <= c < COLS && (#[trigger] e[c]).nan() ==> (#[trigger] sum(e)).nan()
}

/// The sums of the kernels and of the reference are tainted by a NaN.
pub proof fn law_kernels_taint(layout: Layout)
    ensures
        taints(|e: Seq<F32>| simt::row_sum(e)),
        taints(|e: Seq<F32>| layout.row_sum(e)),
        taints(|e: Seq<F32>| reference::row_sum(e)),
{
    assert forall|e: Seq<F32>, c: int|
        e.len() == COLS && 0 <= c < COLS && (#[trigger] e[c]).nan() implies (#[trigger] simt::row_sum(
        e,
    )).nan() by {
        law_row_sum_nan(e, layout, c);
    }
    assert forall|e: Seq<F32>, c: int|
        e.len() == COLS && 0 <= c < COLS && (#[trigger] e[c]).nan() implies (
    #[trigger] layout.row_sum(e)).nan() by {
        law_row_sum_nan(e, layout, c);
    }
    assert forall|e: Seq<F32>, c: int|
        e.len() == COLS && 0 <= c < COLS && (#[trigger] e[c]).nan() implies (
    #[trigger] reference::row_sum(e)).nan() by {
        law_row_sum_nan(e, layout, c);
    }
}

/// A row without a softmax asks the exponential of a NaN: a NaN stays one, the largest number less
/// itself is one where it is infinite.
proof fn lemma_improper_argument(row: Seq<F32>, m: F32) -> (at: int)
    requires
        row.len() == COLS,
        !softmax_laws::proper(row),
        max_laws::nan_free(row) ==> max_laws::is_maximum(m, row),
    ensures
        0 <= at < COLS,
        softmax::shifted(row, m)[at].nan(),
{
    let args = softmax::shifted(row, m);
    if !max_laws::nan_free(row) {
        let at = choose|i: int| 0 <= i < row.len() && (#[trigger] row[i]).nan();
        assert(args[at].nan());
        at
    } else {
        let here = choose|i: int| 0 <= i < row.len() && row[i] == m;
        assert(!row[here].nan());
        if m.finite() {
            assert(row[here].finite());
            assert forall|c: int| 0 <= c < row.len() implies (#[trigger] row[c]).rank()
                < binary32::INF by {
                assert(row[c].rank() <= m.rank());
            }
            assert(softmax_laws::proper(row));
        }
        let o = binary32::opposite(m);
        assert(o.magnitude() == m.magnitude() && o.negative() != m.negative());
        assert(args[here].nan());
        here
    }
}

/// A row without a softmax comes out all NaN, in every kernel and in the reference, for an exponential
/// that answers a NaN with a NaN: a row with a NaN, with positive infinity, or of negative infinity
/// alone.
pub proof fn law_improper_row<E: Fn(F32) -> F32>(
    exp: E,
    max: spec_fn(Seq<F32>) -> F32,
    sum: spec_fn(Seq<F32>) -> F32,
    x: Seq<F32>,
    y: Seq<F32>,
    rows: int,
    r: int,
    c: int,
)
    requires
        forall|a: F32, v: F32| #[trigger] exp.ensures((a,), v) && a.nan() ==> v.nan(),
        reduction_laws::finds(max),
        taints(sum),
        rows * COLS <= x.len(),
        rows * COLS <= y.len(),
        softmax::rows_done(exp, x, max, sum, y, rows),
        0 <= r < rows,
        !softmax_laws::proper(softmax::row_of(x, r)),
        0 <= c < COLS,
    ensures
        softmax::row_of(y, r)[c].nan(),
{
    let row = softmax::row_of(x, r);
    let m = max(row);
    assert(row.len() == COLS);
    assert(softmax::row_done(exp, row, m, sum, y, r * COLS));
    let e = softmax_laws::lemma_row_written(exp, row, m, sum, y, r);
    let at = lemma_improper_argument(row, m);
    assert(exp.ensures((softmax::shifted(row, m)[at],), e[at]));
    assert(sum(e).nan());
}

/// What makes a row improper.
pub proof fn law_improper(row: Seq<F32>, at: int)
    requires
        row.len() == COLS,
        0 <= at < COLS,
    ensures
        row[at].nan() ==> !softmax_laws::proper(row),
        row[at].infinite() && !row[at].negative() ==> !softmax_laws::proper(row),
        (forall|c: int| 0 <= c < COLS ==> (#[trigger] row[c]).infinite()) ==> !softmax_laws::proper(
            row,
        ),
{
}

/// In a proper row negative infinity comes out as zero, in every kernel and in the reference, for an
/// exponential that answers zero there.
pub proof fn law_negative_infinity<E: Fn(F32) -> F32>(
    exp: E,
    max: spec_fn(Seq<F32>) -> F32,
    sum: spec_fn(Seq<F32>) -> F32,
    d: int,
    x: Seq<F32>,
    y: Seq<F32>,
    rows: int,
    r: int,
    c: int,
)
    requires
        softmax_laws::exponential(exp),
        forall|a: F32, v: F32| #[trigger]
            exp.ensures((a,), v) && a.infinite() && a.negative() ==> v.magnitude() == 0,
        reduction_laws::finds(max),
        reduction_laws::adds(sum, d),
        rows * COLS <= y.len(),
        softmax::rows_done(exp, x, max, sum, y, rows),
        0 <= r < rows,
        softmax_laws::proper(softmax::row_of(x, r)),
        0 <= c < COLS,
        softmax::row_of(x, r)[c].infinite(),
    ensures
        softmax::row_of(y, r)[c].magnitude() == 0,
{
    let row = softmax::row_of(x, r);
    let m = max(row);
    assert(max_laws::is_maximum(m, row));
    assert(softmax::row_done(exp, row, m, sum, y, r * COLS));
    let e = softmax_laws::lemma_row_written(exp, row, m, sum, y, r);
    softmax_laws::law_exponentials(exp, row, m, e);
    let s = sum(e);
    assert(softmax_laws::covers(s, e));
    let at = choose|i: int| 0 <= i < row.len() && (#[trigger] row[i]).finite();
    let here = choose|i: int| 0 <= i < row.len() && row[i] == m;
    assert(row[at].rank() <= m.rank());
    assert(!row[here].nan() && row[here].rank() < binary32::INF);
    assert(m.finite());
    assert(row[c].rank() < binary32::INF);
    let args = softmax::shifted(row, m);
    assert(args[c] == row[c]);
    assert(exp.ensures((args[c],), e[c]));
    let top = choose|i: int| 0 <= i < e.len() && e[i] == (F32 { bits: binary32::ONE });
    assert(e[top].rank() <= s.rank());
    rounding::lemma_units_increase(0, s.magnitude());
    assert(binary32::units(0) * pow2(149) == 0) by (nonlinear_arith)
        requires
            binary32::units(0) == 0,
    ;
    number_laws::law_nearest_exact(0, 0, binary32::units(s.magnitude()));
}

} // verus!
