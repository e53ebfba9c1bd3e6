//! How a row's result follows the row: the order of its numbers, their distance to the largest, and
//! not their places.

use crate::agreement_laws;
use crate::arith;
use crate::binary32;
use crate::binary32::F32;
use crate::max_laws;
use crate::number_laws;
use crate::quotient_laws;
use crate::reduction_laws;
use crate::rounding;
use crate::softmax;
use crate::softmax::COLS;
use crate::softmax_laws;
use crate::sum_laws;
use crate::sum_laws::PARTS;
use vstd::arithmetic::power2::*;
use vstd::prelude::*;

verus! {

/// The exponential does not fall: on numbers that are not above zero, it answers no less where its
/// argument is no less.
pub open spec fn ordered<E: Fn(F32) -> F32>(exp: E) -> bool {
    forall|a: F32, b: F32, r: F32, q: F32| #[trigger]
        exp.ensures((a,), r) && #[trigger] exp.ensures((b,), q) && !a.nan() && !b.nan() && a.rank()
            <= b.rank() <= 0 ==> r.rank() <= q.rank()
}

/// Subtracting the same number keeps order.
pub proof fn law_difference_ordered(a: F32, b: F32, m: F32)
    requires
        !a.nan(),
        !b.nan(),
        m.finite(),
        a.rank() <= b.rank() <= m.rank(),
    ensures
        arith::difference(a, m).rank() <= arith::difference(b, m).rank(),
{
    let o = binary32::opposite(m);
    assert(o.magnitude() == m.magnitude() && o.negative() != m.negative());
    max_laws::law_difference_not_positive(a, m);
    max_laws::law_difference_not_positive(b, m);
    if a.finite() && b.finite() {
        number_laws::law_rank_is_order(a, b);
        number_laws::law_rank_is_order(a, m);
        number_laws::law_rank_is_order(b, m);
        let s: int = a.value() - m.value();
        let t: int = b.value() - m.value();
        assert(a.value() + o.value() == s && b.value() + o.value() == t);
        if t < 0 {
            number_laws::law_nearest((-s) as nat, 1);
            number_laws::law_nearest((-t) as nat, 1);
            number_laws::law_nearest_ordered((-t) as nat, 1, (-s) as nat, 1);
        }
    }
}

/// Dividing by the same positive number keeps order.
pub proof fn law_quotient_ordered(a: F32, b: F32, s: F32)
    requires
        sum_laws::plain(a),
        sum_laws::plain(b),
        sum_laws::plain(s),
        s.rank() > 0,
        a.rank() <= b.rank() <= s.rank(),
    ensures
        arith::quotient(a, s).rank() <= arith::quotient(b, s).rank(),
{
    let ua: nat = binary32::units(a.magnitude());
    let ub: nat = binary32::units(b.magnitude());
    let us: nat = binary32::units(s.magnitude());
    let p: nat = pow2(149);
    rounding::lemma_units_increase(0, s.magnitude());
    softmax_laws::law_quotient_is_fraction(a, s);
    softmax_laws::law_quotient_is_fraction(b, s);
    if a.magnitude() <= b.magnitude() {
        rounding::lemma_units_increase(a.magnitude(), b.magnitude());
        assert((ua * p) * us <= (ub * p) * us) by (nonlinear_arith)
            requires
                ua <= ub,
        ;
        number_laws::law_nearest(ua * p, us);
        number_laws::law_nearest(ub * p, us);
        number_laws::law_nearest_ordered(ua * p, us, ub * p, us);
    }
}

/// Of two numbers of a proper row, the result of the larger is no less.
proof fn lemma_row_order<E: Fn(F32) -> F32>(
    exp: E,
    max: spec_fn(Seq<F32>) -> F32,
    sum: spec_fn(Seq<F32>) -> F32,
    d: int,
    x: Seq<F32>,
    y: Seq<F32>,
    rows: int,
    r: int,
    a: int,
    b: int,
)
    requires
        softmax_laws::exponential(exp),
        ordered(exp),
        reduction_laws::finds(max),
        reduction_laws::adds(sum, d),
        rows * COLS <= y.len(),
        softmax::rows_done(exp, x, max, sum, y, rows),
        0 <= r < rows,
        softmax_laws::proper(softmax::row_of(x, r)),
        0 <= a < COLS,
        0 <= b < COLS,
        softmax::row_of(x, r)[a].rank() <= softmax::row_of(x, r)[b].rank(),
    ensures
        softmax::row_of(y, r)[a].rank() <= softmax::row_of(y, r)[b].rank(),
{
    let row = softmax::row_of(x, r);
    let m = max(row);
    assert(max_laws::is_maximum(m, row));
    assert(softmax::row_done(exp, row, m, sum, y, r * COLS));
    let e = softmax_laws::lemma_row_written(exp, row, m, sum, y, r);
    softmax_laws::law_exponentials(exp, row, m, e);
    let s = sum(e);
    assert(softmax_laws::covers(s, e));
    let args = softmax::shifted(row, m);
    let at = choose|c: int| 0 <= c < row.len() && (#[trigger] row[c]).finite();
    let here = choose|c: int| 0 <= c < row.len() && row[c] == m;
    assert(row[at].rank() <= m.rank());
    assert(!row[here].nan() && row[here].rank() < binary32::INF);
    assert(!row[a].nan() && !row[b].nan() && row[b].rank() <= m.rank());
    max_laws::law_difference_not_positive(row[a], m);
    max_laws::law_difference_not_positive(row[b], m);
    law_difference_ordered(row[a], row[b], m);
    assert(exp.ensures((args[a],), e[a]));
    assert(exp.ensures((args[b],), e[b]));
    let top = choose|i: int| 0 <= i < e.len() && e[i] == (F32 { bits: binary32::ONE });
    assert(e[top].rank() <= s.rank());
    assert(softmax_laws::counts(e[a]) && e[a].rank() <= binary32::ONE);
    assert(softmax_laws::counts(e[b]) && e[b].rank() <= s.rank());
    law_quotient_ordered(e[a], e[b], s);
}

/// Within a proper row the results are in the order of the numbers, and equal where the numbers are,
/// for an exponential that does not fall.
pub proof fn law_row_order<E: Fn(F32) -> F32>(
    exp: E,
    max: spec_fn(Seq<F32>) -> F32,
    sum: spec_fn(Seq<F32>) -> F32,
    d: int,
    x: Seq<F32>,
    y: Seq<F32>,
    rows: int,
    r: int,
    a: int,
    b: int,
)
    requires
        softmax_laws::exponential(exp),
        ordered(exp),
        reduction_laws::finds(max),
        reduction_laws::adds(sum, d),
        rows * COLS <= y.len(),
        softmax::rows_done(exp, x, max, sum, y, rows),
        0 <= r < rows,
        softmax_laws::proper(softmax::row_of(x, r)),
        0 <= a < COLS,
        0 <= b < COLS,
    ensures
        softmax::row_of(x, r)[a].rank() <= softmax::row_of(x, r)[b].rank() ==> softmax::row_of(
            y,
            r,
        )[a].rank() <= softmax::row_of(y, r)[b].rank(),
        softmax::row_of(x, r)[a].rank() == softmax::row_of(x, r)[b].rank() ==> softmax::row_of(
            y,
            r,
        )[a].rank() == softmax::row_of(y, r)[b].rank(),
{
    let row = softmax::row_of(x, r);
    if row[a].rank() <= row[b].rank() {
        lemma_row_order(exp, max, sum, d, x, y, rows, r, a, b);
    }
    if row[b].rank() <= row[a].rank() {
        lemma_row_order(exp, max, sum, d, x, y, rows, r, b, a);
    }
}

/// `other` is `row` with every number moved by `k` units, exactly.
pub open spec fn moved(row: Seq<F32>, other: Seq<F32>, k: int) -> bool {
    &&& row.len() == other.len()
    &&& forall|c: int|
        0 <= c < row.len() ==> (#[trigger] row[c]).finite() && other[c].finite() && other[c].value()
            == row[c].value() + k
}

/// Moving every number by the same amount moves the maximum too.
proof fn lemma_moved_maximum(row: Seq<F32>, other: Seq<F32>, k: int, m: F32, n: F32)
    requires
        moved(row, other, k),
        max_laws::is_maximum(m, row),
        max_laws::is_maximum(n, other),
    ensures
        m.finite(),
        n.finite(),
        n.value() == m.value() + k,
{
    let i = choose|c: int| 0 <= c < row.len() && row[c] == m;
    let j = choose|c: int| 0 <= c < other.len() && other[c] == n;
    assert(row[i].finite() && row[j].finite());
    assert(row[j].rank() <= m.rank());
    assert(other[i].rank() <= n.rank());
    number_laws::law_rank_is_order(row[j], m);
    number_laws::law_rank_is_order(m, row[j]);
    number_laws::law_rank_is_order(other[i], n);
    number_laws::law_rank_is_order(n, other[i]);
}

/// Moving every number of a row by the same amount, where that needs no rounding, changes nothing in
/// the result, for an exponential that answers alike.
pub proof fn law_moved_row<E: Fn(F32) -> F32>(
    exp: E,
    max: spec_fn(Seq<F32>) -> F32,
    sum: spec_fn(Seq<F32>) -> F32,
    x: Seq<F32>,
    y: Seq<F32>,
    rows: int,
    r: int,
    x2: Seq<F32>,
    y2: Seq<F32>,
    rows2: int,
    r2: int,
    k: int,
)
    requires
        softmax_laws::exponential(exp),
        agreement_laws::repeatable(exp),
        reduction_laws::finds(max),
        rows * COLS <= x.len(),
        rows * COLS <= y.len(),
        softmax::rows_done(exp, x, max, sum, y, rows),
        rows2 * COLS <= x2.len(),
        rows2 * COLS <= y2.len(),
        softmax::rows_done(exp, x2, max, sum, y2, rows2),
        0 <= r < rows,
        0 <= r2 < rows2,
        moved(softmax::row_of(x, r), softmax::row_of(x2, r2), k),
    ensures
        softmax::row_of(y, r) == softmax::row_of(y2, r2),
{
    let row = softmax::row_of(x, r);
    let other = softmax::row_of(x2, r2);
    assert(row.len() == COLS && other.len() == COLS);
    assert forall|c: int| 0 <= c < row.len() implies !(#[trigger] row[c]).nan() by {
        assert(row[c].finite());
    }
    assert forall|c: int| 0 <= c < other.len() implies !(#[trigger] other[c]).nan() by {
        assert(row[c].finite());
    }
    let m = max(row);
    let n = max(other);
    assert(max_laws::is_maximum(m, row) && max_laws::is_maximum(n, other));
    lemma_moved_maximum(row, other, k, m, n);
    assert(softmax::row_done(exp, row, m, sum, y, r * COLS));
    assert(softmax::row_done(exp, other, n, sum, y2, r2 * COLS));
    let d = softmax_laws::lemma_row_written(exp, row, m, sum, y, r);
    let e = softmax_laws::lemma_row_written(exp, other, n, sum, y2, r2);
    assert forall|c: int| 0 <= c < d.len() implies d[c] == e[c] by {
        let p = softmax::shifted(row, m)[c];
        let q = softmax::shifted(other, n)[c];
        assert(exp.ensures((p,), d[c]));
        assert(exp.ensures((q,), e[c]));
        let om = binary32::opposite(m);
        let on = binary32::opposite(n);
        assert(om.magnitude() == m.magnitude() && om.negative() != m.negative());
        assert(on.magnitude() == n.magnitude() && on.negative() != n.negative());
        assert(row[c].finite());
        assert(row[c].value() + om.value() == other[c].value() + on.value());
        assert(p == q || (p.magnitude() == 0 && q.magnitude() == 0));
    }
    assert(d =~= e);
}

/// What the exponential answers on the distance of `v` to the maximum.
spec fn answer<E: Fn(F32) -> F32>(exp: E, m: F32, v: F32) -> F32 {
    choose|r: F32| exp.ensures((arith::difference(v, m),), r)
}

/// The exact sum of what a function makes of a row, from one number to the next.
proof fn lemma_exact_folds(row: Seq<F32>, e: Seq<F32>, f: spec_fn(F32) -> F32, n: nat)
    requires
        n <= row.len(),
        e.len() == row.len(),
        forall|c: int| 0 <= c < e.len() ==> #[trigger] e[c] == f(row[c]),
    ensures
        sum_laws::added(sum_laws::values(e), n) == row.take(n as int).fold_left(
            0int,
            |acc: int, v: F32| acc + f(v).value(),
        ),
    decreases n,
{
    reveal_with_fuel(Seq::fold_left, 2);
    if n > 0 {
        lemma_exact_folds(row, e, f, (n - 1) as nat);
        let t = row.take(n as int);
        assert(t.drop_last() =~= row.take(n - 1));
        assert(t.last() == row[n - 1]);
        assert(e[n - 1] == f(row[n - 1]));
    }
}

/// A row and the same numbers in another order have the same exponentials, each where its number is,
/// and those have the same exact sum.
proof fn lemma_rearranged<E: Fn(F32) -> F32>(
    exp: E,
    row: Seq<F32>,
    other: Seq<F32>,
    m: F32,
    n: F32,
    d: Seq<F32>,
    e: Seq<F32>,
)
    requires
        softmax_laws::exponential(exp),
        agreement_laws::repeatable(exp),
        softmax_laws::proper(row),
        softmax_laws::proper(other),
        row.to_multiset() == other.to_multiset(),
        max_laws::is_maximum(m, row),
        max_laws::is_maximum(n, other),
        softmax::answers(exp, softmax::shifted(row, m), d),
        softmax::answers(exp, softmax::shifted(other, n), e),
    ensures
        forall|a: int, b: int|
            0 <= a < COLS && 0 <= b < COLS && row[a] == other[b] ==> #[trigger] d[a]
                == #[trigger] e[b],
        sum_laws::exact(d) == sum_laws::exact(e),
{
    broadcast use vstd::seq_lib::group_to_multiset_ensures;

    let f = |v: F32| answer(exp, m, v);
    assert forall|v: F32| #[trigger] row.contains(v) <==> other.contains(v) by {
        assert(row.to_multiset().count(v) > 0 <==> row.contains(v));
        assert(other.to_multiset().count(v) > 0 <==> other.contains(v));
    }
    assert(other.contains(m)) by {
        assert(row.contains(m));
    }
    assert forall|c: int| 0 <= c < other.len() implies (#[trigger] other[c]).rank() <= m.rank() by {
        assert(other.contains(other[c]));
        assert(row.contains(other[c]));
    }
    assert(max_laws::is_maximum(m, other));
    assert forall|c: int| 0 <= c < d.len() implies #[trigger] d[c] == f(row[c]) by {
        let p = softmax::shifted(row, m)[c];
        assert(exp.ensures((p,), d[c]));
    }
    assert forall|c: int| 0 <= c < e.len() implies #[trigger] e[c] == f(other[c]) by {
        let p = softmax::shifted(other, n)[c];
        let q = softmax::shifted(other, m)[c];
        agreement_laws::lemma_same_shift(other, n, m, c);
        assert(exp.ensures((p,), e[c]));
        assert(other.contains(other[c]));
        assert(row.contains(other[c]));
        let i = choose|i: int| 0 <= i < row.len() && row[i] == other[c];
        assert(softmax::shifted(row, m)[i] == q);
        assert(exp.ensures((q,), d[i]));
        assert(d[i] == f(row[i]));
    }
    let g = |acc: int, v: F32| acc + f(v).value();
    lemma_exact_folds(row, d, f, COLS as nat);
    lemma_exact_folds(other, e, f, COLS as nat);
    assert(row.take(COLS as int) =~= row);
    assert(other.take(COLS as int) =~= other);
    assert(vstd::seq_lib::commutative_foldl(g));
    vstd::seq_lib::lemma_fold_left_permutation(row, other, g, 0int);
}

/// `a` and `b` are no further apart than `parts` in 2^24 of `b`, and two units.
pub open spec fn within(a: F32, b: F32, parts: int) -> bool {
    &&& PARTS * (a.value() - b.value()) <= parts * b.value() + 2 * PARTS
    &&& PARTS * (b.value() - a.value()) <= parts * b.value() + 2 * PARTS
}

/// The same numbers in another order: each comes out the same wherever it stands, to 27 parts in 2^24
/// and two units for the kernels, 513 for the reference, for an exponential that answers alike. Only
/// the order of the additions differs. Together they are within one in 30,000 of one.
pub proof fn law_rearranged_row<E: Fn(F32) -> F32>(
    exp: E,
    max: spec_fn(Seq<F32>) -> F32,
    sum: spec_fn(Seq<F32>) -> F32,
    d: int,
    x: Seq<F32>,
    y: Seq<F32>,
    rows: int,
    r: int,
    x2: Seq<F32>,
    y2: Seq<F32>,
    rows2: int,
    r2: int,
    a: int,
    b: int,
)
    requires
        softmax_laws::exponential(exp),
        agreement_laws::repeatable(exp),
        reduction_laws::finds(max),
        reduction_laws::adds(sum, d),
        d == 12 || d == 255,
        rows * COLS <= y.len(),
        softmax::rows_done(exp, x, max, sum, y, rows),
        rows2 * COLS <= y2.len(),
        softmax::rows_done(exp, x2, max, sum, y2, rows2),
        0 <= r < rows,
        0 <= r2 < rows2,
        softmax_laws::proper(softmax::row_of(x, r)),
        softmax::row_of(x, r).to_multiset() == softmax::row_of(x2, r2).to_multiset(),
        0 <= a < COLS,
        0 <= b < COLS,
        softmax::row_of(x, r)[a] == softmax::row_of(x2, r2)[b],
    ensures
        sum_laws::plain(softmax::row_of(y, r)[a]),
        sum_laws::plain(softmax::row_of(y2, r2)[b]),
        within(softmax::row_of(y, r)[a], softmax::row_of(y2, r2)[b], 2 * d + 3),
        30_000 * (softmax::row_of(y, r)[a].value() - softmax::row_of(y2, r2)[b].value())
            <= sum_laws::one(),
        30_000 * (softmax::row_of(y2, r2)[b].value() - softmax::row_of(y, r)[a].value())
            <= sum_laws::one(),
{
    let row = softmax::row_of(x, r);
    let other = softmax::row_of(x2, r2);
    lemma_rearranged_proper(row, other);
    let m = max(row);
    let n = max(other);
    assert(max_laws::is_maximum(m, row) && max_laws::is_maximum(n, other));
    assert(softmax::row_done(exp, row, m, sum, y, r * COLS));
    assert(softmax::row_done(exp, other, n, sum, y2, r2 * COLS));
    let e = softmax_laws::lemma_row_written(exp, row, m, sum, y, r);
    let g = softmax_laws::lemma_row_written(exp, other, n, sum, y2, r2);
    softmax_laws::law_exponentials(exp, row, m, e);
    softmax_laws::law_exponentials(exp, other, n, g);
    lemma_rearranged(exp, row, other, m, n, e, g);
    let s = sum(e);
    let t = sum(g);
    assert(softmax_laws::covers(s, e) && softmax_laws::covers(t, g));
    assert(e[a] == g[b]);
    let p = arith::quotient(e[a], s);
    let q = arith::quotient(g[b], t);
    quotient_laws::lemma_quotient_place(e, s, d, a);
    quotient_laws::lemma_quotient_place(g, t, d, b);
    quotient_laws::lemma_exact_one(e, s, d);
    quotient_laws::lemma_fraction(e, s, d, a);
    quotient_laws::lemma_fraction(g, t, d, b);
    rounding::lemma_units_increase(0, p.magnitude());
    rounding::lemma_units_increase(0, q.magnitude());
    rounding::lemma_units_increase(0, e[a].magnitude());
    let total: int = sum_laws::exact(e);
    let v: int = e[a].value();
    assert(softmax_laws::counts(e[a]));
    lemma_pow2_strictly_increases(64, 149);
    lemma2_to64();
    sum_laws::lemma_large();
    quotient_laws::lemma_elsewhere(d, 0, 0, v, v, total, total, sum_laws::one(), p.value());
    quotient_laws::lemma_apart(d, d, 0, 1, v * sum_laws::one(), total, p.value(), q.value());
    quotient_laws::lemma_parts(d, d, 0, 1, p.value(), q.value());
    assert((2 * d + 3) * q.value() <= 513 * q.value()) by (nonlinear_arith)
        requires
            d <= 255,
            q.value() >= 0,
    ;
}

/// The same numbers in another order make a proper row too.
proof fn lemma_rearranged_proper(row: Seq<F32>, other: Seq<F32>)
    requires
        softmax_laws::proper(row),
        row.to_multiset() == other.to_multiset(),
    ensures
        softmax_laws::proper(other),
{
    broadcast use vstd::seq_lib::group_to_multiset_ensures;

    assert(row.to_multiset().len() == row.len() && other.to_multiset().len() == other.len());
    assert forall|v: F32| #[trigger] row.contains(v) <==> other.contains(v) by {
        assert(row.to_multiset().count(v) > 0 <==> row.contains(v));
        assert(other.to_multiset().count(v) > 0 <==> other.contains(v));
    }
    assert forall|c: int| 0 <= c < other.len() implies !(#[trigger] other[c]).nan()
        && other[c].rank() < binary32::INF by {
        assert(other.contains(other[c]));
        assert(row.contains(other[c]));
    }
    let at = choose|c: int| 0 <= c < row.len() && (#[trigger] row[c]).finite();
    assert(row.contains(row[at]));
    assert(other.contains(row[at]));
    let i = choose|i: int| 0 <= i < other.len() && other[i] == row[at];
    assert(other[i].finite());
}

} // verus!
