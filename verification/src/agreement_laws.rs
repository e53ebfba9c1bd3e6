//! How far the kernels are from the reference.

use crate::arith;
use crate::binary32;
use crate::binary32::F32;
use crate::max_laws;
use crate::number_laws;
use crate::pairs::Layout;
use crate::quotient_laws;
use crate::reduction_laws;
use crate::reference;
use crate::report;
use crate::rounding;
use crate::simt;
use crate::softmax;
use crate::softmax::COLS;
use crate::softmax_laws;
use crate::sum_laws;
use crate::sum_laws::PARTS;
use vstd::arithmetic::power2::*;
use vstd::prelude::*;

verus! {

/// The exponential answers the same on the same number.
pub open spec fn repeatable<E: Fn(F32) -> F32>(exp: E) -> bool {
    forall|a: F32, r: F32, q: F32| #[trigger]
        exp.ensures((a,), r) && #[trigger] exp.ensures((a,), q) ==> r == q
}

/// The answers of two exponentials on one number that is not above zero differ by no more than `k`
/// parts in 2^24 of the second, and `u` units.
pub open spec fn alike<D: Fn(F32) -> F32, H: Fn(F32) -> F32>(dev: D, host: H, k: int, u: int) -> bool {
    forall|a: F32, r: F32, q: F32| #[trigger]
        dev.ensures((a,), r) && #[trigger] host.ensures((a,), q) && !a.nan() && a.rank() <= 0 ==> {
            &&& PARTS * (r.value() - q.value()) <= k * q.value() + PARTS * u
            &&& PARTS * (q.value() - r.value()) <= k * q.value() + PARTS * u
        }
}

/// How much two exponentials may differ for the laws to hold: by 30 parts in 2^24, and by 2^24 units,
/// so that one of them may take a subnormal number for zero.
pub open spec fn slight(k: int, u: int) -> bool {
    0 <= k <= 30 && 0 <= u <= 0x100_0000
}

/// An exponential that answers the same on the same number is like itself.
pub proof fn law_repeatable_alike<E: Fn(F32) -> F32>(exp: E)
    requires
        repeatable(exp),
        softmax_laws::exponential(exp),
    ensures
        alike(exp, exp, 0, 0),
{
}

/// `a` is apart from `b` by no more than 270 parts in 2^24 of `b` and two units, and a little more
/// where the exponentials differ by `k` parts in 2^24 and `u` units.
pub open spec fn near(a: F32, b: F32, k: int, u: int) -> bool {
    &&& a.finite()
    &&& b.finite()
    &&& PARTS * (a.value() - b.value()) <= (270 + 2 * k) * b.value() + PARTS * (2 + 520 * u)
    &&& PARTS * (b.value() - a.value()) <= (270 + 2 * k) * b.value() + PARTS * (2 + 520 * u)
}

/// The distance to a maximum does not depend on which maximum is taken, but for the sign of a zero.
pub proof fn lemma_same_shift(row: Seq<F32>, a: F32, b: F32, c: int)
    requires
        softmax_laws::proper(row),
        max_laws::is_maximum(a, row),
        max_laws::is_maximum(b, row),
        0 <= c < row.len(),
    ensures
        ({
            let p = softmax::shifted(row, a)[c];
            let q = softmax::shifted(row, b)[c];
            p == q || (p.magnitude() == 0 && q.magnitude() == 0)
        }),
{
    max_laws::law_maximum_unique(a, b, row);
    if a.rank() == 0 {
        assert(!row[c].nan());
        assert(row[c].rank() <= 0);
        assert(a.magnitude() == 0 && b.magnitude() == 0);
        max_laws::law_difference_not_positive(row[c], a);
        max_laws::law_difference_not_positive(row[c], b);
    }
}

/// Whatever maximum is taken, the exponentials are the same.
pub proof fn law_same_exponentials<E: Fn(F32) -> F32>(
    exp: E,
    row: Seq<F32>,
    a: F32,
    b: F32,
    d: Seq<F32>,
    e: Seq<F32>,
)
    requires
        softmax_laws::exponential(exp),
        repeatable(exp),
        softmax_laws::proper(row),
        max_laws::is_maximum(a, row),
        max_laws::is_maximum(b, row),
        softmax::answers(exp, softmax::shifted(row, a), d),
        softmax::answers(exp, softmax::shifted(row, b), e),
    ensures
        d == e,
{
    assert forall|c: int| 0 <= c < d.len() implies d[c] == e[c] by {
        lemma_same_shift(row, a, b, c);
        let p = softmax::shifted(row, a)[c];
        let q = softmax::shifted(row, b)[c];
        assert(exp.ensures((p,), d[c]));
        assert(exp.ensures((q,), e[c]));
    }
    assert(d =~= e);
}

/// Sums of numbers that are alike one by one are alike.
proof fn lemma_alike_sums(d: Seq<int>, e: Seq<int>, k: int, u: int, n: nat)
    requires
        n <= d.len(),
        d.len() == e.len(),
        forall|c: int|
            0 <= c < d.len() ==> {
                &&& PARTS * (#[trigger] d[c]) <= (PARTS + k) * e[c] + PARTS * u
                &&& (PARTS - k) * e[c] <= PARTS * d[c] + PARTS * u
            },
    ensures
        PARTS * sum_laws::added(d, n) <= (PARTS + k) * sum_laws::added(e, n) + n * (PARTS * u),
        (PARTS - k) * sum_laws::added(e, n) <= PARTS * sum_laws::added(d, n) + n * (PARTS * u),
    decreases n,
{
    if n > 0 {
        let i: nat = (n - 1) as nat;
        lemma_alike_sums(d, e, k, u, i);
        let a: int = sum_laws::added(e, i);
        let w: int = PARTS * u;
        assert(PARTS * d[n - 1] <= (PARTS + k) * e[n - 1] + PARTS * u);
        assert((PARTS + k) * (a + e[n - 1]) == (PARTS + k) * a + (PARTS + k) * e[n - 1])
            by (nonlinear_arith);
        assert((PARTS - k) * (a + e[n - 1]) == (PARTS - k) * a + (PARTS - k) * e[n - 1])
            by (nonlinear_arith);
        assert(n * w == i * w + w) by (nonlinear_arith)
            requires
                n == i + 1,
        ;
    } else {
        assert((PARTS + k) * 0 == 0 && (PARTS - k) * 0 == 0 && 0 * (PARTS * u) == 0)
            by (nonlinear_arith);
    }
}

/// A kernel's element and the reference's, from exponentials that are alike.
proof fn lemma_near(d: Seq<F32>, e: Seq<F32>, s: F32, t: F32, k: int, u: int, c: int)
    requires
        quotient_laws::sound(d, s, 12),
        quotient_laws::sound(e, t, 255),
        slight(k, u),
        forall|c: int|
            0 <= c < COLS ==> {
                &&& PARTS * ((#[trigger] d[c]).value() - e[c].value()) <= k * e[c].value() + PARTS * u
                &&& PARTS * (e[c].value() - d[c].value()) <= k * e[c].value() + PARTS * u
            },
        0 <= c < COLS,
    ensures
        near(arith::quotient(d[c], s), arith::quotient(e[c], t), k, u),
{
    let a = arith::quotient(d[c], s);
    let b = arith::quotient(e[c], t);
    let p: int = sum_laws::one();
    let xd: int = sum_laws::exact(d);
    let xe: int = sum_laws::exact(e);
    let dv: int = d[c].value();
    let ev: int = e[c].value();
    quotient_laws::lemma_quotient_place(d, s, 12, c);
    quotient_laws::lemma_quotient_place(e, t, 255, c);
    quotient_laws::lemma_exact_one(e, t, 255);
    rounding::lemma_units_increase(0, a.magnitude());
    rounding::lemma_units_increase(0, b.magnitude());
    quotient_laws::lemma_fraction(d, s, 12, c);
    assert(softmax_laws::counts(e[c]) && e[c].rank() <= binary32::ONE);
    rounding::lemma_units_increase(0, e[c].magnitude());
    let vd = sum_laws::values(d);
    let ve = sum_laws::values(e);
    assert forall|i: int| 0 <= i < vd.len() implies ({
        &&& PARTS * (#[trigger] vd[i]) <= (PARTS + k) * ve[i] + PARTS * u
        &&& (PARTS - k) * ve[i] <= PARTS * vd[i] + PARTS * u
    }) by {
        assert(vd[i] == d[i].value() && ve[i] == e[i].value());
        assert((PARTS + k) * ve[i] == PARTS * ve[i] + k * ve[i]) by (nonlinear_arith);
        assert((PARTS - k) * ve[i] == PARTS * ve[i] - k * ve[i]) by (nonlinear_arith);
    }
    assert(vd[c] == dv && ve[c] == ev);
    lemma_alike_sums(vd, ve, k, u, COLS as nat);
    sum_laws::lemma_large();
    quotient_laws::lemma_elsewhere(12, k, u, dv, ev, xd, xe, p, a.value());
    let w: int = 1 + 520 * u;
    quotient_laws::lemma_apart(12, 255, k, w, ev * p, xe, a.value(), b.value());
    quotient_laws::lemma_parts(12, 255, k, w, a.value(), b.value());
}

/// What two exponentials that are alike answer in a row.
proof fn lemma_alike_answers<D: Fn(F32) -> F32, H: Fn(F32) -> F32>(
    dev: D,
    host: H,
    k: int,
    u: int,
    row: Seq<F32>,
    m: F32,
    n: F32,
    d: Seq<F32>,
    e: Seq<F32>,
)
    requires
        softmax_laws::exponential(dev),
        softmax_laws::exponential(host),
        alike(dev, host, k, u),
        slight(k, u),
        softmax_laws::proper(row),
        max_laws::is_maximum(m, row),
        max_laws::is_maximum(n, row),
        softmax::answers(dev, softmax::shifted(row, m), d),
        softmax::answers(host, softmax::shifted(row, n), e),
        softmax_laws::all_count(e),
    ensures
        forall|i: int|
            0 <= i < COLS ==> {
                &&& PARTS * ((#[trigger] d[i]).value() - e[i].value()) <= k * e[i].value() + PARTS * u
                &&& PARTS * (e[i].value() - d[i].value()) <= k * e[i].value() + PARTS * u
            },
{
    let p = softmax::shifted(row, m);
    let q = softmax::shifted(row, n);
    let at = choose|c: int| 0 <= c < row.len() && (#[trigger] row[c]).finite();
    let here = choose|c: int| 0 <= c < row.len() && row[c] == m;
    assert(row[at].rank() <= m.rank());
    assert(!row[here].nan() && row[here].rank() < binary32::INF);
    max_laws::law_shift_bounds(row, m);
    assert forall|i: int| 0 <= i < COLS implies ({
        &&& PARTS * ((#[trigger] d[i]).value() - e[i].value()) <= k * e[i].value() + PARTS * u
        &&& PARTS * (e[i].value() - d[i].value()) <= k * e[i].value() + PARTS * u
    }) by {
        lemma_same_shift(row, m, n, i);
        assert(dev.ensures((p[i],), d[i]));
        assert(host.ensures((q[i],), e[i]));
        assert(!p[i].nan() && p[i].rank() <= 0);
        assert(softmax_laws::counts(e[i]));
        rounding::lemma_units_increase(0, e[i].magnitude());
        if p[i] != q[i] {
            assert(d[i].bits == binary32::ONE && e[i].bits == binary32::ONE);
            assert(k * e[i].value() >= 0 && PARTS * u >= 0) by (nonlinear_arith)
                requires
                    k >= 0,
                    u >= 0,
                    e[i].value() >= 0,
            ;
        }
    }
}

/// A kernel's element of a row and the reference's, from what the exponentials answered.
proof fn lemma_near_answers<D: Fn(F32) -> F32, H: Fn(F32) -> F32>(
    dev: D,
    host: H,
    k: int,
    u: int,
    row: Seq<F32>,
    m: F32,
    n: F32,
    d: Seq<F32>,
    e: Seq<F32>,
    s: F32,
    c: int,
)
    requires
        softmax_laws::exponential(dev),
        softmax_laws::exponential(host),
        alike(dev, host, k, u),
        slight(k, u),
        softmax_laws::proper(row),
        max_laws::is_maximum(m, row),
        max_laws::is_maximum(n, row),
        softmax::answers(dev, softmax::shifted(row, m), d),
        softmax::answers(host, softmax::shifted(row, n), e),
        softmax_laws::covers(s, d),
        sum_laws::close(s, sum_laws::exact(d), 12),
        0 <= c < COLS,
    ensures
        near(arith::quotient(d[c], s), arith::quotient(e[c], reference::row_sum(e)), k, u),
{
    softmax_laws::law_exponentials(dev, row, m, d);
    softmax_laws::law_exponentials(host, row, n, e);
    softmax_laws::law_row_sum_covers(e, Layout::Strided);
    sum_laws::law_reference_sum(e);
    lemma_alike_answers(dev, host, k, u, row, m, n, d, e);
    lemma_near(d, e, s, reference::row_sum(e), k, u, c);
}

/// Every element of a proper row is near the reference's, whatever finds the maximum and adds up.
pub proof fn lemma_near_reference<D: Fn(F32) -> F32, H: Fn(F32) -> F32>(
    dev: D,
    host: H,
    k: int,
    u: int,
    max: spec_fn(Seq<F32>) -> F32,
    sum: spec_fn(Seq<F32>) -> F32,
    x: Seq<F32>,
    y: Seq<F32>,
    expected: Seq<F32>,
    rows: int,
    r: int,
    c: int,
)
    requires
        softmax_laws::exponential(dev),
        softmax_laws::exponential(host),
        alike(dev, host, k, u),
        slight(k, u),
        reduction_laws::finds(max),
        reduction_laws::adds(sum, 12),
        rows * COLS <= y.len(),
        rows * COLS <= expected.len(),
        softmax::rows_done(dev, x, max, sum, y, rows),
        softmax::rows_done(
            host,
            x,
            |row: Seq<F32>| reference::row_max(row),
            |e: Seq<F32>| reference::row_sum(e),
            expected,
            rows,
        ),
        0 <= r < rows,
        0 <= c < COLS,
        softmax_laws::proper(softmax::row_of(x, r)),
    ensures
        near(softmax::row_of(y, r)[c], softmax::row_of(expected, r)[c], k, u),
{
    let row = softmax::row_of(x, r);
    let m = max(row);
    let n = reference::row_max(row);
    let plain_sum = |e: Seq<F32>| reference::row_sum(e);
    max_laws::law_row_max(row, Layout::Strided);
    assert(max_laws::is_maximum(m, row));
    assert(softmax::row_done(dev, row, m, sum, y, r * COLS));
    assert(softmax::row_done(host, row, n, plain_sum, expected, r * COLS));
    let d = softmax_laws::lemma_row_written(dev, row, m, sum, y, r);
    let e = softmax_laws::lemma_row_written(host, row, n, plain_sum, expected, r);
    softmax_laws::law_exponentials(dev, row, m, d);
    assert(softmax_laws::covers(sum(d), d));
    lemma_near_answers(dev, host, k, u, row, m, n, d, e, sum(d), c);
}

/// With one thread per element, every element of a proper row is near the reference's, for a device's
/// exponential and the host's that are alike.
pub proof fn law_simt_near_reference<D: Fn(F32) -> F32, H: Fn(F32) -> F32>(
    dev: D,
    host: H,
    k: int,
    u: int,
    x: Seq<F32>,
    y: Seq<F32>,
    expected: Seq<F32>,
    rows: int,
    r: int,
    c: int,
)
    requires
        softmax_laws::exponential(dev),
        softmax_laws::exponential(host),
        alike(dev, host, k, u),
        slight(k, u),
        rows * COLS <= y.len(),
        rows * COLS <= expected.len(),
        softmax::rows_done(
            dev,
            x,
            |row: Seq<F32>| simt::row_max(row),
            |e: Seq<F32>| simt::row_sum(e),
            y,
            rows,
        ),
        softmax::rows_done(
            host,
            x,
            |row: Seq<F32>| reference::row_max(row),
            |e: Seq<F32>| reference::row_sum(e),
            expected,
            rows,
        ),
        0 <= r < rows,
        0 <= c < COLS,
        softmax_laws::proper(softmax::row_of(x, r)),
    ensures
        near(softmax::row_of(y, r)[c], softmax::row_of(expected, r)[c], k, u),
{
    reduction_laws::law_kernels_reduce(Layout::Strided);
    let max = |row: Seq<F32>| simt::row_max(row);
    let sum = |e: Seq<F32>| simt::row_sum(e);
    lemma_near_reference(dev, host, k, u, max, sum, x, y, expected, rows, r, c);
}

/// With two elements per thread, in either layout, every element of a proper row is near the
/// reference's, for a device's exponential and the host's that are alike.
pub proof fn law_pairs_near_reference<D: Fn(F32) -> F32, H: Fn(F32) -> F32>(
    layout: Layout,
    dev: D,
    host: H,
    k: int,
    u: int,
    x: Seq<F32>,
    y: Seq<F32>,
    expected: Seq<F32>,
    rows: int,
    r: int,
    c: int,
)
    requires
        softmax_laws::exponential(dev),
        softmax_laws::exponential(host),
        alike(dev, host, k, u),
        slight(k, u),
        rows * COLS <= y.len(),
        rows * COLS <= expected.len(),
        softmax::rows_done(
            dev,
            x,
            |row: Seq<F32>| layout.row_max(row),
            |e: Seq<F32>| layout.row_sum(e),
            y,
            rows,
        ),
        softmax::rows_done(
            host,
            x,
            |row: Seq<F32>| reference::row_max(row),
            |e: Seq<F32>| reference::row_sum(e),
            expected,
            rows,
        ),
        0 <= r < rows,
        0 <= c < COLS,
        softmax_laws::proper(softmax::row_of(x, r)),
    ensures
        near(softmax::row_of(y, r)[c], softmax::row_of(expected, r)[c], k, u),
{
    reduction_laws::law_kernels_reduce(layout);
    let max = |row: Seq<F32>| layout.row_max(row);
    let sum = |e: Seq<F32>| layout.row_sum(e);
    lemma_near_reference(dev, host, k, u, max, sum, x, y, expected, rows, r, c);
}

/// Near an element of at most one is within one part in 50,000 of one. Near an element that is small
/// enough, such as 1/17 for exponentials that answer the same, is within one in a million, and the
/// distance as it is computed passes the test for that.
pub proof fn law_near_tolerance(a: F32, b: F32, k: int, u: int)
    requires
        near(a, b, k, u),
        slight(k, u),
        sum_laws::plain(a),
        sum_laws::plain(b),
        b.rank() <= binary32::ONE,
    ensures
        50_000 * (a.value() - b.value()) <= sum_laws::one(),
        50_000 * (b.value() - a.value()) <= sum_laws::one(),
        10 * ((270 + 2 * k) * b.value()) <= 167 * sum_laws::one() ==> {
            &&& 1_000_000 * (a.value() - b.value()) <= sum_laws::one()
            &&& 1_000_000 * (b.value() - a.value()) <= sum_laws::one()
            &&& !report::distance(a, b).nan()
            &&& !binary32::above(report::distance(a, b), F32 { bits: report::TOLERANCE })
        },
{
    let p: int = sum_laws::one();
    lemma_pow2_strictly_increases(64, 149);
    lemma2_to64();
    lemma_pow2_adds(64, 85);
    lemma_pow2_strictly_increases(64, 85);
    sum_laws::lemma_large();
    rounding::lemma_units_increase(0, b.magnitude());
    if !b.negative() {
        rounding::lemma_units_increase(b.magnitude(), binary32::ONE as nat);
    }
    assert(b.value() <= p);
    assert(p >= 0x1_0000_0000_0000_0000 * 0x1_0000_0000_0000_0000) by (nonlinear_arith)
        requires
            p == pow2(64) * pow2(85),
            pow2(64) == 0x1_0000_0000_0000_0000,
            pow2(85) >= 0x1_0000_0000_0000_0000,
    ;
    assert((270 + 2 * k) * b.value() <= 330 * b.value()) by (nonlinear_arith)
        requires
            k <= 30,
            b.value() >= 0,
    ;
    if 10 * ((270 + 2 * k) * b.value()) <= 167 * p {
        lemma_within_tolerance(a, b);
    }
}

/// A distance of at most 0x8637bd parts in 2^43 of one, which is the tolerance, passes the test.
pub proof fn lemma_within_tolerance(a: F32, b: F32)
    requires
        a.finite(),
        b.finite(),
        0x800_0000_0000 * (a.value() - b.value()) <= 0x86_37bd * sum_laws::one(),
        0x800_0000_0000 * (b.value() - a.value()) <= 0x86_37bd * sum_laws::one(),
    ensures
        !binary32::above(report::distance(a, b), F32 { bits: report::TOLERANCE }),
        !report::distance(a, b).nan(),
{
    let m: nat = report::TOLERANCE as nat;
    lemma_pow2_adds(106, 43);
    lemma2_to64();
    lemma2_to64_rest();
    assert(0x3586_37bdint / 0x80_0000 == 107 && 0x3586_37bdint % 0x80_0000 == 0x6_37bd);
    assert(binary32::units(m) == 0x86_37bd * pow2(106));
    let o = binary32::opposite(b);
    assert(o.magnitude() == b.magnitude() && o.negative() != b.negative());
    let t: int = a.value() + o.value();
    assert(t == a.value() - b.value());
    let size: nat = (if t < 0 { -t } else { t }) as nat;
    assert(sum_laws::one() == pow2(106) * 0x800_0000_0000);
    assert(size <= binary32::units(m));
    number_laws::law_nearest(size, 1);
    number_laws::law_nearest_ordered(size, 1, binary32::units(m), 1);
    number_laws::law_nearest_exact(m, binary32::units(m), 1);
}

/// Equal rows come out equal, in one matrix or in two, for an exponential that answers alike: a row's
/// result depends on that row alone, and on nothing that a run could change.
pub proof fn law_equal_rows<E: Fn(F32) -> F32>(
    exp: E,
    max: spec_fn(Seq<F32>) -> F32,
    sum: spec_fn(Seq<F32>) -> F32,
    x: Seq<F32>,
    y: Seq<F32>,
    rows: int,
    r: int,
    x2: Seq<F32>,
    y2: Seq<F32>,
    rows2: int,
    r2: int,
)
    requires
        repeatable(exp),
        softmax::rows_done(exp, x, max, sum, y, rows),
        softmax::rows_done(exp, x2, max, sum, y2, rows2),
        0 <= r < rows,
        0 <= r2 < rows2,
        rows * COLS <= x.len(),
        rows * COLS <= y.len(),
        rows2 * COLS <= x2.len(),
        rows2 * COLS <= y2.len(),
        softmax::row_of(x, r) == softmax::row_of(x2, r2),
    ensures
        softmax::row_of(y, r) == softmax::row_of(y2, r2),
{
    let row = softmax::row_of(x, r);
    let m = max(row);
    assert(softmax::row_done(exp, row, m, sum, y, r * COLS));
    assert(softmax::row_done(exp, softmax::row_of(x2, r2), m, sum, y2, r2 * COLS));
    let d = softmax_laws::lemma_row_written(exp, row, m, sum, y, r);
    let e = softmax_laws::lemma_row_written(exp, row, m, sum, y2, r2);
    let args = softmax::shifted(row, m);
    assert forall|c: int| 0 <= c < d.len() implies d[c] == e[c] by {
        assert(exp.ensures((args[c],), d[c]));
        assert(exp.ensures((args[c],), e[c]));
    }
    assert(d =~= e);
}

/// Launching again on the same matrix leaves the same output, whatever stood there before, for an
/// exponential that answers alike.
pub proof fn law_same_launch<E: Fn(F32) -> F32>(
    exp: E,
    max: spec_fn(Seq<F32>) -> F32,
    sum: spec_fn(Seq<F32>) -> F32,
    x: Seq<F32>,
    y: Seq<F32>,
    again: Seq<F32>,
    rows: int,
)
    requires
        repeatable(exp),
        softmax::rows_done(exp, x, max, sum, y, rows),
        softmax::rows_done(exp, x, max, sum, again, rows),
        rows * COLS <= x.len(),
        rows * COLS <= y.len(),
        rows * COLS <= again.len(),
    ensures
        forall|i: int| 0 <= i < rows * COLS ==> (#[trigger] y[i]) == again[i],
{
    assert forall|i: int| 0 <= i < rows * COLS implies (#[trigger] y[i]) == again[i] by {
        let r: int = i / (COLS as int);
        let c: int = i % (COLS as int);
        law_equal_rows(exp, max, sum, x, y, rows, r, x, again, rows, r);
        assert(y[i] == softmax::row_of(y, r)[c]);
        assert(again[i] == softmax::row_of(again, r)[c]);
    }
}

/// Rearranging the rows of a matrix rearranges the rows of the result alike, for an exponential that
/// answers alike: row `p(r)` of the second matrix is row `r` of the first.
pub proof fn law_rearranged_rows<E: Fn(F32) -> F32>(
    exp: E,
    max: spec_fn(Seq<F32>) -> F32,
    sum: spec_fn(Seq<F32>) -> F32,
    x: Seq<F32>,
    y: Seq<F32>,
    x2: Seq<F32>,
    y2: Seq<F32>,
    rows: int,
    p: spec_fn(int) -> int,
)
    requires
        repeatable(exp),
        softmax::rows_done(exp, x, max, sum, y, rows),
        softmax::rows_done(exp, x2, max, sum, y2, rows),
        rows * COLS <= x.len(),
        rows * COLS <= y.len(),
        rows * COLS <= x2.len(),
        rows * COLS <= y2.len(),
        forall|r: int|
            0 <= r < rows ==> 0 <= #[trigger] p(r) < rows && softmax::row_of(x2, p(r))
                == softmax::row_of(x, r),
    ensures
        forall|r: int|
            0 <= r < rows ==> softmax::row_of(y2, #[trigger] p(r)) == softmax::row_of(y, r),
{
    assert forall|r: int| 0 <= r < rows implies softmax::row_of(y2, #[trigger] p(r))
        == softmax::row_of(y, r) by {
        law_equal_rows(exp, max, sum, x, y, rows, r, x2, y2, rows, p(r));
    }
}

} // verus!
