//! What comes out of a softmax: a row of probabilities.

use crate::arith;
use crate::binary32;
use crate::binary32::F32;
use crate::binary32::INF;
use crate::binary32::ONE;
use crate::binary32::ZERO;
use crate::block;
use crate::fold;
use crate::max_laws;
use crate::number_laws;
use crate::pairs::Layout;
use crate::pairs::PER;
use crate::pairs::TPB;
use crate::reduction_laws;
use crate::reference;
use crate::rounding;
use crate::simt;
use crate::softmax;
use crate::softmax::COLS;
use crate::sum_laws;
use crate::sum_laws::PARTS;
use crate::warp;
use crate::warp::Reduction;
use crate::warp::LANES;
use vstd::arithmetic::power2::*;
use vstd::prelude::*;

verus! {

/// Neither a NaN nor below zero.
pub open spec fn counts(a: F32) -> bool {
    !a.nan() && a.rank() >= 0
}

/// Every number of the sequence is neither a NaN nor below zero.
pub open spec fn all_count(s: Seq<F32>) -> bool {
    forall|i: int| 0 <= i < s.len() ==> counts(#[trigger] s[i])
}

/// `m` is no less than any number of the sequence.
pub open spec fn covers(m: F32, s: Seq<F32>) -> bool {
    &&& counts(m)
    &&& forall|i: int| 0 <= i < s.len() ==> (#[trigger] s[i]).rank() <= m.rank()
}

/// A running sum of numbers that are not negative is no less than any of them.
pub proof fn law_running_sum_covers(s: Seq<F32>, n: nat)
    requires
        n <= s.len(),
        all_count(s),
    ensures
        covers(fold::running_sum(s, n), s.take(n as int)),
    decreases n,
{
    if n > 0 {
        law_running_sum_covers(s, (n - 1) as nat);
        let before = s.take(n - 1);
        let t = s.take(n as int);
        let partial = fold::running_sum(s, (n - 1) as nat);
        assert(counts(s[n - 1]));
        number_laws::law_sum_grows(partial, s[n - 1]);
        assert forall|i: int| 0 <= i < t.len() implies (#[trigger] t[i]).rank()
            <= fold::running_sum(s, n).rank() by {
            if i < n - 1 {
                assert(before[i] == t[i]);
            }
        }
    }
}

/// Every lane is no less than the lanes that shared its place modulo `m`.
spec fn spread(v: Seq<F32>, w: Seq<F32>, m: int) -> bool {
    &&& w.len() == LANES
    &&& all_count(w)
    &&& forall|i: int, k: int|
        0 <= i < LANES && 0 <= k < LANES && i % m == k % m ==> (#[trigger] v[k]).rank() <= (
        #[trigger] w[i]).rank()
}

proof fn lemma_spread_step(v: Seq<F32>, w: Seq<F32>, m: int)
    requires
        v.len() == LANES,
        m == 32 || m == 16 || m == 8 || m == 4 || m == 2,
        spread(v, w, m),
    ensures
        spread(v, warp::exchanged(Reduction::Sum, w, m / 2), m / 2),
{
    let h: int = m / 2;
    let u = warp::exchanged(Reduction::Sum, w, h);
    assert forall|i: int| 0 <= i < LANES implies counts(#[trigger] u[i]) && u[i].rank()
        >= w[i].rank() && u[i].rank() >= w[warp::partner(i, h)].rank() by {
        warp::lemma_partner(i, h);
        assert(counts(w[i]) && counts(w[warp::partner(i, h)]));
        number_laws::law_sum_grows(w[i], w[warp::partner(i, h)]);
    }
    assert forall|i: int, k: int| 0 <= i < LANES && 0 <= k < LANES && i % h == k % h implies (
    #[trigger] v[k]).rank() <= (#[trigger] u[i]).rank() by {
        warp::lemma_partner(i, h);
        let p: int = warp::partner(i, h);
        max_laws::lemma_residues(i, k, m);
        assert(counts(u[i]));
        if i % m == k % m {
            assert(v[k].rank() <= w[i].rank());
        } else {
            assert(v[k].rank() <= w[p].rank());
        }
    }
}

/// A warp's sum of numbers that are not negative is no less than any of them.
pub proof fn law_warp_sum_covers(v: Seq<F32>, lane: int)
    requires
        v.len() == LANES,
        all_count(v),
        0 <= lane < LANES,
    ensures
        covers(warp::reduced(Reduction::Sum, v)[lane], v),
{
    assert forall|i: int, k: int| 0 <= i < LANES && 0 <= k < LANES && i % 32 == k % 32 implies (
    #[trigger] v[k]).rank() <= (#[trigger] v[i]).rank() by {
        assert(i == k);
    }
    assert(spread(v, v, 32));
    let a = warp::exchanged(Reduction::Sum, v, 16);
    let b = warp::exchanged(Reduction::Sum, a, 8);
    let c = warp::exchanged(Reduction::Sum, b, 4);
    let d = warp::exchanged(Reduction::Sum, c, 2);
    lemma_spread_step(v, v, 32);
    lemma_spread_step(v, a, 16);
    lemma_spread_step(v, b, 8);
    lemma_spread_step(v, c, 4);
    lemma_spread_step(v, d, 2);
    let r = warp::exchanged(Reduction::Sum, d, 1);
    assert(spread(v, r, 1));
    assert(counts(r[lane]));
    assert forall|k: int| 0 <= k < v.len() implies (#[trigger] v[k]).rank() <= r[lane].rank() by {
        assert(lane % 1 == k % 1);
    }
}

/// A block's sum of numbers that are not negative is no less than any of them.
pub proof fn law_block_sum_covers(values: Seq<F32>)
    requires
        values.len() % (LANES as nat) == 0,
        all_count(values),
    ensures
        covers(block::total(values), values),
{
    let n: nat = values.len() / (LANES as nat);
    let slots = block::slots(Reduction::Sum, values);
    assert forall|w: int| 0 <= w < n implies covers(
        #[trigger] slots[w],
        block::lanes_of(values, w),
    ) by {
        let lanes = block::lanes_of(values, w);
        assert forall|i: int| 0 <= i < lanes.len() implies counts(#[trigger] lanes[i]) by {
            assert(counts(values[w * LANES + i]));
        }
        law_warp_sum_covers(lanes, 0);
    }
    assert forall|w: int| 0 <= w < slots.len() implies counts(#[trigger] slots[w]) by {
        assert(covers(slots[w], block::lanes_of(values, w)));
    }
    law_running_sum_covers(slots, n);
    assert(slots.take(n as int) =~= slots);
    assert forall|i: int| 0 <= i < values.len() implies (#[trigger] values[i]).rank()
        <= block::total(values).rank() by {
        let w: int = i / (LANES as int);
        let lanes = block::lanes_of(values, w);
        assert(covers(slots[w], lanes));
        assert(lanes[i - w * LANES] == values[i]);
    }
}

/// Every kernel's sum, and the reference's, is no less than any of the exponentials.
pub proof fn law_row_sum_covers(e: Seq<F32>, layout: Layout)
    requires
        e.len() == COLS,
        all_count(e),
    ensures
        covers(simt::row_sum(e), e),
        covers(layout.row_sum(e), e),
        covers(reference::row_sum(e), e),
{
    law_block_sum_covers(e);
    law_running_sum_covers(e, COLS as nat);
    assert(e.take(COLS as int) =~= e);
    let sums = layout.thread_sums(e);
    assert forall|tid: int| 0 <= tid < TPB implies covers(
        #[trigger] sums[tid],
        layout.held(e, tid),
    ) by {
        let held = layout.held(e, tid);
        assert forall|k: int| 0 <= k < held.len() implies counts(#[trigger] held[k]) by {
            layout.law_columns_partition(tid, k, 0);
            assert(counts(e[layout.column(tid, k)]));
        }
        law_running_sum_covers(held, PER as nat);
        assert(held.take(PER as int) =~= held);
    }
    assert forall|tid: int| 0 <= tid < sums.len() implies counts(#[trigger] sums[tid]) by {
        assert(covers(sums[tid], layout.held(e, tid)));
    }
    law_block_sum_covers(sums);
    assert forall|c: int| 0 <= c < e.len() implies (#[trigger] e[c]).rank() <= layout.row_sum(
        e,
    ).rank() by {
        layout.law_columns_partition(0, 0, c);
        let tid: int = layout.owner(c);
        let held = layout.held(e, tid);
        assert(covers(sums[tid], held));
        assert(held[layout.step(c)] == e[c]);
    }
}

/// A number over one that is no smaller is between zero and one.
pub proof fn law_quotient_is_fraction(a: F32, s: F32)
    requires
        sum_laws::plain(a),
        sum_laws::plain(s),
        s.rank() > 0,
        a.rank() <= s.rank(),
    ensures
        sum_laws::plain(arith::quotient(a, s)),
        arith::quotient(a, s).rank() <= ONE,
{
    let ua: nat = binary32::units(a.magnitude());
    let us: nat = binary32::units(s.magnitude());
    let p: nat = pow2(149);
    sum_laws::lemma_large();
    rounding::lemma_units_increase(0, a.magnitude());
    rounding::lemma_units_increase(0, s.magnitude());
    rounding::lemma_units_increase(a.magnitude(), s.magnitude());
    assert((ua * p) * us <= (p * us) * us) by (nonlinear_arith)
        requires
            ua <= us,
    ;
    number_laws::law_nearest(ua * p, us);
    number_laws::law_nearest_ordered(ua * p, us, p * us, us);
    number_laws::law_nearest_exact(ONE as nat, p * us, us);
    if a.negative() {
        assert(a.magnitude() == 0);
        assert(ua == 0);
        number_laws::law_nearest_exact(0, 0, us);
        assert(ua * p == 0) by (nonlinear_arith)
            requires
                ua == 0,
        ;
    }
}

/// The quotients of the first `n` numbers, put over the divisor again, are off by one part in 2^24
/// and by half a unit each.
pub proof fn lemma_quotients_total(e: Seq<F32>, s: F32, n: nat)
    requires
        n <= e.len(),
        forall|c: int| 0 <= c < e.len() ==> sum_laws::plain(#[trigger] e[c]),
        sum_laws::plain(s),
        s.rank() > 0,
        forall|c: int| 0 <= c < e.len() ==> (#[trigger] e[c]).rank() <= s.rank(),
    ensures
        ({
            let x = sum_laws::added(sum_laws::values(e), n) * sum_laws::one();
            let y = sum_laws::added(sum_laws::values(softmax::scaled(e, s)), n) * s.value();
            let slack = x + n * (PARTS * s.value());
            PARTS * (x - y) <= slack && PARTS * (y - x) <= slack
        }),
    decreases n,
{
    if n > 0 {
        let k: nat = (n - 1) as nat;
        lemma_quotients_total(e, s, k);
        let c: int = n - 1;
        let p: int = sum_laws::one();
        let sv: int = s.value();
        let np: int = PARTS as int;
        assert(sum_laws::plain(e[c]));
        rounding::lemma_units_increase(0, s.magnitude());
        rounding::lemma_units_increase(0, e[c].magnitude());
        law_quotient_is_fraction(e[c], s);
        let q = arith::quotient(e[c], s);
        let num: nat = (e[c].value() * p) as nat;
        assert(e[c].value() * p >= 0) by (nonlinear_arith)
            requires
                e[c].value() >= 0,
                p >= 0,
        ;
        number_laws::law_nearest(num, sv as nat);
        assert(q.magnitude() == binary32::nearest(num, sv as nat));
        sum_laws::law_rounding_error(num, sv as nat, q.magnitude());
        let y = softmax::scaled(e, s);
        assert(sum_laws::values(y)[c] == q.value());
        let a: int = sum_laws::added(sum_laws::values(e), k);
        let b: int = sum_laws::added(sum_laws::values(y), k);
        assert((a + e[c].value()) * p == a * p + e[c].value() * p) by (nonlinear_arith);
        assert((b + q.value()) * sv == b * sv + q.value() * sv) by (nonlinear_arith);
        assert(n * (np * sv) == k * (np * sv) + np * sv) by (nonlinear_arith)
            requires
                n == k + 1,
        ;
    }
}

/// The quotients of a row by its sum add up to one, up to the rounding of `d` additions and of the
/// divisions.
pub proof fn law_total_near_one(e: Seq<F32>, s: F32, d: int)
    requires
        forall|c: int| 0 <= c < e.len() ==> sum_laws::plain(#[trigger] e[c]),
        covers(s, e),
        s.rank() > 0,
        0 <= d < PARTS,
        sum_laws::close(s, sum_laws::exact(e), d),
    ensures
        (PARTS - d) * sum_laws::exact(softmax::scaled(e, s)) <= (PARTS + 1) * sum_laws::one()
            + e.len() * PARTS,
        PARTS * sum_laws::exact(softmax::scaled(e, s)) >= (PARTS - (d + 1)) * sum_laws::one()
            - e.len() * PARTS,
{
    let n: int = PARTS as int;
    let x: int = sum_laws::exact(e);
    let y: int = sum_laws::exact(softmax::scaled(e, s));
    let sv: int = s.value();
    let p: int = sum_laws::one();
    let w: int = e.len() as int;
    sum_laws::lemma_large();
    rounding::lemma_units_increase(0, s.magnitude());
    lemma_quotients_total(e, s, e.len());
    assert(w * (n * sv) == (w * n) * sv) by (nonlinear_arith);
    lemma_near_one(n, d, x, y, sv, p, w);
}

proof fn lemma_near_one(n: int, d: int, x: int, y: int, s: int, p: int, w: int)
    requires
        n > 0,
        0 <= d < n,
        s > 0,
        p > 0,
        w >= 0,
        n * (x * p - y * s) <= x * p + (w * n) * s,
        n * (y * s - x * p) <= x * p + (w * n) * s,
        (n - d) * x <= n * s,
        (n - d) * s <= n * x,
    ensures
        (n - d) * y <= (n + 1) * p + w * n,
        n * y >= (n - (d + 1)) * p - w * n,
{
    let k: int = n - d;
    // n * y * s <= (n + 1) * x * p + w * n * s
    assert(n * (y * s) <= (n + 1) * (x * p) + (w * n) * s) by (nonlinear_arith)
        requires
            n * (y * s - x * p) <= x * p + (w * n) * s,
    ;
    assert(k * (n * (y * s)) <= k * ((n + 1) * (x * p)) + k * ((w * n) * s)) by (nonlinear_arith)
        requires
            n * (y * s) <= (n + 1) * (x * p) + (w * n) * s,
            k >= 0,
    ;
    assert(k * ((n + 1) * (x * p)) == ((n + 1) * p) * (k * x)) by (nonlinear_arith);
    assert(((n + 1) * p) * (k * x) <= ((n + 1) * p) * (n * s)) by (nonlinear_arith)
        requires
            k * x <= n * s,
            n + 1 > 0,
            p > 0,
    ;
    assert(k * ((w * n) * s) <= (w * n) * (n * s)) by (nonlinear_arith)
        requires
            k <= n,
            w >= 0,
            n > 0,
            s > 0,
    ;
    assert(k * (n * (y * s)) == (k * y) * (n * s)) by (nonlinear_arith);
    assert(((n + 1) * p) * (n * s) + (w * n) * (n * s) == ((n + 1) * p + w * n) * (n * s))
        by (nonlinear_arith);
    let f: int = n * s;
    assert(f > 0) by (nonlinear_arith)
        requires
            f == n * s,
            n > 0,
            s > 0,
    ;
    assert(k * y <= (n + 1) * p + w * n) by (nonlinear_arith)
        requires
            (k * y) * f <= ((n + 1) * p + w * n) * f,
            f > 0,
    ;
    // n * y * s >= (n - 1) * x * p - w * n * s
    assert(n * (y * s) >= (n - 1) * (x * p) - (w * n) * s) by (nonlinear_arith)
        requires
            n * (x * p - y * s) <= x * p + (w * n) * s,
    ;
    assert(n * (n * (y * s)) >= n * ((n - 1) * (x * p)) - n * ((w * n) * s)) by (nonlinear_arith)
        requires
            n * (y * s) >= (n - 1) * (x * p) - (w * n) * s,
            n > 0,
    ;
    assert(n * ((n - 1) * (x * p)) == ((n - 1) * p) * (n * x)) by (nonlinear_arith);
    assert(((n - 1) * p) * (n * x) >= ((n - 1) * p) * (k * s)) by (nonlinear_arith)
        requires
            n * x >= k * s,
            n - 1 >= 0,
            p > 0,
    ;
    assert((n - 1) * k == n * (k - 1) + d) by (nonlinear_arith)
        requires
            k == n - d,
    ;
    assert(((n - 1) * p) * (k * s) == ((n - 1) * k) * (p * s)) by (nonlinear_arith);
    assert((n * (k - 1) + d) * (p * s) == (n * (k - 1)) * (p * s) + d * (p * s))
        by (nonlinear_arith);
    assert((n * (k - 1)) * (p * s) == (n * ((k - 1) * p)) * s) by (nonlinear_arith);
    assert(d * (p * s) == (d * p) * s) by (nonlinear_arith);
    assert((d * p) * s >= 0) by (nonlinear_arith)
        requires
            d >= 0,
            p > 0,
            s > 0,
    ;
    assert(n * (n * (y * s)) == (n * (n * y)) * s) by (nonlinear_arith);
    assert(n * ((w * n) * s) == (n * (w * n)) * s) by (nonlinear_arith);
    let left: int = n * (n * y);
    let right: int = n * ((k - 1) * p);
    let slack: int = n * (w * n);
    assert(left >= right - slack) by (nonlinear_arith)
        requires
            left * s >= right * s - slack * s,
            s > 0,
    ;
    assert(n * y >= (k - 1) * p - w * n) by (nonlinear_arith)
        requires
            n * (n * y) >= n * ((k - 1) * p) - n * (w * n),
            n > 0,
    ;
}

/// Every number is between zero and one, and exactly added up they miss one by no more than one
/// part in `parts`.
pub open spec fn distribution(out: Seq<F32>, parts: int) -> bool {
    &&& forall|c: int|
        0 <= c < out.len() ==> sum_laws::plain(#[trigger] out[c]) && out[c].rank() <= ONE
    &&& parts * (sum_laws::exact(out) - sum_laws::one()) <= sum_laws::one()
    &&& parts * (sum_laws::one() - sum_laws::exact(out)) <= sum_laws::one()
}

/// What the laws need of the exponential: on a number that is not above zero it answers between
/// zero and one, on either zero it answers one.
pub open spec fn exponential<E: Fn(F32) -> F32>(exp: E) -> bool {
    &&& forall|a: F32, r: F32| #[trigger]
        exp.ensures((a,), r) && !a.nan() && a.rank() <= 0 ==> counts(r) && r.rank() <= ONE
    &&& forall|a: F32, r: F32| #[trigger]
        exp.ensures((a,), r) && a.magnitude() == 0 ==> r.bits == ONE
}

/// A row that has a softmax: no NaN, no positive infinity, and something else than negative
/// infinity.
pub open spec fn proper(row: Seq<F32>) -> bool {
    &&& row.len() == COLS
    &&& max_laws::nan_free(row)
    &&& forall|c: int| 0 <= c < row.len() ==> (#[trigger] row[c]).rank() < INF
    &&& exists|c: int| 0 <= c < row.len() && (#[trigger] row[c]).finite()
}

/// The exponentials of a proper row: between zero and one, and one of them is one.
pub proof fn law_exponentials<E: Fn(F32) -> F32>(exp: E, row: Seq<F32>, m: F32, e: Seq<F32>)
    requires
        exponential(exp),
        proper(row),
        max_laws::is_maximum(m, row),
        softmax::answers(exp, softmax::shifted(row, m), e),
    ensures
        e.len() == COLS,
        all_count(e),
        forall|c: int| 0 <= c < e.len() ==> (#[trigger] e[c]).rank() <= ONE,
        sum_laws::moderate(e),
        e.contains(F32 { bits: ONE }),
{
    let at = choose|c: int| 0 <= c < row.len() && (#[trigger] row[c]).finite();
    assert(row[at].rank() <= m.rank());
    let here = choose|c: int| 0 <= c < row.len() && row[c] == m;
    assert(!row[here].nan() && row[here].rank() < INF);
    assert(m.finite());
    max_laws::law_shift_bounds(row, m);
    let args = softmax::shifted(row, m);
    assert forall|c: int| 0 <= c < e.len() implies counts(#[trigger] e[c]) && e[c].rank() <= ONE by {
        assert(!args[c].nan() && args[c].rank() <= 0);
        assert(exp.ensures((args[c],), e[c]));
    }
    assert forall|c: int| 0 <= c < e.len() implies sum_laws::plain(#[trigger] e[c]) by {
        assert(counts(e[c]) && e[c].rank() <= ONE);
    }
    let zero = choose|c: int| 0 <= c < args.len() && args[c] == (F32 { bits: ZERO });
    assert(exp.ensures((args[zero],), e[zero]));
    assert(e[zero] == (F32 { bits: ONE }));
    lemma_exact_bounded(e, COLS as nat);
}

/// Numbers of at most one add up to no more than their count.
proof fn lemma_exact_bounded(e: Seq<F32>, n: nat)
    requires
        n <= e.len(),
        all_count(e),
        forall|c: int| 0 <= c < e.len() ==> (#[trigger] e[c]).rank() <= ONE,
    ensures
        sum_laws::added(sum_laws::values(e), n) <= n * sum_laws::one(),
    decreases n,
{
    if n > 0 {
        lemma_exact_bounded(e, (n - 1) as nat);
        let a = e[n - 1];
        assert(counts(a) && a.rank() <= ONE);
        sum_laws::lemma_large();
        rounding::lemma_units_increase(0, a.magnitude());
        if !a.negative() {
            rounding::lemma_units_increase(a.magnitude(), ONE as nat);
        }
        assert(n * sum_laws::one() == (n - 1) * sum_laws::one() + sum_laws::one())
            by (nonlinear_arith);
    }
}

/// Dividing proper exponentials by a close sum gives a distribution.
pub proof fn lemma_distribution(e: Seq<F32>, s: F32, d: int, parts: int)
    requires
        e.len() == COLS,
        all_count(e),
        forall|c: int| 0 <= c < e.len() ==> (#[trigger] e[c]).rank() <= ONE,
        e.contains(F32 { bits: ONE }),
        covers(s, e),
        sum_laws::close(s, sum_laws::exact(e), d),
        (d == 12 && parts == 1_000_000) || (d == 255 && parts == 50_000),
    ensures
        distribution(softmax::scaled(e, s), parts),
{
    let out = softmax::scaled(e, s);
    let at = choose|c: int| 0 <= c < e.len() && e[c] == (F32 { bits: ONE });
    assert(e[at].rank() <= s.rank());
    assert forall|c: int| 0 <= c < e.len() implies sum_laws::plain(#[trigger] e[c]) by {
        assert(counts(e[c]) && e[c].rank() <= ONE);
    }
    assert forall|c: int| 0 <= c < out.len() implies sum_laws::plain(#[trigger] out[c])
        && out[c].rank() <= ONE by {
        assert(sum_laws::plain(e[c]) && e[c].rank() <= s.rank());
        law_quotient_is_fraction(e[c], s);
    }
    law_total_near_one(e, s, d);
    lemma_pow2_strictly_increases(64, 149);
    lemma2_to64();
    let y: int = sum_laws::exact(out);
    let p: int = sum_laws::one();
    lemma_within(d, parts, y, p);
}

/// The bounds of the exact total, in parts of one.
proof fn lemma_within(d: int, parts: int, y: int, p: int)
    requires
        (d == 12 && parts == 1_000_000) || (d == 255 && parts == 50_000),
        p >= 0x1_0000_0000_0000_0000,
        (PARTS - d) * y <= (PARTS + 1) * p + COLS * PARTS,
        PARTS * y >= (PARTS - (d + 1)) * p - COLS * PARTS,
    ensures
        parts * (y - p) <= p,
        parts * (p - y) <= p,
{
    if d == 12 {
        assert(0xff_fff4 * y <= 0x100_0001 * p + 0x1_0000_0000);
        assert(0x100_0000 * y >= 0xff_fff3 * p - 0x1_0000_0000);
        assert(1_000_000 * (y - p) <= p);
        assert(1_000_000 * (p - y) <= p);
    } else {
        assert(0xff_ff01 * y <= 0x100_0001 * p + 0x1_0000_0000);
        assert(0x100_0000 * y >= 0xff_ff00 * p - 0x1_0000_0000);
        assert(50_000 * (y - p) <= p);
        assert(50_000 * (p - y) <= p);
    }
}

/// What `softmax_rows` leaves in a row that it reaches.
pub proof fn lemma_row_written<E: Fn(F32) -> F32>(
    exp: E,
    row: Seq<F32>,
    m: F32,
    sum: spec_fn(Seq<F32>) -> F32,
    y: Seq<F32>,
    r: int,
) -> (e: Seq<F32>)
    requires
        row.len() == COLS,
        0 <= r,
        (r + 1) * COLS <= y.len(),
        softmax::row_done(exp, row, m, sum, y, r * COLS),
    ensures
        softmax::answers(exp, softmax::shifted(row, m), e),
        softmax::row_of(y, r) == softmax::scaled(e, sum(e)),
{
    let e = choose|e: Seq<F32>| #[trigger]
        softmax::answers(exp, softmax::shifted(row, m), e) && softmax::holds(
            y,
            r * COLS,
            softmax::scaled(e, sum(e)),
        );
    let out = softmax::scaled(e, sum(e));
    assert forall|c: int| 0 <= c < COLS implies softmax::row_of(y, r)[c] == #[trigger] out[c] by {
        assert(r * COLS + c < y.len());
    }
    assert(softmax::row_of(y, r) =~= out);
    e
}

/// Every proper row comes out as probabilities, whatever finds its maximum and adds up.
pub proof fn lemma_probabilities<E: Fn(F32) -> F32>(
    exp: E,
    max: spec_fn(Seq<F32>) -> F32,
    sum: spec_fn(Seq<F32>) -> F32,
    d: int,
    parts: int,
    x: Seq<F32>,
    y: Seq<F32>,
    rows: int,
    r: int,
)
    requires
        exponential(exp),
        reduction_laws::finds(max),
        reduction_laws::adds(sum, d),
        (d == 12 && parts == 1_000_000) || (d == 255 && parts == 50_000),
        rows * COLS <= y.len(),
        softmax::rows_done(exp, x, max, sum, y, rows),
        0 <= r < rows,
        proper(softmax::row_of(x, r)),
    ensures
        distribution(softmax::row_of(y, r), parts),
{
    let row = softmax::row_of(x, r);
    let m = max(row);
    assert(softmax::row_done(exp, row, m, sum, y, r * COLS));
    let e = lemma_row_written(exp, row, m, sum, y, r);
    assert(max_laws::is_maximum(m, row));
    law_exponentials(exp, row, m, e);
    lemma_distribution(e, sum(e), d, parts);
}

/// With one thread per element, every proper row comes out as probabilities: each between zero and
/// one, together one, to one part in a million.
pub proof fn law_simt_probabilities<E: Fn(F32) -> F32>(
    exp: E,
    x: Seq<F32>,
    y: Seq<F32>,
    rows: int,
    r: int,
)
    requires
        exponential(exp),
        rows * COLS <= y.len(),
        softmax::rows_done(
            exp,
            x,
            |row: Seq<F32>| simt::row_max(row),
            |e: Seq<F32>| simt::row_sum(e),
            y,
            rows,
        ),
        0 <= r < rows,
        proper(softmax::row_of(x, r)),
    ensures
        distribution(softmax::row_of(y, r), 1_000_000),
{
    reduction_laws::law_kernels_reduce(Layout::Strided);
    let max = |row: Seq<F32>| simt::row_max(row);
    let sum = |e: Seq<F32>| simt::row_sum(e);
    lemma_probabilities(exp, max, sum, 12, 1_000_000, x, y, rows, r);
}

/// With two elements per thread, in either layout, every proper row comes out as probabilities:
/// each between zero and one, together one, to one part in a million.
pub proof fn law_pairs_probabilities<E: Fn(F32) -> F32>(
    layout: Layout,
    exp: E,
    x: Seq<F32>,
    y: Seq<F32>,
    rows: int,
    r: int,
)
    requires
        exponential(exp),
        rows * COLS <= y.len(),
        softmax::rows_done(
            exp,
            x,
            |row: Seq<F32>| layout.row_max(row),
            |e: Seq<F32>| layout.row_sum(e),
            y,
            rows,
        ),
        0 <= r < rows,
        proper(softmax::row_of(x, r)),
    ensures
        distribution(softmax::row_of(y, r), 1_000_000),
{
    reduction_laws::law_kernels_reduce(layout);
    let max = |row: Seq<F32>| layout.row_max(row);
    let sum = |e: Seq<F32>| layout.row_sum(e);
    lemma_probabilities(exp, max, sum, 12, 1_000_000, x, y, rows, r);
}

/// The exact sum of numbers that are not negative is not negative.
pub proof fn lemma_exact_counts(e: Seq<F32>)
    requires
        sum_laws::moderate(e),
    ensures
        sum_laws::exact(e) >= 0,
{
    sum_laws::lemma_values_plain(e);
    sum_laws::lemma_added_grows(sum_laws::values(e), 0, e.len());
}

/// In the reference every proper row comes out as probabilities: each between zero and one,
/// together one, to one part in fifty thousand.
pub proof fn law_reference_probabilities<E: Fn(F32) -> F32>(
    exp: E,
    x: Seq<F32>,
    y: Seq<F32>,
    rows: int,
    r: int,
)
    requires
        exponential(exp),
        rows * COLS <= y.len(),
        softmax::rows_done(
            exp,
            x,
            |row: Seq<F32>| reference::row_max(row),
            |e: Seq<F32>| reference::row_sum(e),
            y,
            rows,
        ),
        0 <= r < rows,
        proper(softmax::row_of(x, r)),
    ensures
        distribution(softmax::row_of(y, r), 50_000),
{
    reduction_laws::law_kernels_reduce(Layout::Strided);
    let max = |row: Seq<F32>| reference::row_max(row);
    let sum = |e: Seq<F32>| reference::row_sum(e);
    lemma_probabilities(exp, max, sum, 255, 50_000, x, y, rows, r);
}

} // verus!
