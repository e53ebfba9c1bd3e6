//! How far the sum of a row of probabilities is from one, as the check of a result adds it up.

use crate::arith;
use crate::binary32;
use crate::binary32::F32;
use crate::binary32::INF;
use crate::binary32::NORMAL;
use crate::fold;
use crate::number_laws;
use crate::report;
use crate::rounding;
use crate::softmax::COLS;
use crate::softmax_laws;
use crate::sum_laws;
use crate::sum_laws::PARTS;
use vstd::arithmetic::power2::*;
use vstd::prelude::*;

verus! {

/// Added up in order, as a check of the row does, a row of probabilities misses one by no more than
/// one part in 60,000 where its exact sum does by one in a million, and by no more than one in
/// 25,000 where its exact sum does by one in 50,000.
pub proof fn law_checked_sum(out: Seq<F32>, parts: int)
    requires
        out.len() == COLS,
        softmax_laws::distribution(out, parts),
        parts == 1_000_000 || parts == 50_000,
    ensures
        ({
            let v = fold::running_sum(out, COLS as nat).value();
            let checked: int = if parts == 1_000_000 { 60_000 } else { 25_000 };
            &&& sum_laws::plain(fold::running_sum(out, COLS as nat))
            &&& checked * (v - sum_laws::one()) <= sum_laws::one()
            &&& checked * (sum_laws::one() - v) <= sum_laws::one()
        }),
{
    let p: int = sum_laws::one();
    let y: int = sum_laws::exact(out);
    sum_laws::lemma_large();
    assert(y <= 2 * p) by (nonlinear_arith)
        requires
            parts * (y - p) <= p,
            parts >= 1,
            p > 0,
    ;
    assert forall|c: int| 0 <= c < out.len() implies sum_laws::plain(#[trigger] out[c]) by {}
    sum_laws::law_reference_sum(out);
    let v: int = fold::running_sum(out, COLS as nat).value();
    lemma_checked(parts, y, v, p);
}

proof fn lemma_checked(parts: int, y: int, v: int, p: int)
    requires
        parts == 1_000_000 || parts == 50_000,
        p > 0,
        parts * (y - p) <= p,
        parts * (p - y) <= p,
        (PARTS - 255) * y <= PARTS * v,
        (PARTS - 255) * v <= PARTS * y,
    ensures
        parts == 1_000_000 ==> 60_000 * (v - p) <= p && 60_000 * (p - v) <= p,
        parts == 50_000 ==> 25_000 * (v - p) <= p && 25_000 * (p - v) <= p,
{
    assert(0xff_ff01 * y <= 0x100_0000 * v);
    assert(0xff_ff01 * v <= 0x100_0000 * y);
    if parts == 1_000_000 {
        assert(1_000_000 * (y - p) <= p && 1_000_000 * (p - y) <= p);
    } else {
        assert(50_000 * (y - p) <= p && 50_000 * (p - y) <= p);
    }
}

/// Up to 2^k units, rounding goes by no more than 2^(k - 25) units.
pub proof fn law_absolute_error(v: nat, m: nat, k: nat)
    requires
        24 <= k <= 276,
        v <= pow2(k),
        binary32::is_nearest(v, 1, m),
    ensures
        2 * (v - binary32::units(m)) <= pow2((k - 24) as nat),
        2 * (binary32::units(m) - v) <= pow2((k - 24) as nat),
        binary32::units(m) <= pow2(k),
{
    let top: nat = ((k - 23) * NORMAL + NORMAL) as nat;
    rounding::lemma_units_of((k - 23) as nat, NORMAL as nat);
    lemma_pow2_adds(23, (k - 23) as nat);
    lemma2_to64();
    assert(binary32::units(top) == pow2(k));
    assert(top <= INF);
    number_laws::law_nearest_exact(top, pow2(k), 1);
    number_laws::law_nearest(pow2(k), 1);
    number_laws::law_nearest(v, 1);
    number_laws::law_nearest_ordered(v, 1, pow2(k), 1);
    assert(m <= top);
    rounding::lemma_units_increase(m, top);
    let r: nat = binary32::units(m);
    if m < top {
        rounding::lemma_units_increase(m + 1, top);
        lemma_gap(m, k);
    }
    if m > 0 {
        lemma_gap((m - 1) as nat, k);
    }
}

/// Below 2^k units, neighbouring magnitudes are no more than 2^(k - 24) units apart.
proof fn lemma_gap(m: nat, k: nat)
    requires
        24 <= k,
        binary32::units(m + 1) <= pow2(k),
    ensures
        binary32::units(m + 1) - binary32::units(m) <= pow2((k - 24) as nat),
{
    let (t, q) = rounding::lemma_split(m);
    assert((q + 1) * pow2(t) == q * pow2(t) + pow2(t)) by (nonlinear_arith);
    lemma_pow2_pos(t);
    if t == 0 {
        lemma2_to64();
        lemma_pow2_pos((k - 24) as nat);
    } else if t > k - 24 {
        // The significand has 24 bits, so the number would be above 2^k.
        lemma_pow2_adds(23, t);
        lemma2_to64();
        assert((q + 1) * pow2(t) > 0x80_0000 * pow2(t)) by (nonlinear_arith)
            requires
                q >= 0x80_0000,
                pow2(t) > 0,
        ;
        if 23 + t > k {
            lemma_pow2_strictly_increases(k, 23 + t);
        }
    } else if t < k - 24 {
        lemma_pow2_strictly_increases(t, (k - 24) as nat);
    }
}

/// 2^-25 of one, in units.
pub open spec fn grain() -> int {
    pow2(124) as int
}

proof fn lemma_grain()
    ensures
        grain() > 0,
        sum_laws::one() == 0x200_0000 * grain(),
        pow2(148) == 0x100_0000 * grain(),
        pow2(149) == 0x200_0000 * grain(),
        pow2(150) == 0x400_0000 * grain(),
        pow2(125) == 2 * grain(),
        pow2(126) == 4 * grain(),
{
    lemma_pow2_pos(124);
    lemma_pow2_unfold(125);
    lemma_pow2_unfold(126);
    lemma_pow2_adds(24, 124);
    lemma_pow2_unfold(149);
    lemma_pow2_unfold(150);
    lemma2_to64();
    lemma2_to64_rest();
}

/// How far one addition of numbers that are not negative goes from exact.
proof fn lemma_step(a: F32, b: F32)
    requires
        sum_laws::plain(a),
        sum_laws::plain(b),
        a.value() + b.value() <= 0x400_0000 * grain(),
    ensures
        ({
            let r = arith::sum(a, b);
            let v = a.value() + b.value();
            let w = grain();
            &&& sum_laws::plain(r)
            &&& r.value() >= a.value()
            &&& r.value() - v <= b.value()
            &&& 2 * (r.value() - v) <= 4 * w && 2 * (v - r.value()) <= 4 * w
            &&& v <= 0x200_0000 * w ==> 2 * (r.value() - v) <= 2 * w && 2 * (v - r.value()) <= 2
                * w && r.value() <= 0x200_0000 * w
            &&& v <= 0x100_0000 * w ==> 2 * (r.value() - v) <= w && 2 * (v - r.value()) <= w
            &&& v >= 0x200_0000 * w ==> r.value() >= 0x200_0000 * w
        }),
{
    let r = arith::sum(a, b);
    lemma_grain();
    sum_laws::lemma_large();
    rounding::lemma_units_increase(0, a.magnitude());
    rounding::lemma_units_increase(0, b.magnitude());
    let v: nat = (a.value() + b.value()) as nat;
    sum_laws::lemma_sum_plain(a, b);
    number_laws::law_sum_grows(a, b);
    rounding::lemma_units_increase(0, r.magnitude());
    number_laws::law_nearest(v, 1);
    number_laws::law_rank_is_order(a, r);
    let m: nat = r.magnitude();
    law_absolute_error(v, m, 150);
    if v <= pow2(149) {
        law_absolute_error(v, m, 149);
    } else {
        number_laws::law_nearest_ordered(binary32::units(0x3f80_0000), 1, v, 1);
        number_laws::law_nearest_exact(0x3f80_0000, binary32::units(0x3f80_0000), 1);
        rounding::lemma_units_increase(0x3f80_0000, m);
    }
    if v == pow2(149) {
        number_laws::law_nearest_exact(0x3f80_0000, binary32::units(0x3f80_0000), 1);
    }
    if v <= pow2(148) {
        law_absolute_error(v, m, 148);
    }
    if r.value() > v {
        // `a` is a number too, and no nearer.
        assert(m > 0 && a.value() < r.value());
        assert(a.magnitude() <= m - 1);
        rounding::lemma_units_increase(a.magnitude(), (m - 1) as nat);
        assert(binary32::units((m - 1) as nat) + binary32::units(m) <= 2 * v);
    }
}

/// How many half grains the first `n` additions can be off by, while the running sum is below one;
/// where the row is light at first, half as many for its first half.
spec fn drift(light: bool, n: int) -> int {
    if !light {
        2 * n
    } else if n <= 128 {
        n
    } else {
        2 * n - 128
    }
}

/// The first half of a row adds up to no more than 49 hundredths.
pub open spec fn light_at_first(out: Seq<F32>) -> bool {
    100 * sum_laws::added(sum_laws::values(out), 128) <= 49 * sum_laws::one()
}

/// Where the running sum stands after `n` terms: below one and off by the drift (`j` is 0), or at
/// least one since term `j`.
spec fn trailed(out: Seq<F32>, light: bool, n: int, j: int) -> bool {
    let x = sum_laws::values(out);
    let w = grain();
    let p = fold::running_sum(out, n as nat).value();
    let s = sum_laws::added(x, n as nat);
    let pj = fold::running_sum(out, j as nat).value();
    let sj = sum_laws::added(x, j as nat);
    &&& sum_laws::plain(fold::running_sum(out, n as nat))
    &&& 0 <= j <= n
    &&& j == 0 ==> p < sum_laws::one() && 2 * (p - s) <= drift(light, n) * w && 2 * (s - p)
        <= drift(light, n) * w
    &&& j > 0 ==> {
        &&& p >= sum_laws::one()
        &&& pj >= sum_laws::one()
        &&& 2 * (pj - sj) <= (drift(light, j - 1) + 4) * w
        &&& p <= pj + (s - sj) + 2 * ((n - j) * w)
        &&& p <= pj + 2 * (s - sj)
    }
}

proof fn lemma_track(out: Seq<F32>, light: bool, n: nat) -> (j: int)
    requires
        out.len() == COLS,
        forall|c: int| 0 <= c < out.len() ==> sum_laws::plain(#[trigger] out[c]),
        100 * sum_laws::exact(out) <= 101 * sum_laws::one(),
        light ==> light_at_first(out),
        n <= COLS,
    ensures
        trailed(out, light, n as int, j),
    decreases n,
{
    lemma_grain();
    let w: int = grain();
    if n == 0 {
        assert(0 * w == 0);
        0
    } else {
        let k: nat = (n - 1) as nat;
        let j = lemma_track(out, light, k);
        let x = sum_laws::values(out);
        sum_laws::lemma_values_plain(out);
        let a = fold::running_sum(out, k);
        let b = out[n - 1];
        let s: int = sum_laws::added(x, k);
        let t: int = sum_laws::added(x, n);
        assert(x[n - 1] == b.value() && x[n - 1] >= 0);
        assert(t == s + b.value());
        sum_laws::lemma_added_grows(x, n, COLS as nat);
        sum_laws::lemma_added_grows(x, k, n);
        rounding::lemma_units_increase(0, a.magnitude());
        if light && n <= 128 {
            sum_laws::lemma_added_grows(x, n, 128);
        }
        assert(0 <= drift(light, k as int) * w <= 512 * w) by (nonlinear_arith)
            requires
                0 <= drift(light, k as int) <= 512,
                w > 0,
        ;
        if j == 0 {
            lemma_step(a, b);
            let r: int = fold::running_sum(out, n).value();
            assert(drift(light, n as int) * w == drift(light, k as int) * w + (drift(light, n as int)
                - drift(light, k as int)) * w) by (nonlinear_arith);
            if r < sum_laws::one() {
                if light && n <= 128 {
                    assert(drift(light, k as int) <= 128);
                    assert(drift(light, k as int) * w <= 128 * w) by (nonlinear_arith)
                        requires
                            drift(light, k as int) <= 128,
                            w > 0,
                    ;
                    assert(1 * w == w);
                } else {
                    assert(drift(light, n as int) - drift(light, k as int) == 2);
                }
                0
            } else {
                assert((drift(light, k as int) + 4) * w == drift(light, k as int) * w + 4 * w)
                    by (nonlinear_arith);
                assert((n - n) * w == 0) by (nonlinear_arith);
                n as int
            }
        } else {
            sum_laws::lemma_added_grows(x, j as nat, k);
            assert(0 <= (drift(light, j - 1) + 4) * w <= 516 * w) by (nonlinear_arith)
                requires
                    0 <= drift(light, j - 1) <= 512,
                    w > 0,
            ;
            assert(0 <= (k - j) * w <= 256 * w) by (nonlinear_arith)
                requires
                    0 <= k - j <= 256,
                    w > 0,
            ;
            lemma_step(a, b);
            assert((n - j) * w == (k - j) * w + w) by (nonlinear_arith)
                requires
                    n == k + 1,
            ;
            j
        }
    }
}

/// Where the row is light at first, its sum as the check adds it up misses one by no more than the
/// tolerance, if its exact sum misses one by no more than one part in a million.
pub proof fn law_light_sum(out: Seq<F32>)
    requires
        out.len() == COLS,
        softmax_laws::distribution(out, 1_000_000),
        light_at_first(out),
    ensures
        100_000 * (fold::running_sum(out, COLS as nat).value() - sum_laws::one())
            <= sum_laws::one(),
        100_000 * (sum_laws::one() - fold::running_sum(out, COLS as nat).value())
            <= sum_laws::one(),
        !binary32::above(
            report::distance(
                fold::running_sum(out, COLS as nat),
                F32 { bits: binary32::ONE },
            ),
            F32 { bits: report::SUM_TOLERANCE },
        ),
{
    let sum = fold::running_sum(out, COLS as nat);
    let n: int = COLS as int;
    lemma_grain();
    let j = lemma_track(out, true, COLS as nat);
    let w: int = grain();
    let x = sum_laws::values(out);
    let v: int = sum.value();
    let y: int = sum_laws::exact(out);
    let p: int = sum_laws::one();
    if j == 0 {
        assert(drift(true, n) * w == 384 * w) by (nonlinear_arith)
            requires
                drift(true, n) == 384,
        ;
    } else {
        let q: int = j * w;
        assert((n - j) * w == 256 * w - q) by (nonlinear_arith)
            requires
                n == 256,
                q == j * w,
        ;
        if j <= 129 {
            assert((drift(true, j - 1) + 4) * w <= 132 * w) by (nonlinear_arith)
                requires
                    drift(true, j - 1) <= 128,
                    w > 0,
            ;
        } else {
            assert((drift(true, j - 1) + 4) * w == 2 * q - 126 * w) by (nonlinear_arith)
                requires
                    drift(true, j - 1) == 2 * j - 130,
                    q == j * w,
            ;
        }
    }
    assert(v - p <= 330 * w && p - v <= 330 * w);
    lemma_sum_within(sum);
}

/// Where no running sum exceeds one, the sum as the check adds it up misses one by no more than the
/// tolerance, if the row's exact sum misses one by no more than one part in a million.
pub proof fn law_bounded_sum(out: Seq<F32>)
    requires
        out.len() == COLS,
        softmax_laws::distribution(out, 1_000_000),
        forall|n: nat| n <= COLS ==> (#[trigger] fold::running_sum(out, n)).value()
            <= sum_laws::one(),
    ensures
        100_000 * (fold::running_sum(out, COLS as nat).value() - sum_laws::one())
            <= sum_laws::one(),
        100_000 * (sum_laws::one() - fold::running_sum(out, COLS as nat).value())
            <= sum_laws::one(),
        !binary32::above(
            report::distance(
                fold::running_sum(out, COLS as nat),
                F32 { bits: binary32::ONE },
            ),
            F32 { bits: report::SUM_TOLERANCE },
        ),
{
    let sum = fold::running_sum(out, COLS as nat);
    let n: int = COLS as int;
    lemma_grain();
    let j = lemma_track(out, false, COLS as nat);
    let w: int = grain();
    assert(drift(false, n) * w == 512 * w) by (nonlinear_arith)
        requires
            drift(false, n) == 512,
    ;
    lemma_sum_within(sum);
}

/// A sum within 330 grains of one passes the test.
proof fn lemma_sum_within(sum: F32)
    requires
        sum_laws::plain(sum),
        sum.value() - sum_laws::one() <= 330 * grain(),
        sum_laws::one() - sum.value() <= 330 * grain(),
    ensures
        !binary32::above(
            report::distance(sum, F32 { bits: binary32::ONE }),
            F32 { bits: report::SUM_TOLERANCE },
        ),
        !report::distance(sum, F32 { bits: binary32::ONE }).nan(),
{
    let one = F32 { bits: binary32::ONE };
    let m: nat = report::SUM_TOLERANCE as nat;
    lemma_grain();
    sum_laws::lemma_large();
    lemma_pow2_adds(109, 15);
    lemma2_to64();
    assert(0x3727_c5acint / 0x80_0000 == 110 && 0x3727_c5acint % 0x80_0000 == 0x27_c5ac);
    assert(binary32::units(m) == 0xa7_c5ac * pow2(109));
    assert(grain() == pow2(109) * 0x8000);
    assert(one.value() == sum_laws::one());
    let o = binary32::opposite(one);
    assert(o.magnitude() == one.magnitude() && o.negative());
    let t: int = sum.value() + o.value();
    let size: nat = (if t < 0 { -t } else { t }) as nat;
    assert(size <= binary32::units(m));
    number_laws::law_nearest(size, 1);
    number_laws::law_nearest_ordered(size, 1, binary32::units(m), 1);
    number_laws::law_nearest_exact(m, binary32::units(m), 1);
}

} // verus!
