//! Rounding to the nearest number.

use crate::binary32;
use crate::binary32::INF;
use crate::binary32::NORMAL;
use vstd::arithmetic::power2::*;
use vstd::prelude::*;

verus! {

/// A significand `q` of at most 24 bits at exponent `t`, written as a magnitude.
pub proof fn lemma_units_of(t: nat, q: nat)
    requires
        q <= 2 * NORMAL,
        t == 0 || q >= NORMAL,
    ensures
        binary32::units((t * NORMAL + q) as nat) == q * pow2(t),
{
    let n: int = NORMAL as int;
    lemma_pow2(0);
    assert(pow2(0) == 1) by {
        lemma2_to64();
    }
    let m: nat = (t * NORMAL + q) as nat;
    if q < NORMAL {
        assert(m == q);
    } else if q < 2 * NORMAL {
        assert(m == (t + 1) * n + (q - n)) by (nonlinear_arith)
            requires
                m == t * n + q,
        ;
        vstd::arithmetic::div_mod::lemma_fundamental_div_mod_converse(
            m as int,
            n,
            (t + 1) as int,
            q - n,
        );
    } else {
        assert(m == (t + 2) * n) by (nonlinear_arith)
            requires
                m == t * n + q,
                q == 2 * n,
        ;
        vstd::arithmetic::div_mod::lemma_fundamental_div_mod_converse(
            m as int,
            n,
            (t + 2) as int,
            0,
        );
        lemma_pow2_unfold((t + 1) as nat);
        assert(n * (2 * pow2(t)) == q * pow2(t)) by (nonlinear_arith)
            requires
                q == 2 * n,
        ;
    }
}

/// Every magnitude is a significand at an exponent.
pub proof fn lemma_split(m: nat) -> (r: (nat, nat))
    ensures
        r.0 * NORMAL + r.1 == m,
        r.1 < 2 * NORMAL,
        r.0 == 0 || r.1 >= NORMAL,
        binary32::units(m) == r.1 * pow2(r.0),
        binary32::units(m + 1) == (r.1 + 1) * pow2(r.0),
{
    let n: nat = NORMAL as nat;
    let t: nat = if m < n { 0 } else { (m / n - 1) as nat };
    let q: nat = if m < n { m } else { n + m % n };
    vstd::arithmetic::div_mod::lemma_fundamental_div_mod(m as int, n as int);
    if m >= n {
        assert(t * n + q == m) by (nonlinear_arith)
            requires
                m == n * (m / n) + m % n,
                t == m / n - 1,
                q == n + m % n,
        ;
    }
    lemma_units_of(t, q);
    lemma_units_of(t, q + 1);
    (t, q)
}

/// Neighbouring magnitudes stand for different numbers, in order.
pub proof fn lemma_units_step(m: nat)
    ensures
        binary32::units(m) < binary32::units(m + 1),
{
    let (t, q) = lemma_split(m);
    lemma_pow2_pos(t);
    assert(q * pow2(t) < (q + 1) * pow2(t)) by (nonlinear_arith)
        requires
            pow2(t) > 0,
    ;
}

/// Larger magnitudes stand for larger numbers.
pub proof fn lemma_units_increase(a: nat, b: nat)
    requires
        a <= b,
    ensures
        binary32::units(a) + (b - a) <= binary32::units(b),
    decreases b - a,
{
    if a < b {
        lemma_units_increase(a, (b - 1) as nat);
        lemma_units_step((b - 1) as nat);
    }
}

/// No two magnitudes are both nearest.
pub proof fn lemma_nearest_unique(num: nat, den: nat, a: nat, b: nat)
    requires
        den > 0,
        binary32::is_nearest(num, den, a),
        binary32::is_nearest(num, den, b),
    ensures
        a == b,
{
    if a < b {
        lemma_nearest_order(num, den, num, den, b, a);
    } else if b < a {
        lemma_nearest_order(num, den, num, den, a, b);
    }
}

/// A number that is no larger is not rounded to a larger magnitude.
pub proof fn lemma_nearest_order(num1: nat, den1: nat, num2: nat, den2: nat, a: nat, b: nat)
    requires
        den1 > 0,
        den2 > 0,
        num1 * den2 <= num2 * den1,
        binary32::is_nearest(num1, den1, a),
        binary32::is_nearest(num2, den2, b),
    ensures
        a <= b,
{
    if a > b {
        let low: nat = binary32::units(b) + binary32::units(b + 1);
        let high: nat = binary32::units((a - 1) as nat) + binary32::units(a);
        lemma_units_increase(b, (a - 1) as nat);
        lemma_units_increase(b + 1, a);
        assert(high * den1 <= 2 * num1);
        assert(2 * num2 <= low * den2);
        assert(low <= high);
        // high * den1 * den2 <= 2 * num1 * den2 <= 2 * num2 * den1 <= low * den2 * den1
        assert(high * den1 * den2 <= 2 * num1 * den2) by (nonlinear_arith)
            requires
                high * den1 <= 2 * num1,
        ;
        assert(2 * num1 * den2 <= 2 * num2 * den1) by (nonlinear_arith)
            requires
                num1 * den2 <= num2 * den1,
        ;
        assert(2 * num2 * den1 <= low * den2 * den1) by (nonlinear_arith)
            requires
                2 * num2 <= low * den2,
        ;
        assert(low * den2 * den1 == low * den1 * den2) by (nonlinear_arith);
        assert(high <= low) by (nonlinear_arith)
            requires
                high * den1 * den2 <= low * den1 * den2,
                den1 > 0,
                den2 > 0,
        ;
        assert(a == b + 1) by {
            if a > b + 1 {
                lemma_units_increase(b, (a - 1) as nat);
            }
        }
        assert(high * den1 == 2 * num1) by (nonlinear_arith)
            requires
                high * den1 <= 2 * num1,
                2 * num1 * den2 <= high * den1 * den2,
                den2 > 0,
        ;
        assert(low * den2 == 2 * num2) by (nonlinear_arith)
            requires
                2 * num2 <= low * den2,
                low * den2 * den1 <= 2 * num2 * den1,
                den1 > 0,
        ;
    }
}

/// The exact number, twice over, sits at `2 * q + half` steps of `step`, or, where `rest` is set,
/// strictly between there and the next step.
pub open spec fn bracketed(twice: nat, q: nat, half: bool, rest: bool, step: nat) -> bool {
    let low = (2 * q + (if half { 1int } else { 0int })) * step;
    if rest {
        low < twice < low + step
    } else {
        low == twice
    }
}

/// Halving the significand keeps the bracket, at twice the step.
proof fn lemma_halve(twice: nat, q: nat, half: bool, rest: bool, step: nat)
    requires
        bracketed(twice, q, half, rest, step),
        step > 0,
    ensures
        bracketed(twice, q / 2, q % 2 == 1, rest || half, 2 * step),
{
    let bit: int = if q % 2 == 1 { 1 } else { 0 };
    let h: int = if half { 1 } else { 0 };
    assert(2 * (q / 2) + bit == q);
    assert((2 * (q / 2) + bit) * (2 * step) == 2 * (q * step)) by (nonlinear_arith)
        requires
            2 * (q / 2) + bit == q,
    ;
    assert((2 * q + h) * step == 2 * (q * step) + h * step) by (nonlinear_arith);
    assert(h * step == (if half { step as int } else { 0 })) by (nonlinear_arith)
        requires
            h == (if half { 1int } else { 0int }),
    ;
}

/// Rounding a bracketed significand of at most 24 bits.
proof fn lemma_decide(num: nat, den: nat, t: nat, q: nat, half: bool, rest: bool, m: nat)
    requires
        den > 0,
        q < 2 * NORMAL,
        t == 0 || q >= NORMAL,
        bracketed(2 * num, q, half, rest, pow2(t) * den),
        m == t * NORMAL + q + (if half && (rest || q % 2 == 1) { 1int } else { 0int }),
    ensures
        binary32::is_nearest(num, den, if m <= INF { m } else { INF as nat }),
{
    let base: nat = (t * NORMAL + q) as nat;
    let step: nat = pow2(t) * den;
    lemma_pow2_pos(t);
    assert(step > 0) by (nonlinear_arith)
        requires
            step == pow2(t) * den,
            pow2(t) > 0,
            den > 0,
    ;
    lemma_units_of(t, q);
    lemma_units_of(t, q + 1);
    let at: nat = binary32::units(base);
    let next: nat = binary32::units(base + 1);
    assert(at * den == q * step) by (nonlinear_arith)
        requires
            at == q * pow2(t),
            step == pow2(t) * den,
    ;
    assert(next * den == (q + 1) * step) by (nonlinear_arith)
        requires
            next == (q + 1) * pow2(t),
            step == pow2(t) * den,
    ;
    assert((q + 1) * step == q * step + step) by (nonlinear_arith);
    assert((2 * q) * step == 2 * (q * step)) by (nonlinear_arith);
    assert((2 * q + 1) * step == 2 * (q * step) + step) by (nonlinear_arith);
    assert((at + next) * den == at * den + next * den) by (nonlinear_arith);
    assert(base % 2 == q % 2) by {
        assert(t * NORMAL == 2 * (t * 0x40_0000)) by (nonlinear_arith)
            requires
                NORMAL == 0x80_0000,
        ;
    }
    let r: nat = if m <= INF { m } else { INF as nat };
    if r > 0 {
        let before: nat = binary32::units((r - 1) as nat);
        let here: nat = binary32::units(r);
        lemma_units_step((r - 1) as nat);
        if r <= base {
            lemma_units_increase(r, base);
            assert((before + here) * den < 2 * (at * den)) by (nonlinear_arith)
                requires
                    before < here <= at,
                    den > 0,
            ;
        } else {
            assert(r == base + 1);
        }
    }
    if r < INF {
        let here: nat = binary32::units(r);
        let after: nat = binary32::units(r + 1);
        lemma_units_step(r);
        if r == base + 1 {
            assert(2 * (next * den) < (here + after) * den) by (nonlinear_arith)
                requires
                    here == next,
                    here < after,
                    den > 0,
            ;
        }
    }
}

/// Exponents handed to [`round`] are counted from this far below one unit.
pub const BIAS: u32 = 200;

/// `num / den` units is the significand `q` at exponent `k`, or, where `rest` is set, lies strictly
/// between `q` and `q + 1` there.
pub open spec fn located(num: nat, den: nat, q: nat, k: nat, rest: bool) -> bool {
    let exact = num * pow2(BIAS as nat);
    let step = pow2(k) * den;
    if rest {
        q * step < exact < (q + 1) * step
    } else {
        q * step == exact
    }
}

/// The magnitude nearest to a number that is given by a significand at an exponent.
pub(crate) fn round(
    significand: u128,
    exponent: u32,
    rest: bool,
    Ghost(num): Ghost<nat>,
    Ghost(den): Ghost<nat>,
) -> (m: u32)
    requires
        den > 0,
        1 <= exponent <= 700,
        significand < 0x1_0000_0000_0000_0000_0000_0000,
        rest ==> significand >= 2 * NORMAL,
        located(num, den, significand as nat, exponent as nat, rest),
    ensures
        m <= INF,
        binary32::is_nearest(num, den, m as nat),
        m == binary32::nearest(num, den),
{
    let ghost exact = num * pow2(BIAS as nat);
    let ghost mut j: nat = 96;
    let mut q: u128 = significand;
    let mut k: u32 = exponent;
    let mut half: bool = false;
    let mut below: bool = rest;
    proof {
        lemma_pow2_pos(k as nat);
        lemma2_to64();
        lemma_pow2_adds(32, 64);
    }
    if rest {
        half = q % 2 == 1;
        q = q / 2;
        proof {
            assert(2 * q + (if half { 1int } else { 0int }) == significand);
            let step: nat = pow2(k as nat) * den;
            assert((significand + 1) * step == significand * step + step) by (nonlinear_arith);
        }
    } else {
        k = k - 1;
        proof {
            lemma_pow2_unfold(exponent as nat);
            assert(significand * (2 * pow2(k as nat) * den) == (2 * q) * (pow2(k as nat) * den))
                by (nonlinear_arith)
                requires
                    q == significand,
            ;
            assert(significand * (pow2(exponent as nat) * den) == significand * (2 * pow2(k as nat)
                * den));
        }
        while q < NORMAL as u128 && k >= BIAS
            invariant
                k < 700,
                q < 0x1_0000_0000_0000_0000_0000_0000,
                q < pow2(j),
                j == 96,
                pow2(96) == 0x1_0000_0000_0000_0000_0000_0000,
                !half,
                !below,
                bracketed(exact, q as nat, half, below, pow2(k as nat) * den),
            decreases k,
        {
            proof {
                lemma_pow2_unfold(k as nat);
                let p: nat = pow2((k - 1) as nat);
                assert((2 * q) * (2 * p * den) == (2 * (2 * q)) * (p * den)) by (nonlinear_arith);
            }
            q = q * 2;
            k = k - 1;
        }
    }
    while q >= 2 * NORMAL as u128 || k < BIAS - 1
        invariant
            den > 0,
            k + j <= 796 || (j == 0 && k < BIAS),
            q < pow2(j),
            k >= BIAS ==> q >= NORMAL,
            bracketed(exact, q as nat, half, below, pow2(k as nat) * den),
        decreases q + (if k < BIAS { BIAS - k } else { 0 }),
    {
        proof {
            let step: nat = pow2(k as nat) * den;
            lemma_pow2_pos(k as nat);
            assert(step > 0) by (nonlinear_arith)
                requires
                    step == pow2(k as nat) * den,
                    pow2(k as nat) > 0,
                    den > 0,
            ;
            lemma_halve(exact, q as nat, half, below, step);
            lemma_pow2_unfold((k + 1) as nat);
            assert(2 * pow2(k as nat) * den == 2 * (pow2(k as nat) * den)) by (nonlinear_arith);
            if j == 0 {
                lemma2_to64();
            } else {
                lemma_pow2_unfold(j);
                j = (j - 1) as nat;
            }
        }
        below = below || half;
        half = q % 2 == 1;
        q = q / 2;
        k = k + 1;
    }
    let t: u32 = k - (BIAS - 1);
    let up: u64 = if half && (below || q % 2 == 1) {
        1
    } else {
        0
    };
    assert(t * NORMAL <= 796 * 0x80_0000) by (nonlinear_arith)
        requires
            t <= 796,
            NORMAL == 0x80_0000,
    ;
    let m: u64 = t as u64 * NORMAL as u64 + q as u64 + up;
    proof {
        let b: nat = (BIAS - 1) as nat;
        lemma_pow2_adds(t as nat, b);
        lemma_pow2_unfold(BIAS as nat);
        lemma_pow2_pos(b);
        let p: nat = pow2(b);
        let h: int = if half { 1 } else { 0 };
        let small: nat = pow2(t as nat) * den;
        assert(pow2(k as nat) * den == small * p) by (nonlinear_arith)
            requires
                pow2(k as nat) == pow2(t as nat) * p,
                small == pow2(t as nat) * den,
        ;
        assert((2 * q + h) * (small * p) == ((2 * q + h) * small) * p) by (nonlinear_arith);
        assert(exact == (2 * num) * p) by (nonlinear_arith)
            requires
                exact == num * (2 * p),
        ;
        let low: int = (2 * q + h) * small;
        assert(low * p + small * p == (low + small) * p) by (nonlinear_arith);
        if below {
            assert(low < 2 * num < low + small) by (nonlinear_arith)
                requires
                    low * p < (2 * num) * p < (low + small) * p,
                    p > 0,
            ;
        } else {
            assert(low == 2 * num) by (nonlinear_arith)
                requires
                    low * p == (2 * num) * p,
                    p > 0,
            ;
        }
        lemma_decide(num, den, t as nat, q as nat, half, below, m as nat);
        let r: nat = if m <= INF { m as nat } else { INF as nat };
        lemma_nearest_unique(num, den, r, binary32::nearest(num, den));
    }
    if m <= INF as u64 {
        m as u32
    } else {
        INF
    }
}

} // verus!
