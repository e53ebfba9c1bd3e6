//! Arithmetic: each operation returns the number nearest to the exact result, ties to even.

use crate::binary32;
use crate::binary32::F32;
use crate::binary32::INF;
use crate::binary32::NAN;
use crate::binary32::NORMAL;
use crate::rounding;
use crate::rounding::BIAS;
use vstd::arithmetic::power2::*;
use vstd::prelude::*;

verus! {

/// `a + b`. Infinities of opposite signs have no sum; an exact zero is negative only where both
/// terms are.
pub open spec fn sum(a: F32, b: F32) -> F32 {
    if a.nan() || b.nan() || (a.infinite() && b.infinite() && a.negative() != b.negative()) {
        F32 { bits: NAN }
    } else if a.infinite() {
        a
    } else if b.infinite() {
        b
    } else {
        let total = a.value() + b.value();
        if total == 0 {
            binary32::assemble(a.negative() && b.negative(), 0)
        } else {
            binary32::assemble(
                total < 0,
                binary32::nearest((if total < 0 { -total } else { total }) as nat, 1),
            )
        }
    }
}

/// `a - b`.
pub open spec fn difference(a: F32, b: F32) -> F32 {
    sum(a, binary32::opposite(b))
}

/// `a * b`. Zero times infinity has no product.
pub open spec fn product(a: F32, b: F32) -> F32 {
    let negative = a.negative() != b.negative();
    if a.nan() || b.nan() || (a.infinite() && b.magnitude() == 0) || (a.magnitude() == 0
        && b.infinite()) {
        F32 { bits: NAN }
    } else if a.infinite() || b.infinite() {
        binary32::assemble(negative, INF as nat)
    } else {
        binary32::assemble(
            negative,
            binary32::nearest(
                binary32::units(a.magnitude()) * binary32::units(b.magnitude()),
                pow2(149),
            ),
        )
    }
}

/// `a / b`. Neither two zeros nor two infinities have a quotient; anything else over zero is
/// infinite.
pub open spec fn quotient(a: F32, b: F32) -> F32 {
    let negative = a.negative() != b.negative();
    if a.nan() || b.nan() || (a.infinite() && b.infinite()) || (a.magnitude() == 0 && b.magnitude()
        == 0) {
        F32 { bits: NAN }
    } else if a.infinite() || b.magnitude() == 0 {
        binary32::assemble(negative, INF as nat)
    } else if b.infinite() {
        binary32::assemble(negative, 0)
    } else {
        binary32::assemble(
            negative,
            binary32::nearest(
                binary32::units(a.magnitude()) * pow2(149),
                binary32::units(b.magnitude()),
            ),
        )
    }
}

/// The number nearest to an integer.
pub open spec fn of_integer(n: nat) -> F32 {
    binary32::assemble(false, binary32::nearest(n * pow2(149), 1))
}

/// A finite magnitude as a significand of at most 24 bits and an exponent.
fn parts(m: u32) -> (r: (u32, u32))
    requires
        m < INF,
    ensures
        binary32::units(m as nat) == r.0 * pow2(r.1 as nat),
        r.0 < 2 * NORMAL,
        r.1 <= 253,
        r.1 > 0 ==> r.0 >= NORMAL,
        r.0 == 0 <==> m == 0,
{
    if m < NORMAL {
        proof {
            lemma2_to64();
        }
        (m, 0)
    } else {
        (NORMAL + m % NORMAL, m / NORMAL - 1)
    }
}

/// A power of two.
fn power(d: u32) -> (r: u64)
    requires
        d < 64,
    ensures
        r == pow2(d as nat),
{
    proof {
        lemma_pow2_strictly_increases(d as nat, 64);
        lemma2_to64();
        vstd::bits::lemma_u64_shl_is_mul(1, d as u64);
    }
    1u64 << d
}

/// A whole number of steps, or strictly between two of them, at an exponent counted in units.
proof fn lemma_located(total: nat, q: nat, e: nat, rest: bool)
    requires
        if rest {
            q * pow2(e) < total < (q + 1) * pow2(e)
        } else {
            q * pow2(e) == total
        },
    ensures
        rounding::located(total, 1, q, e + BIAS as nat, rest),
{
    let p: nat = pow2(e);
    let b: nat = pow2(BIAS as nat);
    lemma_pow2_adds(e, BIAS as nat);
    lemma_pow2_pos(BIAS as nat);
    assert(q * (p * b) == (q * p) * b) by (nonlinear_arith);
    assert((q + 1) * (p * b) == ((q + 1) * p) * b) by (nonlinear_arith);
    if rest {
        assert((q * p) * b < total * b < ((q + 1) * p) * b) by (nonlinear_arith)
            requires
                q * p < total < (q + 1) * p,
                b > 0,
        ;
    }
}

/// The sum of two finite numbers, the first with the exponent that is no smaller.
fn sum_aligned(a: F32, b: F32, pa: (u32, u32), pb: (u32, u32)) -> (r: F32)
    requires
        a.finite(),
        b.finite(),
        binary32::units(a.magnitude()) == pa.0 * pow2(pa.1 as nat),
        binary32::units(b.magnitude()) == pb.0 * pow2(pb.1 as nat),
        pa.0 < 2 * NORMAL,
        pb.0 < 2 * NORMAL,
        pb.1 <= pa.1 <= 253,
        pa.1 > 0 ==> pa.0 >= NORMAL,
    ensures
        r == sum(a, b),
{
    let ghost total: int = a.value() + b.value();
    let ghost size: nat = (if total < 0 { -total } else { total }) as nat;
    let d: u32 = pa.1 - pb.1;
    if d <= 39 {
        let p: u64 = power(d);
        proof {
            lemma_pow2_strictly_increases(d as nat, 40);
            lemma2_to64_rest();
            lemma_pow2_adds(d as nat, pb.1 as nat);
            lemma_pow2_pos(pb.1 as nat);
        }
        assert(pa.0 * p < 0x100_0000 * 0x100_0000_0000) by (nonlinear_arith)
            requires
                pa.0 < 0x100_0000,
                p < 0x100_0000_0000,
        ;
        let x: i128 = (pa.0 as u64 * p) as i128;
        let y: i128 = pb.0 as i128;
        let s: i128 = (if a.is_negative() { -x } else { x }) + (if b.is_negative() { -y } else { y });
        proof {
            let w: int = pow2(pb.1 as nat) as int;
            assert(pa.0 * pow2(pa.1 as nat) == x * w) by (nonlinear_arith)
                requires
                    x == pa.0 * p,
                    pow2(pa.1 as nat) == p * w,
            ;
            assert((-x) * w == -(x * w)) by (nonlinear_arith);
            assert((-y) * w == -(y * w)) by (nonlinear_arith);
            assert((x + y) * w == x * w + y * w) by (nonlinear_arith);
            assert((x - y) * w == x * w - y * w) by (nonlinear_arith);
            assert((-x + y) * w == -(x * w) + y * w) by (nonlinear_arith);
            assert((-x - y) * w == -(x * w) - y * w) by (nonlinear_arith);
            assert(total == s * w);
            assert((s == 0) == (total == 0) && (s < 0) == (total < 0)) by (nonlinear_arith)
                requires
                    total == s * w,
                    w > 0,
            ;
            assert((-s) * w == -(s * w)) by (nonlinear_arith);
        }
        if s == 0 {
            F32::from_parts(a.is_negative() && b.is_negative(), 0)
        } else {
            let q: u128 = if s < 0 {
                (-s) as u128
            } else {
                s as u128
            };
            proof {
                lemma_located(size, q as nat, pb.1 as nat, false);
            }
            let m: u32 = rounding::round(q, pb.1 + BIAS, false, Ghost(size), Ghost(1));
            F32::from_parts(s < 0, m)
        }
    } else {
        let e: u32 = pa.1 - 16;
        let whole: u128 = pa.0 as u128 * 0x1_0000;
        let rest = pb.0 != 0;
        let q: u128 = if rest && a.is_negative() != b.is_negative() {
            whole - 1
        } else {
            whole
        };
        proof {
            let w: int = pow2(e as nat) as int;
            lemma2_to64();
            lemma2_to64_rest();
            lemma_pow2_adds(16, e as nat);
            lemma_pow2_adds(24, pb.1 as nat);
            lemma_pow2_pos(pb.1 as nat);
            lemma_pow2_pos(e as nat);
            if pb.1 + 24 < e {
                lemma_pow2_strictly_increases((pb.1 + 24) as nat, e as nat);
            }
            assert(binary32::units(a.magnitude()) == whole * w) by (nonlinear_arith)
                requires
                    binary32::units(a.magnitude()) == pa.0 * pow2(pa.1 as nat),
                    pow2(pa.1 as nat) == 0x1_0000 * w,
                    whole == pa.0 * 0x1_0000,
            ;
            let small: nat = binary32::units(b.magnitude());
            assert(small < w && (small == 0 <==> pb.0 == 0)) by (nonlinear_arith)
                requires
                    small == pb.0 * pow2(pb.1 as nat),
                    pb.0 < 0x100_0000,
                    0x100_0000 * pow2(pb.1 as nat) <= w,
                    pow2(pb.1 as nat) > 0,
            ;
            assert((whole + 1) * w == whole * w + w) by (nonlinear_arith);
            assert((whole - 1) * w == whole * w - w) by (nonlinear_arith);
            assert(whole * w >= w) by (nonlinear_arith)
                requires
                    whole >= 1,
                    w > 0,
            ;
            assert(total != 0);
            assert((total < 0) == a.negative());
            lemma_located(size, q as nat, e as nat, rest);
        }
        let m: u32 = rounding::round(q, e + BIAS, rest, Ghost(size), Ghost(1));
        F32::from_parts(a.is_negative(), m)
    }
}

impl F32 {
    /// `self + other`.
    pub fn add(self, other: F32) -> (r: F32)
        ensures
            r == sum(self, other),
    {
        if self.is_nan() || other.is_nan() {
            F32 { bits: NAN }
        } else if !self.is_finite() {
            if !other.is_finite() && self.is_negative() != other.is_negative() {
                F32 { bits: NAN }
            } else {
                self
            }
        } else if !other.is_finite() {
            other
        } else {
            let pa = parts(self.to_magnitude());
            let pb = parts(other.to_magnitude());
            if pa.1 >= pb.1 {
                sum_aligned(self, other, pa, pb)
            } else {
                sum_aligned(other, self, pb, pa)
            }
        }
    }

    /// `self - other`.
    pub fn sub(self, other: F32) -> (r: F32)
        ensures
            r == difference(self, other),
    {
        self.add(other.neg())
    }

    /// `self * other`.
    pub fn mul(self, other: F32) -> (r: F32)
        ensures
            r == product(self, other),
    {
        let negative = self.is_negative() != other.is_negative();
        let ma: u32 = self.to_magnitude();
        let mb: u32 = other.to_magnitude();
        if self.is_nan() || other.is_nan() {
            F32 { bits: NAN }
        } else if !self.is_finite() || !other.is_finite() {
            if ma == 0 || mb == 0 {
                F32 { bits: NAN }
            } else {
                F32::from_parts(negative, INF)
            }
        } else {
            let (sa, ea) = parts(ma);
            let (sb, eb) = parts(mb);
            let k: u32 = ea + eb + BIAS - 149;
            assert(sa * sb < 0x1_0000_0000_0000) by (nonlinear_arith)
                requires
                    sa < 0x100_0000,
                    sb < 0x100_0000,
            ;
            let q: u64 = sa as u64 * sb as u64;
            let ghost num = binary32::units(ma as nat) * binary32::units(mb as nat);
            proof {
                lemma_pow2_pos(149);
                lemma_pow2_adds(ea as nat, eb as nat);
                lemma_pow2_adds((ea + eb) as nat, BIAS as nat);
                lemma_pow2_adds(k as nat, 149);
                let e: nat = pow2((ea + eb) as nat);
                let b: nat = pow2(BIAS as nat);
                assert(num == q * e) by (nonlinear_arith)
                    requires
                        num == (sa * pow2(ea as nat)) * (sb * pow2(eb as nat)),
                        e == pow2(ea as nat) * pow2(eb as nat),
                        q == sa * sb,
                ;
                assert((q * e) * b == q * (e * b)) by (nonlinear_arith);
            }
            let m: u32 = rounding::round(q as u128, k, false, Ghost(num), Ghost(pow2(149)));
            F32::from_parts(negative, m)
        }
    }

    /// `self / other`.
    pub fn div(self, other: F32) -> (r: F32)
        ensures
            r == quotient(self, other),
    {
        let negative = self.is_negative() != other.is_negative();
        let ma: u32 = self.to_magnitude();
        let mb: u32 = other.to_magnitude();
        if self.is_nan() || other.is_nan() {
            F32 { bits: NAN }
        } else if !self.is_finite() {
            if !other.is_finite() {
                F32 { bits: NAN }
            } else {
                F32::from_parts(negative, INF)
            }
        } else if mb == 0 {
            if ma == 0 {
                F32 { bits: NAN }
            } else {
                F32::from_parts(negative, INF)
            }
        } else if !other.is_finite() {
            F32::from_parts(negative, 0)
        } else {
            let (sa, ea) = parts(ma);
            let (sb, eb) = parts(mb);
            let k: u32 = ea + 149 + BIAS - 60 - eb;
            let top: u128 = sa as u128 * 0x1000_0000_0000_0000;
            let q: u128 = top / sb as u128;
            let rest = top % sb as u128 != 0;
            let ghost num = binary32::units(ma as nat) * pow2(149);
            let ghost den = binary32::units(mb as nat);
            proof {
                lemma_quotient(sa as nat, ea as nat, sb as nat, eb as nat, q as nat, k as nat, rest);
            }
            let m: u32 = rounding::round(q, k, rest, Ghost(num), Ghost(den));
            F32::from_parts(negative, m)
        }
    }

    /// The number nearest to an integer.
    pub fn from_integer(n: u64) -> (r: F32)
        ensures
            r == of_integer(n as nat),
    {
        let ghost num = n as nat * pow2(149);
        proof {
            lemma_pow2_adds(149, BIAS as nat);
            assert(n * (pow2(149) * pow2(BIAS as nat)) == (n * pow2(149)) * pow2(BIAS as nat))
                by (nonlinear_arith);
            assert(pow2(349) * 1 == pow2(349));
        }
        let m: u32 = rounding::round(n as u128, 149 + BIAS, false, Ghost(num), Ghost(1));
        F32::from_parts(false, m)
    }
}

/// Where the quotient of two finite numbers lies.
proof fn lemma_quotient(sa: nat, ea: nat, sb: nat, eb: nat, q: nat, k: nat, rest: bool)
    requires
        sa < 2 * NORMAL,
        0 < sb < 2 * NORMAL,
        ea <= 253,
        eb <= 253,
        k + eb == ea + 149 + BIAS - 60,
        q == (sa * 0x1000_0000_0000_0000) / sb,
        rest == ((sa * 0x1000_0000_0000_0000) % sb != 0),
    ensures
        sb * pow2(eb) > 0,
        q < 0x1_0000_0000_0000_0000_0000_0000,
        rest ==> q >= 2 * NORMAL,
        rounding::located((sa * pow2(ea)) * pow2(149), sb * pow2(eb), q, k, rest),
{
    let top: nat = sa * 0x1000_0000_0000_0000;
    let w: nat = pow2((k + eb) as nat);
    let num: nat = (sa * pow2(ea)) * pow2(149);
    let b: nat = pow2(BIAS as nat);
    lemma2_to64_rest();
    lemma_pow2_pos(eb);
    lemma_pow2_pos((k + eb) as nat);
    lemma_pow2_adds(k, eb);
    lemma_pow2_adds(ea, 149);
    lemma_pow2_adds(ea + 149, BIAS as nat);
    lemma_pow2_adds(60, k + eb);
    assert(sb * pow2(eb) > 0) by (nonlinear_arith)
        requires
            sb > 0,
            pow2(eb) > 0,
    ;
    assert(pow2(k) * (sb * pow2(eb)) == sb * w) by (nonlinear_arith)
        requires
            w == pow2(k) * pow2(eb),
    ;
    assert(num * b == top * w) by (nonlinear_arith)
        requires
            num == (sa * pow2(ea)) * pow2(149),
            (pow2(ea) * pow2(149)) * b == 0x1000_0000_0000_0000 * w,
            top == sa * 0x1000_0000_0000_0000,
    ;
    let r: nat = top % sb;
    vstd::arithmetic::div_mod::lemma_fundamental_div_mod(top as int, sb as int);
    assert(top == q * sb + r) by (nonlinear_arith)
        requires
            top == sb * q + r,
    ;
    assert(q * (sb * w) == (q * sb) * w) by (nonlinear_arith);
    assert((q + 1) * (sb * w) == (q * sb + sb) * w) by (nonlinear_arith);
    if rest {
        assert((q * sb) * w < top * w < (q * sb + sb) * w) by (nonlinear_arith)
            requires
                q * sb < top < q * sb + sb,
                w > 0,
        ;
        assert(q >= 2 * NORMAL) by (nonlinear_arith)
            requires
                top >= 0x1000_0000_0000_0000,
                top < q * sb + sb,
                sb < 0x100_0000,
                NORMAL == 0x80_0000,
        ;
    }
    assert(q <= top) by (nonlinear_arith)
        requires
            top == q * sb + r,
            sb >= 1,
    ;
}

} // verus!
