//! Every operation returns the number nearest to the exact result.

use crate::arith;
use crate::binary32;
use crate::binary32::F32;
use crate::binary32::INF;
use crate::number_laws;
use crate::rounding;
use crate::sum_laws;
use vstd::arithmetic::power2::*;
use vstd::prelude::*;

verus! {

/// How far apart two integers are.
pub open spec fn gap(a: int, b: int) -> int {
    if a < b {
        b - a
    } else {
        a - b
    }
}

/// Where rounding gives infinity: halfway from the largest finite number, (2^24 - 1) * 2^253 units, to
/// what would follow it.
pub open spec fn too_large(size: int, den: int) -> bool {
    2 * size >= (0x1ff_ffff * pow2(253)) * den
}

/// The finite number `r` over `den` is nearest to `v`: no finite number is nearer, and where another
/// one is as near, the pattern of `r` is even.
pub open spec fn closest(r: F32, den: int, v: int) -> bool {
    &&& r.finite()
    &&& forall|c: F32| #[trigger]
        c.finite() ==> {
            &&& gap(r.value() * den, v) <= gap(c.value() * den, v)
            &&& gap(r.value() * den, v) == gap(c.value() * den, v) && c.value() != r.value()
                ==> r.bits % 2 == 0
        }
}

proof fn lemma_closest_magnitude(num: nat, den: nat, m: nat, c: nat)
    requires
        den > 0,
        binary32::is_nearest(num, den, m),
        m < INF,
    ensures
        gap((binary32::units(m) * den) as int, num as int) <= gap(
            (binary32::units(c) * den) as int,
            num as int,
        ),
        gap((binary32::units(m) * den) as int, num as int) == gap(
            (binary32::units(c) * den) as int,
            num as int,
        ) && c != m ==> m % 2 == 0,
{
    let u: int = (binary32::units(m) * den) as int;
    let w: int = (binary32::units(c) * den) as int;
    if c > m {
        rounding::lemma_units_increase(m + 1, c);
        let after: int = (binary32::units(m + 1) * den) as int;
        assert((binary32::units(m) + binary32::units(m + 1)) * den == u + after) by (nonlinear_arith)
            requires
                u == binary32::units(m) * den,
                after == binary32::units(m + 1) * den,
        ;
        assert(w >= after) by (nonlinear_arith)
            requires
                w == binary32::units(c) * den,
                after == binary32::units(m + 1) * den,
                binary32::units(c) >= binary32::units(m + 1),
        ;
        rounding::lemma_units_increase(m, m + 1);
        assert(after > u) by (nonlinear_arith)
            requires
                u == binary32::units(m) * den,
                after == binary32::units(m + 1) * den,
                binary32::units(m + 1) > binary32::units(m),
                den > 0,
        ;
    } else if c < m {
        let k: nat = (m - 1) as nat;
        rounding::lemma_units_increase(c, k);
        let before: int = (binary32::units(k) * den) as int;
        assert((binary32::units(k) + binary32::units(m)) * den == before + u) by (nonlinear_arith)
            requires
                u == binary32::units(m) * den,
                before == binary32::units(k) * den,
        ;
        assert(w <= before) by (nonlinear_arith)
            requires
                w == binary32::units(c) * den,
                before == binary32::units(k) * den,
                binary32::units(c) <= binary32::units(k),
        ;
        rounding::lemma_units_increase(k, m);
        assert(before < u) by (nonlinear_arith)
            requires
                u == binary32::units(m) * den,
                before == binary32::units(k) * den,
                binary32::units(m) > binary32::units(k),
                den > 0,
        ;
    }
}

/// A number whose magnitude is nearest to a size, with the sign of what has that size.
pub proof fn lemma_closest(num: nat, den: nat, r: F32, v: int)
    requires
        den > 0,
        binary32::is_nearest(num, den, r.magnitude()),
        r.finite(),
        if r.negative() {
            v == -num
        } else {
            v == num
        },
    ensures
        closest(r, den as int, v),
{
    let m: nat = r.magnitude();
    let d: int = den as int;
    assert forall|c: F32| #[trigger] c.finite() implies ({
        &&& gap(r.value() * d, v) <= gap(c.value() * d, v)
        &&& gap(r.value() * d, v) == gap(c.value() * d, v) && c.value() != r.value() ==> r.bits % 2
            == 0
    }) by {
        let n: nat = c.magnitude();
        let u: int = (binary32::units(m) * den) as int;
        let w: int = (binary32::units(n) * den) as int;
        lemma_closest_magnitude(num, den, m, n);
        lemma_closest_magnitude(num, den, m, 0);
        assert(binary32::units(0) * den == 0) by (nonlinear_arith)
            requires
                binary32::units(0) == 0,
        ;
        assert(r.value() * d == if r.negative() { -u } else { u }) by (nonlinear_arith)
            requires
                u == binary32::units(m) * d,
                r.value() == if r.negative() { -binary32::units(m) } else { binary32::units(m) as int },
        ;
        assert(c.value() * d == if c.negative() { -w } else { w }) by (nonlinear_arith)
            requires
                w == binary32::units(n) * d,
                c.value() == if c.negative() { -binary32::units(n) } else { binary32::units(n) as int },
        ;
        assert(w >= 0 && (w == 0 ==> binary32::units(n) == 0)) by (nonlinear_arith)
            requires
                w == binary32::units(n) * d,
                d > 0,
        ;
        if r.negative() != c.negative() {
            if gap(r.value() * d, v) == gap(c.value() * d, v) && c.value() != r.value() {
                if m == 0 {
                    assert(u == 0) by (nonlinear_arith)
                        requires
                            u == binary32::units(m) * d,
                            binary32::units(m) == 0,
                    ;
                    assert(w == 0);
                    assert(false);
                }
                assert(m % 2 == 0);
            }
        }
    }
}

/// Exactly the sizes that are too large are rounded to infinity.
pub proof fn lemma_overflow(num: nat, den: nat)
    requires
        den > 0,
    ensures
        binary32::nearest(num, den) <= INF,
        binary32::nearest(num, den) == INF <==> too_large(num as int, den as int),
{
    let m: nat = binary32::nearest(num, den);
    number_laws::law_nearest(num, den);
    let last: nat = 0x7f7f_ffff;
    lemma_pow2_unfold(254);
    assert(0x7f7f_ffffint / 0x80_0000 == 254 && 0x7f7f_ffffint % 0x80_0000 == 0x7f_ffff);
    assert(0x7f80_0000int / 0x80_0000 == 255 && 0x7f80_0000int % 0x80_0000 == 0);
    assert(binary32::units(last) == 0xff_ffff * pow2(253));
    assert(binary32::units(0x7f80_0000) == 0x80_0000 * pow2(254));
    assert(binary32::units(last) + binary32::units(0x7f80_0000) == 0x1ff_ffff * pow2(253));
    let middle: nat = (binary32::units(last) + binary32::units(0x7f80_0000)) * den;
    if m < INF {
        rounding::lemma_units_increase(m, last);
        rounding::lemma_units_increase(m + 1, 0x7f80_0000);
        assert((binary32::units(m) + binary32::units(m + 1)) * den <= middle) by (nonlinear_arith)
            requires
                binary32::units(m) <= binary32::units(last),
                binary32::units(m + 1) <= binary32::units(0x7f80_0000),
                middle == (binary32::units(last) + binary32::units(0x7f80_0000)) * den,
        ;
        if m < last {
            assert((binary32::units(m) + binary32::units(m + 1)) * den < middle) by (nonlinear_arith)
                requires
                    binary32::units(m) < binary32::units(last),
                    binary32::units(m + 1) <= binary32::units(0x7f80_0000),
                    middle == (binary32::units(last) + binary32::units(0x7f80_0000)) * den,
                    den > 0,
            ;
        }
    }
}

/// The sum of two finite numbers is the one nearest to their exact sum, or infinite where that is too
/// large; an exact zero is negative only where both terms are.
pub proof fn law_sum_nearest(a: F32, b: F32)
    requires
        a.finite(),
        b.finite(),
    ensures
        ({
            let r = arith::sum(a, b);
            let v = a.value() + b.value();
            &&& too_large(gap(v, 0), 1) ==> r.infinite() && (r.negative() <==> v < 0)
            &&& !too_large(gap(v, 0), 1) ==> closest(r, 1, v)
            &&& v < 0 ==> r.negative()
            &&& v > 0 ==> !r.negative()
            &&& v == 0 ==> r.magnitude() == 0 && (r.negative() <==> a.negative() && b.negative())
        }),
{
    let r = arith::sum(a, b);
    let v: int = a.value() + b.value();
    let size: nat = gap(v, 0) as nat;
    number_laws::law_nearest(size, 1);
    lemma_overflow(size, 1);
    lemma_pow2_pos(253);
    if v == 0 {
        number_laws::law_nearest_exact(0, 0, 1);
    }
    if !too_large(gap(v, 0), 1) {
        assert(r.finite());
        if v == 0 && r.negative() {
            lemma_closest(0, 1, r, 0);
        } else {
            lemma_closest(size, 1, r, v);
        }
    }
}

/// The difference of two finite numbers is the one nearest to their exact difference, or infinite where
/// that is too large.
pub proof fn law_difference_nearest(a: F32, b: F32)
    requires
        a.finite(),
        b.finite(),
    ensures
        ({
            let r = arith::difference(a, b);
            let v = a.value() - b.value();
            &&& too_large(gap(v, 0), 1) ==> r.infinite() && (r.negative() <==> v < 0)
            &&& !too_large(gap(v, 0), 1) ==> closest(r, 1, v)
            &&& v < 0 ==> r.negative()
            &&& v > 0 ==> !r.negative()
            &&& v == 0 ==> r.magnitude() == 0 && (r.negative() <==> a.negative() && !b.negative())
        }),
{
    let o = binary32::opposite(b);
    assert(o.magnitude() == b.magnitude() && o.negative() != b.negative());
    law_sum_nearest(a, o);
}

/// The product of two finite numbers is the one nearest to their exact product, or infinite where that
/// is too large; it is negative where one of them is.
pub proof fn law_product_nearest(a: F32, b: F32)
    requires
        a.finite(),
        b.finite(),
    ensures
        ({
            let r = arith::product(a, b);
            let v = a.value() * b.value();
            &&& r.negative() <==> a.negative() != b.negative()
            &&& too_large(gap(v, 0), pow2(149) as int) ==> r.infinite()
            &&& !too_large(gap(v, 0), pow2(149) as int) ==> closest(r, pow2(149) as int, v)
        }),
{
    let r = arith::product(a, b);
    let v: int = a.value() * b.value();
    let ua: nat = binary32::units(a.magnitude());
    let ub: nat = binary32::units(b.magnitude());
    let num: nat = ua * ub;
    lemma_pow2_pos(149);
    number_laws::law_nearest(num, pow2(149));
    lemma_overflow(num, pow2(149));
    assert(num >= 0 && v == if a.negative() != b.negative() {
        -num
    } else {
        num as int
    }) by (nonlinear_arith)
        requires
            num == ua * ub,
            v == a.value() * b.value(),
            a.value() == if a.negative() { -ua } else { ua as int },
            b.value() == if b.negative() { -ub } else { ub as int },
            ua >= 0,
            ub >= 0,
    ;
    if !too_large(gap(v, 0), pow2(149) as int) {
        lemma_closest(num, pow2(149), r, v);
    }
}

/// The quotient of a finite number by a finite number that is not zero is the one nearest to the exact
/// quotient, or infinite where that is too large; it is negative where one of them is. Put over the
/// divisor again, nothing finite comes nearer to the dividend.
pub proof fn law_quotient_nearest(a: F32, b: F32)
    requires
        a.finite(),
        b.finite(),
        b.magnitude() > 0,
    ensures
        ({
            let r = arith::quotient(a, b);
            let v = a.value() * pow2(149);
            let d = gap(b.value(), 0);
            &&& d > 0
            &&& r.negative() <==> a.negative() != b.negative()
            &&& too_large(gap(v, 0), d) ==> r.infinite()
            &&& !too_large(gap(v, 0), d) ==> closest(r, d, if b.negative() { -v } else { v })
        }),
{
    let r = arith::quotient(a, b);
    let v: int = a.value() * pow2(149);
    let ua: nat = binary32::units(a.magnitude());
    let ub: nat = binary32::units(b.magnitude());
    let p: nat = pow2(149);
    let num: nat = ua * p;
    rounding::lemma_units_increase(0, b.magnitude());
    lemma_pow2_pos(149);
    number_laws::law_nearest(num, ub);
    lemma_overflow(num, ub);
    assert(num >= 0 && v == if a.negative() { -num } else { num as int }) by (nonlinear_arith)
        requires
            num == ua * p,
            v == a.value() * p,
            a.value() == if a.negative() { -ua } else { ua as int },
            ua >= 0,
            p >= 0,
    ;
    if !too_large(gap(v, 0), ub as int) {
        let w: int = if b.negative() { -v } else { v };
        lemma_closest(num, ub, r, w);
    }
}

/// An integer becomes the number nearest to it.
pub proof fn law_integer_nearest(n: nat)
    requires
        n <= u64::MAX,
    ensures
        closest(arith::of_integer(n), 1, n * sum_laws::one()),
        !arith::of_integer(n).negative(),
{
    let p: int = sum_laws::one();
    let num: nat = n * pow2(149);
    lemma_pow2_adds(149, 104);
    lemma_pow2_strictly_increases(64, 104);
    lemma_pow2_pos(149);
    lemma2_to64();
    number_laws::law_nearest(num, 1);
    lemma_overflow(num, 1);
    assert(num <= pow2(253)) by (nonlinear_arith)
        requires
            num == n * pow2(149),
            pow2(253) == pow2(149) * pow2(104),
            n <= pow2(104),
    ;
    lemma_pow2_pos(253);
    lemma_closest(num, 1, arith::of_integer(n), num as int);
}

/// What has no result, and what infinities do: a sum.
pub proof fn law_sum_special(a: F32, b: F32)
    ensures
        ({
            let r = arith::sum(a, b);
            &&& r.nan() <==> a.nan() || b.nan() || (a.infinite() && b.infinite() && a.negative()
                != b.negative())
            &&& a.infinite() && !r.nan() ==> r == a
            &&& b.infinite() && !r.nan() ==> r == b
        }),
{
    if a.finite() && b.finite() {
        law_sum_nearest(a, b);
    }
}

/// What has no result, and what infinities do: a difference.
pub proof fn law_difference_special(a: F32, b: F32)
    ensures
        ({
            let r = arith::difference(a, b);
            &&& r.nan() <==> a.nan() || b.nan() || (a.infinite() && b.infinite() && a.negative()
                == b.negative())
            &&& a.infinite() && !r.nan() ==> r == a
            &&& b.infinite() && !r.nan() ==> r.infinite() && r.negative() != b.negative()
        }),
{
    let o = binary32::opposite(b);
    assert(o.magnitude() == b.magnitude() && o.negative() != b.negative());
    law_sum_special(a, o);
}

/// What has no result, and what infinities do: a product.
pub proof fn law_product_special(a: F32, b: F32)
    ensures
        ({
            let r = arith::product(a, b);
            &&& r.nan() <==> a.nan() || b.nan() || (a.infinite() && b.magnitude() == 0) || (
            a.magnitude() == 0 && b.infinite())
            &&& (a.infinite() || b.infinite()) && !r.nan() ==> r.infinite() && (r.negative()
                <==> a.negative() != b.negative())
        }),
{
    if a.finite() && b.finite() {
        law_product_nearest(a, b);
    }
}

/// What has no result, and what infinities and zeros do: a quotient.
pub proof fn law_quotient_special(a: F32, b: F32)
    ensures
        ({
            let r = arith::quotient(a, b);
            &&& r.nan() <==> a.nan() || b.nan() || (a.infinite() && b.infinite()) || (a.magnitude()
                == 0 && b.magnitude() == 0)
            &&& !r.nan() && (a.infinite() || b.magnitude() == 0) ==> r.infinite()
            &&& !r.nan() && b.infinite() ==> r.magnitude() == 0
            &&& !r.nan() ==> (r.negative() <==> a.negative() != b.negative())
        }),
{
    if a.finite() && b.finite() && b.magnitude() > 0 {
        law_quotient_nearest(a, b);
    }
}

} // verus!
