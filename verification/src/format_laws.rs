//! What the patterns stand for, and how they compare.

use crate::binary32;
use crate::binary32::F32;
use crate::number_laws;
use crate::rounding;
use vstd::arithmetic::power2::*;
use vstd::prelude::*;

verus! {

/// Up to 2^24 a magnitude stands for as many units as it says; from 2^23 on, 2^23 more double what it
/// stands for.
pub proof fn law_units(m: nat)
    ensures
        m <= 0x100_0000 ==> binary32::units(m) == m,
        m >= 0x80_0000 ==> binary32::units(m + 0x80_0000) == 2 * binary32::units(m),
{
    lemma2_to64();
    if m <= 0x100_0000 {
        rounding::lemma_units_of(0, m);
        assert(0 * 0x80_0000 + m == m);
    }
    if m >= 0x80_0000 {
        let q: int = m as int / 0x80_0000;
        let f: int = m as int % 0x80_0000;
        assert((m + 0x80_0000) as int / 0x80_0000 == q + 1);
        assert((m + 0x80_0000) as int % 0x80_0000 == f);
        lemma_pow2_unfold(q as nat);
        let p: int = pow2((q - 1) as nat) as int;
        assert((0x80_0000 + f) * (2 * p) == 2 * ((0x80_0000 + f) * p)) by (nonlinear_arith);
    }
}

/// A pattern is a sign above a magnitude of 31 bits; magnitudes below 255 times 2^23 are finite, that
/// one is infinite, the ones above are NaN; the sign turns the value.
pub proof fn law_pattern(a: F32)
    ensures
        ({
            let m = (a.bits as int % 0x8000_0000) as nat;
            &&& a.negative() <==> a.bits >= 0x8000_0000
            &&& a.magnitude() == m
            &&& a.finite() <==> m < 255 * 0x80_0000
            &&& a.infinite() <==> m == 255 * 0x80_0000
            &&& a.nan() <==> m > 255 * 0x80_0000
            &&& a.bits < 0x8000_0000 ==> a.value() == binary32::units(m) && a.rank() == m
            &&& a.bits >= 0x8000_0000 ==> a.value() == -binary32::units(m) && a.rank() == -m
        }),
{
}

/// Putting a sign and a magnitude together gives a number with that sign and that magnitude, and
/// turning a sign changes nothing else.
pub proof fn law_assemble(negative: bool, m: nat, a: F32)
    requires
        m < 0x8000_0000,
    ensures
        binary32::assemble(negative, m).negative() == negative,
        binary32::assemble(negative, m).magnitude() == m,
        binary32::assemble(a.negative(), a.magnitude()) == a,
        binary32::opposite(a).negative() != a.negative(),
        binary32::opposite(a).magnitude() == a.magnitude(),
        binary32::opposite(a).value() == -a.value(),
        binary32::opposite(binary32::opposite(a)) == a,
{
}

/// Finite numbers compare as what they stand for; positive infinity is above everything else and
/// negative infinity above nothing; a NaN is neither above nor below.
pub proof fn law_above(a: F32, b: F32)
    ensures
        a.finite() && b.finite() ==> (binary32::above(a, b) <==> a.value() > b.value()),
        a.infinite() && !b.nan() ==> (binary32::above(a, b) <==> !a.negative() && a != b),
        b.infinite() && !a.nan() ==> (binary32::above(a, b) <==> b.negative() && a != b),
        a.nan() || b.nan() ==> !binary32::above(a, b),
{
    if a.finite() && b.finite() {
        number_laws::law_rank_is_order(a, b);
        number_laws::law_rank_is_order(b, a);
    }
}

/// The larger of two numbers is one of them, and neither of them exceeds it; a NaN gives way.
pub proof fn law_larger(a: F32, b: F32)
    ensures
        ({
            let r = binary32::larger(a, b);
            &&& r == a || r == b
            &&& !binary32::above(a, r)
            &&& !binary32::above(b, r)
            &&& r.nan() <==> a.nan() && b.nan()
            &&& a.finite() && b.finite() ==> r.finite() && r.value() >= a.value() && r.value()
                >= b.value()
            &&& !a.nan() && !binary32::above(a, b) && !b.nan() ==> r == b
        }),
{
    law_above(a, b);
    law_above(b, a);
}

} // verus!
