//! What rounding to nearest keeps: order, zero, and every number that needs no rounding.

use crate::arith;
use crate::binary32;
use crate::binary32::F32;
use crate::binary32::INF;
use crate::rounding;
use vstd::prelude::*;

verus! {

/// Every number has one nearest magnitude.
pub proof fn law_nearest(num: nat, den: nat)
    requires
        den > 0,
    ensures
        binary32::is_nearest(num, den, binary32::nearest(num, den)),
        forall|m: nat| binary32::is_nearest(num, den, m) ==> m == binary32::nearest(num, den),
{
    let found = lemma_search(num, den, 0);
    assert(binary32::is_nearest(num, den, found));
    assert forall|m: nat| binary32::is_nearest(num, den, m) implies m == binary32::nearest(
        num,
        den,
    ) by {
        rounding::lemma_nearest_unique(num, den, m, binary32::nearest(num, den));
    }
}

/// Searches upwards from a magnitude that is not too large.
proof fn lemma_search(num: nat, den: nat, m: nat) -> (found: nat)
    requires
        den > 0,
        m <= INF,
        m > 0 ==> {
            let middle = (binary32::units((m - 1) as nat) + binary32::units(m)) * den;
            middle < 2 * num || (middle == 2 * num && m % 2 == 0)
        },
    ensures
        binary32::is_nearest(num, den, found),
    decreases INF - m,
{
    let middle: nat = (binary32::units(m) + binary32::units(m + 1)) * den;
    if m == INF || 2 * num < middle || (2 * num == middle && m % 2 == 0) {
        m
    } else {
        lemma_search(num, den, m + 1)
    }
}

/// Rounding keeps order.
pub proof fn law_nearest_ordered(num1: nat, den1: nat, num2: nat, den2: nat)
    requires
        den1 > 0,
        den2 > 0,
        num1 * den2 <= num2 * den1,
    ensures
        binary32::nearest(num1, den1) <= binary32::nearest(num2, den2),
{
    law_nearest(num1, den1);
    law_nearest(num2, den2);
    rounding::lemma_nearest_order(
        num1,
        den1,
        num2,
        den2,
        binary32::nearest(num1, den1),
        binary32::nearest(num2, den2),
    );
}

/// A number that a magnitude stands for is rounded to that magnitude.
pub proof fn law_nearest_exact(m: nat, num: nat, den: nat)
    requires
        den > 0,
        m <= INF,
        num == binary32::units(m) * den,
    ensures
        binary32::nearest(num, den) == m,
{
    rounding::lemma_units_step(m);
    let here: nat = binary32::units(m);
    let after: nat = binary32::units(m + 1);
    assert(2 * (here * den) < (here + after) * den) by (nonlinear_arith)
        requires
            here < after,
            den > 0,
    ;
    if m > 0 {
        rounding::lemma_units_step((m - 1) as nat);
        let before: nat = binary32::units((m - 1) as nat);
        assert((before + here) * den < 2 * (here * den)) by (nonlinear_arith)
            requires
                before < here,
                den > 0,
        ;
    }
    assert(binary32::is_nearest(num, den, m));
    law_nearest(num, den);
}

/// Among finite numbers, ranks are ordered as the numbers are.
pub proof fn law_rank_is_order(a: F32, b: F32)
    requires
        a.finite(),
        b.finite(),
    ensures
        a.rank() < b.rank() <==> a.value() < b.value(),
        a.rank() == b.rank() <==> a.value() == b.value(),
{
    let ma: nat = a.magnitude();
    let mb: nat = b.magnitude();
    rounding::lemma_units_increase(0, ma);
    rounding::lemma_units_increase(0, mb);
    if ma <= mb {
        rounding::lemma_units_increase(ma, mb);
    }
    if mb <= ma {
        rounding::lemma_units_increase(mb, ma);
    }
}

/// Addition does not depend on the order of its terms.
pub proof fn law_sum_commutes(a: F32, b: F32)
    ensures
        arith::sum(a, b) == arith::sum(b, a),
{
    if a.infinite() && b.infinite() && a.negative() == b.negative() {
        assert(a.bits == b.bits);
    }
}

/// The sum of two numbers that are not negative is no less than either, and not a NaN.
pub proof fn law_sum_grows(a: F32, b: F32)
    requires
        !a.nan(),
        !b.nan(),
        a.rank() >= 0,
        b.rank() >= 0,
    ensures
        !arith::sum(a, b).nan(),
        arith::sum(a, b).rank() >= a.rank(),
        arith::sum(a, b).rank() >= b.rank(),
        a.finite() && b.finite() ==> arith::sum(a, b).magnitude() == binary32::nearest(
            (a.value() + b.value()) as nat,
            1,
        ),
{
    rounding::lemma_units_increase(0, a.magnitude());
    rounding::lemma_units_increase(0, b.magnitude());
    if a.finite() && b.finite() {
        let total: nat = (a.value() + b.value()) as nat;
        assert(a.value() >= 0 && b.value() >= 0);
        law_nearest(total, 1);
        law_nearest_exact(a.magnitude(), binary32::units(a.magnitude()), 1);
        law_nearest_exact(b.magnitude(), binary32::units(b.magnitude()), 1);
        law_nearest_ordered(binary32::units(a.magnitude()), 1, total, 1);
        law_nearest_ordered(binary32::units(b.magnitude()), 1, total, 1);
        if total == 0 {
            law_nearest_exact(0, 0, 1);
        }
    }
}

} // verus!
