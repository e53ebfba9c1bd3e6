//! What it means that a result is accepted, in terms of what the numbers stand for.

use crate::binary32;
use crate::binary32::F32;
use crate::binary32::INF;
use crate::binary32::ZERO;
use crate::fold;
use crate::format_laws;
use crate::nearest_laws;
use crate::number_laws;
use crate::report;
use crate::rounding;
use crate::softmax;
use crate::sum_laws;
use vstd::arithmetic::power2::*;
use vstd::prelude::*;

verus! {

/// The distance between two finite numbers is the number nearest to how far they are exactly apart, on
/// whichever side, or infinite where that is too large. It does not depend on which of them comes
/// first.
pub proof fn law_distance(a: F32, b: F32)
    ensures
        !report::distance(a, b).negative(),
        report::distance(a, b) == report::distance(b, a),
        a.finite() && b.finite() ==> {
            let d = report::distance(a, b);
            let v = nearest_laws::gap(a.value(), b.value());
            &&& !d.nan()
            &&& nearest_laws::too_large(v, 1) ==> d.infinite()
            &&& !nearest_laws::too_large(v, 1) ==> nearest_laws::closest(d, 1, v)
            &&& d.magnitude() == 0 <==> v == 0
        },
        report::distance(a, b).nan() <==> a.nan() || b.nan() || (a.infinite() && b.infinite()
            && a.negative() == b.negative()),
        a.infinite() != b.infinite() && !a.nan() && !b.nan() ==> report::distance(a, b).infinite(),
{
    let oa = binary32::opposite(a);
    let ob = binary32::opposite(b);
    assert(oa.magnitude() == a.magnitude() && oa.negative() != a.negative());
    assert(ob.magnitude() == b.magnitude() && ob.negative() != b.negative());
    nearest_laws::law_difference_special(a, b);
    nearest_laws::law_difference_special(b, a);
    if a.finite() && b.finite() {
        let v: int = nearest_laws::gap(a.value(), b.value());
        let d = report::distance(a, b);
        let size: nat = v as nat;
        number_laws::law_nearest(size, 1);
        nearest_laws::lemma_overflow(size, 1);
        if v == 0 {
            number_laws::law_nearest_exact(0, 0, 1);
        } else {
            number_laws::law_nearest_exact(1, 1, 1);
            number_laws::law_nearest_ordered(1, 1, size, 1);
        }
        assert(d.magnitude() == binary32::nearest(size, 1));
        if !nearest_laws::too_large(v, 1) {
            nearest_laws::lemma_closest(size, 1, d, v);
        }
    }
}

/// What is rounded to no more than a magnitude: everything below the middle to the next one, and the
/// middle itself where the magnitude is even.
proof fn lemma_rounded_within(v: nat, m: nat)
    requires
        m < INF,
    ensures
        ({
            let middle = binary32::units(m) + binary32::units(m + 1);
            binary32::nearest(v, 1) <= m <==> 2 * v < middle || (2 * v == middle && m % 2 == 0)
        }),
{
    let x: nat = binary32::nearest(v, 1);
    number_laws::law_nearest(v, 1);
    if x <= m {
        rounding::lemma_units_increase(x, m);
        rounding::lemma_units_increase(x + 1, m + 1);
    } else {
        rounding::lemma_units_increase(m, (x - 1) as nat);
        rounding::lemma_units_increase(m + 1, x);
    }
}

/// A distance passes the test for elements exactly where the numbers are less than 0x10c6f7b parts in
/// 2^44 of one apart: that is the middle between 1e-6, as it is rounded, and the number after it.
pub proof fn law_element_test(a: F32, b: F32)
    requires
        a.finite(),
        b.finite(),
    ensures
        !binary32::above(report::distance(a, b), F32 { bits: report::TOLERANCE }) <==> 0x1000_0000_0000
            * nearest_laws::gap(a.value(), b.value()) < 0x10c_6f7b * sum_laws::one(),
{
    let v: int = nearest_laws::gap(a.value(), b.value());
    let o = binary32::opposite(b);
    let m: nat = report::TOLERANCE as nat;
    assert(o.magnitude() == b.magnitude() && o.negative() != b.negative());
    law_distance(a, b);
    lemma_pow2_adds(106, 43);
    lemma2_to64();
    lemma2_to64_rest();
    assert(0x3586_37bdint / 0x80_0000 == 107 && 0x3586_37bdint % 0x80_0000 == 0x6_37bd);
    assert(0x3586_37beint / 0x80_0000 == 107 && 0x3586_37beint % 0x80_0000 == 0x6_37be);
    assert(binary32::units(m) == 0x86_37bd * pow2(106));
    assert(binary32::units(m + 1) == 0x86_37be * pow2(106));
    lemma_rounded_within(v as nat, m);
    if v == 0 {
        number_laws::law_nearest_exact(0, 0, 1);
    }
    lemma_pow2_pos(106);
    number_laws::law_nearest(v as nat, 1);
    assert(report::distance(a, b).magnitude() == binary32::nearest(v as nat, 1));
}

/// A distance passes the test for sums exactly where the numbers are at most 0x14f8b59 parts in 2^41 of
/// one apart: that is the middle between 1e-5, as it is rounded, and the number after it.
pub proof fn law_sum_test(a: F32, b: F32)
    requires
        a.finite(),
        b.finite(),
    ensures
        !binary32::above(report::distance(a, b), F32 { bits: report::SUM_TOLERANCE })
            <==> 0x200_0000_0000 * nearest_laws::gap(a.value(), b.value()) <= 0x14f_8b59
            * sum_laws::one(),
{
    let v: int = nearest_laws::gap(a.value(), b.value());
    let o = binary32::opposite(b);
    let m: nat = report::SUM_TOLERANCE as nat;
    assert(o.magnitude() == b.magnitude() && o.negative() != b.negative());
    law_distance(a, b);
    lemma_pow2_adds(109, 40);
    lemma2_to64();
    lemma2_to64_rest();
    assert(0x3727_c5acint / 0x80_0000 == 110 && 0x3727_c5acint % 0x80_0000 == 0x27_c5ac);
    assert(0x3727_c5adint / 0x80_0000 == 110 && 0x3727_c5adint % 0x80_0000 == 0x27_c5ad);
    assert(binary32::units(m) == 0xa7_c5ac * pow2(109));
    assert(binary32::units(m + 1) == 0xa7_c5ad * pow2(109));
    lemma_rounded_within(v as nat, m);
    if v == 0 {
        number_laws::law_nearest_exact(0, 0, 1);
    }
    lemma_pow2_pos(109);
    number_laws::law_nearest(v as nat, 1);
    assert(report::distance(a, b).magnitude() == binary32::nearest(v as nat, 1));
}

/// The two tolerances are the numbers nearest to a millionth and to a hundred thousandth.
pub proof fn law_tolerances()
    ensures
        nearest_laws::closest(F32 { bits: report::TOLERANCE }, 1_000_000, sum_laws::one()),
        nearest_laws::closest(F32 { bits: report::SUM_TOLERANCE }, 100_000, sum_laws::one()),
{
    let p: nat = pow2(149);
    lemma_pow2_adds(106, 43);
    lemma_pow2_adds(109, 40);
    lemma_pow2_pos(106);
    lemma_pow2_pos(109);
    lemma2_to64();
    lemma2_to64_rest();
    assert(0x3586_37bcint / 0x80_0000 == 107 && 0x3586_37bcint % 0x80_0000 == 0x6_37bc);
    assert(0x3586_37bdint / 0x80_0000 == 107 && 0x3586_37bdint % 0x80_0000 == 0x6_37bd);
    assert(0x3586_37beint / 0x80_0000 == 107 && 0x3586_37beint % 0x80_0000 == 0x6_37be);
    assert(binary32::units(0x3586_37bc) == 0x86_37bc * pow2(106));
    assert(binary32::units(0x3586_37bd) == 0x86_37bd * pow2(106));
    assert(binary32::units(0x3586_37be) == 0x86_37be * pow2(106));
    assert(binary32::is_nearest(p, 1_000_000, 0x3586_37bd));
    nearest_laws::lemma_closest(p, 1_000_000, F32 { bits: report::TOLERANCE }, p as int);
    assert(0x3727_c5abint / 0x80_0000 == 110 && 0x3727_c5abint % 0x80_0000 == 0x27_c5ab);
    assert(0x3727_c5acint / 0x80_0000 == 110 && 0x3727_c5acint % 0x80_0000 == 0x27_c5ac);
    assert(0x3727_c5adint / 0x80_0000 == 110 && 0x3727_c5adint % 0x80_0000 == 0x27_c5ad);
    assert(binary32::units(0x3727_c5ab) == 0xa7_c5ab * pow2(109));
    assert(binary32::units(0x3727_c5ac) == 0xa7_c5ac * pow2(109));
    assert(binary32::units(0x3727_c5ad) == 0xa7_c5ad * pow2(109));
    assert(binary32::is_nearest(p, 100_000, 0x3727_c5ac));
    nearest_laws::lemma_closest(p, 100_000, F32 { bits: report::SUM_TOLERANCE }, p as int);
}

/// The largest of some numbers, from zero on, is zero or one of them, and none of them is above it; NaN
/// are passed over.
proof fn lemma_largest(d: Seq<F32>, n: nat)
    requires
        n <= d.len(),
    ensures
        ({
            let r = fold::running_larger(F32 { bits: ZERO }, d, n);
            &&& !r.nan()
            &&& r.bits == 0 || exists|i: int| 0 <= i < n && #[trigger] d[i] == r
            &&& forall|i: int| 0 <= i < n ==> !binary32::above(#[trigger] d[i], r)
            &&& !binary32::above(F32 { bits: 0 }, r)
        }),
    decreases n,
{
    if n > 0 {
        lemma_largest(d, (n - 1) as nat);
        let before = fold::running_larger(F32 { bits: ZERO }, d, (n - 1) as nat);
        format_laws::law_larger(before, d[n - 1]);
    }
}

/// The largest error is zero or how far some element is from its reference, and no element is further:
/// over all elements that both sequences have.
pub proof fn law_max_error(y: Seq<F32>, expected: Seq<F32>)
    ensures
        ({
            let d = report::distances(y, expected);
            let r = fold::running_larger(F32 { bits: ZERO }, d, d.len());
            let n = if y.len() <= expected.len() {
                y.len() as int
            } else {
                expected.len() as int
            };
            &&& d.len() == n
            &&& !r.nan()
            &&& r.bits == 0 || exists|i: int|
                0 <= i < n && r == report::distance(#[trigger] y[i], expected[i])
            &&& forall|i: int|
                0 <= i < n ==> !binary32::above(
                    report::distance(#[trigger] y[i], expected[i]),
                    r,
                )
        }),
{
    let d = report::distances(y, expected);
    let r = fold::running_larger(F32 { bits: ZERO }, d, d.len());
    lemma_largest(d, d.len());
    assert forall|i: int| 0 <= i < d.len() implies !binary32::above(
        report::distance(#[trigger] y[i], expected[i]),
        r,
    ) by {
        assert(d[i] == report::distance(y[i], expected[i]));
    }
    if r.bits != 0 {
        let i = choose|i: int| 0 <= i < d.len() && #[trigger] d[i] == r;
        assert(r == report::distance(y[i], expected[i]));
    }
}

/// Of finite elements and references, the largest error passes exactly where every element stands for
/// less than 0x10c6f7b parts in 2^44 of one more or less than its reference.
pub proof fn law_error_accepted(y: Seq<F32>, expected: Seq<F32>)
    requires
        y.len() == expected.len(),
        forall|i: int| 0 <= i < y.len() ==> (#[trigger] y[i]).finite() && expected[i].finite(),
    ensures
        !binary32::above(
            fold::running_larger(
                F32 { bits: ZERO },
                report::distances(y, expected),
                report::distances(y, expected).len(),
            ),
            F32 { bits: report::TOLERANCE },
        ) <==> forall|i: int|
            0 <= i < y.len() ==> {
                &&& 0x1000_0000_0000 * ((#[trigger] y[i]).value() - expected[i].value()) < 0x10c_6f7b
                    * sum_laws::one()
                &&& 0x1000_0000_0000 * (expected[i].value() - y[i].value()) < 0x10c_6f7b
                    * sum_laws::one()
            },
{
    let d = report::distances(y, expected);
    let r = fold::running_larger(F32 { bits: ZERO }, d, d.len());
    let t = F32 { bits: report::TOLERANCE };
    law_max_error(y, expected);
    assert forall|i: int| 0 <= i < y.len() implies ({
        let e = report::distance(#[trigger] y[i], expected[i]);
        &&& !e.nan()
        &&& !binary32::above(e, t) <==> 0x1000_0000_0000 * nearest_laws::gap(
            y[i].value(),
            expected[i].value(),
        ) < 0x10c_6f7b * sum_laws::one()
    }) by {
        let a = y[i];
        assert(a.finite());
        assert(expected[i].finite());
        law_element_test(a, expected[i]);
        law_distance(y[i], expected[i]);
    }
    if !binary32::above(r, t) {
        assert forall|i: int| 0 <= i < y.len() implies !binary32::above(
            report::distance(#[trigger] y[i], expected[i]),
            t,
        ) by {
            assert(!binary32::above(report::distance(y[i], expected[i]), r));
        }
    }
}

/// Finite numbers never add up to a NaN.
pub proof fn law_finite_sum(s: Seq<F32>, n: nat)
    requires
        n <= s.len(),
        forall|i: int| 0 <= i < n ==> (#[trigger] s[i]).finite(),
    ensures
        !fold::running_sum(s, n).nan(),
    decreases n,
{
    if n > 0 {
        law_finite_sum(s, (n - 1) as nat);
        nearest_laws::law_sum_special(fold::running_sum(s, (n - 1) as nat), s[n - 1]);
        assert(s[n - 1].finite());
    }
}

/// The worst error of a sum is zero or how far the sum of some row is from one, and no row's is
/// further: over all the rows, of 256 elements each.
pub proof fn law_worst_sum_error(y: Seq<F32>, rows: nat)
    requires
        256 * rows <= y.len(),
    ensures
        ({
            let d = report::sum_distances(y, rows);
            let w = fold::running_larger(F32 { bits: ZERO }, d, rows);
            let one = F32 { bits: 0x3f80_0000 };
            &&& d.len() == rows
            &&& !w.nan()
            &&& w.bits == 0 || exists|r: int|
                0 <= r < rows && w == report::distance(
                    fold::running_sum(#[trigger] y.subrange(256 * r, 256 * r + 256), 256),
                    one,
                )
            &&& forall|r: int|
                0 <= r < rows ==> !binary32::above(
                    report::distance(
                        fold::running_sum(#[trigger] y.subrange(256 * r, 256 * r + 256), 256),
                        one,
                    ),
                    w,
                )
        }),
{
    let d = report::sum_distances(y, rows);
    let w = fold::running_larger(F32 { bits: ZERO }, d, rows);
    let one = F32 { bits: 0x3f80_0000 };
    lemma_largest(d, rows);
    assert forall|r: int| 0 <= r < rows implies !binary32::above(
        report::distance(
            fold::running_sum(#[trigger] y.subrange(256 * r, 256 * r + 256), 256),
            one,
        ),
        w,
    ) by {
        assert(softmax::row_of(y, r) =~= y.subrange(256 * r, 256 * r + 256));
        assert(!binary32::above(d[r], w));
    }
    if w.bits != 0 {
        let r = choose|r: int| 0 <= r < rows && #[trigger] d[r] == w;
        assert(softmax::row_of(y, r) =~= y.subrange(256 * r, 256 * r + 256));
        assert(w == report::distance(
            fold::running_sum(y.subrange(256 * r, 256 * r + 256), 256),
            one,
        ));
    }
}

/// Of rows of finite elements, the worst error passes exactly where the elements of every row, added up
/// in order, are finite and stand for at most 0x14f8b59 parts in 2^41 of one more or less than one.
pub proof fn law_sums_accepted(y: Seq<F32>, rows: nat)
    requires
        256 * rows <= y.len(),
        forall|i: int| 0 <= i < 256 * rows ==> (#[trigger] y[i]).finite(),
    ensures
        !binary32::above(
            fold::running_larger(F32 { bits: ZERO }, report::sum_distances(y, rows), rows),
            F32 { bits: report::SUM_TOLERANCE },
        ) <==> forall|r: int|
            0 <= r < rows ==> {
                let s = fold::running_sum(#[trigger] y.subrange(256 * r, 256 * r + 256), 256);
                &&& s.finite()
                &&& 0x200_0000_0000 * (s.value() - sum_laws::one()) <= 0x14f_8b59 * sum_laws::one()
                &&& 0x200_0000_0000 * (sum_laws::one() - s.value()) <= 0x14f_8b59 * sum_laws::one()
            },
{
    let d = report::sum_distances(y, rows);
    let w = fold::running_larger(F32 { bits: ZERO }, d, rows);
    let t = F32 { bits: report::SUM_TOLERANCE };
    let one = F32 { bits: 0x3f80_0000 };
    law_worst_sum_error(y, rows);
    sum_laws::lemma_large();
    assert forall|r: int| 0 <= r < rows implies ({
        let s = fold::running_sum(#[trigger] y.subrange(256 * r, 256 * r + 256), 256);
        &&& !report::distance(s, one).nan()
        &&& !binary32::above(report::distance(s, one), t) <==> s.finite() && 0x200_0000_0000
            * nearest_laws::gap(s.value(), sum_laws::one()) <= 0x14f_8b59 * sum_laws::one()
    }) by {
        let row = y.subrange(256 * r, 256 * r + 256);
        assert forall|i: int| 0 <= i < 256 implies (#[trigger] row[i]).finite() by {
            assert(row[i] == y[256 * r + i]);
        }
        law_finite_sum(row, 256);
        let s = fold::running_sum(row, 256);
        law_distance(s, one);
        if s.finite() {
            law_sum_test(s, one);
        }
    }
    if !binary32::above(w, t) {
        assert forall|r: int| 0 <= r < rows implies !binary32::above(
            report::distance(
                fold::running_sum(#[trigger] y.subrange(256 * r, 256 * r + 256), 256),
                one,
            ),
            t,
        ) by {
            assert(!binary32::above(
                report::distance(
                    fold::running_sum(y.subrange(256 * r, 256 * r + 256), 256),
                    one,
                ),
                w,
            ));
        }
    }
}

} // verus!
