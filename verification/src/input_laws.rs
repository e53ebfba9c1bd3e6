//! The two matrices: their rows change little from column to column, and rise.

use crate::arith;
use crate::binary32;
use crate::binary32::F32;
use crate::binary32::NORMAL;
use crate::input;
use crate::nearest_laws;
use crate::number_laws;
use crate::rounding;
use crate::softmax;
use crate::softmax::COLS;
use crate::softmax::ROWS;
use crate::sum_laws;
use crate::sum_laws::PARTS;
use vstd::arithmetic::power2::*;
use vstd::prelude::*;

verus! {

/// A significand of at most 24 bits has a magnitude at every exponent.
proof fn lemma_representable(n: nat, t: nat) -> (m: nat)
    requires
        0 < n < 2 * NORMAL,
    ensures
        binary32::units(m) == n * pow2(t),
        m < (t + 2) * NORMAL,
    decreases t,
{
    if t == 0 || n >= NORMAL {
        rounding::lemma_units_of(t, n);
        assert((t + 2) * NORMAL == t * NORMAL + 2 * NORMAL) by (nonlinear_arith);
        (t * NORMAL + n) as nat
    } else {
        let k: nat = (t - 1) as nat;
        lemma_pow2_unfold(t);
        assert((2 * n) * pow2(k) == n * (2 * pow2(k))) by (nonlinear_arith);
        assert((k + 2) * NORMAL <= (t + 2) * NORMAL) by (nonlinear_arith)
            requires
                k <= t,
        ;
        lemma_representable(2 * n, k)
    }
}

/// Integers below 2^24 need no rounding.
pub proof fn law_integer_exact(n: nat)
    requires
        n < 2 * NORMAL,
    ensures
        arith::of_integer(n).finite(),
        !arith::of_integer(n).negative(),
        arith::of_integer(n).value() == n * sum_laws::one(),
        n > 0 ==> binary32::units(binary32::nearest((n * sum_laws::one()) as nat, 1)) == n
            * sum_laws::one() && binary32::nearest((n * sum_laws::one()) as nat, 1) < binary32::INF,
{
    let v: nat = n * pow2(149);
    if n == 0 {
        assert(v == 0) by (nonlinear_arith)
            requires
                v == n * pow2(149),
                n == 0,
        ;
        number_laws::law_nearest_exact(0, 0, 1);
    } else {
        let m = lemma_representable(n, 149);
        number_laws::law_nearest_exact(m, v, 1);
    }
}

/// 65536, in units.
pub proof fn lemma_huge()
    ensures
        binary32::units(0x4780_0000) == 0x1_0000 * sum_laws::one(),
        sum_laws::one() > 0,
{
    lemma_pow2_pos(149);
    lemma_pow2_adds(23, 142);
    lemma_pow2_adds(16, 149);
    lemma2_to64();
    assert(0x4780_0000int / 0x80_0000 == 143);
    assert(0x4780_0000int % 0x80_0000 == 0);
}

/// How far an addition of moderate numbers goes from exact.
pub proof fn lemma_sum_error(a: F32, b: F32)
    requires
        a.finite(),
        b.finite(),
        -0x1_0000 * sum_laws::one() <= a.value() + b.value() <= 0x1_0000 * sum_laws::one(),
    ensures
        ({
            let r = arith::sum(a, b);
            let v = a.value() + b.value();
            let size = if v < 0 { -v } else { v };
            &&& r.finite()
            &&& PARTS * (r.value() - v) <= size
            &&& PARTS * (v - r.value()) <= size
            &&& v <= 0 ==> r.value() <= 0
        }),
{
    let v: int = a.value() + b.value();
    let size: nat = (if v < 0 { -v } else { v }) as nat;
    lemma_huge();
    number_laws::law_nearest(size, 1);
    number_laws::law_nearest_ordered(size, 1, binary32::units(0x4780_0000), 1);
    number_laws::law_nearest_exact(0x4780_0000, binary32::units(0x4780_0000), 1);
    let m: nat = binary32::nearest(size, 1);
    sum_laws::law_rounding_error(size, 1, m);
    if v != 0 {
        let r = arith::sum(a, b);
        assert(r.magnitude() == m && r.negative() == (v < 0));
    }
}

/// How far a product of moderate numbers goes from exact, in units.
proof fn lemma_product_error(a: F32, b: F32, k: int)
    requires
        a.finite(),
        b.finite(),
        !b.negative(),
        a.value() == k * sum_laws::one(),
        -0x1_0000 * sum_laws::one() <= k * b.value() <= 0x1_0000 * sum_laws::one(),
    ensures
        ({
            let r = arith::product(a, b);
            let v = k * b.value();
            let size = if v < 0 { -v } else { v };
            &&& r.finite()
            &&& PARTS * (r.value() - v) <= size + PARTS
            &&& PARTS * (v - r.value()) <= size + PARTS
        }),
{
    let p: int = sum_laws::one();
    let v: int = k * b.value();
    let size: nat = (if v < 0 { -v } else { v }) as nat;
    let ua: nat = binary32::units(a.magnitude());
    let ub: nat = binary32::units(b.magnitude());
    lemma_huge();
    rounding::lemma_units_increase(0, a.magnitude());
    rounding::lemma_units_increase(0, b.magnitude());
    let num: nat = ua * ub;
    let j: int = if a.negative() { -k } else { k };
    assert((-k) * p == -(k * p)) by (nonlinear_arith);
    assert(j >= 0) by (nonlinear_arith)
        requires
            ua == j * p,
            p > 0,
            ua >= 0,
    {
        if j < 0 {
            assert(j * p < 0) by (nonlinear_arith)
                requires
                    j < 0,
                    p > 0,
            ;
        }
    }
    assert(size == j * ub) by (nonlinear_arith)
        requires
            v == k * ub,
            j == k || j == -k,
            j >= 0,
            ub >= 0,
            size == v || size == -v,
            size >= 0,
    ;
    assert(num == size * p) by (nonlinear_arith)
        requires
            num == ua * ub,
            ua == j * p,
            size == j * ub,
    ;
    let top: nat = 0x1_0000 * p as nat;
    assert(num * 1 <= top * pow2(149)) by (nonlinear_arith)
        requires
            num == size * p,
            size <= top,
            p == pow2(149),
    ;
    number_laws::law_nearest(num, pow2(149));
    number_laws::law_nearest_ordered(num, pow2(149), top, 1);
    number_laws::law_nearest_exact(0x4780_0000, top, 1);
    let m: nat = binary32::nearest(num, pow2(149));
    let u: int = binary32::units(m) as int;
    sum_laws::law_rounding_error(num, pow2(149), m);
    let n: int = PARTS as int;
    assert(n * (u - size) <= size + n && n * (size - u) <= size + n) by (nonlinear_arith)
        requires
            n * (num - u * p) <= num + n * p,
            n * (u * p - num) <= num + n * p,
            num == size * p,
            p > 0,
    {
        assert(n * (num - u * p) == (n * (size - u)) * p) by (nonlinear_arith)
            requires
                num == size * p,
        ;
        assert(n * (u * p - num) == (n * (u - size)) * p) by (nonlinear_arith)
            requires
                num == size * p,
        ;
        assert(num + n * p == (size + n) * p) by (nonlinear_arith)
            requires
                num == size * p,
        ;
    }
    let r = arith::product(a, b);
    assert(r.magnitude() == m && r.negative() == a.negative());
    if v == 0 {
        assert(num == 0) by (nonlinear_arith)
            requires
                num == size * p,
                size == 0,
        ;
        number_laws::law_nearest_exact(0, 0, pow2(149));
    } else {
        assert(v < 0 <==> a.negative()) by (nonlinear_arith)
            requires
                v == k * ub,
                v != 0,
                ub >= 0,
                j >= 0,
                if a.negative() {
                    j == -k
                } else {
                    j == k
                },
        ;
    }
}

/// How far apart two columns are.
pub open spec fn apart(c: int, d: int) -> int {
    if c < d {
        d - c
    } else {
        c - d
    }
}

/// From column to column the numbers of the row change by no more than 0.050002.
pub open spec fn gentle(row: Seq<F32>) -> bool {
    &&& row.len() == COLS
    &&& forall|c: int| 0 <= c < row.len() ==> (#[trigger] row[c]).finite()
    &&& forall|c: int, d: int|
        0 <= c < row.len() && 0 <= d < row.len() ==> 1_000_000 * ((#[trigger] row[c]).value() - (
        #[trigger] row[d]).value()) <= 50_002 * (apart(c, d) * sum_laws::one())
}

/// The second half of the row is above the first half by at least 1.01, column by column.
pub open spec fn rising(row: Seq<F32>) -> bool {
    forall|c: int|
        0 <= c < 128 ==> 100 * (row[c + 128].value() - (#[trigger] row[c]).value()) >= 101
            * sum_laws::one()
}

/// The numbers of the row lie along a line, up to `slack` parts in 2^24.
spec fn along(row: Seq<F32>, step: int, base: int, slack: int) -> bool {
    &&& row.len() == COLS
    &&& forall|c: int|
        0 <= c < row.len() ==> {
            &&& (#[trigger] row[c]).finite()
            &&& PARTS * (row[c].value() - (c * step + base)) <= slack
            &&& PARTS * ((c * step + base) - row[c].value()) <= slack
        }
}

/// A row along a line of a slope between 0.0099 and 0.0501 is gentle and rising.
proof fn lemma_along(row: Seq<F32>, step: int, base: int, slack: int)
    requires
        along(row, step, base, slack),
        10_000 * step >= 99 * sum_laws::one(),
        1_000_000 * (PARTS * step) + 2_000_000 * slack <= 50_002 * (PARTS * sum_laws::one()),
        1000 * slack <= PARTS * sum_laws::one(),
        slack >= 0,
    ensures
        gentle(row),
        rising(row),
{
    let p: int = sum_laws::one();
    let n: int = PARTS as int;
    assert forall|c: int, d: int| 0 <= c < row.len() && 0 <= d < row.len() implies 1_000_000 * ((
    #[trigger] row[c]).value() - (#[trigger] row[d]).value()) <= 50_002 * (apart(c, d) * p) by {
        if c == d {
            assert(apart(c, d) * p == 0) by (nonlinear_arith)
                requires
                    apart(c, d) == 0,
            ;
        } else {
            let k: int = apart(c, d);
            let x: int = row[c].value() - row[d].value();
            assert(c * step - d * step <= k * step) by (nonlinear_arith)
                requires
                    k == c - d || k == d - c,
                    k >= 0,
                    step >= 0,
            ;
            assert(n * x <= n * (k * step) + 2 * slack);
            assert(n * (1_000_000 * x) <= n * (50_002 * (k * p))) by (nonlinear_arith)
                requires
                    n * x <= n * (k * step) + 2 * slack,
                    1_000_000 * (n * step) + 2_000_000 * slack <= 50_002 * (n * p),
                    k >= 1,
                    slack >= 0,
            {
                assert(k * (1_000_000 * (n * step) + 2_000_000 * slack) <= k * (50_002 * (n * p)))
                    by (nonlinear_arith)
                    requires
                        1_000_000 * (n * step) + 2_000_000 * slack <= 50_002 * (n * p),
                        k >= 1,
                ;
                assert(k * slack >= slack) by (nonlinear_arith)
                    requires
                        k >= 1,
                        slack >= 0,
                ;
                assert(k * (1_000_000 * (n * step) + 2_000_000 * slack) == 1_000_000 * (n * (k
                    * step)) + 2_000_000 * (k * slack)) by (nonlinear_arith);
                assert(k * (50_002 * (n * p)) == n * (50_002 * (k * p))) by (nonlinear_arith);
                assert(n * (1_000_000 * x) == 1_000_000 * (n * x)) by (nonlinear_arith);
            }
        }
    }
    assert forall|c: int| 0 <= c < 128 implies 100 * (row[c + 128].value() - (
    #[trigger] row[c]).value()) >= 101 * p by {
        assert((c + 128) * step == c * step + 128 * step) by (nonlinear_arith);
        assert(n * (row[c + 128].value() - row[c].value()) >= n * (128 * step) - 2 * slack);
    }
}

/// The steps and shifts of the matrices, in units.
proof fn lemma_steps()
    ensures
        ({
            let g = F32 { bits: input::HUNDREDTH };
            let h = F32 { bits: input::TWENTIETH };
            let t = F32 { bits: input::THREE_TENTHS };
            let m = F32 { bits: input::MIDDLE };
            let p = sum_laws::one();
            &&& g.finite() && !g.negative() && 0x4000_0000 * g.value() == 0xa3_d70a * p
            &&& h.finite() && !h.negative() && 0x1000_0000 * h.value() == 0xcc_cccd * p
            &&& t.finite() && !t.negative() && 0x200_0000 * t.value() == 0x99_999a * p
            &&& m.finite() && !m.negative() && m.value() == 128 * p
        }),
{
    lemma2_to64();
    lemma2_to64_rest();
    lemma_pow2_adds(30, 119);
    lemma_pow2_adds(28, 121);
    lemma_pow2_adds(25, 124);
    lemma_pow2_adds(23, 133);
    lemma_pow2_adds(7, 149);
    assert(0x3c23_d70aint / 0x80_0000 == 120 && 0x3c23_d70aint % 0x80_0000 == 0x23_d70a);
    assert(0x3d4c_cccdint / 0x80_0000 == 122 && 0x3d4c_cccdint % 0x80_0000 == 0x4c_cccd);
    assert(0x3e99_999aint / 0x80_0000 == 125 && 0x3e99_999aint % 0x80_0000 == 0x19_999a);
    assert(0x4300_0000int / 0x80_0000 == 134 && 0x4300_0000int % 0x80_0000 == 0);
    assert(binary32::units(0x3c23_d70a) == 0xa3_d70a * pow2(119));
    assert(binary32::units(0x3d4c_cccd) == 0xcc_cccd * pow2(121));
    assert(binary32::units(0x3e99_999a) == 0x99_999a * pow2(124));
    assert(binary32::units(0x4300_0000) == 0x80_0000 * pow2(133));
}

/// Where an element of the ramp lies.
proof fn lemma_ramp_at(i: nat)
    requires
        i < ROWS * COLS,
    ensures
        ({
            let g = (F32 { bits: input::HUNDREDTH }).value();
            let x = input::ramp_at(i);
            &&& x.finite()
            &&& PARTS * (x.value() - i * g) <= 10_487 * sum_laws::one()
            &&& PARTS * (i * g - x.value()) <= 10_487 * sum_laws::one()
        }),
{
    let g = F32 { bits: input::HUNDREDTH };
    let p: int = sum_laws::one();
    lemma_steps();
    law_integer_exact(i);
    lemma_pow2_strictly_increases(64, 149);
    lemma2_to64();
    assert(0 <= i * g.value() <= 0x10_0000 * g.value()) by (nonlinear_arith)
        requires
            0 <= i <= 0x10_0000,
            g.value() >= 0,
    ;
    lemma_product_error(arith::of_integer(i), g, i as int);
}

/// Where an element of the banded matrix lies: along a line whose start depends on the row.
proof fn lemma_banded_at(r: nat, c: nat)
    requires
        c < COLS,
    ensures
        ({
            let h = (F32 { bits: input::TWENTIETH }).value();
            let t = arith::product(
                arith::of_integer(r % 7),
                F32 { bits: input::THREE_TENTHS },
            ).value();
            let x = input::banded_at(r, c);
            let line = c * h + (t - 128 * h);
            &&& x.finite()
            &&& PARTS * (x.value() - line) <= 15 * sum_laws::one()
            &&& PARTS * (line - x.value()) <= 15 * sum_laws::one()
        }),
{
    let p: int = sum_laws::one();
    let h = F32 { bits: input::TWENTIETH };
    let m = F32 { bits: input::MIDDLE };
    let th = F32 { bits: input::THREE_TENTHS };
    let j: nat = r % 7;
    lemma_steps();
    lemma_pow2_strictly_increases(64, 149);
    lemma2_to64();
    law_integer_exact(c);
    law_integer_exact(j);
    assert(0 <= j * th.value() <= 6 * th.value()) by (nonlinear_arith)
        requires
            0 <= j <= 6,
            th.value() >= 0,
    ;
    lemma_product_error(arith::of_integer(j), th, j as int);
    let t = arith::product(arith::of_integer(j), th);
    let k: int = c - 128;
    let d = arith::difference(arith::of_integer(c), m);
    lemma_banded_column(c);
    assert(d.finite() && d.value() == k * p);
    assert(-128 * h.value() <= k * h.value() <= 128 * h.value()) by (nonlinear_arith)
        requires
            -128 <= k <= 128,
            h.value() >= 0,
    ;
    lemma_product_error(d, h, k);
    let u = arith::product(d, h);
    lemma_sum_error(u, t);
    assert(k * h.value() == c * h.value() - 128 * h.value()) by (nonlinear_arith)
        requires
            k == c - 128,
    ;
}

/// The factors of the matrices are the numbers nearest to 1/100, 1/20 and 3/10, and the column that
/// the banded matrix is centred on is 128.
pub proof fn law_factors()
    ensures
        nearest_laws::closest(F32 { bits: input::HUNDREDTH }, 100, sum_laws::one()),
        nearest_laws::closest(F32 { bits: input::TWENTIETH }, 20, sum_laws::one()),
        nearest_laws::closest(F32 { bits: input::THREE_TENTHS }, 10, 3 * sum_laws::one()),
        (F32 { bits: input::MIDDLE }).value() == 128 * sum_laws::one(),
{
    let p: nat = pow2(149);
    lemma_steps();
    lemma_pow2_adds(30, 119);
    lemma_pow2_adds(28, 121);
    lemma_pow2_adds(25, 124);
    lemma_pow2_pos(119);
    lemma_pow2_pos(121);
    lemma_pow2_pos(124);
    lemma2_to64();
    assert(0x3c23_d709int / 0x80_0000 == 120 && 0x3c23_d709int % 0x80_0000 == 0x23_d709);
    assert(binary32::units(0x3c23_d709) == 0xa3_d709 * pow2(119));
    assert(0x3c23_d70aint / 0x80_0000 == 120 && 0x3c23_d70aint % 0x80_0000 == 0x23_d70a);
    assert(binary32::units(0x3c23_d70a) == 0xa3_d70a * pow2(119));
    assert(0x3c23_d70bint / 0x80_0000 == 120 && 0x3c23_d70bint % 0x80_0000 == 0x23_d70b);
    assert(binary32::units(0x3c23_d70b) == 0xa3_d70b * pow2(119));
    assert(binary32::is_nearest(p, 100, 0x3c23_d70a));
    nearest_laws::lemma_closest(p, 100, F32 { bits: input::HUNDREDTH }, p as int);
    assert(0x3d4c_ccccint / 0x80_0000 == 122 && 0x3d4c_ccccint % 0x80_0000 == 0x4c_cccc);
    assert(binary32::units(0x3d4c_cccc) == 0xcc_cccc * pow2(121));
    assert(0x3d4c_cccdint / 0x80_0000 == 122 && 0x3d4c_cccdint % 0x80_0000 == 0x4c_cccd);
    assert(binary32::units(0x3d4c_cccd) == 0xcc_cccd * pow2(121));
    assert(0x3d4c_ccceint / 0x80_0000 == 122 && 0x3d4c_ccceint % 0x80_0000 == 0x4c_ccce);
    assert(binary32::units(0x3d4c_ccce) == 0xcc_ccce * pow2(121));
    assert(binary32::is_nearest(p, 20, 0x3d4c_cccd));
    nearest_laws::lemma_closest(p, 20, F32 { bits: input::TWENTIETH }, p as int);
    assert(0x3e99_9999int / 0x80_0000 == 125 && 0x3e99_9999int % 0x80_0000 == 0x19_9999);
    assert(binary32::units(0x3e99_9999) == 0x99_9999 * pow2(124));
    assert(0x3e99_999aint / 0x80_0000 == 125 && 0x3e99_999aint % 0x80_0000 == 0x19_999a);
    assert(binary32::units(0x3e99_999a) == 0x99_999a * pow2(124));
    assert(0x3e99_999bint / 0x80_0000 == 125 && 0x3e99_999bint % 0x80_0000 == 0x19_999b);
    assert(binary32::units(0x3e99_999b) == 0x99_999b * pow2(124));
    assert(binary32::is_nearest(3 * p, 10, 0x3e99_999a));
    nearest_laws::lemma_closest(3 * p, 10, F32 { bits: input::THREE_TENTHS }, (3 * p) as int);
}

/// Element `i` of the ramp is the product of 1/100 and the number nearest to `i`, rounded to nearest.
pub proof fn law_ramp_element(i: nat) -> (n: F32)
    requires
        i <= u64::MAX,
    ensures
        nearest_laws::closest(n, 1, i * sum_laws::one()),
        !n.negative(),
        nearest_laws::closest(
            input::ramp_at(i),
            sum_laws::one(),
            n.value() * (F32 { bits: input::HUNDREDTH }).value(),
        ),
{
    let n = arith::of_integer(i);
    let g = F32 { bits: input::HUNDREDTH };
    let p: int = sum_laws::one();
    let v: int = n.value() * g.value();
    nearest_laws::law_integer_nearest(i);
    lemma_steps();
    nearest_laws::law_product_nearest(n, g);
    lemma_integer_at_most(i);
    lemma_pow2_adds(104, 149);
    lemma_pow2_pos(149);
    lemma_pow2_pos(104);
    let t: int = pow2(104) as int;
    rounding::lemma_units_increase(0, n.magnitude());
    assert(0 <= v <= (t * p) * p) by (nonlinear_arith)
        requires
            v == n.value() * g.value(),
            0 <= n.value() <= t * p,
            0 <= g.value() <= p,
    ;
    assert((0x1ff_ffff * pow2(253)) * p > 2 * v) by (nonlinear_arith)
        requires
            0 <= v <= (t * p) * p,
            pow2(253) == t * p,
            t > 0,
            p > 0,
    {
        let z: int = (t * p) * p;
        assert(z > 0) by (nonlinear_arith)
            requires
                z == (t * p) * p,
                t > 0,
                p > 0,
        ;
        assert((0x1ff_ffff * (t * p)) * p == 0x1ff_ffff * z) by (nonlinear_arith)
            requires
                z == (t * p) * p,
        ;
    }
    n
}

/// A number made of an integer of 64 bits is at most 2^104.
proof fn lemma_integer_at_most(i: nat)
    requires
        i <= u64::MAX,
    ensures
        arith::of_integer(i).value() <= pow2(104) * sum_laws::one(),
{
    let v: nat = i * pow2(149);
    let top: nat = pow2(253);
    lemma_pow2_adds(104, 149);
    lemma_pow2_adds(23, 230);
    lemma_pow2_strictly_increases(64, 104);
    lemma2_to64();
    assert(v <= top) by (nonlinear_arith)
        requires
            v == i * pow2(149),
            top == pow2(104) * pow2(149),
            i <= pow2(104),
    ;
    assert(0x7380_0000int / 0x80_0000 == 231 && 0x7380_0000int % 0x80_0000 == 0);
    assert(binary32::units(0x7380_0000) == 0x80_0000 * pow2(230));
    number_laws::law_nearest_exact(0x7380_0000, top, 1);
    number_laws::law_nearest_ordered(v, 1, top, 1);
    rounding::lemma_units_increase(binary32::nearest(v, 1), 0x7380_0000);
}

/// The element of the banded matrix at row `r` and column `c` is the sum, rounded to nearest, of 1/20
/// times `c - 128` and of 3/10 times the remainder of `r` by 7, each product rounded to nearest.
pub proof fn law_banded_element(r: nat, c: nat) -> (o: (F32, F32))
    requires
        c < 256,
    ensures
        nearest_laws::closest(
            o.0,
            sum_laws::one(),
            ((c - 128) * sum_laws::one()) * (F32 { bits: input::TWENTIETH }).value(),
        ),
        nearest_laws::closest(
            o.1,
            sum_laws::one(),
            ((r % 7) * sum_laws::one()) * (F32 { bits: input::THREE_TENTHS }).value(),
        ),
        nearest_laws::closest(input::banded_at(r, c), 1, o.0.value() + o.1.value()),
{
    let p: int = sum_laws::one();
    let h = F32 { bits: input::TWENTIETH };
    let th = F32 { bits: input::THREE_TENTHS };
    let m = F32 { bits: input::MIDDLE };
    let j: nat = r % 7;
    let k: int = c - 128;
    lemma_steps();
    lemma_huge();
    law_integer_exact(c);
    law_integer_exact(j);
    let a = arith::difference(arith::of_integer(c), m);
    let b = arith::of_integer(j);
    lemma_banded_column(c);
    assert(a.finite() && a.value() == k * p);
    let u = arith::product(a, h);
    let t = arith::product(b, th);
    nearest_laws::law_product_nearest(a, h);
    nearest_laws::law_product_nearest(b, th);
    lemma_pow2_adds(104, 149);
    lemma_pow2_strictly_increases(64, 104);
    lemma2_to64();
    let big: int = pow2(253) as int;
    assert(big >= 0x1_0000 * p) by (nonlinear_arith)
        requires
            big == pow2(104) * p,
            pow2(104) >= 0x1_0000,
            p > 0,
    ;
    assert(-128 * (p * h.value()) <= (k * p) * h.value() <= 128 * (p * h.value())) by (nonlinear_arith)
        requires
            -128 <= k <= 128,
            p > 0,
            h.value() >= 0,
    ;
    assert(0 <= (j * p) * th.value() <= 6 * (p * th.value())) by (nonlinear_arith)
        requires
            0 <= j <= 6,
            p > 0,
            th.value() >= 0,
    ;
    assert(0 <= p * h.value() <= p * p && 0 <= p * th.value() <= p * p) by (nonlinear_arith)
        requires
            0 <= h.value() <= p,
            0 <= th.value() <= p,
            p > 0,
    ;
    assert((0x1ff_ffff * big) * p >= 0x1_0000 * (p * p)) by (nonlinear_arith)
        requires
            big >= 0x1_0000 * p,
            p > 0,
    ;
    assert(-128 * h.value() <= k * h.value() <= 128 * h.value()) by (nonlinear_arith)
        requires
            -128 <= k <= 128,
            h.value() >= 0,
    ;
    assert(0 <= j * th.value() <= 6 * th.value()) by (nonlinear_arith)
        requires
            0 <= j <= 6,
            th.value() >= 0,
    ;
    assert(p * p > 0) by (nonlinear_arith)
        requires
            p > 0,
    ;
    lemma_product_error(a, h, k);
    lemma_product_error(b, th, j as int);
    nearest_laws::law_sum_nearest(u, t);
    lemma_pow2_strictly_increases(64, 149);
    (u, t)
}

/// The distance of a column to the middle needs no rounding.
proof fn lemma_banded_column(c: nat)
    requires
        c < 256,
    ensures
        ({
            let a = arith::difference(arith::of_integer(c), F32 { bits: input::MIDDLE });
            a.finite() && a.value() == (c - 128) * sum_laws::one()
        }),
{
    let p: int = sum_laws::one();
    let k: int = c - 128;
    let m = F32 { bits: input::MIDDLE };
    let o = binary32::opposite(m);
    lemma_steps();
    lemma_huge();
    law_integer_exact(c);
    assert(o.magnitude() == m.magnitude() && o.negative() && o.value() == -128 * p);
    assert(arith::of_integer(c).value() + o.value() == k * p) by (nonlinear_arith)
        requires
            arith::of_integer(c).value() == c * p,
            o.value() == -128 * p,
            k == c - 128,
    ;
    let size: nat = (if k < 0 { -k } else { k }) as nat;
    law_integer_exact(size);
    assert((-k) * p == -(k * p)) by (nonlinear_arith);
    assert((k * p < 0) == (k < 0) && (k * p == 0) == (k == 0)) by (nonlinear_arith)
        requires
            p > 0,
    ;
}

/// A whole matrix of gentle, rising rows.
pub open spec fn tame(x: Seq<F32>) -> bool {
    &&& x.len() == ROWS * COLS
    &&& forall|r: int|
        0 <= r < ROWS ==> gentle(#[trigger] softmax::row_of(x, r)) && rising(softmax::row_of(x, r))
}

/// The ramp's rows are gentle and rise.
pub proof fn law_ramp_tame(x: Seq<F32>)
    requires
        x.len() == ROWS * COLS,
        forall|i: int| 0 <= i < x.len() ==> x[i] == input::ramp_at(i as nat),
    ensures
        tame(x),
{
    let g: int = (F32 { bits: input::HUNDREDTH }).value();
    let p: int = sum_laws::one();
    lemma_steps();
    lemma_pow2_pos(149);
    assert forall|r: int| 0 <= r < ROWS implies gentle(#[trigger] softmax::row_of(x, r)) && rising(
        softmax::row_of(x, r),
    ) by {
        let row = softmax::row_of(x, r);
        let base: int = (r * COLS) * g;
        assert forall|c: int| 0 <= c < row.len() implies ({
            &&& (#[trigger] row[c]).finite()
            &&& PARTS * (row[c].value() - (c * g + base)) <= 10_487 * p
            &&& PARTS * ((c * g + base) - row[c].value()) <= 10_487 * p
        }) by {
            let i: int = r * COLS + c;
            assert(row[c] == x[i]);
            lemma_ramp_at(i as nat);
            assert(i * g == c * g + base) by (nonlinear_arith)
                requires
                    i == r * COLS + c,
                    base == (r * COLS) * g,
            ;
        }
        assert(along(row, g, base, 10_487 * p));
        lemma_along(row, g, base, 10_487 * p);
    }
}

/// The banded matrix's rows are gentle and rise.
pub proof fn law_banded_tame(x: Seq<F32>)
    requires
        x.len() == ROWS * COLS,
        forall|i: int|
            0 <= i < x.len() ==> x[i] == input::banded_at(
                (i / (COLS as int)) as nat,
                (i % (COLS as int)) as nat,
            ),
    ensures
        tame(x),
{
    let h: int = (F32 { bits: input::TWENTIETH }).value();
    let p: int = sum_laws::one();
    lemma_steps();
    lemma_pow2_pos(149);
    assert forall|r: int| 0 <= r < ROWS implies gentle(#[trigger] softmax::row_of(x, r)) && rising(
        softmax::row_of(x, r),
    ) by {
        let row = softmax::row_of(x, r);
        let t: int = arith::product(
            arith::of_integer(r as nat % 7),
            F32 { bits: input::THREE_TENTHS },
        ).value();
        let base: int = t - 128 * h;
        assert forall|c: int| 0 <= c < row.len() implies ({
            &&& (#[trigger] row[c]).finite()
            &&& PARTS * (row[c].value() - (c * h + base)) <= 15 * p
            &&& PARTS * ((c * h + base) - row[c].value()) <= 15 * p
        }) by {
            let i: int = r * COLS + c;
            vstd::arithmetic::div_mod::lemma_fundamental_div_mod_converse(i, COLS as int, r, c);
            assert(row[c] == x[i]);
            lemma_banded_at(r as nat, c as nat);
        }
        assert(along(row, h, base, 15 * p));
        lemma_along(row, h, base, 15 * p);
    }
}

} // verus!
