//! How far the sums of the kernels and of the reference are from exact.

use crate::arith;
use crate::binary32;
use crate::binary32::F32;
use crate::binary32::INF;
use crate::block;
use crate::fold;
use crate::max_laws;
use crate::number_laws;
use crate::pairs::Layout;
use crate::pairs::PER;
use crate::pairs::TPB;
use crate::reference;
use crate::rounding;
use crate::simt;
use crate::softmax::COLS;
use crate::warp;
use crate::warp::Reduction;
use crate::warp::LANES;
use vstd::arithmetic::power2::*;
use vstd::prelude::*;

verus! {

/// 2^24: one operation is off by at most one part in this many.
pub const PARTS: u32 = 0x0100_0000;

/// A finite number that is not negative.
pub open spec fn plain(a: F32) -> bool {
    a.finite() && a.rank() >= 0
}

/// `r` is `exact` units, up to the rounding of `d` operations in a row.
pub open spec fn close(r: F32, exact: int, d: int) -> bool {
    &&& plain(r)
    &&& (PARTS - d) * exact <= PARTS * r.value()
    &&& (PARTS - d) * r.value() <= PARTS * exact
}

/// How far rounding to nearest goes: by one part in 2^24, or by half a unit.
pub proof fn law_rounding_error(num: nat, den: nat, m: nat)
    requires
        den > 0,
        m < INF,
        binary32::is_nearest(num, den, m),
    ensures
        PARTS * (num - binary32::units(m) * den) <= num + PARTS * den,
        PARTS * (binary32::units(m) * den - num) <= num + PARTS * den,
        den == 1 ==> PARTS * (num - binary32::units(m)) <= num,
        den == 1 ==> PARTS * (binary32::units(m) - num) <= num,
{
    let n: int = PARTS as int;
    let here: nat = binary32::units(m);
    let r: nat = here * den;
    let (t, q) = rounding::lemma_split(m);
    let gap: nat = pow2(t);
    let g: nat = gap * den;
    lemma_pow2_pos(t);
    assert((here + (q + 1) * gap) * den == 2 * r + g) by (nonlinear_arith)
        requires
            here == q * gap,
            r == here * den,
            g == gap * den,
    ;
    assert(2 * (num - r) <= g);
    if t == 0 {
        assert(gap == 1) by {
            lemma2_to64();
        }
        assert(g == den) by (nonlinear_arith)
            requires
                g == gap * den,
                gap == 1,
        ;
    } else {
        assert(n * g <= 2 * r) by (nonlinear_arith)
            requires
                2 * q >= n,
                here == q * gap,
                r == here * den,
                g == gap * den,
        ;
    }
    if r > num {
        assert(m > 0);
        let (t2, q2) = rounding::lemma_split((m - 1) as nat);
        let before: nat = binary32::units((m - 1) as nat);
        let gap2: nat = pow2(t2);
        let g2: nat = gap2 * den;
        let b: nat = before * den;
        assert((before + here) * den == 2 * b + g2 && r == b + g2) by (nonlinear_arith)
            requires
                before == q2 * gap2,
                here == (q2 + 1) * gap2,
                r == here * den,
                g2 == gap2 * den,
                b == before * den,
        ;
        assert(2 * b + g2 <= 2 * num);
        assert(2 * (r - num) <= g2);
        if t2 == 0 {
            assert(gap2 == 1) by {
                lemma2_to64();
            }
            assert(g2 == den) by (nonlinear_arith)
                requires
                    g2 == gap2 * den,
                    gap2 == 1,
            ;
        } else {
            assert(n * g2 <= 2 * b) by (nonlinear_arith)
                requires
                    2 * q2 >= n,
                    before == q2 * gap2,
                    b == before * den,
                    g2 == gap2 * den,
            ;
        }
    }
}

/// One part more of error for one more addition.
pub proof fn law_sum_close(a: F32, b: F32, x: int, y: int, d: int)
    requires
        0 <= d < PARTS - 1,
        close(a, x, d),
        close(b, y, d),
        arith::sum(a, b).finite(),
    ensures
        close(arith::sum(a, b), x + y, d + 1),
{
    let n: int = PARTS as int;
    let r = arith::sum(a, b);
    number_laws::law_sum_grows(a, b);
    rounding::lemma_units_increase(0, a.magnitude());
    rounding::lemma_units_increase(0, b.magnitude());
    let v: int = a.value() + b.value();
    number_laws::law_nearest(v as nat, 1);
    law_rounding_error(v as nat, 1, r.magnitude());
    let z: int = x + y;
    assert((n - d) * z == (n - d) * x + (n - d) * y) by (nonlinear_arith)
        requires
            z == x + y,
    ;
    assert((n - d) * v == (n - d) * a.value() + (n - d) * b.value()) by (nonlinear_arith)
        requires
            v == a.value() + b.value(),
    ;
    assert((n - d) * z <= n * v);
    assert((n - d) * v <= n * z);
    lemma_one_more(n, d, z, v, r.value());
}

proof fn lemma_one_more(n: int, d: int, z: int, v: int, r: int)
    requires
        0 <= d < n - 1,
        v >= 0,
        r >= 0,
        (n - d) * z <= n * v,
        (n - d) * v <= n * z,
        n * (v - r) <= v,
        n * (r - v) <= v,
    ensures
        (n - (d + 1)) * z <= n * r,
        (n - (d + 1)) * r <= n * z,
{
    assert(z >= 0) by (nonlinear_arith)
        requires
            (n - d) * v <= n * z,
            v >= 0,
            n > d,
            n > 0,
    ;
    // n * n * r >= n * (n - 1) * v >= (n - 1) * (n - d) * z >= n * (n - d - 1) * z
    assert(n * r >= (n - 1) * v) by (nonlinear_arith)
        requires
            n * (v - r) <= v,
    ;
    assert(n * (n * r) >= n * ((n - 1) * v)) by (nonlinear_arith)
        requires
            n * r >= (n - 1) * v,
            n > 0,
    ;
    assert(n * ((n - 1) * v) == (n - 1) * (n * v)) by (nonlinear_arith);
    assert((n - 1) * (n * v) >= (n - 1) * ((n - d) * z)) by (nonlinear_arith)
        requires
            n * v >= (n - d) * z,
            n >= 1,
    ;
    assert((n - 1) * ((n - d) * z) == n * ((n - (d + 1)) * z) + d * z) by (nonlinear_arith);
    assert(d * z >= 0) by (nonlinear_arith)
        requires
            d >= 0,
            z >= 0,
    ;
    assert(n * r >= (n - (d + 1)) * z) by (nonlinear_arith)
        requires
            n * (n * r) >= n * ((n - (d + 1)) * z),
            n > 0,
    ;
    // n * (n - d - 1) * r <= (n - d - 1) * (n + 1) * v <= n * (n - d) * v <= n * n * z
    assert(n * r <= (n + 1) * v) by (nonlinear_arith)
        requires
            n * (r - v) <= v,
    ;
    let k: int = n - (d + 1);
    assert(k * (n * r) <= k * ((n + 1) * v)) by (nonlinear_arith)
        requires
            n * r <= (n + 1) * v,
            k >= 0,
    ;
    assert(k * ((n + 1) * v) == n * ((n - d) * v) - (d + 1) * v) by (nonlinear_arith)
        requires
            k == n - (d + 1),
    ;
    assert((d + 1) * v >= 0) by (nonlinear_arith)
        requires
            d >= 0,
            v >= 0,
    ;
    assert(n * ((n - d) * v) <= n * (n * z)) by (nonlinear_arith)
        requires
            (n - d) * v <= n * z,
            n > 0,
    ;
    assert(k * (n * r) == n * (k * r)) by (nonlinear_arith);
    assert(k * r <= n * z) by (nonlinear_arith)
        requires
            n * (k * r) <= n * (n * z),
            n > 0,
    ;
}

/// What is close for few operations is close for more.
pub proof fn law_close_weaker(r: F32, exact: int, d: int, more: int)
    requires
        0 <= d <= more <= PARTS,
        exact >= 0,
        close(r, exact, d),
    ensures
        close(r, exact, more),
{
    let n: int = PARTS as int;
    rounding::lemma_units_increase(0, r.magnitude());
    assert((n - more) * exact <= (n - d) * exact) by (nonlinear_arith)
        requires
            d <= more,
            exact >= 0,
    ;
    assert((n - more) * r.value() <= (n - d) * r.value()) by (nonlinear_arith)
        requires
            d <= more,
            r.value() >= 0,
    ;
}

/// The first `n` integers, added up.
pub open spec fn added(x: Seq<int>, n: nat) -> int
    decreases n,
{
    if n == 0 {
        0
    } else {
        added(x, (n - 1) as nat) + x[n - 1]
    }
}

/// What the numbers of a sequence stand for, in units.
pub open spec fn values(s: Seq<F32>) -> Seq<int> {
    Seq::new(s.len(), |i: int| s[i].value())
}

/// The exact sum of a sequence of numbers, in units.
pub open spec fn exact(s: Seq<F32>) -> int {
    added(values(s), s.len())
}

/// One, in units.
pub open spec fn one() -> int {
    pow2(149) as int
}

/// The most that the sums of this module are stated for, in units: 256.
pub open spec fn limit() -> int {
    256 * one()
}

/// Sums of what is not negative are not negative, and grow with the number of terms.
pub proof fn lemma_added_grows(x: Seq<int>, k: nat, n: nat)
    requires
        k <= n <= x.len(),
        forall|i: int| 0 <= i < x.len() ==> #[trigger] x[i] >= 0,
    ensures
        0 <= added(x, k) <= added(x, n),
    decreases n,
{
    if n > 0 {
        assert(x[n - 1] >= 0);
        if k < n {
            lemma_added_grows(x, k, (n - 1) as nat);
        } else {
            lemma_added_grows(x, (k - 1) as nat, (n - 1) as nat);
        }
    }
}

/// No term exceeds the sum.
pub proof fn lemma_term_below(x: Seq<int>, i: int, n: nat)
    requires
        0 <= i < n <= x.len(),
        forall|i: int| 0 <= i < x.len() ==> #[trigger] x[i] >= 0,
    ensures
        x[i] <= added(x, n),
{
    lemma_added_grows(x, i as nat, n);
    lemma_added_grows(x, (i + 1) as nat, n);
}

/// The magnitude of 1024, in units.
pub proof fn lemma_large()
    ensures
        binary32::units(0x4480_0000) == 1024 * one(),
        binary32::units(0x3f80_0000) == one(),
        one() > 0,
{
    lemma_pow2_pos(149);
    lemma_pow2_adds(23, 136);
    lemma_pow2_adds(10, 149);
    lemma_pow2_adds(23, 126);
    lemma2_to64();
    lemma2_to64_rest();
    assert(0x4480_0000int / 0x80_0000 == 137);
    assert(0x4480_0000int % 0x80_0000 == 0);
    assert(0x3f80_0000int / 0x80_0000 == 127);
    assert(0x3f80_0000int % 0x80_0000 == 0);
}

/// Small sums are finite.
pub proof fn lemma_sum_plain(a: F32, b: F32)
    requires
        plain(a),
        plain(b),
        a.value() + b.value() <= 1024 * one(),
    ensures
        plain(arith::sum(a, b)),
{
    lemma_large();
    rounding::lemma_units_increase(0, a.magnitude());
    rounding::lemma_units_increase(0, b.magnitude());
    number_laws::law_sum_grows(a, b);
    let v: nat = (a.value() + b.value()) as nat;
    number_laws::law_nearest_ordered(v, 1, binary32::units(0x4480_0000), 1);
    number_laws::law_nearest_exact(0x4480_0000, binary32::units(0x4480_0000), 1);
}

/// One more addition, where the exact sum stays within the limit.
proof fn lemma_add_close(a: F32, b: F32, x: int, y: int, d: int)
    requires
        0 <= d <= 1000,
        close(a, x, d),
        close(b, y, d),
        0 <= x,
        0 <= y,
        x + y <= limit(),
    ensures
        close(arith::sum(a, b), x + y, d + 1),
{
    let n: int = PARTS as int;
    lemma_large();
    assert(a.value() <= 2 * x) by (nonlinear_arith)
        requires
            (n - d) * a.value() <= n * x,
            n == 0x100_0000,
            0 <= d <= 1000,
            x >= 0,
    ;
    assert(b.value() <= 2 * y) by (nonlinear_arith)
        requires
            (n - d) * b.value() <= n * y,
            n == 0x100_0000,
            0 <= d <= 1000,
            y >= 0,
    ;
    lemma_sum_plain(a, b);
    law_sum_close(a, b, x, y, d);
}

/// Adding to positive zero changes nothing.
pub proof fn law_sum_from_zero(b: F32)
    requires
        plain(b),
    ensures
        plain(arith::sum(F32 { bits: binary32::ZERO }, b)),
        arith::sum(F32 { bits: binary32::ZERO }, b).value() == b.value(),
        arith::sum(F32 { bits: binary32::ZERO }, b).rank() == b.rank(),
{
    let z = F32 { bits: binary32::ZERO };
    rounding::lemma_units_increase(0, b.magnitude());
    number_laws::law_sum_grows(z, b);
    number_laws::law_nearest_exact(b.magnitude(), binary32::units(b.magnitude()), 1);
}

/// A running sum takes one operation for every term but the first.
proof fn lemma_running_close(s: Seq<F32>, x: Seq<int>, n: nat, d: int)
    requires
        0 < n <= s.len(),
        s.len() == x.len(),
        0 <= d,
        d + n <= 1000,
        forall|i: int| 0 <= i < x.len() ==> #[trigger] x[i] >= 0,
        forall|i: int| 0 <= i < n ==> close(#[trigger] s[i], x[i], d),
        added(x, n) <= limit(),
    ensures
        close(fold::running_sum(s, n), added(x, n), d + n - 1),
    decreases n,
{
    if n == 1 {
        reveal_with_fuel(fold::running_sum, 2);
        reveal_with_fuel(added, 2);
        law_sum_from_zero(s[0]);
        assert(close(s[0], x[0], d));
    } else {
        let k: nat = (n - 1) as nat;
        lemma_added_grows(x, k, n);
        lemma_running_close(s, x, k, d);
        assert(close(s[n - 1], x[n - 1], d));
        law_close_weaker(s[n - 1], x[n - 1], d, d + k - 1);
        lemma_add_close(fold::running_sum(s, k), s[n - 1], added(x, k), x[n - 1], d + k - 1);
    }
}

/// The integers before the `n`th that leave remainder `res` by `m`, added up.
spec fn class_sum(x: Seq<int>, res: int, m: int, n: nat) -> int
    decreases n,
{
    if n == 0 {
        0
    } else {
        class_sum(x, res, m, (n - 1) as nat) + (if (n - 1) % m == res {
            x[n - 1]
        } else {
            0
        })
    }
}

/// A class by `h` is made of two classes by twice `h`.
proof fn lemma_class_split(x: Seq<int>, res: int, h: int, n: nat)
    requires
        0 <= res < h,
    ensures
        class_sum(x, res, h, n) == class_sum(x, res, 2 * h, n) + class_sum(x, res + h, 2 * h, n),
    decreases n,
{
    if n > 0 {
        lemma_class_split(x, res, h, (n - 1) as nat);
        let i: int = n - 1;
        max_laws::lemma_double(i, h);
        let bit: int = (i / h) % 2;
        assert(h * bit == (if bit == 0 { 0 } else { h })) by (nonlinear_arith)
            requires
                bit == 0 || bit == 1,
        ;
        vstd::arithmetic::div_mod::lemma_mod_bound(i, h);
    }
}

/// All numbers are in the one class by 1.
proof fn lemma_class_all(x: Seq<int>, n: nat)
    ensures
        class_sum(x, 0, 1, n) == added(x, n),
    decreases n,
{
    if n > 0 {
        lemma_class_all(x, (n - 1) as nat);
    }
}

/// By at least as many as there are numbers, each is alone in its class.
proof fn lemma_class_alone(x: Seq<int>, res: int, m: int, n: nat)
    requires
        0 <= res < m,
        n <= m,
    ensures
        class_sum(x, res, m, n) == (if res < n {
            x[res]
        } else {
            0
        }),
    decreases n,
{
    if n > 0 {
        lemma_class_alone(x, res, m, (n - 1) as nat);
        vstd::arithmetic::div_mod::lemma_small_mod((n - 1) as nat, m as nat);
    }
}

/// A class of what is not negative is no more than everything.
proof fn lemma_class_below(x: Seq<int>, res: int, m: int, n: nat)
    requires
        n <= x.len(),
        forall|i: int| 0 <= i < x.len() ==> #[trigger] x[i] >= 0,
    ensures
        0 <= class_sum(x, res, m, n) <= added(x, n),
    decreases n,
{
    if n > 0 {
        lemma_class_below(x, res, m, (n - 1) as nat);
        assert(x[n - 1] >= 0);
    }
}

/// Every lane is close to the sum of the lanes that share its place modulo `m`.
spec fn spread(x: Seq<int>, w: Seq<F32>, m: int, d: int) -> bool {
    &&& w.len() == LANES
    &&& forall|i: int|
        0 <= i < LANES ==> close(#[trigger] w[i], class_sum(x, i % m, m, LANES as nat), d)
}

proof fn lemma_spread_step(x: Seq<int>, w: Seq<F32>, m: int, d: int)
    requires
        x.len() == LANES,
        m == 32 || m == 16 || m == 8 || m == 4 || m == 2,
        0 <= d <= 1000,
        forall|i: int| 0 <= i < x.len() ==> #[trigger] x[i] >= 0,
        added(x, LANES as nat) <= limit(),
        spread(x, w, m, d),
    ensures
        spread(x, warp::exchanged(Reduction::Sum, w, m / 2), m / 2, d + 1),
{
    let h: int = m / 2;
    let u = warp::exchanged(Reduction::Sum, w, h);
    assert forall|i: int| 0 <= i < LANES implies close(
        #[trigger] u[i],
        class_sum(x, i % h, h, LANES as nat),
        d + 1,
    ) by {
        let p: int = warp::partner(i, h);
        warp::lemma_partner(i, h);
        max_laws::lemma_partner_class(i, h);
        lemma_class_split(x, i % h, h, LANES as nat);
        lemma_class_below(x, i % h, h, LANES as nat);
        lemma_class_below(x, i % m, m, LANES as nat);
        lemma_class_below(x, p % m, m, LANES as nat);
        assert(close(w[i], class_sum(x, i % m, m, LANES as nat), d));
        assert(close(w[p], class_sum(x, p % m, m, LANES as nat), d));
        lemma_add_close(
            w[i],
            w[p],
            class_sum(x, i % m, m, LANES as nat),
            class_sum(x, p % m, m, LANES as nat),
            d,
        );
    }
}

/// A warp adds up in five operations.
proof fn lemma_warp_close(v: Seq<F32>, x: Seq<int>, d: int)
    requires
        v.len() == LANES,
        x.len() == LANES,
        0 <= d <= 900,
        forall|i: int| 0 <= i < x.len() ==> #[trigger] x[i] >= 0,
        forall|i: int| 0 <= i < LANES ==> close(#[trigger] v[i], x[i], d),
        added(x, LANES as nat) <= limit(),
    ensures
        close(warp::reduced(Reduction::Sum, v)[0], added(x, LANES as nat), d + 5),
{
    assert forall|i: int| 0 <= i < LANES implies close(
        #[trigger] v[i],
        class_sum(x, i % 32, 32, LANES as nat),
        d,
    ) by {
        lemma_class_alone(x, i, 32, LANES as nat);
    }
    assert(spread(x, v, 32, d));
    let a = warp::exchanged(Reduction::Sum, v, 16);
    let b = warp::exchanged(Reduction::Sum, a, 8);
    let c = warp::exchanged(Reduction::Sum, b, 4);
    let e = warp::exchanged(Reduction::Sum, c, 2);
    lemma_spread_step(x, v, 32, d);
    lemma_spread_step(x, a, 16, d + 1);
    lemma_spread_step(x, b, 8, d + 2);
    lemma_spread_step(x, c, 4, d + 3);
    lemma_spread_step(x, e, 2, d + 4);
    lemma_class_all(x, LANES as nat);
    let r = warp::exchanged(Reduction::Sum, e, 1);
    assert(close(r[0], class_sum(x, 0int % 1, 1, LANES as nat), d + 5));
}

/// Lanes that share their place modulo `m` hold the same number.
spec fn alike(w: Seq<F32>, m: int) -> bool {
    &&& w.len() == LANES
    &&& forall|i: int, k: int|
        0 <= i < LANES && 0 <= k < LANES && i % m == k % m ==> #[trigger] w[i] == #[trigger] w[k]
}

proof fn lemma_alike_step(w: Seq<F32>, m: int)
    requires
        m == 32 || m == 16 || m == 8 || m == 4 || m == 2,
        alike(w, m),
    ensures
        alike(warp::exchanged(Reduction::Sum, w, m / 2), m / 2),
{
    let h: int = m / 2;
    let u = warp::exchanged(Reduction::Sum, w, h);
    assert forall|i: int, k: int|
        0 <= i < LANES && 0 <= k < LANES && i % h == k % h implies #[trigger] u[i] == #[trigger] u[k] by {
        let p: int = warp::partner(i, h);
        let q: int = warp::partner(k, h);
        warp::lemma_partner(i, h);
        warp::lemma_partner(k, h);
        max_laws::lemma_partner_class(i, h);
        max_laws::lemma_partner_class(k, h);
        if i % m == k % m {
            assert(w[i] == w[k] && w[p] == w[q]);
        } else {
            assert(w[i] == w[q] && w[p] == w[k]);
            number_laws::law_sum_commutes(w[i], w[p]);
        }
    }
}

/// Every lane of a warp gets the same sum, to the bit.
pub proof fn law_warp_sum_agrees(v: Seq<F32>, a: int, b: int)
    requires
        v.len() == LANES,
        0 <= a < LANES,
        0 <= b < LANES,
    ensures
        warp::reduced(Reduction::Sum, v)[a] == warp::reduced(Reduction::Sum, v)[b],
{
    assert(alike(v, 32));
    let s = warp::exchanged(Reduction::Sum, v, 16);
    let t = warp::exchanged(Reduction::Sum, s, 8);
    let u = warp::exchanged(Reduction::Sum, t, 4);
    let w = warp::exchanged(Reduction::Sum, u, 2);
    lemma_alike_step(v, 32);
    lemma_alike_step(s, 16);
    lemma_alike_step(t, 8);
    lemma_alike_step(u, 4);
    lemma_alike_step(w, 2);
    let r = warp::exchanged(Reduction::Sum, w, 1);
    assert(alike(r, 1));
    assert(a % 1 == b % 1);
    assert(r[a] == r[b]);
}

/// The sum of a longer sequence, from the sums of its pieces.
proof fn lemma_added_pieces(x: Seq<int>, start: nat, len: nat)
    requires
        start + len <= x.len(),
    ensures
        added(x, start + len) == added(x, start) + added(
            x.subrange(start as int, (start + len) as int),
            len,
        ),
    decreases len,
{
    if len > 0 {
        lemma_added_pieces(x, start, (len - 1) as nat);
        let piece = x.subrange(start as int, (start + len) as int);
        let shorter = x.subrange(start as int, start + len - 1);
        lemma_added_same(piece, shorter, (len - 1) as nat);
    }
}

/// Sums of equal integers are equal.
proof fn lemma_added_same(x: Seq<int>, y: Seq<int>, n: nat)
    requires
        n <= x.len(),
        n <= y.len(),
        forall|i: int| 0 <= i < n ==> x[i] == y[i],
    ensures
        added(x, n) == added(y, n),
    decreases n,
{
    if n > 0 {
        lemma_added_same(x, y, (n - 1) as nat);
    }
}

/// The sums of the warps of a block, added up, are the sum of the block.
spec fn warp_sums(x: Seq<int>, n: nat) -> Seq<int> {
    Seq::new(n, |w: int| added(x.subrange(w * LANES, (w + 1) * LANES), LANES as nat))
}

proof fn lemma_warp_sums(x: Seq<int>, n: nat, k: nat)
    requires
        x.len() == n * LANES,
        k <= n,
    ensures
        added(warp_sums(x, n), k) == added(x, (k * LANES) as nat),
    decreases k,
{
    if k > 0 {
        lemma_warp_sums(x, n, (k - 1) as nat);
        lemma_added_pieces(x, ((k - 1) * LANES) as nat, LANES as nat);
    }
}

/// A block of `n` warps adds up in five operations inside the warps and `n - 1` across them.
proof fn lemma_block_close(v: Seq<F32>, x: Seq<int>, n: nat, d: int)
    requires
        0 < n <= 32,
        v.len() == n * LANES,
        x.len() == v.len(),
        0 <= d <= 900,
        forall|i: int| 0 <= i < x.len() ==> #[trigger] x[i] >= 0,
        forall|i: int| 0 <= i < v.len() ==> close(#[trigger] v[i], x[i], d),
        added(x, x.len()) <= limit(),
    ensures
        close(block::total(v), added(x, x.len()), d + 4 + n),
{
    let slots = block::slots(Reduction::Sum, v);
    let sums = warp_sums(x, n);
    lemma_warp_sums(x, n, n);
    assert forall|w: int| 0 <= w < n implies #[trigger] sums[w] >= 0 && close(
        slots[w],
        sums[w],
        d + 5,
    ) by {
        let piece = x.subrange(w * LANES, (w + 1) * LANES);
        let lanes = block::lanes_of(v, w);
        assert forall|i: int| 0 <= i < LANES implies close(#[trigger] lanes[i], piece[i], d)
            && piece[i] >= 0 by {
            assert(close(v[w * LANES + i], x[w * LANES + i], d));
            assert(x[w * LANES + i] >= 0);
        }
        assert forall|i: int| 0 <= i < piece.len() implies #[trigger] piece[i] >= 0 by {
            assert(x[w * LANES + i] >= 0);
        }
        lemma_added_grows(piece, 0, LANES as nat);
        lemma_added_pieces(x, (w * LANES) as nat, LANES as nat);
        lemma_added_grows(x, (w * LANES) as nat, x.len());
        lemma_added_grows(x, ((w + 1) * LANES) as nat, x.len());
        lemma_warp_close(lanes, piece, d);
    }
    assert forall|w: int| 0 <= w < n implies close(#[trigger] slots[w], sums[w], d + 5) by {
        assert(sums[w] >= 0);
    }
    lemma_running_close(slots, sums, n, d + 5);
}

/// The numbers of the sequence are finite and not negative, and add up to no more than 256.
pub open spec fn moderate(e: Seq<F32>) -> bool {
    &&& forall|i: int| 0 <= i < e.len() ==> plain(#[trigger] e[i])
    &&& exact(e) <= limit()
}

pub proof fn lemma_values_plain(e: Seq<F32>)
    requires
        forall|i: int| 0 <= i < e.len() ==> plain(#[trigger] e[i]),
    ensures
        forall|i: int| 0 <= i < e.len() ==> #[trigger] values(e)[i] >= 0,
        forall|i: int| 0 <= i < e.len() ==> close(#[trigger] e[i], values(e)[i], 0),
{
    assert forall|i: int| 0 <= i < e.len() implies #[trigger] values(e)[i] >= 0 by {
        assert(plain(e[i]));
        rounding::lemma_units_increase(0, e[i].magnitude());
    }
    assert forall|i: int| 0 <= i < e.len() implies close(#[trigger] e[i], values(e)[i], 0) by {
        assert(plain(e[i]));
    }
}

/// With one thread per element, a row's sum is off by the rounding of twelve additions.
pub proof fn law_simt_sum(e: Seq<F32>)
    requires
        e.len() == COLS,
        moderate(e),
    ensures
        close(simt::row_sum(e), exact(e), 12),
{
    lemma_values_plain(e);
    lemma_block_close(e, values(e), 8, 0);
}

/// The sums of the threads' own numbers.
spec fn held_sums(layout: Layout, x: Seq<int>) -> Seq<int> {
    Seq::new(TPB as nat, |tid: int| x[layout.column(tid, 0)] + x[layout.column(tid, 1)])
}

/// Each thread adding up its own, every number is added once.
proof fn lemma_held_sums(layout: Layout, x: Seq<int>, n: nat)
    requires
        x.len() == COLS,
        n <= TPB,
    ensures
        added(held_sums(layout, x), n) == (match layout {
            Layout::Strided => added(x, n) + (added(x, (n + TPB) as nat) - added(x, TPB as nat)),
            Layout::Contiguous => added(x, (2 * n) as nat),
        }),
    decreases n,
{
    if n > 0 {
        lemma_held_sums(layout, x, (n - 1) as nat);
        reveal_with_fuel(added, 3);
    }
}

/// With two elements per thread, a row's sum is off by the rounding of nine additions.
pub proof fn law_pairs_sum(layout: Layout, e: Seq<F32>)
    requires
        e.len() == COLS,
        moderate(e),
    ensures
        close(layout.row_sum(e), exact(e), 9),
{
    lemma_values_plain(e);
    let x = values(e);
    let sums = layout.thread_sums(e);
    let held_x = held_sums(layout, x);
    lemma_held_sums(layout, x, TPB as nat);
    assert(added(held_x, TPB as nat) == exact(e));
    assert forall|tid: int| 0 <= tid < TPB implies close(#[trigger] sums[tid], held_x[tid], 1)
        && held_x[tid] >= 0 by {
        let held = layout.held(e, tid);
        let hx = values(held);
        layout.law_columns_partition(tid, 0, 0);
        layout.law_columns_partition(tid, 1, 0);
        let c0: int = layout.column(tid, 0);
        let c1: int = layout.column(tid, 1);
        assert(x[c0] >= 0 && x[c1] >= 0);
        assert(c0 != c1) by {
            layout.law_columns_partition(tid, 0, c1);
        }
        assert(hx[0] == x[c0] && hx[1] == x[c1]);
        assert forall|k: int| 0 <= k < PER implies close(#[trigger] held[k], hx[k], 0) by {
            layout.law_columns_partition(tid, k, 0);
            assert(close(e[layout.column(tid, k)], x[layout.column(tid, k)], 0));
        }
        reveal_with_fuel(added, 3);
        assert(added(hx, 2) == hx[0] + hx[1]);
        lemma_two_terms(x, c0, c1);
        lemma_running_close(held, hx, 2, 0);
    }
    assert forall|tid: int| 0 <= tid < held_x.len() implies #[trigger] held_x[tid] >= 0 by {
        assert(close(sums[tid], held_x[tid], 1));
    }
    lemma_block_close(sums, held_x, 4, 1);
}

/// Two different terms are together no more than the sum.
proof fn lemma_two_terms(x: Seq<int>, a: int, b: int)
    requires
        0 <= a < x.len(),
        0 <= b < x.len(),
        a != b,
        forall|i: int| 0 <= i < x.len() ==> #[trigger] x[i] >= 0,
    ensures
        x[a] + x[b] <= added(x, x.len()),
{
    let low: int = if a < b { a } else { b };
    let high: int = if a < b { b } else { a };
    lemma_term_below(x, low, high as nat);
    lemma_added_grows(x, (high + 1) as nat, x.len());
}

/// The reference's sum is off by the rounding of 255 additions.
pub proof fn law_reference_sum(e: Seq<F32>)
    requires
        e.len() == COLS,
        moderate(e),
    ensures
        close(reference::row_sum(e), exact(e), 255),
{
    lemma_values_plain(e);
    lemma_running_close(e, values(e), COLS as nat, 0);
}

} // verus!
