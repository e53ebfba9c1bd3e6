//! How far the quotients of a row are from exact, and from one another.

use crate::arith;
use crate::binary32;
use crate::binary32::F32;
use crate::number_laws;
use crate::rounding;
use crate::softmax::COLS;
use crate::softmax_laws;
use crate::sum_laws;
use crate::sum_laws::PARTS;
use vstd::prelude::*;

verus! {

/// Where one quotient lies, from its terms and from how close its divisor is.
proof fn lemma_element(n: int, d: int, top: int, x: int, s: int, y: int)
    requires
        n > 1,
        0 <= d < n,
        s > 0,
        x >= 0,
        top >= 0,
        y >= 0,
        n * (top - y * s) <= top + n * s,
        n * (y * s - top) <= top + n * s,
        (n - d) * x <= n * s,
        (n - d) * s <= n * x,
    ensures
        ((n - d) * x) * (y - 1) <= (n + 1) * top,
        ((n - d) * (n - 1)) * top <= ((n * n) * x) * (y + 1),
{
    let k: int = n - d;
    if y <= 1 {
        assert((k * x) * (y - 1) <= 0) by (nonlinear_arith)
            requires
                k >= 0,
                x >= 0,
                y <= 1,
        ;
        assert((n + 1) * top >= 0) by (nonlinear_arith)
            requires
                n > 0,
                top >= 0,
        ;
    } else {
        assert((k * x) * (y - 1) <= (n * s) * (y - 1)) by (nonlinear_arith)
            requires
                k * x <= n * s,
                y > 1,
        ;
        assert((n * s) * (y - 1) <= (n + 1) * top) by (nonlinear_arith)
            requires
                n * (y * s - top) <= top + n * s,
        ;
    }
    assert((n - 1) * top <= n * ((y + 1) * s)) by (nonlinear_arith)
        requires
            n * (top - y * s) <= top + n * s,
    ;
    assert(k * ((n - 1) * top) <= k * (n * ((y + 1) * s))) by (nonlinear_arith)
        requires
            (n - 1) * top <= n * ((y + 1) * s),
            k >= 0,
    ;
    assert(k * (n * ((y + 1) * s)) == (n * (y + 1)) * (k * s)) by (nonlinear_arith);
    assert((n * (y + 1)) * (k * s) <= (n * (y + 1)) * (n * x)) by (nonlinear_arith)
        requires
            k * s <= n * x,
            n > 0,
            y >= 0,
    ;
    assert((n * (y + 1)) * (n * x) == ((n * n) * x) * (y + 1)) by (nonlinear_arith);
    assert(k * ((n - 1) * top) == (k * (n - 1)) * top) by (nonlinear_arith);
}

/// 2^96, less the roundings of two sums of `d1` and `d2` additions and of one division, and `k` parts.
pub open spec fn shrunk(d1: int, d2: int, k: int) -> int {
    ((PARTS - d1) * ((PARTS - d2) * (PARTS - 1))) * (PARTS - k)
}

/// 2^96, and the rounding of one division and `k` parts.
pub open spec fn stretched(k: int) -> int {
    ((PARTS * PARTS) * (PARTS + 1)) * (PARTS + k)
}

/// The numbers of additions that two sums of a row can take.
pub open spec fn known(d1: int, d2: int) -> bool {
    (d1 == 12 || d1 == 255) && (d2 == 12 || d2 == 255)
}

/// Where a quotient lies, from what stands for its exponential and its exact sum elsewhere.
pub proof fn lemma_elsewhere(
    d1: int,
    k: int,
    u: int,
    dv: int,
    ev: int,
    xd: int,
    xe: int,
    p: int,
    a: int,
)
    requires
        0 <= d1 <= 1000,
        0 <= k <= 30,
        u >= 0,
        ev >= 0,
        xe >= p > 0,
        0 <= a <= p,
        PARTS * dv <= (PARTS + k) * ev + PARTS * u,
        (PARTS - k) * ev <= PARTS * dv + PARTS * u,
        PARTS * xd <= (PARTS + k) * xe + 256 * (PARTS * u),
        (PARTS - k) * xe <= PARTS * xd + 256 * (PARTS * u),
        ((PARTS - d1) * xd) * (a - 1) <= (PARTS + 1) * (dv * p),
        ((PARTS - d1) * (PARTS - 1)) * (dv * p) <= ((PARTS * PARTS) * xd) * (a + 1),
    ensures
        (((PARTS - d1) * (PARTS - k)) * xe) * (a - (1 + 520 * u)) <= ((PARTS + 1) * (PARTS + k)) * (ev
            * p),
        (((PARTS - d1) * (PARTS - 1)) * (PARTS - k)) * (ev * p) <= (((PARTS * PARTS) * (PARTS + k))
            * xe) * (a + (1 + 520 * u)),
{
    let n: int = PARTS as int;
    lemma_elsewhere_above(n, d1, k, u, dv, ev, xd, xe, p, a);
    lemma_elsewhere_below(n, d1, k, u, dv, ev, xd, xe, p, a);
}

/// Products spread over a sum.
proof fn lemma_spread(c: int, a: int, b: int, h: int)
    ensures
        c * ((a + b) * h) == c * (a * h) + c * (b * h),
{
    assert((a + b) * h == a * h + b * h) by (nonlinear_arith);
    let x: int = a * h;
    let y: int = b * h;
    assert(c * (x + y) == c * x + c * y) by (nonlinear_arith);
}

proof fn lemma_elsewhere_above(
    n: int,
    d1: int,
    k: int,
    u: int,
    dv: int,
    ev: int,
    xd: int,
    xe: int,
    p: int,
    a: int,
)
    requires
        n == 0x100_0000,
        0 <= d1 <= 1000,
        0 <= k <= 30,
        u >= 0,
        ev >= 0,
        xe >= p > 0,
        0 <= a <= p,
        n * dv <= (n + k) * ev + n * u,
        (n - k) * xe <= n * xd + 256 * (n * u),
        ((n - d1) * xd) * (a - 1) <= (n + 1) * (dv * p),
    ensures
        (((n - d1) * (n - k)) * xe) * (a - (1 + 520 * u)) <= ((n + 1) * (n + k)) * (ev * p),
{
    let c: int = n - d1;
    let f: int = (c * (n - k)) * xe;
    let g: int = ((n + 1) * (n + k)) * (ev * p);
    assert(c * (n - k) >= 0x80_0000_0000_00) by (nonlinear_arith)
        requires
            n == 0x100_0000,
            c >= n - 1000,
            k <= 30,
    ;
    assert(f > 0 && g >= 0) by (nonlinear_arith)
        requires
            f == (c * (n - k)) * xe,
            g == ((n + 1) * (n + k)) * (ev * p),
            c * (n - k) > 0,
            xe > 0,
            ev >= 0,
            p > 0,
            n > 0,
            k >= 0,
    ;
    if a < 1 {
        assert(f * (a - (1 + 520 * u)) <= 0) by (nonlinear_arith)
            requires
                f > 0,
                a < 1,
                u >= 0,
        ;
    } else {
        let h: int = a - 1;
        assert(((n - k) * xe) * h <= (n * xd + 256 * (n * u)) * h) by (nonlinear_arith)
            requires
                (n - k) * xe <= n * xd + 256 * (n * u),
                h >= 0,
        ;
        assert(c * (((n - k) * xe) * h) <= c * ((n * xd + 256 * (n * u)) * h)) by (nonlinear_arith)
            requires
                ((n - k) * xe) * h <= (n * xd + 256 * (n * u)) * h,
                c >= 0,
        ;
        assert(c * (((n - k) * xe) * h) == f * h) by (nonlinear_arith)
            requires
                f == (c * (n - k)) * xe,
        ;
        lemma_spread(c, n * xd, 256 * (n * u), h);
        assert(c * ((n * xd) * h) == n * ((c * xd) * h)) by (nonlinear_arith);
        assert(c * ((256 * (n * u)) * h) == (256 * (c * n)) * (u * h)) by (nonlinear_arith);
        assert(n * ((c * xd) * h) <= n * ((n + 1) * (dv * p))) by (nonlinear_arith)
            requires
                (c * xd) * h <= (n + 1) * (dv * p),
                n > 0,
        ;
        assert(n * ((n + 1) * (dv * p)) == ((n + 1) * p) * (n * dv)) by (nonlinear_arith);
        assert(((n + 1) * p) * (n * dv) <= ((n + 1) * p) * ((n + k) * ev + n * u)) by (nonlinear_arith)
            requires
                n * dv <= (n + k) * ev + n * u,
                n > 0,
                p > 0,
        ;
        lemma_spread(n + 1, (n + k) * ev, n * u, p);
        assert(((n + 1) * p) * ((n + k) * ev + n * u) == (n + 1) * (((n + k) * ev + n * u) * p))
            by (nonlinear_arith);
        assert((n + 1) * (((n + k) * ev) * p) == g) by (nonlinear_arith)
            requires
                g == ((n + 1) * (n + k)) * (ev * p),
        ;
        assert((n + 1) * ((n * u) * p) == ((n + 1) * n) * (u * p)) by (nonlinear_arith);
        let z: int = u * xe;
        assert(0 <= u * h <= z && 0 <= u * p <= z) by (nonlinear_arith)
            requires
                z == u * xe,
                u >= 0,
                0 <= h <= xe,
                0 <= p <= xe,
        ;
        assert((256 * (c * n)) * (u * h) <= (256 * (n * n)) * z) by (nonlinear_arith)
            requires
                0 <= u * h <= z,
                0 <= c <= n,
        {
            assert(0 <= c * n <= n * n) by (nonlinear_arith)
                requires
                    0 <= c <= n,
            ;
            let e1: int = 256 * (c * n);
            let e2: int = 256 * (n * n);
            assert(e1 * (u * h) <= e2 * z) by (nonlinear_arith)
                requires
                    0 <= e1 <= e2,
                    0 <= u * h <= z,
            ;
        }
        assert(((n + 1) * n) * (u * p) <= (2 * (n * n)) * z) by (nonlinear_arith)
            requires
                0 <= u * p <= z,
                n == 0x100_0000,
        ;
        assert((258 * (n * n)) * z <= (c * (n - k)) * (520 * z)) by (nonlinear_arith)
            requires
                z >= 0,
                n == 0x100_0000,
                c * (n - k) >= 0x80_0000_0000_00,
        ;
        assert((c * (n - k)) * (520 * z) == f * (520 * u)) by (nonlinear_arith)
            requires
                z == u * xe,
                f == (c * (n - k)) * xe,
        ;
        assert((256 * (n * n)) * z + (2 * (n * n)) * z == (258 * (n * n)) * z) by (nonlinear_arith);
        assert(f * (a - (1 + 520 * u)) == f * h - f * (520 * u)) by (nonlinear_arith)
            requires
                h == a - 1,
        ;
    }
}

proof fn lemma_elsewhere_below(
    n: int,
    d1: int,
    k: int,
    u: int,
    dv: int,
    ev: int,
    xd: int,
    xe: int,
    p: int,
    a: int,
)
    requires
        n == 0x100_0000,
        0 <= d1 <= 1000,
        0 <= k <= 30,
        u >= 0,
        ev >= 0,
        xe >= p > 0,
        0 <= a <= p,
        (n - k) * ev <= n * dv + n * u,
        n * xd <= (n + k) * xe + 256 * (n * u),
        ((n - d1) * (n - 1)) * (dv * p) <= ((n * n) * xd) * (a + 1),
    ensures
        (((n - d1) * (n - 1)) * (n - k)) * (ev * p) <= (((n * n) * (n + k)) * xe) * (a + (1 + 520
            * u)),
{
    let c: int = (n - d1) * (n - 1);
    let q: int = n * n;
    let h: int = a + 1;
    assert(0 <= c <= q) by (nonlinear_arith)
        requires
            c == (n - d1) * (n - 1),
            q == n * n,
            n == 0x100_0000,
            0 <= d1 <= 1000,
    ;
    assert((c * p) * ((n - k) * ev) <= (c * p) * (n * dv + n * u)) by (nonlinear_arith)
        requires
            (n - k) * ev <= n * dv + n * u,
            c >= 0,
            p > 0,
    ;
    assert((c * p) * ((n - k) * ev) == (c * (n - k)) * (ev * p)) by (nonlinear_arith);
    lemma_spread(c, n * dv, n * u, p);
    assert((c * p) * (n * dv + n * u) == c * ((n * dv + n * u) * p)) by (nonlinear_arith);
    assert(c * ((n * dv) * p) == n * (c * (dv * p))) by (nonlinear_arith);
    assert(c * ((n * u) * p) == (c * n) * (u * p)) by (nonlinear_arith);
    assert(n * (c * (dv * p)) <= n * ((q * xd) * h)) by (nonlinear_arith)
        requires
            c * (dv * p) <= (q * xd) * h,
            n > 0,
    ;
    assert(n * ((q * xd) * h) == (q * h) * (n * xd)) by (nonlinear_arith);
    assert((q * h) * (n * xd) <= (q * h) * ((n + k) * xe + 256 * (n * u))) by (nonlinear_arith)
        requires
            n * xd <= (n + k) * xe + 256 * (n * u),
            q >= 0,
            h >= 0,
    ;
    let f: int = (q * (n + k)) * xe;
    lemma_spread(q, (n + k) * xe, 256 * (n * u), h);
    assert((q * h) * ((n + k) * xe + 256 * (n * u)) == q * (((n + k) * xe + 256 * (n * u)) * h))
        by (nonlinear_arith);
    assert(q * (((n + k) * xe) * h) == f * h) by (nonlinear_arith)
        requires
            f == (q * (n + k)) * xe,
    ;
    assert(q * ((256 * (n * u)) * h) == (256 * (q * n)) * (u * h)) by (nonlinear_arith);
    let z: int = u * xe;
    assert(0 <= u * h <= 2 * z && 0 <= u * p <= z) by (nonlinear_arith)
        requires
            z == u * xe,
            u >= 0,
            0 <= h <= 2 * xe,
            0 <= p <= xe,
    ;
    let b: int = q * n;
    assert(0 <= c * n <= b) by (nonlinear_arith)
        requires
            b == q * n,
            0 <= c <= q,
            n > 0,
    ;
    assert((256 * b) * (u * h) <= (512 * b) * z) by (nonlinear_arith)
        requires
            0 <= u * h <= 2 * z,
            b >= 0,
    ;
    assert((c * n) * (u * p) <= b * z) by (nonlinear_arith)
        requires
            0 <= u * p <= z,
            0 <= c * n <= b,
    ;
    assert((513 * b) * z <= (q * (n + k)) * (520 * z)) by (nonlinear_arith)
        requires
            b == q * n,
            q >= 0,
            k >= 0,
            n > 0,
            z >= 0,
    {
        assert(q * (n + k) >= b) by (nonlinear_arith)
            requires
                b == q * n,
                q >= 0,
                k >= 0,
        ;
        let y: int = q * (n + k);
        assert((513 * b) * z <= y * (520 * z)) by (nonlinear_arith)
            requires
                0 <= b <= y,
                z >= 0,
        ;
    }
    assert((q * (n + k)) * (520 * z) == f * (520 * u)) by (nonlinear_arith)
        requires
            z == u * xe,
            f == (q * (n + k)) * xe,
    ;
    assert((512 * b) * z + b * z == (513 * b) * z) by (nonlinear_arith);
    assert(f * (a + (1 + 520 * u)) == f * h + f * (520 * u)) by (nonlinear_arith)
        requires
            h == a + 1,
    ;
}

/// Two quotients of the same number, by two sums that are close to the same exact sum.
pub proof fn lemma_apart(d1: int, d2: int, k: int, w: int, top: int, x: int, a: int, b: int)
    requires
        0 <= d1 <= 1000,
        0 <= d2 <= 1000,
        0 <= k <= 30,
        x > 0,
        (((PARTS - d1) * (PARTS - k)) * x) * (a - w) <= ((PARTS + 1) * (PARTS + k)) * top,
        (((PARTS - d1) * (PARTS - 1)) * (PARTS - k)) * top <= (((PARTS * PARTS) * (PARTS + k)) * x)
            * (a + w),
        ((PARTS - d2) * x) * (b - 1) <= (PARTS + 1) * top,
        ((PARTS - d2) * (PARTS - 1)) * top <= ((PARTS * PARTS) * x) * (b + 1),
    ensures
        shrunk(d1, d2, k) * (a - w) <= stretched(k) * (b + 1),
        shrunk(d1, d2, k) * (b - 1) <= stretched(k) * (a + w),
{
    let n: int = PARTS as int;
    let g: int = shrunk(d1, d2, k);
    let f: int = stretched(k);
    let c: int = (n - d2) * (n - 1);
    assert(c >= 0) by (nonlinear_arith)
        requires
            n == 0x100_0000,
            d2 <= 1000,
            c == (n - d2) * (n - 1),
    ;
    let m: int = (n + 1) * (n + k);
    assert(m >= 0) by (nonlinear_arith)
        requires
            n > 0,
            k >= 0,
            m == (n + 1) * (n + k),
    ;
    assert(c * ((((n - d1) * (n - k)) * x) * (a - w)) <= c * (m * top)) by (nonlinear_arith)
        requires
            (((n - d1) * (n - k)) * x) * (a - w) <= m * top,
            c >= 0,
    ;
    assert(c * ((((n - d1) * (n - k)) * x) * (a - w)) == (g * (a - w)) * x) by (nonlinear_arith)
        requires
            g == ((n - d1) * c) * (n - k),
    ;
    assert(c * (m * top) == m * (c * top)) by (nonlinear_arith);
    assert(m * (c * top) <= m * (((n * n) * x) * (b + 1))) by (nonlinear_arith)
        requires
            c * top <= ((n * n) * x) * (b + 1),
            m >= 0,
    ;
    assert(m * (((n * n) * x) * (b + 1)) == (f * (b + 1)) * x) by (nonlinear_arith)
        requires
            m == (n + 1) * (n + k),
            f == ((n * n) * (n + 1)) * (n + k),
    ;
    assert(g * (a - w) <= f * (b + 1)) by (nonlinear_arith)
        requires
            (g * (a - w)) * x <= (f * (b + 1)) * x,
            x > 0,
    ;
    let e: int = ((n - d1) * (n - 1)) * (n - k);
    assert(e >= 0) by (nonlinear_arith)
        requires
            n == 0x100_0000,
            d1 <= 1000,
            k <= 30,
            e == ((n - d1) * (n - 1)) * (n - k),
    ;
    assert(e * (((n - d2) * x) * (b - 1)) <= e * ((n + 1) * top)) by (nonlinear_arith)
        requires
            ((n - d2) * x) * (b - 1) <= (n + 1) * top,
            e >= 0,
    ;
    assert(e * (((n - d2) * x) * (b - 1)) == (g * (b - 1)) * x) by (nonlinear_arith)
        requires
            g == ((n - d1) * ((n - d2) * (n - 1))) * (n - k),
            e == ((n - d1) * (n - 1)) * (n - k),
    ;
    assert(e * ((n + 1) * top) == (n + 1) * (e * top)) by (nonlinear_arith);
    assert((n + 1) * (e * top) <= (n + 1) * ((((n * n) * (n + k)) * x) * (a + w))) by (nonlinear_arith)
        requires
            e * top <= (((n * n) * (n + k)) * x) * (a + w),
            n > 0,
    ;
    assert((n + 1) * ((((n * n) * (n + k)) * x) * (a + w)) == (f * (a + w)) * x) by (nonlinear_arith)
        requires
            f == ((n * n) * (n + 1)) * (n + k),
    ;
    assert(g * (b - 1) <= f * (a + w)) by (nonlinear_arith)
        requires
            (g * (b - 1)) * x <= (f * (a + w)) * x,
            x > 0,
    ;
}

/// How much [`stretched`] exceeds [`shrunk`], in hundredths of a part.
proof fn lemma_stretch(d1: int, d2: int, k: int)
    requires
        known(d1, d2),
        0 <= k <= 30,
    ensures
        shrunk(d1, d2, k) > 0,
        (100 * PARTS) * stretched(k) <= shrunk(d1, d2, k) * (100 * PARTS + 100 * (d1 + d2) + 250 + 200
            * k),
{
    let n: int = PARTS as int;
    let g: int = (n - d1) * ((n - d2) * (n - 1));
    let f: int = (n * n) * (n + 1);
    let t: int = 100 * n + 100 * (d1 + d2) + 250;
    assert(f == 0x100_0001_0000_0000_0000 && g == if d1 == 12 && d2 == 12 {
        0xff_ffe7_0000_a7ff_ff70
    } else if d1 == 255 && d2 == 255 {
        0xff_fe01_00ff_feff_01ffint
    } else {
        0xff_fef4_000c_feff_f40c
    }) by (nonlinear_arith)
        requires
            n == 0x100_0000,
            (d1 == 12 || d1 == 255) && (d2 == 12 || d2 == 255),
            g == (n - d1) * ((n - d2) * (n - 1)),
            f == (n * n) * (n + 1),
    ;
    assert(g * (n - k) > 0) by (nonlinear_arith)
        requires
            g > 0,
            n == 0x100_0000,
            k <= 30,
    ;
    // In powers of `k`.
    let y: int = k * k;
    assert(0 <= y <= 30 * k) by (nonlinear_arith)
        requires
            y == k * k,
            0 <= k <= 30,
    ;
    assert((100 * n) * (f * (n + k)) == ((100 * n) * f) * n + ((100 * n) * f) * k)
        by (nonlinear_arith);
    assert((g * (n - k)) * (t + 200 * k) == (g * t) * n + (200 * (g * n)) * k - (g * t) * k - (200
        * g) * y) by (nonlinear_arith)
        requires
            y == k * k,
    ;
    if d1 == 12 && d2 == 12 {
        assert(((100 * n) * f) * n + ((100 * n) * f) * k <= (g * t) * n + (200 * (g * n)) * k - (g * t)
            * k - (200 * g) * y) by (nonlinear_arith)
            requires
                n == 0x100_0000,
                f == 0x100_0001_0000_0000_0000,
                g == 0xff_ffe7_0000_a7ff_ff70,
                t == 1_677_724_250,
                0 <= y <= 30 * k,
                0 <= k <= 30,
        ;
    } else if d1 == 255 && d2 == 255 {
        assert(((100 * n) * f) * n + ((100 * n) * f) * k <= (g * t) * n + (200 * (g * n)) * k - (g * t)
            * k - (200 * g) * y) by (nonlinear_arith)
            requires
                n == 0x100_0000,
                f == 0x100_0001_0000_0000_0000,
                g == 0xff_fe01_00ff_feff_01ff,
                t == 1_677_772_850,
                0 <= y <= 30 * k,
                0 <= k <= 30,
        ;
    } else {
        assert(((100 * n) * f) * n + ((100 * n) * f) * k <= (g * t) * n + (200 * (g * n)) * k - (g * t)
            * k - (200 * g) * y) by (nonlinear_arith)
            requires
                n == 0x100_0000,
                f == 0x100_0001_0000_0000_0000,
                g == 0xff_fef4_000c_feff_f40c,
                t == 1_677_748_550,
                0 <= y <= 30 * k,
                0 <= k <= 30,
        ;
    }
}

/// What the two bounds of [`lemma_apart`] come to, in parts of the second quotient.
pub proof fn lemma_parts(d1: int, d2: int, k: int, w: int, a: int, b: int)
    requires
        known(d1, d2),
        0 <= k <= 30,
        w >= 1,
        a >= 0,
        b >= 0,
        shrunk(d1, d2, k) * (a - w) <= stretched(k) * (b + 1),
        shrunk(d1, d2, k) * (b - 1) <= stretched(k) * (a + w),
    ensures
        PARTS * (a - b) <= (d1 + d2 + 3 + 2 * k) * b + PARTS * (w + 1),
        PARTS * (b - a) <= (d1 + d2 + 3 + 2 * k) * b + PARTS * (w + 1),
{
    let n: int = PARTS as int;
    let g: int = shrunk(d1, d2, k);
    let f: int = stretched(k);
    let t: int = 100 * (d1 + d2) + 250 + 200 * k;
    lemma_stretch(d1, d2, k);
    lemma_cancel(g, f, 100 * n, t, a - w, b + 1);
    lemma_cancel(g, f, 100 * n, t, b - 1, a + w);
    assert((d1 + d2 + 3 + 2 * k) * b == (d1 + d2 + 2 * k) * b + 3 * b) by (nonlinear_arith);
    let s: int = (d1 + d2 + 2 * k) * b;
    assert(100 * s + 250 * b == t * b) by (nonlinear_arith)
        requires
            s == (d1 + d2 + 2 * k) * b,
            t == 100 * (d1 + d2) + 250 + 200 * k,
    ;
    assert(s >= 0) by (nonlinear_arith)
        requires
            s == (d1 + d2 + 2 * k) * b,
            d1 + d2 + 2 * k >= 0,
            b >= 0,
    ;
    assert(t * (b + 1) == t * b + t) by (nonlinear_arith);
    if b < 2000 {
        assert(t * (b + 1) <= 60_000 * 2000) by (nonlinear_arith)
            requires
                0 <= t <= 60_000,
                0 <= b < 2000,
        ;
        assert(a - b <= w + 1);
    }
    if b > a + w + 1 {
        assert(t * (a + w) <= t * b) by (nonlinear_arith)
            requires
                t >= 0,
                a + w <= b,
        ;
    }
}

proof fn lemma_cancel(g: int, f: int, n: int, t: int, a: int, b: int)
    requires
        g > 0,
        n > 0,
        b >= 0,
        g * a <= f * b,
        n * f <= g * (n + t),
    ensures
        n * a <= n * b + t * b,
{
    assert(g * (n * a) <= g * ((n + t) * b)) by (nonlinear_arith)
        requires
            g * a <= f * b,
            n * f <= g * (n + t),
            n > 0,
            b >= 0,
    {
        assert(n * (g * a) <= n * (f * b)) by (nonlinear_arith)
            requires
                g * a <= f * b,
                n > 0,
        ;
        assert((n * f) * b <= (g * (n + t)) * b) by (nonlinear_arith)
            requires
                n * f <= g * (n + t),
                b >= 0,
        ;
        assert(n * (g * a) == g * (n * a)) by (nonlinear_arith);
        assert(n * (f * b) == (n * f) * b) by (nonlinear_arith);
        assert((g * (n + t)) * b == g * ((n + t) * b)) by (nonlinear_arith);
    }
    assert(n * a <= (n + t) * b) by (nonlinear_arith)
        requires
            g * (n * a) <= g * ((n + t) * b),
            g > 0,
    ;
    assert((n + t) * b == n * b + t * b) by (nonlinear_arith);
}

/// The exponentials and their sum as the laws need them: between zero and one, one of them one, the
/// sum no less than any and off by `d` roundings.
pub open spec fn sound(e: Seq<F32>, s: F32, d: int) -> bool {
    &&& e.len() == COLS
    &&& softmax_laws::all_count(e)
    &&& forall|c: int| 0 <= c < e.len() ==> (#[trigger] e[c]).rank() <= binary32::ONE
    &&& e.contains(F32 { bits: binary32::ONE })
    &&& softmax_laws::covers(s, e)
    &&& sum_laws::close(s, sum_laws::exact(e), d)
}

/// Where a quotient of the row lies.
pub proof fn lemma_quotient_place(e: Seq<F32>, s: F32, d: int, c: int)
    requires
        sound(e, s, d),
        0 <= d <= 1000,
        0 <= c < e.len(),
    ensures
        ({
            let q = arith::quotient(e[c], s);
            let x = sum_laws::exact(e);
            let top = e[c].value() * sum_laws::one();
            &&& sum_laws::plain(q)
            &&& 0 <= top <= x * sum_laws::one()
            &&& x > 0
            &&& ((PARTS - d) * x) * (q.value() - 1) <= (PARTS + 1) * top
            &&& ((PARTS - d) * (PARTS - 1)) * top <= ((PARTS * PARTS) * x) * (q.value() + 1)
        }),
{
    let n: int = PARTS as int;
    let q = arith::quotient(e[c], s);
    let x: int = sum_laws::exact(e);
    let p: int = sum_laws::one();
    let top: int = e[c].value() * p;
    let sv: int = s.value();
    let at = choose|i: int| 0 <= i < e.len() && e[i] == (F32 { bits: binary32::ONE });
    assert(e[at].rank() <= s.rank());
    assert forall|i: int| 0 <= i < e.len() implies sum_laws::plain(#[trigger] e[i]) by {
        assert(softmax_laws::counts(e[i]) && e[i].rank() <= binary32::ONE);
    }
    sum_laws::lemma_values_plain(e);
    let v = sum_laws::values(e);
    sum_laws::lemma_term_below(v, at, e.len());
    sum_laws::lemma_term_below(v, c, e.len());
    sum_laws::lemma_large();
    assert(v[at] == p);
    assert(v[c] >= 0);
    rounding::lemma_units_increase(0, s.magnitude());
    assert(0 <= top <= x * p) by (nonlinear_arith)
        requires
            top == e[c].value() * p,
            0 <= e[c].value() <= x,
            p > 0,
    ;
    assert(sum_laws::plain(e[c]) && e[c].rank() <= s.rank());
    softmax_laws::law_quotient_is_fraction(e[c], s);
    rounding::lemma_units_increase(0, q.magnitude());
    number_laws::law_nearest(top as nat, sv as nat);
    assert(q.magnitude() == binary32::nearest(top as nat, sv as nat));
    sum_laws::law_rounding_error(top as nat, sv as nat, q.magnitude());
    lemma_element(n, d, top, x, sv, q.value());
}

/// The exact sum of a row with a one in it is at least one.
pub proof fn lemma_exact_one(e: Seq<F32>, s: F32, d: int)
    requires
        sound(e, s, d),
    ensures
        sum_laws::exact(e) >= sum_laws::one(),
{
    let at = choose|i: int| 0 <= i < e.len() && e[i] == (F32 { bits: binary32::ONE });
    assert forall|i: int| 0 <= i < e.len() implies sum_laws::plain(#[trigger] e[i]) by {
        assert(softmax_laws::counts(e[i]) && e[i].rank() <= binary32::ONE);
    }
    sum_laws::lemma_values_plain(e);
    sum_laws::lemma_term_below(sum_laws::values(e), at, e.len());
    sum_laws::lemma_large();
    assert(sum_laws::values(e)[at] == sum_laws::one());
}

/// A quotient of the row is at most one.
pub proof fn lemma_fraction(e: Seq<F32>, s: F32, d: int, c: int)
    requires
        sound(e, s, d),
        0 <= c < e.len(),
    ensures
        arith::quotient(e[c], s).value() <= sum_laws::one(),
{
    let q = arith::quotient(e[c], s);
    let at = choose|i: int| 0 <= i < e.len() && e[i] == (F32 { bits: binary32::ONE });
    assert(e[at].rank() <= s.rank());
    assert(softmax_laws::counts(e[c]) && e[c].rank() <= binary32::ONE && e[c].rank() <= s.rank());
    softmax_laws::law_quotient_is_fraction(e[c], s);
    sum_laws::lemma_large();
    rounding::lemma_units_increase(0, q.magnitude());
    if !q.negative() {
        rounding::lemma_units_increase(q.magnitude(), binary32::ONE as nat);
    }
}

} // verus!
