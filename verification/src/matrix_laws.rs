//! What the kernels and the reference make of the two matrices: results that pass the tests.

use crate::agreement_laws;
use crate::arith;
use crate::binary32;
use crate::binary32::F32;
use crate::binary32::ZERO;
use crate::check_laws;
use crate::fold;
use crate::input;
use crate::input_laws;
use crate::max_laws;
use crate::number_laws;
use crate::pairs::Layout;
use crate::quotient_laws;
use crate::reduction_laws;
use crate::reference;
use crate::report;
use crate::rounding;
use crate::simt;
use crate::softmax;
use crate::softmax::COLS;
use crate::softmax::ROWS;
use crate::softmax_laws;
use crate::sum_laws;
use crate::sum_laws::PARTS;
use vstd::arithmetic::power2::*;
use vstd::prelude::*;

verus! {

/// What else the laws need of the exponential: between -16 and zero it lies above its tangents,
/// `exp(a) >= exp(b) * (1 + a - b)` for `a` within one of `b`, to 2^-20.
pub open spec fn steep<E: Fn(F32) -> F32>(exp: E) -> bool {
    forall|a: F32, b: F32, r: F32, q: F32| #[trigger]
        exp.ensures((a,), r) && #[trigger] exp.ensures((b,), q) && a.finite() && b.finite() && -16
            * sum_laws::one() <= a.value() <= 0 && -16 * sum_laws::one() <= b.value() <= 0
            && -sum_laws::one() <= a.value() - b.value() <= sum_laws::one() ==> {
            let p = sum_laws::one();
            0x10_0000 * (r.value() * p) >= q.value() * (0x10_0000 * (p + a.value() - b.value()) - p)
        }
}

/// What the exponential is asked in a gentle row: the distance to the maximum, as it is rounded.
proof fn lemma_gentle_argument(row: Seq<F32>, m: F32, h: int, c: int)
    requires
        input_laws::gentle(row),
        max_laws::is_maximum(m, row),
        0 <= h < row.len(),
        row[h] == m,
        0 <= c < row.len(),
    ensures
        ({
            let a = softmax::shifted(row, m)[c];
            let p = sum_laws::one();
            let v = row[c].value() - m.value();
            &&& a.finite()
            &&& -13 * p <= v <= 0
            &&& a.value() <= 0
            &&& PARTS * (a.value() - v) <= -v
            &&& PARTS * (v - a.value()) <= -v
        }),
{
    let p: int = sum_laws::one();
    let o = binary32::opposite(m);
    let k: int = input_laws::apart(c, h);
    input_laws::lemma_huge();
    assert(row[h].finite() && row[c].finite());
    assert(o.magnitude() == m.magnitude() && o.negative() != m.negative());
    assert(row[c].rank() <= m.rank());
    number_laws::law_rank_is_order(row[c], m);
    number_laws::law_rank_is_order(m, row[c]);
    assert(1_000_000 * (row[h].value() - row[c].value()) <= 50_002 * (input_laws::apart(h, c) * p));
    assert(0 <= k * p <= 255 * p) by (nonlinear_arith)
        requires
            0 <= k <= 255,
            p > 0,
    ;
    input_laws::lemma_sum_error(row[c], o);
}

/// From one column of a gentle row to the next, the exponential keeps at least 0.94999 of itself.
proof fn lemma_next_column<E: Fn(F32) -> F32>(
    exp: E,
    row: Seq<F32>,
    m: F32,
    e: Seq<F32>,
    c: int,
    d: int,
)
    requires
        softmax_laws::exponential(exp),
        steep(exp),
        input_laws::gentle(row),
        max_laws::is_maximum(m, row),
        softmax::answers(exp, softmax::shifted(row, m), e),
        0 <= c < row.len(),
        0 <= d < row.len(),
        input_laws::apart(c, d) == 1,
        e[d].value() >= 0,
    ensures
        100_000 * e[c].value() >= 94_999 * e[d].value(),
{
    let p: int = sum_laws::one();
    let args = softmax::shifted(row, m);
    let h = choose|i: int| 0 <= i < row.len() && row[i] == m;
    lemma_gentle_argument(row, m, h, c);
    lemma_gentle_argument(row, m, h, d);
    assert(1_000_000 * (row[d].value() - row[c].value()) <= 50_002 * (input_laws::apart(d, c) * p));
    assert(1_000_000 * (row[c].value() - row[d].value()) <= 50_002 * (input_laws::apart(c, d) * p));
    assert(1 * p == p);
    lemma_pow2_strictly_increases(64, 149);
    lemma2_to64();
    let a: int = args[c].value();
    let b: int = args[d].value();
    assert(exp.ensures((args[c],), e[c]));
    assert(exp.ensures((args[d],), e[d]));
    let r: int = e[c].value();
    let q: int = e[d].value();
    let t: int = 0x10_0000 * (p + a - b) - p;
    assert(100_000 * t >= 94_999 * (0x10_0000 * p));
    assert(0x10_0000 * (r * p) >= q * t);
    assert(100_000 * r >= 94_999 * q) by (nonlinear_arith)
        requires
            100_000 * t >= 94_999 * (0x10_0000 * p),
            0x10_0000 * (r * p) >= q * t,
            q >= 0,
            p > 0,
    {
        assert(q * (100_000 * t) >= q * (94_999 * (0x10_0000 * p))) by (nonlinear_arith)
            requires
                100_000 * t >= 94_999 * (0x10_0000 * p),
                q >= 0,
        ;
        assert((100_000 * r) * (0x10_0000 * p) >= (94_999 * q) * (0x10_0000 * p)) by (nonlinear_arith)
            requires
                q * (100_000 * t) >= q * (94_999 * (0x10_0000 * p)),
                0x10_0000 * (r * p) >= q * t,
        ;
        let g: int = 0x10_0000 * p;
        assert(100_000 * r >= 94_999 * q) by (nonlinear_arith)
            requires
                (100_000 * r) * g >= (94_999 * q) * g,
                g > 0,
        ;
    }
}

/// A million times what `n` numbers add up to at least, when the first is one and each next one keeps
/// 0.94999 of the one before.
spec fn level(n: nat) -> int
    decreases n,
{
    if n == 0 {
        0
    } else {
        1_000_000 + level((n - 1) as nat) * 94_999 / 100_000
    }
}

/// How much is missing from what endlessly many would add up to.
spec fn rest(n: nat) -> int {
    19_996_000 - level(n)
}

proof fn lemma_rest(n: nat)
    ensures
        rest(n) >= 0,
        100_000 * rest(n + 1) <= 94_999 * rest(n) + 100_000,
    decreases n,
{
    if n > 0 {
        lemma_rest((n - 1) as nat);
        let k: int = level((n - 1) as nat);
        assert(level(n) == 1_000_000 + k * 94_999 / 100_000);
    }
    let l: int = level(n);
    assert(level(n + 1) == 1_000_000 + l * 94_999 / 100_000);
}

/// Fourteen more halve what is missing.
proof fn lemma_fourteen(n: nat)
    ensures
        2 * rest(n + 14) <= rest(n) + 60,
{
    lemma_rest(n + 0);
    lemma_rest(n + 1);
    lemma_rest(n + 2);
    lemma_rest(n + 3);
    lemma_rest(n + 4);
    lemma_rest(n + 5);
    lemma_rest(n + 6);
    lemma_rest(n + 7);
    lemma_rest(n + 8);
    lemma_rest(n + 9);
    lemma_rest(n + 10);
    lemma_rest(n + 11);
    lemma_rest(n + 12);
    lemma_rest(n + 13);
}

proof fn lemma_level()
    ensures
        level(126) >= 19_950_000,
{
    lemma_fourteen(0);
    lemma_fourteen(14);
    lemma_fourteen(28);
    lemma_fourteen(42);
    lemma_fourteen(56);
    lemma_fourteen(70);
    lemma_fourteen(84);
    lemma_fourteen(98);
    lemma_fourteen(112);
}

/// The numbers from place `c` on, upwards or downwards, add up to the level at least.
proof fn lemma_run(x: Seq<int>, up: bool, c: int, n: nat)
    requires
        forall|i: int| 0 <= i < x.len() ==> #[trigger] x[i] >= 0,
        forall|i: int, j: int|
            0 <= i < x.len() && 0 <= j < x.len() && input_laws::apart(i, j) == 1 ==> 100_000
                * #[trigger] x[i] >= 94_999 * #[trigger] x[j],
        0 <= c < x.len(),
        if up {
            c + n <= x.len()
        } else {
            n <= c + 1
        },
    ensures
        ({
            let s = if up {
                sum_laws::added(x, (c + n) as nat) - sum_laws::added(x, c as nat)
            } else {
                sum_laws::added(x, (c + 1) as nat) - sum_laws::added(x, (c + 1 - n) as nat)
            };
            1_000_000 * s >= level(n) * x[c]
        }),
        level(n) >= 0,
    decreases n,
{
    if n == 0 {
        assert(0 * x[c] == 0);
    } else if n == 1 {
        assert(level(1) == 1_000_000) by {
            reveal_with_fuel(level, 2);
        }
        assert(sum_laws::added(x, (c + 1) as nat) == sum_laws::added(x, c as nat) + x[c]);
    } else {
        let k: nat = (n - 1) as nat;
        let d: int = if up { c + 1 } else { c - 1 };
        lemma_run(x, up, d, k);
        assert(sum_laws::added(x, (c + 1) as nat) == sum_laws::added(x, c as nat) + x[c]);
        let l: int = level(k);
        let f: int = l * 94_999 / 100_000;
        assert(input_laws::apart(d, c) == 1 && 100_000 * x[d] >= 94_999 * x[c]);
        assert(x[c] >= 0);
        assert(l * x[d] >= f * x[c]) by (nonlinear_arith)
            requires
                100_000 * x[d] >= 94_999 * x[c],
                x[c] >= 0,
                l >= 0,
                f * 100_000 <= l * 94_999,
        {
            assert(l * (100_000 * x[d]) >= l * (94_999 * x[c])) by (nonlinear_arith)
                requires
                    100_000 * x[d] >= 94_999 * x[c],
                    l >= 0,
            ;
            assert((f * 100_000) * x[c] <= (l * 94_999) * x[c]) by (nonlinear_arith)
                requires
                    f * 100_000 <= l * 94_999,
                    x[c] >= 0,
            ;
            assert(l * (100_000 * x[d]) == 100_000 * (l * x[d])) by (nonlinear_arith);
            assert((f * 100_000) * x[c] == 100_000 * (f * x[c])) by (nonlinear_arith);
            assert(l * (94_999 * x[c]) == (l * 94_999) * x[c]) by (nonlinear_arith);
        }
        assert((1_000_000 + f) * x[c] == 1_000_000 * x[c] + f * x[c]) by (nonlinear_arith);
    }
}

/// On a gentle row the exponentials add up to at least 19.95: enough of them lie next to the largest.
pub proof fn law_gentle_sum<E: Fn(F32) -> F32>(exp: E, row: Seq<F32>, m: F32, e: Seq<F32>)
    requires
        softmax_laws::exponential(exp),
        steep(exp),
        input_laws::gentle(row),
        max_laws::is_maximum(m, row),
        softmax::answers(exp, softmax::shifted(row, m), e),
    ensures
        100 * sum_laws::exact(e) >= 1995 * sum_laws::one(),
{
    lemma_gentle_proper(row);
    softmax_laws::law_exponentials(exp, row, m, e);
    let h = choose|c: int| 0 <= c < row.len() && row[c] == m;
    let x = sum_laws::values(e);
    let p: int = sum_laws::one();
    sum_laws::lemma_values_plain(e);
    sum_laws::lemma_large();
    assert forall|i: int, j: int|
        0 <= i < x.len() && 0 <= j < x.len() && input_laws::apart(i, j) == 1 implies 100_000
        * #[trigger] x[i] >= 94_999 * #[trigger] x[j] by {
        assert(x[j] >= 0);
        lemma_next_column(exp, row, m, e, i, j);
    }
    max_laws::law_difference_not_positive(row[h], m);
    assert(exp.ensures((softmax::shifted(row, m)[h],), e[h]));
    assert(x[h] == p);
    let up = h < 128;
    lemma_run(x, up, h, 126);
    lemma_level();
    sum_laws::lemma_added_grows(x, (h + 1) as nat, COLS as nat);
    if up {
        sum_laws::lemma_added_grows(x, h as nat, COLS as nat);
        sum_laws::lemma_added_grows(x, (h + 126) as nat, COLS as nat);
    } else {
        sum_laws::lemma_added_grows(x, (h + 1 - 126) as nat, COLS as nat);
    }
    assert(level(126) * p >= 19_950_000 * p) by (nonlinear_arith)
        requires
            level(126) >= 19_950_000,
            p > 0,
    ;
}

/// A gentle row has a softmax.
pub proof fn lemma_gentle_proper(row: Seq<F32>)
    requires
        input_laws::gentle(row),
    ensures
        softmax_laws::proper(row),
{
    assert(row[0].finite());
    assert forall|c: int| 0 <= c < row.len() implies !(#[trigger] row[c]).nan() by {
        assert(row[c].finite());
    }
}

/// Where the exponentials add up to at least 19.95, no quotient by the reference's sum exceeds 0.0502.
proof fn lemma_small(e: Seq<F32>, s: F32, c: int)
    requires
        quotient_laws::sound(e, s, 255),
        100 * sum_laws::exact(e) >= 1995 * sum_laws::one(),
        0 <= c < e.len(),
    ensures
        10_000 * arith::quotient(e[c], s).value() <= 502 * sum_laws::one(),
{
    let n: int = PARTS as int;
    let p: int = sum_laws::one();
    let q: int = arith::quotient(e[c], s).value();
    let x: int = sum_laws::exact(e);
    let ev: int = e[c].value();
    let top: int = ev * p;
    quotient_laws::lemma_quotient_place(e, s, 255, c);
    lemma_pow2_strictly_increases(64, 149);
    lemma2_to64();
    sum_laws::lemma_large();
    assert(e[c].rank() <= binary32::ONE && softmax_laws::counts(e[c]));
    rounding::lemma_units_increase(0, e[c].magnitude());
    if !e[c].negative() {
        rounding::lemma_units_increase(e[c].magnitude(), binary32::ONE as nat);
    }
    if q > 1 {
        assert((n - 255) * (1995 * (q - 1)) <= (n + 1) * (100 * p)) by (nonlinear_arith)
            requires
                ((n - 255) * x) * (q - 1) <= (n + 1) * top,
                top == ev * p,
                ev <= p,
                100 * x >= 1995 * p,
                q > 1,
                n > 255,
                p > 0,
        {
            let k: int = (n - 255) * (q - 1);
            assert(k >= 0) by (nonlinear_arith)
                requires
                    k == (n - 255) * (q - 1),
                    n > 255,
                    q > 1,
            ;
            assert(((n - 255) * x) * (q - 1) == k * x) by (nonlinear_arith)
                requires
                    k == (n - 255) * (q - 1),
            ;
            assert(k * (1995 * p) <= k * (100 * x)) by (nonlinear_arith)
                requires
                    k >= 0,
                    1995 * p <= 100 * x,
            ;
            assert((n + 1) * top <= (n + 1) * (p * p)) by (nonlinear_arith)
                requires
                    top == ev * p,
                    ev <= p,
                    p > 0,
                    n > 255,
            ;
            assert((1995 * k) * p <= ((n + 1) * (100 * p)) * p) by (nonlinear_arith)
                requires
                    k * (1995 * p) <= k * (100 * x),
                    k * x <= (n + 1) * (p * p),
            ;
            assert(1995 * k <= (n + 1) * (100 * p)) by (nonlinear_arith)
                requires
                    (1995 * k) * p <= ((n + 1) * (100 * p)) * p,
                    p > 0,
            ;
            assert((n - 255) * (1995 * (q - 1)) == 1995 * k) by (nonlinear_arith)
                requires
                    k == (n - 255) * (q - 1),
            ;
        }
    }
}

/// In the reference, no element of a gentle row exceeds 0.0502.
pub proof fn law_gentle_elements<E: Fn(F32) -> F32>(
    exp: E,
    x: Seq<F32>,
    expected: Seq<F32>,
    rows: int,
    r: int,
    c: int,
)
    requires
        softmax_laws::exponential(exp),
        steep(exp),
        rows * COLS <= expected.len(),
        softmax::rows_done(
            exp,
            x,
            |row: Seq<F32>| reference::row_max(row),
            |e: Seq<F32>| reference::row_sum(e),
            expected,
            rows,
        ),
        0 <= r < rows,
        0 <= c < COLS,
        input_laws::gentle(softmax::row_of(x, r)),
    ensures
        10_000 * softmax::row_of(expected, r)[c].value() <= 502 * sum_laws::one(),
{
    let row = softmax::row_of(x, r);
    let m = reference::row_max(row);
    let sum = |e: Seq<F32>| reference::row_sum(e);
    lemma_gentle_proper(row);
    max_laws::law_row_max(row, Layout::Strided);
    assert(softmax::row_done(exp, row, m, sum, expected, r * COLS));
    let e = softmax_laws::lemma_row_written(exp, row, m, sum, expected, r);
    softmax_laws::law_exponentials(exp, row, m, e);
    softmax_laws::law_row_sum_covers(e, Layout::Strided);
    sum_laws::law_reference_sum(e);
    law_gentle_sum(exp, row, m, e);
    lemma_small(e, reference::row_sum(e), c);
}

/// What the laws on sums need of the exponential: between -16 and zero, it is by half larger where
/// its argument is larger by one.
pub open spec fn growing<E: Fn(F32) -> F32>(exp: E) -> bool {
    forall|a: F32, b: F32, r: F32, q: F32| #[trigger]
        exp.ensures((a,), r) && #[trigger] exp.ensures((b,), q) && a.finite() && b.finite() && -16
            * sum_laws::one() <= a.value() && b.value() <= 0 && a.value() + sum_laws::one()
            <= b.value() ==> 3 * r.value() <= 2 * q.value()
}

/// The first `n` terms against the `n` terms half a row further on.
proof fn lemma_halves(x: Seq<int>, n: nat)
    requires
        x.len() == COLS,
        n <= 128,
        forall|c: int| 0 <= c < 128 ==> 3 * #[trigger] x[c] <= 2 * x[c + 128],
    ensures
        3 * sum_laws::added(x, n) <= 2 * (sum_laws::added(x, 128 + n) - sum_laws::added(x, 128)),
    decreases n,
{
    if n > 0 {
        lemma_halves(x, (n - 1) as nat);
        assert(3 * x[n - 1] <= 2 * x[n - 1 + 128]);
    }
}

/// The first half of the quotients, from that of the exponentials.
proof fn lemma_first_half(e: Seq<F32>, s: F32)
    requires
        quotient_laws::sound(e, s, 12),
        5 * sum_laws::added(sum_laws::values(e), 128) <= 2 * sum_laws::exact(e),
    ensures
        check_laws::light_at_first(softmax::scaled(e, s)),
{
    let n: int = PARTS as int;
    let p: int = sum_laws::one();
    let a: int = sum_laws::added(sum_laws::values(e), 128);
    let b: int = sum_laws::added(sum_laws::values(softmax::scaled(e, s)), 128);
    let x: int = sum_laws::exact(e);
    let sv: int = s.value();
    let at = choose|i: int| 0 <= i < e.len() && e[i] == (F32 { bits: binary32::ONE });
    assert(e[at].rank() <= s.rank());
    assert forall|i: int| 0 <= i < e.len() implies sum_laws::plain(#[trigger] e[i]) by {
        assert(softmax_laws::counts(e[i]) && e[i].rank() <= binary32::ONE);
    }
    lemma_pow2_strictly_increases(64, 149);
    lemma2_to64();
    rounding::lemma_units_increase(0, s.magnitude());
    softmax_laws::lemma_quotients_total(e, s, 128);
    assert(5 * ((n - 12) * b) <= 2 * ((n + 1) * p) + 640 * (n - 12)) by (nonlinear_arith)
        requires
            n * (b * sv - a * p) <= a * p + 128 * (n * sv),
            5 * a <= 2 * x,
            (n - 12) * x <= n * sv,
            n == 0x100_0000,
            sv > 0,
            p > 0,
    {
        let k: int = n - 12;
        assert(n * (b * sv) <= ((n + 1) * p) * a + 128 * (n * sv)) by (nonlinear_arith)
            requires
                n * (b * sv - a * p) <= a * p + 128 * (n * sv),
        ;
        let f: int = (n + 1) * p;
        assert(f > 0) by (nonlinear_arith)
            requires
                f == (n + 1) * p,
                n > 0,
                p > 0,
        ;
        assert((5 * k) * (n * (b * sv)) <= (5 * k) * (f * a + 128 * (n * sv))) by (nonlinear_arith)
            requires
                n * (b * sv) <= f * a + 128 * (n * sv),
                k > 0,
        ;
        assert((5 * k) * (f * a) == (f * k) * (5 * a)) by (nonlinear_arith);
        assert((f * k) * (5 * a) <= (f * k) * (2 * x)) by (nonlinear_arith)
            requires
                5 * a <= 2 * x,
                f > 0,
                k > 0,
        ;
        assert((f * k) * (2 * x) == (2 * f) * (k * x)) by (nonlinear_arith);
        assert((2 * f) * (k * x) <= (2 * f) * (n * sv)) by (nonlinear_arith)
            requires
                k * x <= n * sv,
                f > 0,
        ;
        assert((5 * k) * (f * a + 128 * (n * sv)) == (5 * k) * (f * a) + (640 * k) * (n * sv))
            by (nonlinear_arith);
        assert((5 * k) * (n * (b * sv)) == (5 * (k * b)) * (n * sv)) by (nonlinear_arith);
        assert((2 * f) * (n * sv) + (640 * k) * (n * sv) == (2 * f + 640 * k) * (n * sv))
            by (nonlinear_arith);
        let g: int = n * sv;
        assert(g > 0) by (nonlinear_arith)
            requires
                g == n * sv,
                n > 0,
                sv > 0,
        ;
        assert(5 * (k * b) <= 2 * f + 640 * k) by (nonlinear_arith)
            requires
                (5 * (k * b)) * g <= (2 * f + 640 * k) * g,
                g > 0,
        ;
    }
}

/// The quotients of a gentle, rising row are light at first.
pub proof fn law_rising_light<E: Fn(F32) -> F32>(exp: E, row: Seq<F32>, m: F32, e: Seq<F32>, s: F32)
    requires
        softmax_laws::exponential(exp),
        growing(exp),
        input_laws::gentle(row),
        input_laws::rising(row),
        max_laws::is_maximum(m, row),
        softmax::answers(exp, softmax::shifted(row, m), e),
        softmax_laws::covers(s, e),
        sum_laws::close(s, sum_laws::exact(e), 12),
    ensures
        check_laws::light_at_first(softmax::scaled(e, s)),
{
    lemma_gentle_proper(row);
    softmax_laws::law_exponentials(exp, row, m, e);
    let h = choose|c: int| 0 <= c < row.len() && row[c] == m;
    let x = sum_laws::values(e);
    let p: int = sum_laws::one();
    lemma_pow2_strictly_increases(64, 149);
    lemma2_to64();
    let args = softmax::shifted(row, m);
    assert forall|c: int| 0 <= c < 128 implies 3 * #[trigger] x[c] <= 2 * x[c + 128] by {
        let d: int = c + 128;
        lemma_gentle_argument(row, m, h, c);
        lemma_gentle_argument(row, m, h, d);
        assert(100 * (row[d].value() - row[c].value()) >= 101 * p);
        assert(args[c].value() + p <= args[d].value());
        assert(exp.ensures((args[c],), e[c]));
        assert(exp.ensures((args[d],), e[d]));
    }
    lemma_halves(x, 128);
    lemma_first_half(e, s);
}

/// What the test asks of a result: finite throughout, no element too far from its reference, no row
/// too far from adding up to one.
pub open spec fn passes(y: Seq<F32>, expected: Seq<F32>) -> bool {
    let d = report::distances(y, expected);
    let s = report::sum_distances(y, ROWS as nat);
    &&& forall|i: int| 0 <= i < y.len() ==> (#[trigger] y[i]).finite()
    &&& !binary32::above(
        fold::running_larger(F32 { bits: ZERO }, d, d.len()),
        F32 { bits: report::TOLERANCE },
    )
    &&& !binary32::above(
        fold::running_larger(F32 { bits: ZERO }, s, ROWS as nat),
        F32 { bits: report::SUM_TOLERANCE },
    )
}

/// A result passes where its rows and elements do.
proof fn lemma_passes(y: Seq<F32>, expected: Seq<F32>)
    requires
        y.len() == ROWS * COLS,
        expected.len() == ROWS * COLS,
        forall|r: int, c: int|
            0 <= r < ROWS && 0 <= c < COLS ==> (#[trigger] softmax::row_of(y, r)[c]).finite()
                && !binary32::above(
                report::distance(softmax::row_of(y, r)[c], softmax::row_of(expected, r)[c]),
                F32 { bits: report::TOLERANCE },
            ),
        forall|r: int|
            0 <= r < ROWS ==> !binary32::above(
                report::distance(
                    fold::running_sum(#[trigger] softmax::row_of(y, r), COLS as nat),
                    F32 { bits: binary32::ONE },
                ),
                F32 { bits: report::SUM_TOLERANCE },
            ),
    ensures
        passes(y, expected),
{
    let d = report::distances(y, expected);
    let s = report::sum_distances(y, ROWS as nat);
    assert forall|i: int| 0 <= i < y.len() implies (#[trigger] y[i]).finite() && !binary32::above(
        d[i],
        F32 { bits: report::TOLERANCE },
    ) by {
        let r: int = i / (COLS as int);
        let c: int = i % (COLS as int);
        assert(softmax::row_of(y, r)[c] == y[i]);
        assert(softmax::row_of(expected, r)[c] == expected[i]);
    }
    assert forall|i: int| 0 <= i < d.len() implies !binary32::above(
        #[trigger] d[i],
        F32 { bits: report::TOLERANCE },
    ) by {
        assert(y[i].finite());
    }
    report::law_larger_within(F32 { bits: ZERO }, d, d.len(), F32 { bits: report::TOLERANCE });
    assert forall|r: int| 0 <= r < s.len() implies !binary32::above(
        #[trigger] s[r],
        F32 { bits: report::SUM_TOLERANCE },
    ) by {
        assert(softmax::row_of(y, r).len() == COLS);
    }
    report::law_larger_within(
        F32 { bits: ZERO },
        s,
        ROWS as nat,
        F32 { bits: report::SUM_TOLERANCE },
    );
}

/// What the laws on whole matrices need of a device's exponential and the host's: each is one, they
/// are alike, the host's is steep and the device's growing.
pub open spec fn fit<D: Fn(F32) -> F32, H: Fn(F32) -> F32>(dev: D, host: H, k: int, u: int) -> bool {
    &&& softmax_laws::exponential(dev)
    &&& softmax_laws::exponential(host)
    &&& agreement_laws::alike(dev, host, k, u)
    &&& agreement_laws::slight(k, u)
    &&& steep(host)
    &&& growing(dev)
}

/// The sum of a gentle, rising row passes the test, whatever finds its maximum and adds up.
proof fn lemma_sum_passes<E: Fn(F32) -> F32>(
    exp: E,
    max: spec_fn(Seq<F32>) -> F32,
    sum: spec_fn(Seq<F32>) -> F32,
    x: Seq<F32>,
    y: Seq<F32>,
    rows: int,
    r: int,
)
    requires
        softmax_laws::exponential(exp),
        growing(exp),
        reduction_laws::finds(max),
        reduction_laws::adds(sum, 12),
        rows * COLS <= y.len(),
        softmax::rows_done(exp, x, max, sum, y, rows),
        0 <= r < rows,
        input_laws::gentle(softmax::row_of(x, r)),
        input_laws::rising(softmax::row_of(x, r)),
    ensures
        !binary32::above(
            report::distance(
                fold::running_sum(softmax::row_of(y, r), COLS as nat),
                F32 { bits: binary32::ONE },
            ),
            F32 { bits: report::SUM_TOLERANCE },
        ),
{
    let row = softmax::row_of(x, r);
    let m = max(row);
    lemma_gentle_proper(row);
    assert(max_laws::is_maximum(m, row));
    assert(softmax::row_done(exp, row, m, sum, y, r * COLS));
    let e = softmax_laws::lemma_row_written(exp, row, m, sum, y, r);
    softmax_laws::law_exponentials(exp, row, m, e);
    assert(softmax_laws::covers(sum(e), e));
    law_rising_light(exp, row, m, e, sum(e));
    softmax_laws::lemma_probabilities(exp, max, sum, 12, 1_000_000, x, y, rows, r);
    check_laws::law_light_sum(softmax::row_of(y, r));
}

/// What comes of a matrix of gentle, rising rows passes the test, whatever finds the maximum of a row
/// and adds up.
proof fn lemma_matrix_passes<D: Fn(F32) -> F32, H: Fn(F32) -> F32>(
    dev: D,
    host: H,
    k: int,
    u: int,
    max: spec_fn(Seq<F32>) -> F32,
    sum: spec_fn(Seq<F32>) -> F32,
    x: Seq<F32>,
    y: Seq<F32>,
    expected: Seq<F32>,
)
    requires
        fit(dev, host, k, u),
        reduction_laws::finds(max),
        reduction_laws::adds(sum, 12),
        input_laws::tame(x),
        y.len() == ROWS * COLS,
        expected.len() == ROWS * COLS,
        softmax::rows_done(dev, x, max, sum, y, ROWS as int),
        softmax::rows_done(
            host,
            x,
            |row: Seq<F32>| reference::row_max(row),
            |e: Seq<F32>| reference::row_sum(e),
            expected,
            ROWS as int,
        ),
    ensures
        passes(y, expected),
{
    let rows: int = ROWS as int;
    assert forall|r: int, c: int| 0 <= r < ROWS && 0 <= c < COLS implies (
    #[trigger] softmax::row_of(y, r)[c]).finite() && !binary32::above(
        report::distance(softmax::row_of(y, r)[c], softmax::row_of(expected, r)[c]),
        F32 { bits: report::TOLERANCE },
    ) by {
        let a = softmax::row_of(y, r)[c];
        let b = softmax::row_of(expected, r)[c];
        lemma_gentle_proper(softmax::row_of(x, r));
        agreement_laws::lemma_near_reference(dev, host, k, u, max, sum, x, y, expected, rows, r, c);
        softmax_laws::lemma_probabilities(dev, max, sum, 12, 1_000_000, x, y, rows, r);
        softmax_laws::law_reference_probabilities(host, x, expected, rows, r);
        law_gentle_elements(host, x, expected, rows, r, c);
        assert(sum_laws::plain(a) && sum_laws::plain(b));
        rounding::lemma_units_increase(0, b.magnitude());
        assert((270 + 2 * k) * b.value() <= 330 * b.value()) by (nonlinear_arith)
            requires
                k <= 30,
                b.value() >= 0,
        ;
        agreement_laws::law_near_tolerance(a, b, k, u);
    }
    assert forall|r: int| 0 <= r < ROWS implies !binary32::above(
        report::distance(
            fold::running_sum(#[trigger] softmax::row_of(y, r), COLS as nat),
            F32 { bits: binary32::ONE },
        ),
        F32 { bits: report::SUM_TOLERANCE },
    ) by {
        assert(input_laws::gentle(softmax::row_of(x, r)));
        lemma_sum_passes(dev, max, sum, x, y, rows, r);
    }
    lemma_passes(y, expected);
}

/// With one thread per element, what comes of a matrix of gentle, rising rows passes the test against
/// the reference, for a device's exponential and the host's that fit.
pub proof fn law_simt_passes<D: Fn(F32) -> F32, H: Fn(F32) -> F32>(
    dev: D,
    host: H,
    k: int,
    u: int,
    x: Seq<F32>,
    y: Seq<F32>,
    expected: Seq<F32>,
)
    requires
        fit(dev, host, k, u),
        input_laws::tame(x),
        y.len() == ROWS * COLS,
        expected.len() == ROWS * COLS,
        softmax::rows_done(
            dev,
            x,
            |row: Seq<F32>| simt::row_max(row),
            |e: Seq<F32>| simt::row_sum(e),
            y,
            ROWS as int,
        ),
        softmax::rows_done(
            host,
            x,
            |row: Seq<F32>| reference::row_max(row),
            |e: Seq<F32>| reference::row_sum(e),
            expected,
            ROWS as int,
        ),
    ensures
        passes(y, expected),
{
    reduction_laws::law_kernels_reduce(Layout::Strided);
    let max = |row: Seq<F32>| simt::row_max(row);
    let sum = |e: Seq<F32>| simt::row_sum(e);
    lemma_matrix_passes(dev, host, k, u, max, sum, x, y, expected);
}

/// With two elements per thread, in either layout, what comes of a matrix of gentle, rising rows
/// passes the test against the reference, for a device's exponential and the host's that fit.
pub proof fn law_pairs_passes<D: Fn(F32) -> F32, H: Fn(F32) -> F32>(
    layout: Layout,
    dev: D,
    host: H,
    k: int,
    u: int,
    x: Seq<F32>,
    y: Seq<F32>,
    expected: Seq<F32>,
)
    requires
        fit(dev, host, k, u),
        input_laws::tame(x),
        y.len() == ROWS * COLS,
        expected.len() == ROWS * COLS,
        softmax::rows_done(
            dev,
            x,
            |row: Seq<F32>| layout.row_max(row),
            |e: Seq<F32>| layout.row_sum(e),
            y,
            ROWS as int,
        ),
        softmax::rows_done(
            host,
            x,
            |row: Seq<F32>| reference::row_max(row),
            |e: Seq<F32>| reference::row_sum(e),
            expected,
            ROWS as int,
        ),
    ensures
        passes(y, expected),
{
    reduction_laws::law_kernels_reduce(layout);
    let max = |row: Seq<F32>| layout.row_max(row);
    let sum = |e: Seq<F32>| layout.row_sum(e);
    lemma_matrix_passes(dev, host, k, u, max, sum, x, y, expected);
}

/// With one thread per element, what comes of the banded matrix passes the test: every element is
/// within 1e-6 of the reference, and every row adds up to one within 1e-5.
pub proof fn law_banded_passes<D: Fn(F32) -> F32, H: Fn(F32) -> F32>(
    dev: D,
    host: H,
    k: int,
    u: int,
    x: Seq<F32>,
    y: Seq<F32>,
    expected: Seq<F32>,
)
    requires
        fit(dev, host, k, u),
        x.len() == ROWS * COLS,
        forall|i: int|
            0 <= i < x.len() ==> x[i] == input::banded_at(
                (i / (COLS as int)) as nat,
                (i % (COLS as int)) as nat,
            ),
        y.len() == ROWS * COLS,
        expected.len() == ROWS * COLS,
        softmax::rows_done(
            dev,
            x,
            |row: Seq<F32>| simt::row_max(row),
            |e: Seq<F32>| simt::row_sum(e),
            y,
            ROWS as int,
        ),
        softmax::rows_done(
            host,
            x,
            |row: Seq<F32>| reference::row_max(row),
            |e: Seq<F32>| reference::row_sum(e),
            expected,
            ROWS as int,
        ),
    ensures
        passes(y, expected),
{
    input_laws::law_banded_tame(x);
    law_simt_passes(dev, host, k, u, x, y, expected);
}

/// With two elements per thread, in either layout, what comes of the ramp passes the test: every
/// element is within 1e-6 of the reference, and every row adds up to one within 1e-5.
pub proof fn law_ramp_passes<D: Fn(F32) -> F32, H: Fn(F32) -> F32>(
    layout: Layout,
    dev: D,
    host: H,
    k: int,
    u: int,
    x: Seq<F32>,
    y: Seq<F32>,
    expected: Seq<F32>,
)
    requires
        fit(dev, host, k, u),
        x.len() == ROWS * COLS,
        forall|i: int| 0 <= i < x.len() ==> x[i] == input::ramp_at(i as nat),
        y.len() == ROWS * COLS,
        expected.len() == ROWS * COLS,
        softmax::rows_done(
            dev,
            x,
            |row: Seq<F32>| layout.row_max(row),
            |e: Seq<F32>| layout.row_sum(e),
            y,
            ROWS as int,
        ),
        softmax::rows_done(
            host,
            x,
            |row: Seq<F32>| reference::row_max(row),
            |e: Seq<F32>| reference::row_sum(e),
            expected,
            ROWS as int,
        ),
    ensures
        passes(y, expected),
{
    input_laws::law_ramp_tame(x);
    law_pairs_passes(layout, dev, host, k, u, x, y, expected);
}

} // verus!
