//! What comes out of the tile kernel, for reductions that reduce.

use crate::arith;
use crate::binary32;
use crate::binary32::F32;
use crate::binary32::ZERO;
use crate::block;
use crate::check_laws;
use crate::fold;
use crate::input_laws;
use crate::matrix_laws;
use crate::max_laws;
use crate::pairs::Layout;
use crate::range_laws;
use crate::report;
use crate::rounding;
use crate::softmax;
use crate::softmax::COLS;
use crate::softmax::ROWS;
use crate::softmax_laws;
use crate::sum_laws;
use crate::sum_laws::PARTS;
use crate::tile;
use vstd::prelude::*;

verus! {

/// The reduction finds a maximum of every row without NaN.
pub open spec fn finds_maximum<M: Fn(&Vec<F32>) -> F32>(max: M) -> bool {
    forall|v: Vec<F32>, m: F32| #[trigger]
        max.ensures((&v,), m) && v.len() == COLS && max_laws::nan_free(v@) ==> max_laws::is_maximum(
            m,
            v@,
        )
}

/// The reduction adds up a row, in some order: its result is no less than any term and off by the
/// rounding of `d` additions.
pub open spec fn adds_up<S: Fn(&Vec<F32>) -> F32>(sum: S, d: int) -> bool {
    forall|v: Vec<F32>, s: F32| #[trigger]
        sum.ensures((&v,), s) && v.len() == COLS && softmax_laws::all_count(v@) && sum_laws::moderate(
            v@,
        ) ==> softmax_laws::covers(s, v@) && sum_laws::close(s, sum_laws::exact(v@), d)
}

/// Folding from the first number to the last is such a reduction, and so is what a block of threads
/// does; the block rounds twelve times.
pub proof fn law_reductions()
    ensures
        finds_maximum(fold::max_of),
        adds_up(fold::sum_of, 255),
        finds_maximum(block::reduce_max),
        adds_up(block::reduce_sum, 12),
{
    assert forall|v: Vec<F32>, m: F32| #[trigger]
        call_ensures(fold::max_of, (&v,), m) && v.len() == COLS && max_laws::nan_free(v@) implies
        max_laws::is_maximum(m, v@) by {
        max_laws::law_running_max(v@, COLS as nat);
        assert(v@.take(COLS as int) =~= v@);
    }
    assert forall|v: Vec<F32>, s: F32| #[trigger]
        call_ensures(fold::sum_of, (&v,), s) && v.len() == COLS && softmax_laws::all_count(v@)
            && sum_laws::moderate(v@) implies softmax_laws::covers(s, v@) && sum_laws::close(
        s,
        sum_laws::exact(v@),
        255,
    ) by {
        softmax_laws::law_row_sum_covers(v@, Layout::Strided);
        sum_laws::law_reference_sum(v@);
    }
    assert forall|v: Vec<F32>, m: F32| #[trigger]
        call_ensures(block::reduce_max, (&v,), m) && v.len() == COLS && max_laws::nan_free(v@) implies
        max_laws::is_maximum(m, v@) by {
        max_laws::law_row_max(v@, Layout::Strided);
    }
    assert forall|v: Vec<F32>, s: F32| #[trigger]
        call_ensures(block::reduce_sum, (&v,), s) && v.len() == COLS && softmax_laws::all_count(v@)
            && sum_laws::moderate(v@) implies softmax_laws::covers(s, v@) && sum_laws::close(
        s,
        sum_laws::exact(v@),
        12,
    ) by {
        softmax_laws::law_row_sum_covers(v@, Layout::Strided);
        sum_laws::law_simt_sum(v@);
    }
}

/// What the tile kernel leaves in a row, with tiles as wide as the matrix.
proof fn lemma_tile_row<
    E: Fn(F32) -> F32,
    M: Fn(&Vec<F32>) -> F32,
    S: Fn(&Vec<F32>) -> F32,
>(exp: E, max: M, sum: S, d: int, x: Seq<F32>, y: Seq<F32>, rows: int, r: int) -> (o: (
    F32,
    Seq<F32>,
    F32,
))
    requires
        softmax_laws::exponential(exp),
        finds_maximum(max),
        adds_up(sum, d),
        x.len() == rows * COLS,
        y.len() == rows * COLS,
        0 <= r < rows,
        tile::tile_row_done(exp, max, sum, x, y, rows, COLS as int, COLS as int, r, 0),
        softmax_laws::proper(softmax::row_of(x, r)),
    ensures
        max_laws::is_maximum(o.0, softmax::row_of(x, r)),
        softmax::answers(exp, softmax::shifted(softmax::row_of(x, r), o.0), o.1),
        softmax_laws::covers(o.2, o.1),
        sum_laws::close(o.2, sum_laws::exact(o.1), d),
        softmax::row_of(y, r) == softmax::scaled(o.1, o.2),
{
    let cols: int = COLS as int;
    let (row, m, e, s) = choose|row: Vec<F32>, m: F32, e: Vec<F32>, s: F32| #[trigger]
        tile::reduced(exp, max, sum, row, m, e, s) && row@ == tile::tile_row(
            x,
            rows,
            cols,
            cols,
            r,
            0,
        ) && tile::stored(y, cols, cols, r, 0, e@, s);
    tile::law_whole_rows(x, rows, cols, r);
    assert(row@ == softmax::row_of(x, r));
    assert(max_laws::is_maximum(m, row@));
    softmax_laws::law_exponentials(exp, row@, m, e@);
    assert(softmax_laws::covers(s, e@));
    let out = softmax::scaled(e@, s);
    assert forall|c: int| 0 <= c < COLS implies softmax::row_of(y, r)[c] == #[trigger] out[c] by {
        assert(tile::at(y, cols, r, 0 * cols + c) == arith::quotient(e@[c], s));
        assert(0 * cols + c == c);
    }
    assert(softmax::row_of(y, r) =~= out);
    (m, e@, s)
}

/// With tiles as wide as the matrix, every proper row comes out as probabilities: each between zero
/// and one, together one, to one part in a million where the reduction rounds twelve times, in fifty
/// thousand where it rounds with every addition.
pub proof fn law_tile_probabilities<
    E: Fn(F32) -> F32,
    M: Fn(&Vec<F32>) -> F32,
    S: Fn(&Vec<F32>) -> F32,
>(exp: E, max: M, sum: S, d: int, parts: int, x: Seq<F32>, y: Seq<F32>, rows: int, r: int)
    requires
        softmax_laws::exponential(exp),
        finds_maximum(max),
        adds_up(sum, d),
        (d == 12 && parts == 1_000_000) || (d == 255 && parts == 50_000),
        x.len() == rows * COLS,
        y.len() == rows * COLS,
        0 <= r < rows,
        tile::tile_row_done(exp, max, sum, x, y, rows, COLS as int, COLS as int, r, 0),
        softmax_laws::proper(softmax::row_of(x, r)),
    ensures
        softmax_laws::distribution(softmax::row_of(y, r), parts),
{
    let (m, e, s) = lemma_tile_row(exp, max, sum, d, x, y, rows, r);
    softmax_laws::law_exponentials(exp, softmax::row_of(x, r), m, e);
    softmax_laws::lemma_distribution(e, s, d, parts);
}

/// With tiles as wide as the matrix and a reduction that rounds twelve times, the rows that come of a
/// matrix of gentle, rising rows pass the test of their sums, as the ramp's do.
pub proof fn law_tile_sums_pass<
    E: Fn(F32) -> F32,
    M: Fn(&Vec<F32>) -> F32,
    S: Fn(&Vec<F32>) -> F32,
>(exp: E, max: M, sum: S, x: Seq<F32>, y: Seq<F32>)
    requires
        softmax_laws::exponential(exp),
        matrix_laws::growing(exp),
        finds_maximum(max),
        adds_up(sum, 12),
        input_laws::tame(x),
        y.len() == ROWS * COLS,
        forall|r: int|
            0 <= r < ROWS ==> #[trigger] tile::tile_row_done(
                exp,
                max,
                sum,
                x,
                y,
                ROWS as int,
                COLS as int,
                COLS as int,
                r,
                0,
            ),
    ensures
        !binary32::above(
            fold::running_larger(
                F32 { bits: ZERO },
                report::sum_distances(y, ROWS as nat),
                ROWS as nat,
            ),
            F32 { bits: report::SUM_TOLERANCE },
        ),
{
    let t = report::sum_distances(y, ROWS as nat);
    assert forall|r: int| 0 <= r < t.len() implies !binary32::above(
        #[trigger] t[r],
        F32 { bits: report::SUM_TOLERANCE },
    ) by {
        let row = softmax::row_of(x, r);
        matrix_laws::lemma_gentle_proper(row);
        assert(tile::tile_row_done(
            exp,
            max,
            sum,
            x,
            y,
            ROWS as int,
            COLS as int,
            COLS as int,
            r,
            0,
        ));
        let (m, e, s) = lemma_tile_row(exp, max, sum, 12, x, y, ROWS as int, r);
        softmax_laws::law_exponentials(exp, row, m, e);
        softmax_laws::lemma_distribution(e, s, 12, 1_000_000);
        matrix_laws::law_rising_light(exp, row, m, e, s);
        check_laws::law_light_sum(softmax::row_of(y, r));
    }
    report::law_larger_within(
        F32 { bits: ZERO },
        t,
        ROWS as nat,
        F32 { bits: report::SUM_TOLERANCE },
    );
}

/// What a tile's row is and what becomes of it, element by element. What is reduced in row `r` of tile
/// column `j` is the matrix at columns `j * bn` to `(j + 1) * bn - 1` of that row, and zeros where those
/// lie outside it; where they lie inside, the output holds the exponential of the number less what the
/// reduction gave as the maximum, over what the reduction gave as the sum of the `bn` exponentials.
pub proof fn law_tile_meaning<
    E: Fn(F32) -> F32,
    M: Fn(&Vec<F32>) -> F32,
    S: Fn(&Vec<F32>) -> F32,
>(
    exp: E,
    max: M,
    sum: S,
    x: Seq<F32>,
    y: Seq<F32>,
    rows: int,
    cols: int,
    bn: int,
    r: int,
    j: int,
) -> (o: (Vec<F32>, F32, Vec<F32>, F32))
    requires
        tile::tile_row_done(exp, max, sum, x, y, rows, cols, bn, r, j),
        0 <= r < rows,
        0 <= j,
        0 < bn,
    ensures
        o.0.len() == bn,
        o.2.len() == bn,
        forall|b: int|
            0 <= b < bn ==> (#[trigger] o.0@[b]) == if j * bn + b < cols {
                x[r * cols + (j * bn + b)]
            } else {
                F32 { bits: 0 }
            },
        max.ensures((&o.0,), o.1),
        forall|b: int|
            0 <= b < bn ==> exp.ensures(
                (arith::difference(o.0@[b], o.1),),
                #[trigger] o.2@[b],
            ),
        sum.ensures((&o.2,), o.3),
        forall|b: int|
            0 <= b < bn && j * bn + b < cols ==> y[r * cols + (j * bn + b)] == arith::quotient(
                #[trigger] o.2@[b],
                o.3,
            ),
{
    let (row, m, e, s) = choose|row: Vec<F32>, m: F32, e: Vec<F32>, s: F32| #[trigger]
        tile::reduced(exp, max, sum, row, m, e, s) && row@ == tile::tile_row(
            x,
            rows,
            cols,
            bn,
            r,
            j,
        ) && tile::stored(y, cols, bn, r, j, e@, s);
    let args = softmax::shifted(row@, m);
    assert forall|b: int| 0 <= b < bn implies exp.ensures(
        (arith::difference(row@[b], m),),
        #[trigger] e@[b],
    ) by {
        assert(args[b] == arith::difference(row@[b], m));
    }
    assert forall|b: int| 0 <= b < bn && j * bn + b < cols implies y[r * cols + (j * bn + b)]
        == arith::quotient(#[trigger] e@[b], s) by {
        assert(tile::at(y, cols, r, j * bn + b) == arith::quotient(e@[b], s));
    }
    (row, m, e, s)
}

/// Every element of the matrix is reduced by the tile that stores the element at the same place: for
/// column `c` that is tile column `c / bn`, at its place `c % bn`.
pub proof fn law_tile_element<
    E: Fn(F32) -> F32,
    M: Fn(&Vec<F32>) -> F32,
    S: Fn(&Vec<F32>) -> F32,
>(
    exp: E,
    max: M,
    sum: S,
    x: Seq<F32>,
    y: Seq<F32>,
    rows: int,
    cols: int,
    bn: int,
    r: int,
    c: int,
) -> (o: (Vec<F32>, F32, Vec<F32>, F32))
    requires
        forall|r: int, j: int|
            0 <= r < rows && 0 <= j < tile::tiles(cols, bn) ==> #[trigger] tile::tile_row_done(
                exp,
                max,
                sum,
                x,
                y,
                rows,
                cols,
                bn,
                r,
                j,
            ),
        0 <= r < rows,
        0 <= c < cols,
        0 < bn,
    ensures
        o.0.len() == bn,
        o.2.len() == bn,
        0 <= c % bn < bn,
        o.0@[c % bn] == x[r * cols + c],
        max.ensures((&o.0,), o.1),
        exp.ensures((arith::difference(x[r * cols + c], o.1),), o.2@[c % bn]),
        sum.ensures((&o.2,), o.3),
        y[r * cols + c] == arith::quotient(o.2@[c % bn], o.3),
{
    let j: int = c / bn;
    let b: int = c % bn;
    tile::law_tiles_cover(cols, bn, c);
    vstd::arithmetic::div_mod::lemma_fundamental_div_mod(c, bn);
    assert(j * bn + b == c) by (nonlinear_arith)
        requires
            c == bn * j + b,
    ;
    assert(tile::tile_row_done(exp, max, sum, x, y, rows, cols, bn, r, j));
    let o = law_tile_meaning(exp, max, sum, x, y, rows, cols, bn, r, j);
    assert(o.0@[b] == x[r * cols + (j * bn + b)]);
    assert(exp.ensures((arith::difference(o.0@[b], o.1),), o.2@[b]));
    assert(y[r * cols + (j * bn + b)] == arith::quotient(o.2@[b], o.3));
    o
}

/// It takes exactly as many tiles as cover the extent: one fewer would not.
pub proof fn law_tile_count(extent: int, size: int)
    requires
        0 <= extent,
        0 < size,
    ensures
        tile::tiles(extent, size) >= 0,
        tile::tiles(extent, size) * size >= extent,
        (tile::tiles(extent, size) - 1) * size < extent,
{
    let n: int = tile::tiles(extent, size);
    let top: int = extent + size - 1;
    vstd::arithmetic::div_mod::lemma_fundamental_div_mod(top, size);
    vstd::arithmetic::div_mod::lemma_div_pos_is_pos(top, size);
    assert(n * size == size * n && (n - 1) * size == size * n - size) by (nonlinear_arith);
}

/// A row of any width that has a softmax: no NaN, no positive infinity, and something else than
/// negative infinity.
pub open spec fn proper_row(row: Seq<F32>) -> bool {
    &&& forall|i: int|
        0 <= i < row.len() ==> !(#[trigger] row[i]).nan() && !(row[i].infinite()
            && !row[i].negative())
    &&& exists|i: int| 0 <= i < row.len() && (#[trigger] row[i]).finite()
}

/// The reduction finds, in every row of `w` numbers without NaN, one of them that none exceeds.
pub open spec fn finds_maximum_of<M: Fn(&Vec<F32>) -> F32>(max: M, w: int) -> bool {
    forall|v: Vec<F32>, m: F32| #[trigger]
        max.ensures((&v,), m) && v.len() == w && max_laws::nan_free(v@) ==> max_laws::is_maximum(
            m,
            v@,
        )
}

/// The reduction adds up every row of `w` numbers between zero and one: its result is no less than any
/// of them, and off by the rounding of `d` additions.
pub open spec fn adds_up_of<S: Fn(&Vec<F32>) -> F32>(sum: S, w: int, d: int) -> bool {
    forall|v: Vec<F32>, s: F32| #[trigger]
        sum.ensures((&v,), s) && v.len() == w && (forall|i: int|
            0 <= i < w ==> sum_laws::plain(#[trigger] v@[i]) && v@[i].rank() <= binary32::ONE)
            ==> softmax_laws::covers(s, v@) && sum_laws::close(s, sum_laws::exact(v@), d)
}

/// Tiles as wide as the matrix, of any width: every proper row comes out between zero and one, and
/// exactly added up it is one, but for the roundings of the sum and of the divisions.
pub proof fn law_whole_row_probabilities<
    E: Fn(F32) -> F32,
    M: Fn(&Vec<F32>) -> F32,
    S: Fn(&Vec<F32>) -> F32,
>(exp: E, max: M, sum: S, d: int, x: Seq<F32>, y: Seq<F32>, rows: int, cols: int, r: int)
    requires
        softmax_laws::exponential(exp),
        finds_maximum_of(max, cols),
        adds_up_of(sum, cols, d),
        0 <= d < PARTS,
        cols > 0,
        x.len() == rows * cols,
        y.len() == rows * cols,
        0 <= r < rows,
        tile::tile_row_done(exp, max, sum, x, y, rows, cols, cols, r, 0),
        proper_row(x.subrange(r * cols, (r + 1) * cols)),
    ensures
        ({
            let out = y.subrange(r * cols, (r + 1) * cols);
            let total = sum_laws::exact(out);
            &&& out.len() == cols
            &&& forall|c: int|
                0 <= c < cols ==> sum_laws::plain(#[trigger] out[c]) && out[c].value()
                    <= sum_laws::one()
            &&& (PARTS - d) * total <= (PARTS + 1) * sum_laws::one() + cols * PARTS
            &&& PARTS * total >= (PARTS - (d + 1)) * sum_laws::one() - cols * PARTS
        }),
{
    let (row, m, e, s) = law_tile_meaning(exp, max, sum, x, y, rows, cols, cols, r, 0);
    let here = x.subrange(r * cols, (r + 1) * cols);
    let out = y.subrange(r * cols, (r + 1) * cols);
    assert((r + 1) * cols == r * cols + cols) by (nonlinear_arith);
    assert(0 <= r * cols && (r + 1) * cols <= rows * cols) by (nonlinear_arith)
        requires
            0 <= r,
            r + 1 <= rows,
            cols > 0,
    ;
    assert(0 * cols == 0);
    assert forall|b: int| 0 <= b < cols implies row@[b] == here[b] by {
        assert(row@[b] == x[r * cols + (0 * cols + b)]);
    }
    assert(row@ =~= here);
    assert forall|i: int| 0 <= i < row@.len() implies !(#[trigger] row@[i]).nan() by {
        assert(!here[i].nan());
    }
    assert(max_laws::is_maximum(m, row@));
    let at = choose|i: int| 0 <= i < here.len() && (#[trigger] here[i]).finite();
    let top = choose|i: int| 0 <= i < row@.len() && row@[i] == m;
    assert(row@[at].rank() <= m.rank());
    assert(!here[top].nan() && !(here[top].infinite() && !here[top].negative()));
    assert(m.finite());
    assert forall|i: int| 0 <= i < cols implies sum_laws::plain(#[trigger] e@[i]) && e@[i].rank()
        <= binary32::ONE by {
        assert(!row@[i].nan() && row@[i].rank() <= m.rank());
        max_laws::law_difference_not_positive(row@[i], m);
        assert(exp.ensures((arith::difference(row@[i], m),), e@[i]));
    }
    max_laws::law_difference_not_positive(row@[top], m);
    assert(exp.ensures((arith::difference(row@[top], m),), e@[top]));
    assert(softmax_laws::covers(s, e@));
    assert(e@[top].rank() == binary32::ONE && e@[top].rank() <= s.rank());
    let q = softmax::scaled(e@, s);
    assert forall|c: int| 0 <= c < cols implies out[c] == #[trigger] q[c] by {
        assert(y[r * cols + (0 * cols + c)] == arith::quotient(e@[c], s));
    }
    assert(out =~= q);
    softmax_laws::law_total_near_one(e@, s, d);
    sum_laws::lemma_large();
    assert forall|c: int| 0 <= c < cols implies sum_laws::plain(#[trigger] out[c])
        && out[c].value() <= sum_laws::one() by {
        assert(out[c] == q[c]);
        assert(sum_laws::plain(e@[c]) && e@[c].rank() <= s.rank());
        softmax_laws::law_quotient_is_fraction(e@[c], s);
        rounding::lemma_units_increase(0, out[c].magnitude());
        if !out[c].negative() {
            rounding::lemma_units_increase(out[c].magnitude(), binary32::ONE as nat);
        }
    }
}

/// Folding from the first number to the last reduces rows of every width up to 2^22, and rounds with
/// every addition but the first.
pub proof fn law_folds_reduce(w: int)
    requires
        0 < w <= 0x40_0000,
    ensures
        finds_maximum_of(fold::max_of, w),
        adds_up_of(fold::sum_of, w, w - 1),
{
    assert forall|v: Vec<F32>, m: F32| #[trigger]
        call_ensures(fold::max_of, (&v,), m) && v.len() == w && max_laws::nan_free(v@) implies
        max_laws::is_maximum(m, v@) by {
        max_laws::law_running_max(v@, w as nat);
        assert(v@.take(w) =~= v@);
    }
    assert forall|v: Vec<F32>, s: F32| #[trigger]
        call_ensures(fold::sum_of, (&v,), s) && v.len() == w && (forall|i: int|
            0 <= i < w ==> sum_laws::plain(#[trigger] v@[i]) && v@[i].rank() <= binary32::ONE) implies
        softmax_laws::covers(s, v@) && sum_laws::close(s, sum_laws::exact(v@), w - 1) by {
        assert forall|i: int| 0 <= i < v@.len() implies softmax_laws::counts(#[trigger] v@[i]) by {
            assert(sum_laws::plain(v@[i]));
        }
        softmax_laws::law_running_sum_covers(v@, w as nat);
        assert(v@.take(w) =~= v@);
        range_laws::law_running_sum(v@, w as nat);
    }
}

} // verus!
