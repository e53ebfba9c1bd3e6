//! Tiles instead of threads: a tile of `bm` rows and `bn` columns is loaded, reduced row by row, and
//! stored as a whole.
//!
//! In which order a tile is reduced is not this module's to say: the two reductions come in as
//! functions, as the exponential does.

use crate::arith;
use crate::binary32::F32;
use crate::binary32::ZERO;
use crate::softmax;
use vstd::prelude::*;

verus! {

/// The element at row `r` and column `c` of a matrix of `rows` rows and `cols` columns, or zero
/// outside it.
pub open spec fn padded(x: Seq<F32>, rows: int, cols: int, r: int, c: int) -> F32 {
    if r < rows && c < cols {
        at(x, cols, r, c)
    } else {
        F32 { bits: ZERO }
    }
}

/// The element at row `r` and column `c` of a matrix of `cols` columns.
pub open spec fn at(y: Seq<F32>, cols: int, r: int, c: int) -> F32 {
    y[r * cols + c]
}

/// Row `r` of a tile in tile column `j`.
pub open spec fn tile_row(x: Seq<F32>, rows: int, cols: int, bn: int, r: int, j: int) -> Seq<F32> {
    Seq::new(bn as nat, |b: int| padded(x, rows, cols, r, j * bn + b))
}

/// How many tiles of `size` elements it takes to cover `extent` elements.
pub open spec fn tiles(extent: int, size: int) -> int {
    (extent + size - 1) / size
}

/// What a kernel does to a tile's row: the maximum, the exponentials, their sum.
pub open spec fn reduced<
    E: Fn(F32) -> F32,
    M: Fn(&Vec<F32>) -> F32,
    S: Fn(&Vec<F32>) -> F32,
>(exp: E, max: M, sum: S, row: Vec<F32>, m: F32, e: Vec<F32>, s: F32) -> bool {
    &&& max.ensures((&row,), m)
    &&& softmax::answers(exp, softmax::shifted(row@, m), e@)
    &&& sum.ensures((&e,), s)
}

/// `y` holds the quotients of `e` by `s` in row `r` of tile column `j`, as far as the matrix
/// reaches.
pub open spec fn stored(
    y: Seq<F32>,
    cols: int,
    bn: int,
    r: int,
    j: int,
    e: Seq<F32>,
    s: F32,
) -> bool {
    forall|b: int|
        0 <= b < bn && j * bn + b < cols ==> at(y, cols, r, j * bn + b) == arith::quotient(
            #[trigger] e[b],
            s,
        )
}

/// `y` holds the softmax of row `r` of tile column `j`.
pub open spec fn tile_row_done<
    E: Fn(F32) -> F32,
    M: Fn(&Vec<F32>) -> F32,
    S: Fn(&Vec<F32>) -> F32,
>(
    exp: E,
    max: M,
    sum: S,
    x: Seq<F32>,
    y: Seq<F32>,
    rows: int,
    cols: int,
    bn: int,
    r: int,
    j: int,
) -> bool {
    exists|row: Vec<F32>, m: F32, e: Vec<F32>, s: F32| #[trigger]
        reduced(exp, max, sum, row, m, e, s) && row@ == tile_row(x, rows, cols, bn, r, j) && stored(
            y,
            cols,
            bn,
            r,
            j,
            e@,
            s,
        )
}

/// How many tiles it takes to cover a dimension.
pub fn tile_count(extent: usize, size: usize) -> (n: usize)
    requires
        size > 0,
        extent + size <= usize::MAX,
    ensures
        n == tiles(extent as int, size as int),
        n * size >= extent,
        n > 0 ==> (n - 1) * size < extent,
{
    let n: usize = (extent + size - 1) / size;
    proof {
        let top: int = extent + size - 1;
        vstd::arithmetic::div_mod::lemma_fundamental_div_mod(top, size as int);
        assert(n * size == size * n) by (nonlinear_arith);
        assert((n - 1) * size == n * size - size) by (nonlinear_arith);
    }
    n
}

/// Two elements in different places have different indices.
proof fn lemma_index_apart(cols: int, r: int, c: int, r2: int, c2: int)
    requires
        0 <= c < cols,
        0 <= c2 < cols,
        r * cols + c == r2 * cols + c2,
    ensures
        r == r2,
        c == c2,
{
    assert(r == r2) by (nonlinear_arith)
        requires
            0 <= c < cols,
            0 <= c2 < cols,
            r * cols + c == r2 * cols + c2,
    ;
}

/// An element inside the matrix has an index inside its storage.
proof fn lemma_index_inside(rows: int, cols: int, r: int, c: int)
    requires
        0 <= r < rows,
        0 <= c < cols,
    ensures
        0 <= r * cols + c < rows * cols,
{
    assert(0 <= r * cols + c < rows * cols) by (nonlinear_arith)
        requires
            0 <= r < rows,
            0 <= c < cols,
    ;
}

/// The softmax of row `r` of tile column `j`.
fn softmax_tile_row<E: Fn(F32) -> F32, M: Fn(&Vec<F32>) -> F32, S: Fn(&Vec<F32>) -> F32>(
    x: &Vec<F32>,
    y: &mut Vec<F32>,
    rows: usize,
    cols: usize,
    bn: usize,
    r: usize,
    j: usize,
    exp: &E,
    max: &M,
    sum: &S,
)
    requires
        rows * cols == x.len(),
        rows * cols == old(y).len(),
        r < rows,
        j * bn < cols,
        cols + bn <= usize::MAX,
        forall|a: F32| exp.requires((a,)),
        forall|v: &Vec<F32>| v.len() == bn ==> #[trigger] max.requires((v,)),
        forall|v: &Vec<F32>| v.len() == bn ==> #[trigger] sum.requires((v,)),
    ensures
        final(y).len() == old(y).len(),
        tile_row_done(
            *exp,
            *max,
            *sum,
            x@,
            final(y)@,
            rows as int,
            cols as int,
            bn as int,
            r as int,
            j as int,
        ),
        forall|r2: int, c2: int|
            0 <= r2 < rows && 0 <= c2 < cols && !(r2 == r && j * bn <= c2 < (j + 1) * bn)
                ==> #[trigger] at(final(y)@, cols as int, r2, c2) == at(old(y)@, cols as int, r2, c2),
{
    let ghost loaded = tile_row(x@, rows as int, cols as int, bn as int, r as int, j as int);
    let first: usize = j * bn;
    let mut row: Vec<F32> = Vec::with_capacity(bn);
    let mut b: usize = 0;
    while b < bn
        invariant
            rows * cols == x.len(),
            r < rows,
            first < cols,
            first == j * bn,
            cols + bn <= usize::MAX,
            b <= bn,
            loaded == tile_row(x@, rows as int, cols as int, bn as int, r as int, j as int),
            row@ == loaded.take(b as int),
        decreases bn - b,
    {
        let c: usize = first + b;
        if c < cols {
            proof {
                lemma_index_inside(rows as int, cols as int, r as int, c as int);
                assert(0 <= r * cols <= r * cols + c) by (nonlinear_arith)
                    requires
                        r >= 0,
                        cols >= 0,
                        c >= 0,
                ;
            }
            row.push(x[r * cols + c]);
        } else {
            row.push(F32 { bits: ZERO });
        }
        b = b + 1;
        assert(row@ =~= loaded.take(b as int));
    }
    assert(row@ =~= loaded);
    let m = max(&row);
    let args = softmax::shift(&row, m);
    let e = softmax::answer(exp, &args);
    let s = sum(&e);
    b = 0;
    while b < bn
        invariant
            rows * cols == y.len(),
            y.len() == old(y).len(),
            r < rows,
            first < cols,
            first == j * bn,
            cols + bn <= usize::MAX,
            b <= bn,
            e.len() == bn,
            forall|d: int|
                0 <= d < b && j * bn + d < cols ==> at(y@, cols as int, r as int, j * bn + d) == arith::quotient(
                    #[trigger] e@[d],
                    s,
                ),
            forall|r2: int, c2: int|
                0 <= r2 < rows && 0 <= c2 < cols && !(r2 == r && j * bn <= c2 < (j + 1) * bn)
                    ==> #[trigger] at(y@, cols as int, r2, c2) == at(old(y)@, cols as int, r2, c2),
        decreases bn - b,
    {
        let c: usize = first + b;
        if c < cols {
            proof {
                lemma_index_inside(rows as int, cols as int, r as int, c as int);
                assert(0 <= r * cols <= r * cols + c) by (nonlinear_arith)
                    requires
                        r >= 0,
                        cols >= 0,
                        c >= 0,
                ;
            }
            let ghost before = y@;
            let i: usize = r * cols + c;
            y.set(i, e[b].div(s));
            proof {
                assert((j + 1) * bn == j * bn + bn) by (nonlinear_arith);
                assert forall|r2: int, c2: int|
                    0 <= r2 < rows && 0 <= c2 < cols && !(r2 == r && c2 == c) implies #[trigger] at(
                    y@,
                    cols as int,
                    r2,
                    c2,
                ) == at(before, cols as int, r2, c2) by {
                    if r2 * cols + c2 == i {
                        lemma_index_apart(cols as int, r as int, c as int, r2, c2);
                    }
                    lemma_index_inside(rows as int, cols as int, r2, c2);
                }
            }
        }
        b = b + 1;
    }
    proof {
        assert(reduced(*exp, *max, *sum, row, m, e, s));
        assert(stored(y@, cols as int, bn as int, r as int, j as int, e@, s));
    }
}

/// What was stored stays where nothing else is stored.
proof fn lemma_tile_row_kept<
    E: Fn(F32) -> F32,
    M: Fn(&Vec<F32>) -> F32,
    S: Fn(&Vec<F32>) -> F32,
>(
    exp: E,
    max: M,
    sum: S,
    x: Seq<F32>,
    before: Seq<F32>,
    after: Seq<F32>,
    rows: int,
    cols: int,
    bn: int,
    r: int,
    j: int,
)
    requires
        tile_row_done(exp, max, sum, x, before, rows, cols, bn, r, j),
        forall|c: int|
            j * bn <= c < (j + 1) * bn && c < cols ==> #[trigger] at(after, cols, r, c) == at(
                before,
                cols,
                r,
                c,
            ),
    ensures
        tile_row_done(exp, max, sum, x, after, rows, cols, bn, r, j),
{
    let (row, m, e, s) = choose|row: Vec<F32>, m: F32, e: Vec<F32>, s: F32| #[trigger]
        reduced(exp, max, sum, row, m, e, s) && row@ == tile_row(x, rows, cols, bn, r, j) && stored(
            before,
            cols,
            bn,
            r,
            j,
            e@,
            s,
        );
    assert((j + 1) * bn == j * bn + bn) by (nonlinear_arith);
    assert(stored(after, cols, bn, r, j, e@, s)) by {
        assert forall|b: int| 0 <= b < bn && j * bn + b < cols implies at(after, cols, r, j * bn + b)
            == arith::quotient(#[trigger] e@[b], s) by {
            assert(at(before, cols, r, j * bn + b) == arith::quotient(e@[b], s));
        }
    }
    assert(reduced(exp, max, sum, row, m, e, s));
}

/// The tile rows that come before row `a` of tile (`i`, `j`), tile by tile.
spec fn visited(bm: int, i: int, j: int, a: int, r2: int, j2: int) -> bool {
    r2 < i * bm || (r2 < (i + 1) * bm && (j2 < j || (j2 == j && r2 < i * bm + a)))
}

/// The softmax of every row of every tile, for a matrix of `rows` rows and `cols` columns in tiles
/// of `bm` rows and `bn` columns. Where a tile reaches past the matrix, zeros are loaded and
/// nothing is stored.
pub fn softmax_rows<E: Fn(F32) -> F32, M: Fn(&Vec<F32>) -> F32, S: Fn(&Vec<F32>) -> F32>(
    y: &mut Vec<F32>,
    x: &Vec<F32>,
    rows: usize,
    cols: usize,
    bm: usize,
    bn: usize,
    exp: E,
    reduce_max: M,
    reduce_sum: S,
)
    requires
        rows * cols == x.len(),
        rows * cols == old(y).len(),
        bm > 0,
        bn > 0,
        rows + bm <= usize::MAX,
        cols + bn <= usize::MAX,
        forall|a: F32| exp.requires((a,)),
        forall|v: &Vec<F32>| v.len() == bn ==> #[trigger] reduce_max.requires((v,)),
        forall|v: &Vec<F32>| v.len() == bn ==> #[trigger] reduce_sum.requires((v,)),
    ensures
        final(y).len() == old(y).len(),
        forall|r: int, j: int|
            0 <= r < rows && 0 <= j < tiles(cols as int, bn as int) ==> #[trigger] tile_row_done(
                exp,
                reduce_max,
                reduce_sum,
                x@,
                final(y)@,
                rows as int,
                cols as int,
                bn as int,
                r,
                j,
            ),
{
    let down: usize = tile_count(rows, bm);
    let across: usize = tile_count(cols, bn);
    let mut i: usize = 0;
    while i < down
        invariant
            rows * cols == x.len(),
            rows * cols == y.len(),
            y.len() == old(y).len(),
            bm > 0,
            bn > 0,
            rows + bm <= usize::MAX,
            cols + bn <= usize::MAX,
            forall|a: F32| exp.requires((a,)),
            forall|v: &Vec<F32>| v.len() == bn ==> #[trigger] reduce_max.requires((v,)),
            forall|v: &Vec<F32>| v.len() == bn ==> #[trigger] reduce_sum.requires((v,)),
            across == tiles(cols as int, bn as int),
            across > 0 ==> (across - 1) * bn < cols,
            down > 0 ==> (down - 1) * bm < rows,
            i <= down,
            forall|r2: int, j2: int|
                0 <= r2 < rows && 0 <= j2 < across && r2 < i * bm ==> #[trigger] tile_row_done(
                    exp,
                    reduce_max,
                    reduce_sum,
                    x@,
                    y@,
                    rows as int,
                    cols as int,
                    bn as int,
                    r2,
                    j2,
                ),
        decreases down - i,
    {
        let mut j: usize = 0;
        assert(i * bm < rows) by (nonlinear_arith)
            requires
                i <= down - 1,
                (down - 1) * bm < rows,
                bm > 0,
        ;
        assert((i + 1) * bm == i * bm + bm) by (nonlinear_arith);
        while j < across
            invariant
                rows * cols == x.len(),
                rows * cols == y.len(),
                y.len() == old(y).len(),
                bm > 0,
                bn > 0,
                rows + bm <= usize::MAX,
                cols + bn <= usize::MAX,
                forall|a: F32| exp.requires((a,)),
                forall|v: &Vec<F32>| v.len() == bn ==> #[trigger] reduce_max.requires((v,)),
                forall|v: &Vec<F32>| v.len() == bn ==> #[trigger] reduce_sum.requires((v,)),
                across > 0 ==> (across - 1) * bn < cols,
                i * bm < rows,
                (i + 1) * bm == i * bm + bm,
                j <= across,
                forall|r2: int, j2: int|
                    0 <= r2 < rows && 0 <= j2 < across && visited(
                        bm as int,
                        i as int,
                        j as int,
                        0,
                        r2,
                        j2,
                    ) ==> #[trigger] tile_row_done(
                        exp,
                        reduce_max,
                        reduce_sum,
                        x@,
                        y@,
                        rows as int,
                        cols as int,
                        bn as int,
                        r2,
                        j2,
                    ),
            decreases across - j,
        {
            assert(j * bn < cols) by (nonlinear_arith)
                requires
                    j <= across - 1,
                    (across - 1) * bn < cols,
                    bn > 0,
            ;
            let mut a: usize = 0;
            while a < bm
                invariant
                    rows * cols == x.len(),
                    rows * cols == y.len(),
                    y.len() == old(y).len(),
                    bm > 0,
                    bn > 0,
                    rows + bm <= usize::MAX,
                    cols + bn <= usize::MAX,
                    forall|a: F32| exp.requires((a,)),
                    forall|v: &Vec<F32>| v.len() == bn ==> #[trigger] reduce_max.requires((v,)),
                    forall|v: &Vec<F32>| v.len() == bn ==> #[trigger] reduce_sum.requires((v,)),
                    i * bm < rows,
                    (i + 1) * bm == i * bm + bm,
                    j < across,
                    j * bn < cols,
                    a <= bm,
                    forall|r2: int, j2: int|
                        0 <= r2 < rows && 0 <= j2 < across && visited(
                            bm as int,
                            i as int,
                            j as int,
                            a as int,
                            r2,
                            j2,
                        ) ==> #[trigger] tile_row_done(
                            exp,
                            reduce_max,
                            reduce_sum,
                            x@,
                            y@,
                            rows as int,
                            cols as int,
                            bn as int,
                            r2,
                            j2,
                        ),
                decreases bm - a,
            {
                let r: usize = i * bm + a;
                if r < rows {
                    let ghost before = y@;
                    softmax_tile_row(x, y, rows, cols, bn, r, j, &exp, &reduce_max, &reduce_sum);
                    proof {
                        assert forall|r2: int, j2: int|
                            0 <= r2 < rows && 0 <= j2 < across && visited(
                                bm as int,
                                i as int,
                                j as int,
                                a as int,
                                r2,
                                j2,
                            ) implies #[trigger] tile_row_done(
                            exp,
                            reduce_max,
                            reduce_sum,
                            x@,
                            y@,
                            rows as int,
                            cols as int,
                            bn as int,
                            r2,
                            j2,
                        ) by {
                            assert(tile_row_done(
                                exp,
                                reduce_max,
                                reduce_sum,
                                x@,
                                before,
                                rows as int,
                                cols as int,
                                bn as int,
                                r2,
                                j2,
                            ));
                            if r2 == r && j2 == j {
                            } else {
                                if r2 == r {
                                    lemma_tiles_apart(bn as int, j as int, j2);
                                }
                                assert(j2 * bn >= 0) by (nonlinear_arith)
                                    requires
                                        j2 >= 0,
                                        bn > 0,
                                ;
                                lemma_tile_row_kept(
                                    exp,
                                    reduce_max,
                                    reduce_sum,
                                    x@,
                                    before,
                                    y@,
                                    rows as int,
                                    cols as int,
                                    bn as int,
                                    r2,
                                    j2,
                                );
                            }
                        }
                    }
                }
                a = a + 1;
            }
            j = j + 1;
        }
        i = i + 1;
    }
    proof {
        assert(down * bm >= rows);
    }
}

/// Different tile columns share no column.
proof fn lemma_tiles_apart(bn: int, j: int, j2: int)
    requires
        bn > 0,
        j != j2,
    ensures
        (j + 1) * bn <= j2 * bn || (j2 + 1) * bn <= j * bn,
{
    if j < j2 {
        assert((j + 1) * bn <= j2 * bn) by (nonlinear_arith)
            requires
                j + 1 <= j2,
                bn > 0,
        ;
    } else {
        assert((j2 + 1) * bn <= j * bn) by (nonlinear_arith)
            requires
                j2 + 1 <= j,
                bn > 0,
        ;
    }
}

/// Every element of the matrix is in one tile of the grid, and in no other.
pub proof fn law_tiles_cover(extent: int, size: int, at: int)
    requires
        size > 0,
        0 <= at < extent,
    ensures
        0 <= at / size < tiles(extent, size),
        (at / size) * size <= at < (at / size + 1) * size,
        forall|j: int| #![trigger j * size] j * size <= at < (j + 1) * size ==> j == at / size,
{
    let q: int = at / size;
    vstd::arithmetic::div_mod::lemma_fundamental_div_mod(at, size);
    assert(q * size == size * q && (q + 1) * size == size * q + size) by (nonlinear_arith);
    vstd::arithmetic::div_mod::lemma_div_pos_is_pos(at, size);
    let n: int = tiles(extent, size);
    vstd::arithmetic::div_mod::lemma_fundamental_div_mod(extent + size - 1, size);
    assert(q < n) by (nonlinear_arith)
        requires
            size * q <= at,
            at < extent,
            extent + size - 1 < size * n + size,
            size > 0,
    ;
    assert forall|j: int| #![trigger j * size] j * size <= at < (j + 1) * size implies j == q by {
        if j != q {
            lemma_tiles_apart(size, j, q);
        }
    }
}

/// A tile as wide as the matrix holds whole rows: only then is the softmax that of the rows.
pub proof fn law_whole_rows(x: Seq<F32>, rows: int, cols: int, r: int)
    requires
        cols > 0,
        0 <= r < rows,
        x.len() == rows * cols,
    ensures
        tiles(cols, cols) == 1,
        tile_row(x, rows, cols, cols, r, 0) == x.subrange(r * cols, (r + 1) * cols),
{
    assert((cols + cols - 1) / cols == 1) by (nonlinear_arith)
        requires
            cols > 0,
    ;
    assert((r + 1) * cols == r * cols + cols) by (nonlinear_arith);
    assert(0 <= r * cols && (r + 1) * cols <= rows * cols) by (nonlinear_arith)
        requires
            0 <= r,
            r + 1 <= rows,
            cols > 0,
    ;
    assert(tile_row(x, rows, cols, cols, r, 0) =~= x.subrange(r * cols, (r + 1) * cols));
}

} // verus!
