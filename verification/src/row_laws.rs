//! What the steps of a row mean, element by element.

use crate::arith;
use crate::binary32::F32;
use crate::simt3;
use crate::softmax;
use crate::softmax::COLS;
use vstd::prelude::*;

verus! {

/// Row `r` of a matrix of 256 columns is made of the 256 elements from `256 * r` on.
pub proof fn law_row_of(x: Seq<F32>, r: int, c: int)
    requires
        0 <= r,
        256 * r + 256 <= x.len(),
        0 <= c < 256,
    ensures
        softmax::row_of(x, r).len() == 256,
        softmax::row_of(x, r)[c] == x[256 * r + c],
{
}

/// Shifting takes the maximum from every number, scaling divides every number by the sum, and neither
/// moves or drops any.
pub proof fn law_steps(s: Seq<F32>, v: F32, c: int)
    requires
        0 <= c < s.len(),
    ensures
        softmax::shifted(s, v).len() == s.len(),
        softmax::shifted(s, v)[c] == arith::difference(s[c], v),
        softmax::scaled(s, v).len() == s.len(),
        softmax::scaled(s, v)[c] == arith::quotient(s[c], v),
{
}

/// Every answer is one that the exponential may give on its own argument.
pub proof fn law_answers<E: Fn(F32) -> F32>(exp: E, args: Seq<F32>, e: Seq<F32>, c: int)
    requires
        softmax::answers(exp, args, e),
        0 <= c < args.len(),
    ensures
        e.len() == args.len(),
        exp.ensures((args[c],), e[c]),
{
    assert(exp.ensures((args[c],), e[c]));
}

/// What an output holds from some place on is there element by element, as far as the output reaches.
pub proof fn law_holds(y: Seq<F32>, start: int, out: Seq<F32>)
    requires
        0 <= start,
    ensures
        softmax::holds(y, start, out) <==> forall|i: int|
            start <= i < y.len() && i - start < out.len() ==> #[trigger] y[i] == out[i - start],
{
    if softmax::holds(y, start, out) {
        assert forall|i: int| start <= i < y.len() && i - start < out.len() implies #[trigger] y[i]
            == out[i - start] by {
            let c: int = i - start;
            assert(y[start + c] == out[c]);
        }
    } else {
        let c = choose|c: int|
            0 <= c < out.len() && start + c < y.len() && y[start + c] != #[trigger] out[c];
        assert(y[start + c] != out[start + c - start]);
    }
}

/// A write changes the element that it is for, if there is one, and no other.
pub proof fn law_written(y: Seq<F32>, i: int, v: F32, k: int)
    requires
        0 <= k < y.len(),
    ensures
        softmax::written(y, i, v).len() == y.len(),
        softmax::written(y, i, v)[k] == if k == i {
            v
        } else {
            y[k]
        },
{
}

/// In a row that is done, every element that the output has is the exponential of its number less the
/// row's maximum, over the sum of the row's exponentials.
pub proof fn law_row_meaning<E: Fn(F32) -> F32>(
    exp: E,
    x: Seq<F32>,
    max: spec_fn(Seq<F32>) -> F32,
    sum: spec_fn(Seq<F32>) -> F32,
    y: Seq<F32>,
    rows: int,
    r: int,
) -> (e: Seq<F32>)
    requires
        softmax::rows_done(exp, x, max, sum, y, rows),
        0 <= r < rows,
        256 * r + 256 <= x.len(),
    ensures
        e.len() == 256,
        forall|c: int|
            0 <= c < 256 ==> exp.ensures(
                (arith::difference(x[256 * r + c], max(x.subrange(256 * r, 256 * r + 256))),),
                #[trigger] e[c],
            ),
        forall|c: int|
            0 <= c < 256 && 256 * r + c < y.len() ==> y[256 * r + c] == arith::quotient(
                #[trigger] e[c],
                sum(e),
            ),
{
    let row = softmax::row_of(x, r);
    assert(row =~= x.subrange(256 * r, 256 * r + 256));
    assert(softmax::row_done(exp, row, max(row), sum, y, r * COLS));
    let e = choose|e: Seq<F32>| #[trigger]
        softmax::answers(exp, softmax::shifted(row, max(row)), e) && softmax::holds(
            y,
            r * COLS,
            softmax::scaled(e, sum(e)),
        );
    let args = softmax::shifted(row, max(row));
    assert forall|c: int| 0 <= c < 256 implies exp.ensures(
        (arith::difference(x[256 * r + c], max(x.subrange(256 * r, 256 * r + 256))),),
        #[trigger] e[c],
    ) by {
        assert(args[c] == arith::difference(row[c], max(row)));
    }
    assert forall|c: int| 0 <= c < 256 && 256 * r + c < y.len() implies y[256 * r + c]
        == arith::quotient(#[trigger] e[c], sum(e)) by {
        assert(y[r * COLS + c] == softmax::scaled(e, sum(e))[c]);
    }
    e
}

/// What is done stays done on fewer rows, and a row is done on its own: being done says the same of
/// every row.
pub proof fn law_rows_apart<E: Fn(F32) -> F32>(
    exp: E,
    x: Seq<F32>,
    max: spec_fn(Seq<F32>) -> F32,
    sum: spec_fn(Seq<F32>) -> F32,
    y: Seq<F32>,
    rows: int,
    r: int,
)
    requires
        softmax::rows_done(exp, x, max, sum, y, rows),
        0 <= r < rows,
        256 * rows <= x.len(),
        256 * rows <= y.len(),
    ensures
        softmax::rows_done(exp, softmax::row_of(x, r), max, sum, softmax::row_of(y, r), 1),
{
    let row = softmax::row_of(x, r);
    let out = softmax::row_of(y, r);
    assert(softmax::row_done(exp, row, max(row), sum, y, r * COLS));
    let e = choose|e: Seq<F32>| #[trigger]
        softmax::answers(exp, softmax::shifted(row, max(row)), e) && softmax::holds(
            y,
            r * COLS,
            softmax::scaled(e, sum(e)),
        );
    let q = softmax::scaled(e, sum(e));
    assert(softmax::row_of(row, 0) =~= row);
    assert forall|c: int| 0 <= c < q.len() && 0 * COLS + c < out.len() implies out[0 * COLS + c]
        == #[trigger] q[c] by {
        assert(y[r * COLS + c] == q[c]);
    }
    assert(softmax::holds(out, 0 * COLS, q));
    assert(softmax::row_done(exp, row, max(row), sum, out, 0 * COLS));
}

/// Of the rows that are launched, side by side, every one that lies wholly in the output is done.
pub proof fn law_rows_in_output<E: Fn(F32) -> F32>(
    exp: E,
    x: Seq<F32>,
    max: spec_fn(Seq<F32>) -> F32,
    sum: spec_fn(Seq<F32>) -> F32,
    y: Seq<F32>,
    rows: int,
    r: int,
) -> (e: Seq<F32>)
    requires
        softmax::rows_done(exp, x, max, sum, y, simt3::kept(rows, y.len() as int)),
        0 <= r < rows,
        256 * r + 256 <= y.len(),
        256 * r + 256 <= x.len(),
    ensures
        e.len() == 256,
        forall|c: int|
            0 <= c < 256 ==> exp.ensures(
                (arith::difference(x[256 * r + c], max(x.subrange(256 * r, 256 * r + 256))),),
                #[trigger] e[c],
            ),
        forall|c: int|
            0 <= c < 256 ==> y[256 * r + c] == arith::quotient(#[trigger] e[c], sum(e)),
{
    simt3::law_kept(rows, y.len() as int, r);
    law_row_meaning(exp, x, max, sum, y, simt3::kept(rows, y.len() as int), r)
}

} // verus!
