//! The sequential softmax that the kernels are compared with.

use crate::binary32::F32;
use crate::binary32::NEG_INFINITY;
use crate::binary32::ZERO;
use crate::fold;
use crate::softmax;
use crate::softmax::COLS;
use crate::softmax::ROWS;
use vstd::prelude::*;

verus! {

/// The maximum of a row, passing over NaN.
pub open spec fn row_max(row: Seq<F32>) -> F32 {
    fold::running_larger(F32 { bits: NEG_INFINITY }, row, row.len())
}

/// The sum of a row of exponentials, from the first to the last.
pub open spec fn row_sum(e: Seq<F32>) -> F32 {
    fold::running_sum(e, e.len())
}

/// The arguments of the exponential for row `row`: every number less the maximum.
fn arguments(x: &Vec<F32>, row: usize) -> (args: Vec<F32>)
    requires
        (row + 1) * COLS <= x.len(),
    ensures
        args@ == softmax::shifted(
            softmax::row_of(x@, row as int),
            row_max(softmax::row_of(x@, row as int)),
        ),
{
    let ghost row_x = softmax::row_of(x@, row as int);
    let mut v: Vec<F32> = Vec::with_capacity(COLS);
    let mut c: usize = 0;
    while c < COLS
        invariant
            (row + 1) * COLS <= x.len(),
            c <= COLS,
            row_x == softmax::row_of(x@, row as int),
            v@ == row_x.take(c as int),
        decreases COLS - c,
    {
        v.push(x[row * COLS + c]);
        c = c + 1;
        assert(v@ =~= row_x.take(c as int));
    }
    assert(v@ =~= row_x);
    let max = fold::larger_of(F32 { bits: NEG_INFINITY }, &v);
    softmax::shift(&v, max)
}

/// The softmax of the first `ROWS` rows. What follows them in `x` is zero in the result.
pub fn softmax_cpu<E: Fn(F32) -> F32>(x: &Vec<F32>, exp: E) -> (out: Vec<F32>)
    requires
        ROWS * COLS <= x.len(),
        forall|a: F32| exp.requires((a,)),
    ensures
        out.len() == x.len(),
        softmax::rows_done(
            exp,
            x@,
            |row: Seq<F32>| row_max(row),
            |e: Seq<F32>| row_sum(e),
            out@,
            ROWS as int,
        ),
        forall|i: int| ROWS * COLS <= i < x.len() ==> out@[i] == (F32 { bits: ZERO }),
{
    let ghost max = |row: Seq<F32>| row_max(row);
    let ghost sum = |e: Seq<F32>| row_sum(e);
    let mut out: Vec<F32> = vec![F32 { bits: ZERO }; x.len()];
    let mut row: usize = 0;
    while row < ROWS
        invariant
            ROWS * COLS <= x.len(),
            forall|a: F32| exp.requires((a,)),
            row <= ROWS,
            out.len() == x.len(),
            max == (|row: Seq<F32>| row_max(row)),
            sum == (|e: Seq<F32>| row_sum(e)),
            softmax::rows_done(exp, x@, max, sum, out@, row as int),
            forall|i: int| row * COLS <= i < x.len() ==> out@[i] == (F32 { bits: ZERO }),
        decreases ROWS - row,
    {
        let args = arguments(x, row);
        let e = softmax::answer(&exp, &args);
        let total = fold::sum_of(&e);
        let ghost before = out@;
        let ghost quotients = softmax::scaled(e@, total);
        let mut c: usize = 0;
        while c < COLS
            invariant
                (row + 1) * COLS <= x.len(),
                c <= COLS,
                e.len() == COLS,
                quotients == softmax::scaled(e@, total),
                out.len() == x.len(),
                before.len() == x.len(),
                forall|d: int| 0 <= d < c ==> out@[row * COLS + d] == #[trigger] quotients[d],
                forall|i: int|
                    0 <= i < x.len() && !(row * COLS <= i < (row + 1) * COLS) ==> out@[i]
                        == before[i],
            decreases COLS - c,
        {
            out.set(row * COLS + c, e[c].div(total));
            c = c + 1;
        }
        proof {
            softmax::lemma_next_row(exp, x@, max, sum, before, out@, row as int, e@);
            assert forall|i: int| (row + 1) * COLS <= i < x.len() implies out@[i] == (F32 {
                bits: ZERO,
            }) by {
                assert(out@[i] == before[i]);
            }
        }
        row = row + 1;
    }
    out
}

} // verus!
