//! One thread per element: a block of 256 threads takes one row, and the flat index of a thread is
//! the index of its element.

use crate::arith;
use crate::binary32::F32;
use crate::block;
use crate::softmax;
use crate::softmax::COLS;
use vstd::prelude::*;

verus! {

/// Warps in a block.
pub const WARPS: usize = 8;

/// The maximum of a row, as the block finds it.
pub open spec fn row_max(row: Seq<F32>) -> F32 {
    block::maximum(row)
}

/// The sum of a row of exponentials, as the block adds it up.
pub open spec fn row_sum(e: Seq<F32>) -> F32 {
    block::total(e)
}

/// The flat index of thread `tid` of block `row`.
pub fn index_1d(row: usize, tid: usize) -> (r: usize)
    requires
        row * COLS + tid <= usize::MAX,
    ensures
        r == row * COLS + tid,
{
    row * COLS + tid
}

/// Up to the exponential: every thread loads its element, and the block finds the maximum.
pub fn arguments(x: &Vec<F32>, row: usize) -> (args: Vec<F32>)
    requires
        (row + 1) * COLS <= x.len(),
    ensures
        args@ == softmax::shifted(
            softmax::row_of(x@, row as int),
            row_max(softmax::row_of(x@, row as int)),
        ),
{
    let ghost row_x = softmax::row_of(x@, row as int);
    let mut v: Vec<F32> = Vec::with_capacity(COLS);
    let mut tid: usize = 0;
    while tid < COLS
        invariant
            (row + 1) * COLS <= x.len(),
            tid <= COLS,
            row_x == softmax::row_of(x@, row as int),
            v@ == row_x.take(tid as int),
        decreases COLS - tid,
    {
        v.push(x[index_1d(row, tid)]);
        tid = tid + 1;
        assert(v@ =~= row_x.take(tid as int));
    }
    assert(v@ =~= row_x);
    let max = block::reduce_max(&v);
    softmax::shift(&v, max)
}

/// Thread `tid` of block `row` writes its quotient, if `y` has its element.
pub fn store(e: &Vec<F32>, sum: F32, row: usize, tid: usize, y: &mut Vec<F32>)
    requires
        tid < e.len(),
        row * COLS + tid <= usize::MAX,
    ensures
        final(y)@ == softmax::written(
            old(y)@,
            row * COLS + tid,
            arith::quotient(e@[tid as int], sum),
        ),
{
    let gid: usize = index_1d(row, tid);
    if gid < y.len() {
        y.set(gid, e[tid].div(sum));
    }
}

/// From the exponential on: the block adds up the exponentials, and every thread whose element
/// `y` has writes its quotient.
pub fn normalize(e: &Vec<F32>, row: usize, y: &mut Vec<F32>)
    requires
        e.len() == COLS,
        (row + 1) * COLS <= usize::MAX,
    ensures
        final(y).len() == old(y).len(),
        softmax::holds(final(y)@, row * COLS, softmax::scaled(e@, row_sum(e@))),
        forall|i: int|
            0 <= i < old(y).len() && !(row * COLS <= i < (row + 1) * COLS) ==> final(y)@[i] == old(
                y,
            )@[i],
{
    let sum = block::reduce_sum(e);
    let ghost out = softmax::scaled(e@, row_sum(e@));
    let mut tid: usize = 0;
    while tid < COLS
        invariant
            e.len() == COLS,
            (row + 1) * COLS <= usize::MAX,
            tid <= COLS,
            sum == row_sum(e@),
            out == softmax::scaled(e@, row_sum(e@)),
            y.len() == old(y).len(),
            forall|c: int| 0 <= c < tid && row * COLS + c < y.len() ==> y@[row * COLS + c]
                == #[trigger] out[c],
            forall|i: int|
                0 <= i < y.len() && !(row * COLS <= i < (row + 1) * COLS) ==> y@[i] == old(y)@[i],
        decreases COLS - tid,
    {
        store(e, sum, row, tid, y);
        tid = tid + 1;
    }
}

/// The softmax of `rows` rows: block `r` takes row `r`. Elements past the end of `y` are not
/// written, elements of `y` past the last row keep their values.
pub fn softmax_rows<E: Fn(F32) -> F32>(x: &Vec<F32>, y: &mut Vec<F32>, rows: usize, exp: E)
    requires
        rows * COLS <= x.len(),
        forall|a: F32| exp.requires((a,)),
    ensures
        final(y).len() == old(y).len(),
        softmax::rows_done(
            exp,
            x@,
            |row: Seq<F32>| row_max(row),
            |e: Seq<F32>| row_sum(e),
            final(y)@,
            rows as int,
        ),
        forall|i: int| rows * COLS <= i < old(y).len() ==> final(y)@[i] == old(y)@[i],
{
    let ghost max = |row: Seq<F32>| row_max(row);
    let ghost sum = |e: Seq<F32>| row_sum(e);
    let mut row: usize = 0;
    while row < rows
        invariant
            rows * COLS <= x.len(),
            forall|a: F32| exp.requires((a,)),
            row <= rows,
            y.len() == old(y).len(),
            max == (|row: Seq<F32>| row_max(row)),
            sum == (|e: Seq<F32>| row_sum(e)),
            softmax::rows_done(exp, x@, max, sum, y@, row as int),
            forall|i: int| row * COLS <= i < y.len() ==> y@[i] == old(y)@[i],
        decreases rows - row,
    {
        let args = arguments(x, row);
        let e = softmax::answer(&exp, &args);
        let ghost before = y@;
        normalize(&e, row, y);
        proof {
            softmax::lemma_next_row(exp, x@, max, sum, before, y@, row as int, e@);
        }
        row = row + 1;
    }
}

} // verus!
