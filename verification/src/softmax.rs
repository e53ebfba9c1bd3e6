//! The four steps of a row's softmax: its maximum, the exponentials of the distances to it, their
//! sum, and the quotients. The kernels differ in how they find the maximum and the sum.
//!
//! The exponential itself is the caller's: it comes in as a function, and the contracts speak of
//! whatever that function answers.

use crate::arith;
use crate::binary32::F32;
use vstd::prelude::*;

verus! {

/// Columns of the matrix.
pub const COLS: usize = 256;

/// Rows of the matrix.
pub const ROWS: usize = 4096;

/// Row `r` of a matrix that is stored row after row.
pub open spec fn row_of(x: Seq<F32>, r: int) -> Seq<F32> {
    x.subrange(r * COLS, (r + 1) * COLS)
}

/// The arguments of the exponential: every number less the maximum.
pub open spec fn shifted(row: Seq<F32>, max: F32) -> Seq<F32> {
    Seq::new(row.len(), |c: int| arith::difference(row[c], max))
}

/// The exponentials, each divided by their sum.
pub open spec fn scaled(e: Seq<F32>, sum: F32) -> Seq<F32> {
    Seq::new(e.len(), |c: int| arith::quotient(e[c], sum))
}

/// `e` is what the exponential may answer on `args`, one by one.
pub open spec fn answers<E: Fn(F32) -> F32>(exp: E, args: Seq<F32>, e: Seq<F32>) -> bool {
    &&& e.len() == args.len()
    &&& forall|c: int| 0 <= c < args.len() ==> exp.ensures((args[c],), #[trigger] e[c])
}

/// `y` after one thread has written `v` as element `i`, which it does only where `y` has that element.
pub open spec fn written(y: Seq<F32>, i: int, v: F32) -> Seq<F32> {
    if 0 <= i < y.len() {
        y.update(i, v)
    } else {
        y
    }
}

/// `y` holds `out` from `start` on, as far as `y` reaches.
pub open spec fn holds(y: Seq<F32>, start: int, out: Seq<F32>) -> bool {
    forall|c: int| 0 <= c < out.len() && start + c < y.len() ==> y[start + c] == #[trigger] out[c]
}

/// `y` holds, from `start` on, the softmax of `row`, whose maximum is `max` and whose exponentials
/// `sum` adds up.
pub open spec fn row_done<E: Fn(F32) -> F32>(
    exp: E,
    row: Seq<F32>,
    max: F32,
    sum: spec_fn(Seq<F32>) -> F32,
    y: Seq<F32>,
    start: int,
) -> bool {
    exists|e: Seq<F32>| #[trigger]
        answers(exp, shifted(row, max), e) && holds(y, start, scaled(e, sum(e)))
}

/// `y` holds the softmax of the first `rows` rows of `x`, where `max` finds the maximum of a row
/// and `sum` adds up its exponentials.
pub open spec fn rows_done<E: Fn(F32) -> F32>(
    exp: E,
    x: Seq<F32>,
    max: spec_fn(Seq<F32>) -> F32,
    sum: spec_fn(Seq<F32>) -> F32,
    y: Seq<F32>,
    rows: int,
) -> bool {
    forall|r: int|
        0 <= r < rows ==> row_done(
            exp,
            #[trigger] row_of(x, r),
            max(row_of(x, r)),
            sum,
            y,
            r * COLS,
        )
}

/// Writing one more row leaves the rows before it done.
pub proof fn lemma_next_row<E: Fn(F32) -> F32>(
    exp: E,
    x: Seq<F32>,
    max: spec_fn(Seq<F32>) -> F32,
    sum: spec_fn(Seq<F32>) -> F32,
    before: Seq<F32>,
    after: Seq<F32>,
    row: int,
    e: Seq<F32>,
)
    requires
        0 <= row,
        (row + 1) * COLS <= x.len(),
        rows_done(exp, x, max, sum, before, row),
        answers(exp, shifted(row_of(x, row), max(row_of(x, row))), e),
        holds(after, row * COLS, scaled(e, sum(e))),
        before.len() == after.len(),
        forall|i: int|
            0 <= i < before.len() && !(row * COLS <= i < (row + 1) * COLS) ==> after[i]
                == before[i],
    ensures
        rows_done(exp, x, max, sum, after, row + 1),
{
    assert forall|r: int| 0 <= r < row + 1 implies row_done(
        exp,
        #[trigger] row_of(x, r),
        max(row_of(x, r)),
        sum,
        after,
        r * COLS,
    ) by {
        if r < row {
            let there = row_of(x, r);
            assert(row_done(exp, there, max(there), sum, before, r * COLS));
            let d = choose|d: Seq<F32>| #[trigger]
                answers(exp, shifted(there, max(there)), d) && holds(
                    before,
                    r * COLS,
                    scaled(d, sum(d)),
                );
            let out = scaled(d, sum(d));
            assert forall|c: int| 0 <= c < out.len() && r * COLS + c < after.len() implies after[r
                * COLS + c] == #[trigger] out[c] by {
                assert(before[r * COLS + c] == out[c]);
            }
            assert(holds(after, r * COLS, out));
        }
    }
}

/// Every number less the maximum.
pub fn shift(row: &Vec<F32>, max: F32) -> (args: Vec<F32>)
    ensures
        args@ == shifted(row@, max),
{
    let mut args: Vec<F32> = Vec::with_capacity(row.len());
    let mut c: usize = 0;
    while c < row.len()
        invariant
            c <= row.len(),
            args@ == shifted(row@, max).take(c as int),
        decreases row.len() - c,
    {
        args.push(row[c].sub(max));
        c = c + 1;
        assert(args@ =~= shifted(row@, max).take(c as int));
    }
    assert(args@ =~= shifted(row@, max));
    args
}

/// The exponential of every number.
pub fn answer<E: Fn(F32) -> F32>(exp: &E, args: &Vec<F32>) -> (e: Vec<F32>)
    requires
        forall|a: F32| exp.requires((a,)),
    ensures
        answers(*exp, args@, e@),
{
    let mut e: Vec<F32> = Vec::with_capacity(args.len());
    let mut c: usize = 0;
    while c < args.len()
        invariant
            forall|a: F32| exp.requires((a,)),
            c <= args.len(),
            e.len() == c,
            forall|i: int| 0 <= i < c ==> exp.ensures((args@[i],), #[trigger] e@[i]),
        decreases args.len() - c,
    {
        e.push(exp(args[c]));
        c = c + 1;
    }
    e
}

} // verus!
