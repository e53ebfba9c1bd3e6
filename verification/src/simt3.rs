//! Two elements per thread, side by side: every thread owns one run of the output.

use crate::binary32::F32;
use crate::pairs::Layout;
use crate::softmax;
use crate::softmax::COLS;
use vstd::prelude::*;

verus! {

/// How many of `rows` launched rows an output of `len` elements holds. A thread whose run is not in
/// the output returns at once; where the output ends between two rows, all threads of a block do,
/// or none.
pub open spec fn kept(rows: int, len: int) -> int {
    if rows * COLS <= len {
        rows
    } else {
        len / (COLS as int)
    }
}

/// Every launched row that lies wholly in the output is kept, and no other.
pub proof fn law_kept(rows: int, len: int, r: int)
    requires
        0 <= rows,
        0 <= len,
        0 <= r,
    ensures
        r < kept(rows, len) <==> r < rows && (r + 1) * 256 <= len,
        rows * 256 <= len ==> kept(rows, len) == rows,
        0 <= kept(rows, len) <= rows,
{
}

/// The softmax of the rows that `y` holds, of `rows` launched: block `r` takes row `r`. Blocks past
/// the end of `y` read and write nothing, elements of `y` past the last row keep their values.
pub fn softmax_rows<E: Fn(F32) -> F32>(x: &Vec<F32>, y: &mut Vec<F32>, rows: usize, exp: E)
    requires
        rows * COLS <= usize::MAX,
        rows * COLS <= old(y).len() || old(y).len() % COLS == 0,
        kept(rows as int, old(y).len() as int) * COLS <= x.len(),
        forall|a: F32| exp.requires((a,)),
    ensures
        final(y).len() == old(y).len(),
        softmax::rows_done(
            exp,
            x@,
            |row: Seq<F32>| Layout::Contiguous.row_max(row),
            |e: Seq<F32>| Layout::Contiguous.row_sum(e),
            final(y)@,
            kept(rows as int, old(y).len() as int),
        ),
        forall|i: int|
            kept(rows as int, old(y).len() as int) * COLS <= i < old(y).len() ==> final(y)@[i]
                == old(y)@[i],
        forall|r: int|
            0 <= r < rows && (r + 1) * COLS <= old(y).len() ==> softmax::row_done(
                exp,
                #[trigger] softmax::row_of(x@, r),
                Layout::Contiguous.row_max(softmax::row_of(x@, r)),
                |e: Seq<F32>| Layout::Contiguous.row_sum(e),
                final(y)@,
                r * COLS,
            ),
        forall|i: int| rows * COLS <= i < old(y).len() ==> final(y)@[i] == old(y)@[i],
{
    let held: usize = if rows * COLS <= y.len() {
        rows
    } else {
        y.len() / COLS
    };
    Layout::Contiguous.softmax_rows(x, y, held, exp)
}

} // verus!
