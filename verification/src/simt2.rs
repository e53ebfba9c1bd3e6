//! Two elements per thread, half a row apart: neighbouring threads take neighbouring elements.

use crate::binary32::F32;
use crate::pairs::Layout;
use crate::softmax;
use crate::softmax::COLS;
use vstd::prelude::*;

verus! {

/// The softmax of `rows` rows: block `r` takes row `r`. Elements of `y` past the last row keep
/// their values.
pub fn softmax_rows<E: Fn(F32) -> F32>(x: &Vec<F32>, y: &mut Vec<F32>, rows: usize, exp: E)
    requires
        rows * COLS <= x.len(),
        rows * COLS <= old(y).len(),
        forall|a: F32| exp.requires((a,)),
    ensures
        final(y).len() == old(y).len(),
        softmax::rows_done(
            exp,
            x@,
            |row: Seq<F32>| Layout::Strided.row_max(row),
            |e: Seq<F32>| Layout::Strided.row_sum(e),
            final(y)@,
            rows as int,
        ),
        forall|i: int| rows * COLS <= i < old(y).len() ==> final(y)@[i] == old(y)@[i],
{
    Layout::Strided.softmax_rows(x, y, rows, exp)
}

} // verus!
