//! What every kernel and the reference reduce a row to: its maximum, and the sum of its exponentials.

use crate::binary32::F32;
use crate::max_laws;
use crate::pairs::Layout;
use crate::reference;
use crate::simt;
use crate::softmax::COLS;
use crate::softmax_laws;
use crate::sum_laws;
use vstd::prelude::*;

verus! {

/// `max` finds a maximum of every row without NaN.
pub open spec fn finds(max: spec_fn(Seq<F32>) -> F32) -> bool {
    forall|row: Seq<F32>|
        row.len() == COLS && max_laws::nan_free(row) ==> max_laws::is_maximum(
            #[trigger] max(row),
            row,
        )
}

/// `sum` adds up a row of moderate numbers, to the rounding of `d` additions.
pub open spec fn adds(sum: spec_fn(Seq<F32>) -> F32, d: int) -> bool {
    forall|e: Seq<F32>|
        e.len() == COLS && softmax_laws::all_count(e) && sum_laws::moderate(e)
            ==> softmax_laws::covers(#[trigger] sum(e), e) && sum_laws::close(
            sum(e),
            sum_laws::exact(e),
            d,
        )
}

/// The kernels and the reference find the maximum and add up.
pub proof fn law_kernels_reduce(layout: Layout)
    ensures
        finds(|row: Seq<F32>| simt::row_max(row)),
        finds(|row: Seq<F32>| layout.row_max(row)),
        finds(|row: Seq<F32>| reference::row_max(row)),
        adds(|e: Seq<F32>| simt::row_sum(e), 12),
        adds(|e: Seq<F32>| layout.row_sum(e), 12),
        adds(|e: Seq<F32>| reference::row_sum(e), 255),
{
    assert forall|row: Seq<F32>| row.len() == COLS && max_laws::nan_free(row) implies
        max_laws::is_maximum(#[trigger] simt::row_max(row), row) by {
        max_laws::law_row_max(row, layout);
    }
    assert forall|row: Seq<F32>| row.len() == COLS && max_laws::nan_free(row) implies
        max_laws::is_maximum(#[trigger] layout.row_max(row), row) by {
        max_laws::law_row_max(row, layout);
    }
    assert forall|row: Seq<F32>| row.len() == COLS && max_laws::nan_free(row) implies
        max_laws::is_maximum(#[trigger] reference::row_max(row), row) by {
        max_laws::law_row_max(row, layout);
    }
    assert forall|e: Seq<F32>|
        e.len() == COLS && softmax_laws::all_count(e) && sum_laws::moderate(e) implies
        softmax_laws::covers(#[trigger] simt::row_sum(e), e) && sum_laws::close(
        simt::row_sum(e),
        sum_laws::exact(e),
        12,
    ) by {
        softmax_laws::law_row_sum_covers(e, layout);
        sum_laws::law_simt_sum(e);
    }
    assert forall|e: Seq<F32>|
        e.len() == COLS && softmax_laws::all_count(e) && sum_laws::moderate(e) implies
        softmax_laws::covers(#[trigger] layout.row_sum(e), e) && sum_laws::close(
        layout.row_sum(e),
        sum_laws::exact(e),
        12,
    ) by {
        softmax_laws::law_row_sum_covers(e, layout);
        sum_laws::law_pairs_sum(layout, e);
        softmax_laws::lemma_exact_counts(e);
        sum_laws::law_close_weaker(layout.row_sum(e), sum_laws::exact(e), 9, 12);
    }
    assert forall|e: Seq<F32>|
        e.len() == COLS && softmax_laws::all_count(e) && sum_laws::moderate(e) implies
        softmax_laws::covers(#[trigger] reference::row_sum(e), e) && sum_laws::close(
        reference::row_sum(e),
        sum_laws::exact(e),
        255,
    ) by {
        softmax_laws::law_row_sum_covers(e, layout);
        sum_laws::law_reference_sum(e);
    }
}

} // verus!
