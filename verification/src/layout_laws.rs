//! Which thread takes which element, over the whole grid, and what that means for memory.

use crate::arith;
use crate::binary32::F32;
use crate::block;
use crate::pairs;
use crate::pairs::Layout;
use crate::pairs::PER;
use crate::pairs::TPB;
use crate::simt;
use crate::softmax;
use crate::softmax::COLS;
use crate::warp::Reduction;
use crate::warp::LANES;
use vstd::prelude::*;

verus! {

/// Elements in a memory sector of 32 bytes.
pub const SECTOR: usize = 8;

/// The element that thread `tid` of block `row` takes, one thread per element.
pub open spec fn single_element(row: int, tid: int) -> int {
    row * COLS + tid
}

/// The element that thread `tid` of block `row` takes in its step `k`.
pub open spec fn pair_element(layout: Layout, row: int, tid: int, k: int) -> int {
    row * COLS + layout.column(tid, k)
}

/// The sizes fit together: a block covers a row, and its warps have one slot each.
pub proof fn law_sizes(op: Reduction, single: Seq<F32>, paired: Seq<F32>)
    requires
        single.len() == COLS,
        paired.len() == TPB,
    ensures
        TPB * PER == COLS,
        block::slots(op, single).len() == simt::WARPS,
        block::slots(op, paired).len() == pairs::WARPS,
{
}

/// One thread per element: the grid takes every element of `rows` rows, each by one thread.
pub proof fn law_single_partition(rows: int, row: int, tid: int, i: int)
    requires
        0 <= row < rows,
        0 <= tid < COLS,
        0 <= i < rows * COLS,
    ensures
        0 <= single_element(row, tid) < rows * COLS,
        single_element(row, tid) / (COLS as int) == row,
        single_element(row, tid) % (COLS as int) == tid,
        0 <= i / (COLS as int) < rows,
        single_element(i / (COLS as int), i % (COLS as int)) == i,
{
}

/// Several elements per thread: the grid takes every element of `rows` rows, each by one thread in
/// one step, so no two threads ever write the same element.
pub proof fn law_pair_partition(layout: Layout, rows: int, row: int, tid: int, k: int, i: int)
    requires
        0 <= row < rows,
        0 <= tid < TPB,
        0 <= k < PER,
        0 <= i < rows * COLS,
    ensures
        ({
            let e = pair_element(layout, row, tid, k);
            let c = i % (COLS as int);
            &&& 0 <= e < rows * COLS
            &&& e / (COLS as int) == row
            &&& layout.owner(e % (COLS as int)) == tid
            &&& layout.step(e % (COLS as int)) == k
            &&& 0 <= i / (COLS as int) < rows
            &&& 0 <= layout.owner(c) < TPB
            &&& 0 <= layout.step(c) < PER
            &&& pair_element(layout, i / (COLS as int), layout.owner(c), layout.step(c)) == i
        }),
{
    layout.law_columns_partition(tid, k, i % (COLS as int));
}

/// The output after the first `n` of some writes have landed: element `elements[j]` is written `j`th,
/// and gets its result.
pub open spec fn landed(
    result: spec_fn(int) -> F32,
    before: Seq<F32>,
    elements: Seq<int>,
    n: nat,
) -> Seq<F32>
    decreases n,
{
    if n == 0 {
        before
    } else {
        softmax::written(
            landed(result, before, elements, (n - 1) as nat),
            elements[n - 1],
            result(elements[n - 1]),
        )
    }
}

/// The output once every element of `rows` rows has its result.
pub open spec fn settled(result: spec_fn(int) -> F32, before: Seq<F32>, rows: int) -> Seq<F32> {
    Seq::new(
        before.len(),
        |i: int|
            if i < rows * COLS {
                result(i)
            } else {
                before[i]
            },
    )
}

/// The quotient that belongs to element `i`, where `e` are the exponentials of each row.
pub open spec fn results(e: spec_fn(int) -> Seq<F32>, sum: spec_fn(Seq<F32>) -> F32) -> spec_fn(
    int,
) -> F32 {
    |i: int|
        arith::quotient(
            e(i / (COLS as int))[i % (COLS as int)],
            sum(e(i / (COLS as int))),
        )
}

proof fn lemma_landed(
    result: spec_fn(int) -> F32,
    before: Seq<F32>,
    elements: Seq<int>,
    n: nat,
    rows: int,
)
    requires
        n <= elements.len(),
        forall|j: int| 0 <= j < elements.len() ==> 0 <= #[trigger] elements[j] < rows * COLS,
    ensures
        landed(result, before, elements, n).len() == before.len(),
        forall|i: int, j: int|
            0 <= i < before.len() && 0 <= j < n && #[trigger] elements[j] == i ==> (
            #[trigger] landed(result, before, elements, n)[i]) == result(i),
        forall|i: int|
            rows * COLS <= i < before.len() ==> (#[trigger] landed(result, before, elements, n)[i])
                == before[i],
    decreases n,
{
    if n > 0 {
        lemma_landed(result, before, elements, (n - 1) as nat, rows);
        assert(0 <= elements[n - 1] < rows * COLS);
    }
}

/// In whatever order the elements of `rows` rows are written, the output is the same.
proof fn lemma_any_order(
    result: spec_fn(int) -> F32,
    before: Seq<F32>,
    elements: Seq<int>,
    rows: int,
)
    requires
        forall|j: int| 0 <= j < elements.len() ==> 0 <= #[trigger] elements[j] < rows * COLS,
        forall|i: int| 0 <= i < rows * COLS ==> #[trigger] elements.contains(i),
    ensures
        landed(result, before, elements, elements.len()) == settled(result, before, rows),
{
    let after = landed(result, before, elements, elements.len());
    lemma_landed(result, before, elements, elements.len(), rows);
    assert forall|i: int| 0 <= i < after.len() implies after[i] == settled(result, before, rows)[i] by {
        if i < rows * COLS {
            assert(elements.contains(i));
            let j = choose|j: int| 0 <= j < elements.len() && elements[j] == i;
            assert(elements[j] == i);
        }
    }
    assert(after =~= settled(result, before, rows));
}

/// Once every element has its result, the rows are done.
proof fn lemma_settled_done<E: Fn(F32) -> F32>(
    exp: E,
    x: Seq<F32>,
    max: spec_fn(Seq<F32>) -> F32,
    sum: spec_fn(Seq<F32>) -> F32,
    e: spec_fn(int) -> Seq<F32>,
    before: Seq<F32>,
    rows: int,
)
    requires
        rows * COLS <= x.len(),
        forall|r: int|
            0 <= r < rows ==> softmax::answers(
                exp,
                softmax::shifted(
                    #[trigger] softmax::row_of(x, r),
                    max(softmax::row_of(x, r)),
                ),
                e(r),
            ),
    ensures
        softmax::rows_done(exp, x, max, sum, settled(results(e, sum), before, rows), rows),
{
    let after = settled(results(e, sum), before, rows);
    assert forall|r: int| 0 <= r < rows implies softmax::row_done(
        exp,
        #[trigger] softmax::row_of(x, r),
        max(softmax::row_of(x, r)),
        sum,
        after,
        r * COLS,
    ) by {
        let row = softmax::row_of(x, r);
        let out = softmax::scaled(e(r), sum(e(r)));
        assert(softmax::answers(exp, softmax::shifted(row, max(row)), e(r)));
        assert forall|c: int| 0 <= c < out.len() && r * COLS + c < after.len() implies after[r * COLS
            + c] == #[trigger] out[c] by {
            let i: int = r * COLS + c;
            vstd::arithmetic::div_mod::lemma_fundamental_div_mod_converse(i, COLS as int, r, c);
        }
        assert(softmax::holds(after, r * COLS, out));
    }
}

/// One thread per element: in whatever order the threads of the grid come to write, each as
/// [`simt::store`] does, the output is the same, and its rows are done.
pub proof fn law_single_schedule<E: Fn(F32) -> F32>(
    exp: E,
    x: Seq<F32>,
    e: spec_fn(int) -> Seq<F32>,
    before: Seq<F32>,
    rows: int,
    schedule: Seq<(int, int)>,
)
    requires
        rows * COLS <= x.len(),
        forall|r: int|
            0 <= r < rows ==> softmax::answers(
                exp,
                softmax::shifted(
                    #[trigger] softmax::row_of(x, r),
                    simt::row_max(softmax::row_of(x, r)),
                ),
                e(r),
            ),
        forall|j: int|
            0 <= j < schedule.len() ==> 0 <= (#[trigger] schedule[j]).0 < rows && 0 <= schedule[j].1
                < COLS,
        forall|row: int, tid: int|
            0 <= row < rows && 0 <= tid < COLS ==> #[trigger] schedule.contains((row, tid)),
    ensures
        ({
            let sum = |e: Seq<F32>| simt::row_sum(e);
            let elements = schedule.map_values(|t: (int, int)| single_element(t.0, t.1));
            let after = landed(results(e, sum), before, elements, elements.len());
            &&& after == settled(results(e, sum), before, rows)
            &&& softmax::rows_done(
                exp,
                x,
                |row: Seq<F32>| simt::row_max(row),
                |e: Seq<F32>| simt::row_sum(e),
                after,
                rows,
            )
        }),
{
    let max = |row: Seq<F32>| simt::row_max(row);
    let sum = |e: Seq<F32>| simt::row_sum(e);
    let elements = schedule.map_values(|t: (int, int)| single_element(t.0, t.1));
    assert forall|i: int| 0 <= i < rows * COLS implies #[trigger] elements.contains(i) by {
        let t = (i / (COLS as int), i % (COLS as int));
        law_single_partition(rows, t.0, t.1, i);
        assert(schedule.contains(t));
        let j = choose|j: int| 0 <= j < schedule.len() && schedule[j] == t;
        assert(elements[j] == i);
    }
    assert forall|j: int| 0 <= j < elements.len() implies 0 <= #[trigger] elements[j] < rows
        * COLS by {
        let t = schedule[j];
        law_single_partition(rows, t.0, t.1, t.0 * COLS + t.1);
    }
    lemma_any_order(results(e, sum), before, elements, rows);
    lemma_settled_done(exp, x, max, sum, e, before, rows);
}

/// Several elements per thread, in either layout: in whatever order the threads of the grid come to
/// write, step by step as [`Layout::store`] does, the output is the same, and its rows are done.
pub proof fn law_pair_schedule<E: Fn(F32) -> F32>(
    layout: Layout,
    exp: E,
    x: Seq<F32>,
    e: spec_fn(int) -> Seq<F32>,
    before: Seq<F32>,
    rows: int,
    schedule: Seq<(int, int, int)>,
)
    requires
        rows * COLS <= x.len(),
        forall|r: int|
            0 <= r < rows ==> softmax::answers(
                exp,
                softmax::shifted(
                    #[trigger] softmax::row_of(x, r),
                    layout.row_max(softmax::row_of(x, r)),
                ),
                e(r),
            ),
        forall|j: int|
            0 <= j < schedule.len() ==> 0 <= (#[trigger] schedule[j]).0 < rows && 0 <= schedule[j].1
                < TPB && 0 <= schedule[j].2 < PER,
        forall|row: int, tid: int, k: int|
            0 <= row < rows && 0 <= tid < TPB && 0 <= k < PER ==> #[trigger] schedule.contains(
                (row, tid, k),
            ),
    ensures
        ({
            let sum = |e: Seq<F32>| layout.row_sum(e);
            let elements = schedule.map_values(
                |t: (int, int, int)| pair_element(layout, t.0, t.1, t.2),
            );
            let after = landed(results(e, sum), before, elements, elements.len());
            &&& after == settled(results(e, sum), before, rows)
            &&& softmax::rows_done(
                exp,
                x,
                |row: Seq<F32>| layout.row_max(row),
                |e: Seq<F32>| layout.row_sum(e),
                after,
                rows,
            )
        }),
{
    let max = |row: Seq<F32>| layout.row_max(row);
    let sum = |e: Seq<F32>| layout.row_sum(e);
    let elements = schedule.map_values(|t: (int, int, int)| pair_element(layout, t.0, t.1, t.2));
    assert forall|i: int| 0 <= i < rows * COLS implies #[trigger] elements.contains(i) by {
        let c: int = i % (COLS as int);
        let t = (i / (COLS as int), layout.owner(c), layout.step(c));
        law_pair_partition(layout, rows, i / (COLS as int), 0, 0, i);
        assert(schedule.contains(t));
        let j = choose|j: int| 0 <= j < schedule.len() && schedule[j] == t;
        assert(elements[j] == i);
    }
    assert forall|j: int| 0 <= j < elements.len() implies 0 <= #[trigger] elements[j] < rows
        * COLS by {
        let t = schedule[j];
        law_pair_partition(layout, rows, t.0, t.1, t.2, t.0 * COLS);
    }
    lemma_any_order(results(e, sum), before, elements, rows);
    lemma_settled_done(exp, x, max, sum, e, before, rows);
}

/// Side by side, a thread owns the run that starts at its flat index times `PER`.
pub proof fn law_contiguous_runs(row: int, tid: int, k: int)
    ensures
        pair_element(Layout::Contiguous, row, tid, k) == (row * TPB + tid) * PER + k,
{
}

/// In one step, neighbouring threads take neighbouring elements when the layout is strided, and
/// elements `PER` apart when it is contiguous.
pub proof fn law_neighbours(row: int, tid: int, k: int)
    ensures
        pair_element(Layout::Strided, row, tid + 1, k) == pair_element(Layout::Strided, row, tid, k)
            + 1,
        pair_element(Layout::Contiguous, row, tid + 1, k) == pair_element(
            Layout::Contiguous,
            row,
            tid,
            k,
        ) + PER,
{
}

/// A lane of warp `w` takes an element of sector `s` in step `k`.
pub open spec fn touches(layout: Layout, row: int, w: int, k: int, s: int, lane: int) -> bool {
    0 <= lane < LANES && pair_element(layout, row, w * LANES + lane, k) / (SECTOR as int) == s
}

/// The first sector that warp `w` touches in step `k`.
pub open spec fn first_sector(layout: Layout, row: int, w: int, k: int) -> int {
    match layout {
        Layout::Strided => row * 32 + w * 4 + k * 16,
        Layout::Contiguous => row * 32 + w * 8,
    }
}

/// How many sectors a warp touches in one step.
pub open spec fn sectors_per_step(layout: Layout) -> int {
    match layout {
        Layout::Strided => 4,
        Layout::Contiguous => 8,
    }
}

/// How many lanes of a warp share a sector in one step.
pub open spec fn lanes_per_sector(layout: Layout) -> int {
    match layout {
        Layout::Strided => 8,
        Layout::Contiguous => 4,
    }
}

/// In one step a warp touches four sectors and uses them whole when the layout is strided; it
/// touches eight and uses half of each when the layout is contiguous.
pub proof fn law_sectors(layout: Layout, row: int, w: int, k: int, s: int, lane: int)
    requires
        0 <= row,
        0 <= w < 4,
        0 <= k < PER,
    ensures
        (exists|l: int| touches(layout, row, w, k, s, l)) <==> first_sector(layout, row, w, k) <= s
            < first_sector(layout, row, w, k) + sectors_per_step(layout),
        touches(layout, row, w, k, s, lane) <==> 0 <= lane < LANES && lane / lanes_per_sector(
            layout,
        ) == s - first_sector(layout, row, w, k),
{
    let f: int = first_sector(layout, row, w, k);
    match layout {
        Layout::Strided => {
            assert(pair_element(layout, row, w * LANES + lane, k) == 8 * f + lane);
            if f <= s < f + 4 {
                assert(pair_element(layout, row, w * LANES + 8 * (s - f), k) == 8 * s);
                assert(touches(layout, row, w, k, s, 8 * (s - f)));
            }
        },
        Layout::Contiguous => {
            assert(pair_element(layout, row, w * LANES + lane, k) == 8 * f + 2 * lane + k);
            if f <= s < f + 8 {
                assert(pair_element(layout, row, w * LANES + 4 * (s - f), k) == 8 * s + k);
                assert(touches(layout, row, w, k, s, 4 * (s - f)));
            }
        },
    }
}

/// Over `rows` rows the strided layout touches as many sectors as the elements fill, the contiguous
/// layout twice as many.
pub proof fn law_sector_count(rows: int)
    ensures
        rows * 4 * PER * sectors_per_step(Layout::Strided) == rows * (COLS / SECTOR),
        rows * 4 * PER * sectors_per_step(Layout::Contiguous) == 2 * (rows * (COLS / SECTOR)),
{
    assert(COLS / SECTOR == 32);
    assert(rows * 4 * PER * 4 == 32 * rows && rows * 4 * PER * 8 == 64 * rows) by (nonlinear_arith)
        requires
            PER == 2,
    ;
}

} // verus!
