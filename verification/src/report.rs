//! Judging a result: how far it is from the reference, and how far its rows are from adding up to
//! one.

use crate::arith;
use crate::binary32;
use crate::binary32::F32;
use crate::binary32::ONE;
use crate::binary32::ZERO;
use crate::fold;
use crate::number_laws;
use crate::softmax;
use crate::softmax::COLS;
use crate::softmax::ROWS;
use vstd::prelude::*;

verus! {

/// The pattern of 1e-6: how far an element may be from the reference.
pub const TOLERANCE: u32 = 0x3586_37bd;

/// The pattern of 1e-5: how far the sum of a row may be from one.
pub const SUM_TOLERANCE: u32 = 0x3727_c5ac;

/// `|a - b|`.
pub open spec fn distance(a: F32, b: F32) -> F32 {
    binary32::assemble(false, arith::difference(a, b).magnitude())
}

/// How far each element is from its reference, as far as both reach.
pub open spec fn distances(y: Seq<F32>, expected: Seq<F32>) -> Seq<F32> {
    Seq::new(
        if y.len() <= expected.len() {
            y.len()
        } else {
            expected.len()
        },
        |i: int| distance(y[i], expected[i]),
    )
}

/// How far the sum of each of the first `rows` rows is from one.
pub open spec fn sum_distances(y: Seq<F32>, rows: nat) -> Seq<F32> {
    Seq::new(
        rows,
        |r: int|
            distance(fold::running_sum(softmax::row_of(y, r), COLS as nat), F32 { bits: ONE }),
    )
}

/// The largest distance between a result and its reference. A NaN among the distances is passed
/// over.
pub fn max_error(y: &Vec<F32>, expected: &Vec<F32>) -> (r: F32)
    ensures
        r == fold::running_larger(
            F32 { bits: ZERO },
            distances(y@, expected@),
            distances(y@, expected@).len(),
        ),
{
    let n: usize = if y.len() <= expected.len() {
        y.len()
    } else {
        expected.len()
    };
    let mut worst = F32 { bits: ZERO };
    let mut i: usize = 0;
    while i < n
        invariant
            i <= n,
            n <= y.len(),
            n <= expected.len(),
            n == distances(y@, expected@).len(),
            worst == fold::running_larger(
                F32 { bits: ZERO },
                distances(y@, expected@),
                i as nat,
            ),
        decreases n - i,
    {
        worst = worst.max(y[i].sub(expected[i]).abs());
        i = i + 1;
    }
    worst
}

/// The largest distance between the sum of a row and one. A NaN among the distances is passed over.
pub fn worst_sum_error(y: &Vec<F32>) -> (r: F32)
    requires
        ROWS * COLS <= y.len(),
    ensures
        r == fold::running_larger(
            F32 { bits: ZERO },
            sum_distances(y@, ROWS as nat),
            ROWS as nat,
        ),
{
    let mut worst = F32 { bits: ZERO };
    let mut row: usize = 0;
    while row < ROWS
        invariant
            row <= ROWS,
            ROWS * COLS <= y.len(),
            worst == fold::running_larger(
                F32 { bits: ZERO },
                sum_distances(y@, ROWS as nat),
                row as nat,
            ),
        decreases ROWS - row,
    {
        let mut sum = F32 { bits: ZERO };
        let mut c: usize = 0;
        while c < COLS
            invariant
                c <= COLS,
                (row + 1) * COLS <= y.len(),
                sum == fold::running_sum(softmax::row_of(y@, row as int), c as nat),
            decreases COLS - c,
        {
            sum = sum.add(y[row * COLS + c]);
            c = c + 1;
        }
        worst = worst.max(sum.sub(F32 { bits: ONE }).abs());
        row = row + 1;
    }
    worst
}

/// Whether every number is finite.
pub fn all_finite(y: &Vec<F32>) -> (r: bool)
    ensures
        r == (forall|i: int| 0 <= i < y.len() ==> #[trigger] y@[i].finite()),
{
    let mut i: usize = 0;
    while i < y.len()
        invariant
            i <= y.len(),
            forall|k: int| 0 <= k < i ==> #[trigger] y@[k].finite(),
        decreases y.len() - i,
    {
        if !y[i].is_finite() {
            assert(!y@[i as int].finite());
            return false;
        }
        i = i + 1;
    }
    true
}

/// Whether the rows add up to one closely enough.
pub fn sums_accepted(worst_sum_error: F32) -> (r: bool)
    ensures
        r == !binary32::above(worst_sum_error, F32 { bits: SUM_TOLERANCE }),
{
    !worst_sum_error.gt(F32 { bits: SUM_TOLERANCE })
}

/// Whether a result is close enough to its reference, and its rows to adding up to one.
pub fn accepted(max_error: F32, worst_sum_error: F32) -> (r: bool)
    ensures
        r == !(binary32::above(max_error, F32 { bits: TOLERANCE }) || binary32::above(
            worst_sum_error,
            F32 { bits: SUM_TOLERANCE },
        )),
{
    !max_error.gt(F32 { bits: TOLERANCE }) && sums_accepted(worst_sum_error)
}

/// Whether a result is finite throughout, close enough to its reference, and its rows close enough
/// to adding up to one.
pub fn accepted_finite(all_finite: bool, max_error: F32, worst_sum_error: F32) -> (r: bool)
    ensures
        r == (all_finite && !(binary32::above(max_error, F32 { bits: TOLERANCE })
            || binary32::above(worst_sum_error, F32 { bits: SUM_TOLERANCE }))),
{
    all_finite && accepted(max_error, worst_sum_error)
}

/// Bytes that a kernel moves on a matrix of `n` elements: each is read once and written once.
pub fn bytes_moved(n: usize) -> (r: u64)
    requires
        n <= u64::MAX / 8,
    ensures
        r == 2 * n * 4,
{
    2 * n as u64 * 4
}

/// The largest of a sequence is no less than any number of it that is not a NaN.
pub proof fn law_larger_covers(start: F32, s: Seq<F32>, n: nat, i: int)
    requires
        !start.nan(),
        n <= s.len(),
        0 <= i < n,
        !s[i].nan(),
    ensures
        !fold::running_larger(start, s, n).nan(),
        fold::running_larger(start, s, n).rank() >= s[i].rank(),
    decreases n,
{
    lemma_larger_number(start, s, (n - 1) as nat);
    if i < n - 1 {
        law_larger_covers(start, s, (n - 1) as nat, i);
    }
}

/// From a number on, the largest is a number.
proof fn lemma_larger_number(start: F32, s: Seq<F32>, n: nat)
    requires
        !start.nan(),
    ensures
        !fold::running_larger(start, s, n).nan(),
    decreases n,
{
    if n > 0 {
        lemma_larger_number(start, s, (n - 1) as nat);
    }
}

/// The largest of a sequence is within a bound that none of its numbers exceeds.
pub proof fn law_larger_within(start: F32, s: Seq<F32>, n: nat, bound: F32)
    requires
        n <= s.len(),
        !binary32::above(start, bound),
        forall|i: int| 0 <= i < s.len() ==> !binary32::above(#[trigger] s[i], bound),
    ensures
        !binary32::above(fold::running_larger(start, s, n), bound),
    decreases n,
{
    if n > 0 {
        law_larger_within(start, s, (n - 1) as nat, bound);
        assert(!binary32::above(s[n - 1], bound));
    }
}

/// Where the result and the reference are finite, a largest distance that is accepted means that
/// every element is within the tolerance.
pub proof fn law_accepted_elements(y: Seq<F32>, expected: Seq<F32>, i: int)
    requires
        y.len() == expected.len(),
        0 <= i < y.len(),
        y[i].finite(),
        expected[i].finite(),
        !binary32::above(
            fold::running_larger(F32 { bits: ZERO }, distances(y, expected), y.len()),
            F32 { bits: TOLERANCE },
        ),
    ensures
        !distance(y[i], expected[i]).nan(),
        !binary32::above(distance(y[i], expected[i]), F32 { bits: TOLERANCE }),
{
    let d = distances(y, expected);
    assert(d[i] == distance(y[i], expected[i]));
    lemma_distance_number(y[i], expected[i]);
    law_larger_covers(F32 { bits: ZERO }, d, y.len(), i);
}

/// The distance between two finite numbers is a number.
proof fn lemma_distance_number(a: F32, b: F32)
    requires
        a.finite(),
        b.finite(),
    ensures
        !distance(a, b).nan(),
{
    let t: int = a.value() + binary32::opposite(b).value();
    number_laws::law_nearest((if t < 0 { -t } else { t }) as nat, 1);
}

/// Distances that are all NaN leave no trace: the largest is zero, which is accepted. Only a test
/// for finite numbers tells.
pub proof fn law_nan_unseen(d: Seq<F32>, n: nat)
    requires
        n <= d.len(),
        forall|i: int| 0 <= i < d.len() ==> (#[trigger] d[i]).nan(),
    ensures
        fold::running_larger(F32 { bits: ZERO }, d, n) == (F32 { bits: ZERO }),
        !binary32::above(F32 { bits: ZERO }, F32 { bits: TOLERANCE }),
        !binary32::above(F32 { bits: ZERO }, F32 { bits: SUM_TOLERANCE }),
    decreases n,
{
    if n > 0 {
        law_nan_unseen(d, (n - 1) as nat);
        assert(d[n - 1].nan());
    }
}

} // verus!
