//! Several elements per thread: a block of 128 threads takes one row, two elements to a thread.

use crate::arith;
use crate::binary32::F32;
use crate::block;
use crate::fold;
use crate::softmax;
use crate::softmax::COLS;
use vstd::prelude::*;

verus! {

/// Threads in a block.
pub const TPB: usize = 128;

/// Elements to a thread.
pub const PER: usize = 2;

/// Warps in a block.
pub const WARPS: usize = 4;

/// Which elements of a row a thread takes.
#[derive(Clone, Copy, Debug, PartialEq, Eq, Structural)]
pub enum Layout {
    /// Thread `t` takes columns `t`, `t + TPB`, and so on.
    Strided,
    /// Thread `t` takes columns `t * PER` to `t * PER + PER - 1`.
    Contiguous,
}

impl Layout {
    /// The column of the element that thread `tid` takes in its step `k`.
    pub open spec fn column(self, tid: int, k: int) -> int {
        match self {
            Layout::Strided => tid + k * TPB,
            Layout::Contiguous => tid * PER + k,
        }
    }

    /// The thread that takes column `c`.
    pub open spec fn owner(self, c: int) -> int {
        match self {
            Layout::Strided => c % (TPB as int),
            Layout::Contiguous => c / (PER as int),
        }
    }

    /// The step in which its thread takes column `c`.
    pub open spec fn step(self, c: int) -> int {
        match self {
            Layout::Strided => c / (TPB as int),
            Layout::Contiguous => c % (PER as int),
        }
    }

    /// The numbers of a row that thread `tid` holds.
    pub open spec fn held(self, row: Seq<F32>, tid: int) -> Seq<F32> {
        Seq::new(PER as nat, |k: int| row[self.column(tid, k)])
    }

    /// The maximum over each thread's own numbers.
    pub open spec fn thread_maxima(self, row: Seq<F32>) -> Seq<F32> {
        Seq::new(TPB as nat, |tid: int| fold::running_max(self.held(row, tid), PER as nat))
    }

    /// The sum over each thread's own numbers.
    pub open spec fn thread_sums(self, e: Seq<F32>) -> Seq<F32> {
        Seq::new(TPB as nat, |tid: int| fold::running_sum(self.held(e, tid), PER as nat))
    }

    /// The maximum of a row, as the block finds it.
    pub open spec fn row_max(self, row: Seq<F32>) -> F32 {
        block::maximum(self.thread_maxima(row))
    }

    /// The sum of a row of exponentials, as the block adds it up.
    pub open spec fn row_sum(self, e: Seq<F32>) -> F32 {
        block::total(self.thread_sums(e))
    }

    /// Every column of a row is taken by one thread, in one step, and by no other.
    pub proof fn law_columns_partition(self, tid: int, k: int, c: int)
        requires
            0 <= tid < TPB,
            0 <= k < PER,
            0 <= c < COLS,
        ensures
            0 <= self.column(tid, k) < COLS,
            self.owner(self.column(tid, k)) == tid,
            self.step(self.column(tid, k)) == k,
            0 <= self.owner(c) < TPB,
            0 <= self.step(c) < PER,
            self.column(self.owner(c), self.step(c)) == c,
    {
    }

    /// The column of the element that thread `tid` takes in its step `k`.
    pub fn column_of(self, tid: usize, k: usize) -> (c: usize)
        requires
            tid < TPB,
            k < PER,
        ensures
            c == self.column(tid as int, k as int),
            c < COLS,
    {
        match self {
            Layout::Strided => tid + k * TPB,
            Layout::Contiguous => tid * PER + k,
        }
    }

    /// The index of the element that thread `tid` of block `row` takes in its step `k`.
    pub fn element(self, row: usize, tid: usize, k: usize) -> (i: usize)
        requires
            (row + 1) * COLS <= usize::MAX,
            tid < TPB,
            k < PER,
        ensures
            i == row * COLS + self.column(tid as int, k as int),
            i < (row + 1) * COLS,
    {
        match self {
            Layout::Strided => {
                let base: usize = row * COLS + tid;
                base + k * TPB
            },
            Layout::Contiguous => {
                let thread_index: usize = row * TPB + tid;
                let base: usize = thread_index * PER;
                base + k
            },
        }
    }

    /// The numbers of row `row` that thread `tid` loads.
    fn load(self, x: &Vec<F32>, row: usize, tid: usize) -> (v: Vec<F32>)
        requires
            (row + 1) * COLS <= x.len(),
            tid < TPB,
        ensures
            v@ == self.held(softmax::row_of(x@, row as int), tid as int),
    {
        let mut v: Vec<F32> = Vec::with_capacity(PER);
        let mut k: usize = 0;
        while k < PER
            invariant
                (row + 1) * COLS <= x.len(),
                tid < TPB,
                k <= PER,
                v@ == self.held(softmax::row_of(x@, row as int), tid as int).take(k as int),
            decreases PER - k,
        {
            v.push(x[self.element(row, tid, k)]);
            k = k + 1;
            assert(v@ =~= self.held(softmax::row_of(x@, row as int), tid as int).take(k as int));
        }
        assert(v@ =~= self.held(softmax::row_of(x@, row as int), tid as int));
        v
    }

    /// Up to the exponential: every thread loads its elements and finds their maximum, and the
    /// block finds the maximum of those.
    pub fn arguments(self, x: &Vec<F32>, row: usize) -> (args: Vec<F32>)
        requires
            (row + 1) * COLS <= x.len(),
        ensures
            args@ == softmax::shifted(
                softmax::row_of(x@, row as int),
                self.row_max(softmax::row_of(x@, row as int)),
            ),
    {
        let ghost row_x = softmax::row_of(x@, row as int);
        let mut maxima: Vec<F32> = Vec::with_capacity(TPB);
        let mut tid: usize = 0;
        while tid < TPB
            invariant
                (row + 1) * COLS <= x.len(),
                tid <= TPB,
                row_x == softmax::row_of(x@, row as int),
                maxima@ == self.thread_maxima(row_x).take(tid as int),
            decreases TPB - tid,
        {
            let v = self.load(x, row, tid);
            maxima.push(fold::max_of(&v));
            tid = tid + 1;
            assert(maxima@ =~= self.thread_maxima(row_x).take(tid as int));
        }
        assert(maxima@ =~= self.thread_maxima(row_x));
        let max = block::reduce_max(&maxima);
        let ghost out = softmax::shifted(row_x, max);
        let mut args: Vec<F32> = vec![F32 { bits: 0 }; COLS];
        tid = 0;
        while tid < TPB
            invariant
                (row + 1) * COLS <= x.len(),
                tid <= TPB,
                row_x == softmax::row_of(x@, row as int),
                out == softmax::shifted(row_x, max),
                args.len() == COLS,
                forall|c: int| 0 <= c < COLS && self.owner(c) < tid ==> args@[c] == #[trigger] out[c],
            decreases TPB - tid,
        {
            let v = self.load(x, row, tid);
            let mut k: usize = 0;
            while k < PER
                invariant
                    tid < TPB,
                    k <= PER,
                    v@ == self.held(row_x, tid as int),
                    row_x.len() == COLS,
                    out == softmax::shifted(row_x, max),
                    args.len() == COLS,
                    forall|c: int|
                        0 <= c < COLS && (self.owner(c) < tid || (self.owner(c) == tid && self.step(
                            c,
                        ) < k)) ==> args@[c] == #[trigger] out[c],
                decreases PER - k,
            {
                let column: usize = self.column_of(tid, k);
                args.set(column, v[k].sub(max));
                k = k + 1;
            }
            tid = tid + 1;
        }
        assert(args@ =~= out);
        args
    }

    /// Thread `tid` of block `row` writes its quotient of step `k`.
    pub fn store(self, e: &Vec<F32>, sum: F32, row: usize, tid: usize, k: usize, y: &mut Vec<F32>)
        requires
            e.len() == COLS,
            tid < TPB,
            k < PER,
            (row + 1) * COLS <= old(y).len(),
        ensures
            final(y)@ == softmax::written(
                old(y)@,
                row * COLS + self.column(tid as int, k as int),
                arith::quotient(e@[self.column(tid as int, k as int)], sum),
            ),
    {
        let column: usize = self.column_of(tid, k);
        y.set(self.element(row, tid, k), e[column].div(sum));
    }

    /// From the exponential on: every thread adds up its exponentials, the block adds up those
    /// sums, and every thread writes its quotients.
    pub fn normalize(self, e: &Vec<F32>, row: usize, y: &mut Vec<F32>)
        requires
            e.len() == COLS,
            (row + 1) * COLS <= old(y).len(),
        ensures
            final(y).len() == old(y).len(),
            softmax::holds(final(y)@, row * COLS, softmax::scaled(e@, self.row_sum(e@))),
            forall|i: int|
                0 <= i < old(y).len() && !(row * COLS <= i < (row + 1) * COLS) ==> final(y)@[i]
                    == old(y)@[i],
    {
        let mut sums: Vec<F32> = Vec::with_capacity(TPB);
        let mut tid: usize = 0;
        assert(softmax::row_of(e@, 0) =~= e@);
        while tid < TPB
            invariant
                e.len() == COLS,
                tid <= TPB,
                softmax::row_of(e@, 0) == e@,
                sums@ == self.thread_sums(e@).take(tid as int),
            decreases TPB - tid,
        {
            let own = self.load(e, 0, tid);
            sums.push(fold::sum_of(&own));
            tid = tid + 1;
            assert(sums@ =~= self.thread_sums(e@).take(tid as int));
        }
        assert(sums@ =~= self.thread_sums(e@));
        let sum = block::reduce_sum(&sums);
        let ghost out = softmax::scaled(e@, sum);
        tid = 0;
        while tid < TPB
            invariant
                e.len() == COLS,
                (row + 1) * COLS <= y.len(),
                tid <= TPB,
                out == softmax::scaled(e@, sum),
                y.len() == old(y).len(),
                forall|c: int|
                    0 <= c < COLS && self.owner(c) < tid ==> y@[row * COLS + c] == #[trigger] out[c],
                forall|i: int|
                    0 <= i < y.len() && !(row * COLS <= i < (row + 1) * COLS) ==> y@[i] == old(y)@[i],
            decreases TPB - tid,
        {
            let mut k: usize = 0;
            while k < PER
                invariant
                    e.len() == COLS,
                    (row + 1) * COLS <= y.len(),
                    tid < TPB,
                    k <= PER,
                    out == softmax::scaled(e@, sum),
                    y.len() == old(y).len(),
                    forall|c: int|
                        0 <= c < COLS && (self.owner(c) < tid || (self.owner(c) == tid && self.step(
                            c,
                        ) < k)) ==> y@[row * COLS + c] == #[trigger] out[c],
                    forall|i: int|
                        0 <= i < y.len() && !(row * COLS <= i < (row + 1) * COLS) ==> y@[i] == old(
                            y,
                        )@[i],
                decreases PER - k,
            {
                self.store(e, sum, row, tid, k, y);
                k = k + 1;
            }
            tid = tid + 1;
        }
    }

    /// The softmax of `rows` rows: block `r` takes row `r`. Elements of `y` past the last row keep
    /// their values.
    pub fn softmax_rows<E: Fn(F32) -> F32>(self, x: &Vec<F32>, y: &mut Vec<F32>, rows: usize, exp: E)
        requires
            rows * COLS <= x.len(),
            rows * COLS <= old(y).len(),
            forall|a: F32| exp.requires((a,)),
        ensures
            final(y).len() == old(y).len(),
            softmax::rows_done(
                exp,
                x@,
                |row: Seq<F32>| self.row_max(row),
                |e: Seq<F32>| self.row_sum(e),
                final(y)@,
                rows as int,
            ),
            forall|i: int| rows * COLS <= i < old(y).len() ==> final(y)@[i] == old(y)@[i],
    {
        let ghost max = |row: Seq<F32>| self.row_max(row);
        let ghost sum = |e: Seq<F32>| self.row_sum(e);
        let mut row: usize = 0;
        while row < rows
            invariant
                rows * COLS <= x.len(),
                rows * COLS <= y.len(),
                forall|a: F32| exp.requires((a,)),
                row <= rows,
                y.len() == old(y).len(),
                max == (|row: Seq<F32>| self.row_max(row)),
                sum == (|e: Seq<F32>| self.row_sum(e)),
                softmax::rows_done(exp, x@, max, sum, y@, row as int),
                forall|i: int| row * COLS <= i < y.len() ==> y@[i] == old(y)@[i],
            decreases rows - row,
        {
            let args = self.arguments(x, row);
            let e = softmax::answer(&exp, &args);
            let ghost before = y@;
            self.normalize(&e, row, y);
            proof {
                softmax::lemma_next_row(exp, x@, max, sum, before, y@, row as int, e@);
            }
            row = row + 1;
        }
    }
}

} // verus!
