//! The matrices that the kernels are tried on.

use crate::arith;
use crate::binary32::F32;
use crate::softmax::COLS;
use crate::softmax::ROWS;
use vstd::prelude::*;

verus! {

/// The pattern of 0.01.
pub const HUNDREDTH: u32 = 0x3c23_d70a;

/// The pattern of 0.05.
pub const TWENTIETH: u32 = 0x3d4c_cccd;

/// The pattern of 0.3.
pub const THREE_TENTHS: u32 = 0x3e99_999a;

/// The pattern of 128.
pub const MIDDLE: u32 = 0x4300_0000;

/// `0.01 * i`.
pub open spec fn ramp_at(i: nat) -> F32 {
    arith::product(arith::of_integer(i), F32 { bits: HUNDREDTH })
}

/// `0.05 * (c - 128) + 0.3 * (r % 7)` at row `r` and column `c`.
pub open spec fn banded_at(r: nat, c: nat) -> F32 {
    arith::sum(
        arith::product(
            arith::difference(arith::of_integer(c), F32 { bits: MIDDLE }),
            F32 { bits: TWENTIETH },
        ),
        arith::product(arith::of_integer(r % 7), F32 { bits: THREE_TENTHS }),
    )
}

/// Element `i` of the ramp; at `n - 1`, where a ramp of `n` elements stops.
pub fn ramp_element(i: usize) -> (r: F32)
    ensures
        r == ramp_at(i as nat),
{
    F32::from_integer(i as u64).mul(F32 { bits: HUNDREDTH })
}

/// A matrix that rises by 0.01 from each element to the next.
pub fn ramp() -> (x: Vec<F32>)
    ensures
        x.len() == ROWS * COLS,
        forall|i: int| 0 <= i < x.len() ==> x@[i] == ramp_at(i as nat),
{
    let mut x: Vec<F32> = Vec::with_capacity(ROWS * COLS);
    let mut i: usize = 0;
    while i < ROWS * COLS
        invariant
            i <= ROWS * COLS,
            x.len() == i,
            forall|k: int| 0 <= k < i ==> x@[k] == ramp_at(k as nat),
        decreases ROWS * COLS - i,
    {
        x.push(ramp_element(i));
        i = i + 1;
    }
    x
}

/// A matrix whose rows rise by 0.05 and whose distribution changes from row to row.
pub fn banded() -> (x: Vec<F32>)
    ensures
        x.len() == ROWS * COLS,
        forall|i: int|
            0 <= i < x.len() ==> x@[i] == banded_at(
                (i / (COLS as int)) as nat,
                (i % (COLS as int)) as nat,
            ),
{
    let mut x: Vec<F32> = Vec::with_capacity(ROWS * COLS);
    let mut i: usize = 0;
    while i < ROWS * COLS
        invariant
            i <= ROWS * COLS,
            x.len() == i,
            forall|k: int|
                0 <= k < i ==> x@[k] == banded_at(
                    (k / (COLS as int)) as nat,
                    (k % (COLS as int)) as nat,
                ),
        decreases ROWS * COLS - i,
    {
        let r: usize = i / COLS;
        let c: usize = i % COLS;
        let across = F32::from_integer(c as u64).sub(F32 { bits: MIDDLE }).mul(
            F32 { bits: TWENTIETH },
        );
        let down = F32::from_integer((r % 7) as u64).mul(F32 { bits: THREE_TENTHS });
        x.push(across.add(down));
        i = i + 1;
    }
    x
}

} // verus!
