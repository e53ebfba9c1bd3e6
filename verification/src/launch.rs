//! How the kernels are launched.

use crate::pairs::TPB;
use crate::softmax::COLS;
use crate::softmax::ROWS;
use vstd::prelude::*;

verus! {

/// A one-dimensional launch.
#[derive(Clone, Copy, Debug, PartialEq, Eq, Structural)]
pub struct Launch {
    /// Blocks in the grid.
    pub grid: u32,
    /// Threads in a block.
    pub block: u32,
    /// Bytes of dynamic shared memory in a block.
    pub shared_mem_bytes: u32,
}

impl Launch {
    /// One block per row, one thread per element.
    pub fn single() -> (r: Launch)
        ensures
            r == (Launch { grid: ROWS as u32, block: COLS as u32, shared_mem_bytes: 0 }),
    {
        Launch { grid: ROWS as u32, block: COLS as u32, shared_mem_bytes: 0 }
    }

    /// One block per row, one thread per pair of elements.
    pub fn paired() -> (r: Launch)
        ensures
            r == (Launch { grid: ROWS as u32, block: TPB as u32, shared_mem_bytes: 0 }),
    {
        Launch { grid: ROWS as u32, block: TPB as u32, shared_mem_bytes: 0 }
    }
}

} // verus!
