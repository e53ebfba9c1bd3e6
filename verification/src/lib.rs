//! Row-wise softmax on single-precision matrices, as four kernels compute it.
//!
//! - [`binary32`], [`rounding`] and [`arith`] hold the numbers: IEEE 754 binary32 by bit pattern,
//!   with every operation proved to return the number nearest to the exact result.
//! - [`fold`], [`warp`] and [`block`] hold the reductions, and [`softmax`] the four steps of a row.
//! - [`simt`], [`simt2`], [`simt3`] (the last two over [`pairs`]) and [`tile`] are the kernels, run
//!   thread by thread or tile by tile; [`reference`] is what they are compared with.
//! - [`input`], [`launch`] and [`report`] make the matrices, shape the launches and judge the
//!   results.
//! - The modules that end in `_laws` state what holds of all of this together.

pub mod agreement_laws;
pub mod arith;
pub mod binary32;
pub mod block;
pub mod check_laws;
pub mod fold;
pub mod fold_laws;
pub mod format_laws;
pub mod input;
pub mod input_laws;
pub mod judge_laws;
pub mod launch;
pub mod layout_laws;
pub mod matrix_laws;
pub mod max_laws;
pub mod nan_laws;
pub mod nearest_laws;
pub mod number_laws;
pub mod order_laws;
pub mod pairs;
pub mod quotient_laws;
pub mod range_laws;
pub mod reduction_laws;
pub mod reference;
pub mod report;
pub mod rounding;
pub mod row_laws;
pub mod simt;
pub mod simt2;
pub mod simt3;
pub mod softmax;
pub mod softmax_laws;
pub mod sum_laws;
pub mod tile;
pub mod tile_laws;
pub mod warp;
