//! Folding a sequence of numbers from its first element to its last.

use crate::arith;
use crate::binary32;
use crate::binary32::F32;
use crate::binary32::ZERO;
use vstd::prelude::*;

verus! {

/// The first of the first `n` numbers that no other of them exceeds; a NaN in front stays.
pub open spec fn running_max(s: Seq<F32>, n: nat) -> F32
    decreases n,
{
    if n <= 1 {
        s[0]
    } else {
        let best = running_max(s, (n - 1) as nat);
        if binary32::above(s[n - 1], best) {
            s[n - 1]
        } else {
            best
        }
    }
}

/// The first `n` numbers, added up from positive zero.
pub open spec fn running_sum(s: Seq<F32>, n: nat) -> F32
    decreases n,
{
    if n == 0 {
        F32 { bits: ZERO }
    } else {
        arith::sum(running_sum(s, (n - 1) as nat), s[n - 1])
    }
}

/// The largest of `start` and the first `n` numbers, passing over NaN.
pub open spec fn running_larger(start: F32, s: Seq<F32>, n: nat) -> F32
    decreases n,
{
    if n == 0 {
        start
    } else {
        binary32::larger(running_larger(start, s, (n - 1) as nat), s[n - 1])
    }
}

/// Keeps the first number, then every one that exceeds what is kept.
pub fn max_of(s: &Vec<F32>) -> (r: F32)
    requires
        s.len() > 0,
    ensures
        r == running_max(s@, s@.len()),
{
    let mut best = s[0];
    let mut i: usize = 1;
    while i < s.len()
        invariant
            1 <= i <= s.len(),
            best == running_max(s@, i as nat),
        decreases s.len() - i,
    {
        if s[i].gt(best) {
            best = s[i];
        }
        i = i + 1;
    }
    best
}

/// Adds the numbers up from zero, in order.
pub fn sum_of(s: &Vec<F32>) -> (r: F32)
    ensures
        r == running_sum(s@, s@.len()),
{
    let mut total = F32 { bits: ZERO };
    let mut i: usize = 0;
    while i < s.len()
        invariant
            i <= s.len(),
            total == running_sum(s@, i as nat),
        decreases s.len() - i,
    {
        total = total.add(s[i]);
        i = i + 1;
    }
    total
}

/// The largest of `start` and the numbers, passing over NaN.
pub fn larger_of(start: F32, s: &Vec<F32>) -> (r: F32)
    ensures
        r == running_larger(start, s@, s@.len()),
{
    let mut best = start;
    let mut i: usize = 0;
    while i < s.len()
        invariant
            i <= s.len(),
            best == running_larger(start, s@, i as nat),
        decreases s.len() - i,
    {
        best = best.max(s[i]);
        i = i + 1;
    }
    best
}

} // verus!
