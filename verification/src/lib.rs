//! A fixed-width multi-precision unsigned integer engine together with a
//! collection of small verified companion modules (a bank ledger, a
//! tic-tac-toe board, temperature and Fibonacci calculators, slice helpers
//! and a song generator).

use vstd::prelude::*;

pub mod bank;
pub mod biguint;
pub mod calc;
pub mod refs;
pub mod song;
pub mod tictac;

verus! {

/// Adds two integers.
pub fn add(a: u32, b: u32) -> (r: u32)
    requires
        a + b <= u32::MAX,
    ensures
        r == a + b,
{
    a + b
}

} // verus!
