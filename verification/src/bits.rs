//! Packing helpers for external consumers.
//!
//! Groups of `Input` or `Output` gates stand for multi-bit numbers, least
//! significant bit first.  These helpers move single bits between such a
//! group and an integer, so a caller can feed a number into a circuit bit
//! by bit and read a number back out.

use vstd::prelude::*;

verus! {

/// Reads bit `b` of `v`.
pub fn get_bit(v: usize, b: usize) -> (r: bool)
    requires
        b < usize::BITS,
    ensures
        r == ((v >> b) & 1 == 1),
{
    ((v >> b) & 1) == 1
}

/// Returns `v` with bit `b` switched on; with `on` false, `v` comes back
/// unchanged, whatever bit `b` holds.
pub fn set_bit(v: usize, b: usize, on: bool) -> (r: usize)
    requires
        b < usize::BITS,
    ensures
        r == if on {
            v | (1usize << b)
        } else {
            v
        },
{
    if on {
        v | (1usize << b)
    } else {
        v
    }
}

} // verus!
