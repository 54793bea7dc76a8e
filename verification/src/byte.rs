//! Eight-bit wraparound arithmetic, as every cipher of the protocol uses it.

use vstd::prelude::*;

verus! {

/// The byte that an integer wraps to: its value modulo 256.
pub open spec fn wrap(value: int) -> u8 {
    (value % 256) as u8
}

} // verus!
