use vstd::prelude::*;

verus! {

/// Number of bytes in an identifier.
pub const ID_LEN: usize = 20;

/// Number of bits in an identifier.
pub const ID_LEN_BITS: usize = 160;

} // verus!
