//! Random test data.

use vstd::prelude::*;
use crate::crypto::random_byte;

verus! {

/// A vector of `size` random bytes, useful for testing binary data operations.
pub fn get_bytes(size: u32) -> (bytes: Vec<u8>)
    ensures
        bytes@.len() == size,
{
    let mut bytes: Vec<u8> = Vec::new();
    let mut i: u32 = 0;
    while i < size
        invariant
            0 <= i <= size,
            bytes@.len() == i,
        decreases size - i,
    {
        bytes.push(random_byte());
        i += 1;
    }
    bytes
}

} // verus!
