//! Resumable reading of TFRecord streams and the masked CRC-32C checksums that protect them.

use vstd::prelude::*;

pub mod masked_crc;
pub mod tf_record;

verus! {

/// Adds two integers together and returns the result. Must not overflow.
pub fn add(x: i32, y: i32) -> (r: i32)
    requires
        i32::MIN <= x + y <= i32::MAX,
    ensures
        r == x + y,
{
    x + y
}

} // verus!
