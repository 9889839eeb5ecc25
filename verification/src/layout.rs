//! Alignment and little-endian encoding of the fields in an image.

use vstd::prelude::*;

verus! {

/// Every file's contents start on a multiple of this many bytes.
pub const ALIGNMENT: u64 = 32;

/// The smallest multiple of `ALIGNMENT` that is not below `v`.
pub open spec fn align_up(v: int) -> int {
    if v % 32 == 0 {
        v
    } else {
        v - v % 32 + 32
    }
}

/// Rounds `v` up to the next multiple of `ALIGNMENT`.
pub fn align(v: u64) -> (r: u64)
    requires
        align_up(v as int) <= u64::MAX,
    ensures
        r == align_up(v as int),
        r % 32 == 0,
        v <= r < v + 32,
{
    let a: u64 = ALIGNMENT;
    v + (a - (v % a)) % a
}

} // verus!
