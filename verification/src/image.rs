//! Reads from a file that lies in memory.

use crate::layout;
use vstd::prelude::*;
use vstd::slice::slice_subrange;

verus! {

/// The bytes that a read of `len` bytes at `offset` gives: all of them, or as
/// many as `data` holds from `offset` on.
pub fn read_at(data: &[u8], offset: u64, len: usize) -> (r: &[u8])
    ensures
        r@ == layout::read_at(data@, offset as int, len as int),
{
    let end = data.len();
    if offset >= end as u64 {
        return slice_subrange(data, end, end);
    }
    let start = offset as usize;
    let held = end - start;
    let taken = if len <= held {
        len
    } else {
        held
    };
    slice_subrange(data, start, start + taken)
}

} // verus!
