//! The guest side of the ABI as the sample plugin implements it: a static
//! bump heap handing out 8-byte aligned blocks, and the check that a region
//! lies inside what was handed out.
use vstd::prelude::*;

verus! {

/// Bytes in a guest's static heap (256 KiB).
pub const GUEST_HEAP_SIZE: usize = 262144;

/// `x` rounded up to a multiple of 8.
pub open spec fn align8(x: int) -> int {
    ((x + 7) / 8) * 8
}

/// One bump allocation of `size` bytes from a heap whose first `cursor`
/// bytes are taken: the block starts at the cursor rounded up to 8 and the
/// cursor moves past it. A size that is not positive, or a block that would
/// run past the heap, gives nothing (the ABI's null pointer).
pub fn bump_alloc(cursor: usize, size: i32) -> (r: Option<(usize, usize)>)
    requires
        cursor <= GUEST_HEAP_SIZE,
    ensures
        size <= 0 ==> r is None,
        size > 0 && align8(cursor as int) + size > GUEST_HEAP_SIZE ==> r is None,
        size > 0 && align8(cursor as int) + size <= GUEST_HEAP_SIZE
            ==> r == Some((align8(cursor as int) as usize, (align8(cursor as int) + size) as usize)),
{
    if size <= 0 {
        return None;
    }
    let aligned = (cursor + 7) / 8 * 8;
    let next = aligned + size as usize;
    if next > GUEST_HEAP_SIZE {
        None
    } else {
        Some((aligned, next))
    }
}

/// Whether `len` bytes at `ptr` lie inside the taken part of a heap based at
/// `base` (a pointer must be positive and a length non-negative).
pub fn heap_region_ok(ptr: i32, len: i32, base: usize, cursor: usize) -> (b: bool)
    requires
        base + cursor <= usize::MAX,
    ensures
        b == (ptr > 0 && len >= 0 && base <= ptr && ptr + len <= base + cursor),
{
    if ptr <= 0 || len < 0 {
        return false;
    }
    let p = ptr as usize;
    let l = len as usize;
    !(p < base || p + l > base + cursor)
}

} // verus!
