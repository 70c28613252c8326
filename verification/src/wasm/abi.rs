//! ABI v1: a guest result buffer travels as one `i64`, the pointer in the
//! high 32 bits and the length in the low 32 bits.
use vstd::prelude::*;

verus! {

/// The packed form of a (pointer, length) pair, as the unsigned bit pattern.
pub open spec fn packed_bits(ptr: u32, len: u32) -> u64 {
    ((ptr as u64) << 32u64) | (len as u64)
}

/// Packs a guest buffer into one `i64`: `ptr << 32 | len`.
pub fn pack_result(ptr: u32, len: u32) -> (r: i64)
    ensures
        r as u64 == packed_bits(ptr, len),
{
    let r = ((ptr as i64) << 32) | (len as i64 & 0xFFFF_FFFF);
    assert(r as u64 == packed_bits(ptr, len)) by (bit_vector)
        requires
            r == ((ptr as i64) << 32) | (len as i64 & 0xFFFF_FFFF),
    ;
    r
}

/// Unpacks a packed result: the high 32 bits are the pointer, the low 32
/// bits the length.
pub fn unpack_result(ret: i64) -> (r: (u32, u32))
    ensures
        r.0 == ((ret as u64) >> 32u64) as u32,
        r.1 == ret as u64 as u32,
{
    let hi = (ret >> 32) as u32;
    let lo = ret as u32;
    assert(hi == ((ret as u64) >> 32u64) as u32 && lo == ret as u64 as u32) by (bit_vector)
        requires
            hi == (ret >> 32) as u32,
            lo == ret as u32,
    ;
    (hi, lo)
}

/// Unpacking a packed pair gives the pair back.
pub proof fn lemma_unpack_pack(ptr: u32, len: u32)
    ensures
        ((packed_bits(ptr, len) >> 32u64) as u32, packed_bits(ptr, len) as u32) == (ptr, len),
{
    assert(((((ptr as u64) << 32u64) | (len as u64)) >> 32u64) as u32 == ptr) by (bit_vector);
    assert((((ptr as u64) << 32u64) | (len as u64)) as u32 == len) by (bit_vector);
}

/// Packing the two halves of any result gives it back.
pub proof fn lemma_pack_unpack(ret: u64)
    ensures
        packed_bits((ret >> 32u64) as u32, ret as u32) == ret,
{
    assert(((((ret >> 32u64) as u32) as u64) << 32u64) | ((ret as u32) as u64) == ret) by (bit_vector);
}

} // verus!
