//! The packed word that heads the free list: an operation tag and a slot index.
#[allow(unused_imports)]
use vstd::prelude::*;

verus! {

/// The index that ends the free list. No slot ever has it.
pub const SENTINEL: u32 = 0xffff_ffff;

/// The number of tags, and of slot indices: both are 32-bit words.
pub const WORD: u64 = 0x1_0000_0000;

/// The tag in a packed head.
#[verifier::opaque]
pub open spec fn head_tag(packed: u64) -> u32 {
    (packed as int / 0x1_0000_0000) as u32
}

/// The slot index in a packed head.
#[verifier::opaque]
pub open spec fn head_index(packed: u64) -> u32 {
    (packed as int % 0x1_0000_0000) as u32
}

/// The packed head with the given tag and index.
#[verifier::opaque]
pub open spec fn packed_head(tag: u32, index: u32) -> u64 {
    (tag * 0x1_0000_0000 + index) as u64
}

/// The tag that follows `tag`: the counter wraps.
#[verifier::opaque]
pub open spec fn next_tag(tag: u32) -> u32 {
    ((tag + 1) % 0x1_0000_0000) as u32
}

/// Unpacking a packed head gives back the tag and the index, and no two pairs
/// share a packed word.
pub broadcast proof fn lemma_packed_head(tag: u32, index: u32)
    ensures
        #![trigger packed_head(tag, index)]
        head_tag(packed_head(tag, index)) == tag,
        head_index(packed_head(tag, index)) == index,
{
    reveal(head_tag);
    reveal(head_index);
    reveal(packed_head);
}

/// Packing what was unpacked gives back the word.
pub proof fn lemma_head_parts(packed: u64)
    ensures
        packed_head(head_tag(packed), head_index(packed)) == packed,
{
    reveal(head_tag);
    reveal(head_index);
    reveal(packed_head);
}

/// The next tag, as a wrapping increment.
pub broadcast proof fn lemma_next_tag(tag: u32)
    ensures
        #![trigger next_tag(tag)]
        next_tag(tag) == (if tag == u32::MAX {
            0
        } else {
            tag + 1
        }),
{
    reveal(next_tag);
}

/// Creates a packed `free_head` from a tag and index.
pub fn pack_free_head(tag: u32, index: u32) -> (packed: u64)
    ensures
        packed == packed_head(tag, index),
        packed == tag * WORD + index,
{
    proof {
        reveal(packed_head);
    }
    assert(((tag as u64) << 32) | (index as u64) == (tag as u64) * 0x1_0000_0000 + (index as u64))
        by (bit_vector);
    ((tag as u64) << 32) | (index as u64)
}

/// Unpacks a packed `free_head` element into its tag and index.
pub fn unpack_free_head(packed: u64) -> (parts: (u32, u32))
    ensures
        parts.0 == head_tag(packed),
        parts.1 == head_index(packed),
        packed == parts.0 * WORD + parts.1,
{
    proof {
        reveal(head_tag);
        reveal(head_index);
    }
    assert((packed >> 32) as u32 == packed / 0x1_0000_0000) by (bit_vector);
    assert(packed as u32 == packed % 0x1_0000_0000) by (bit_vector);
    ((packed >> 32) as u32, packed as u32)
}

} // verus!
