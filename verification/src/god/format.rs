//! Constants of the layout.
use vstd::prelude::*;

verus! {

pub const BLOCKS_PER_PART: u64 = 0xa1c4;

pub const BLOCKS_PER_SUBPART: u64 = 0xcc;

pub const BLOCK_SIZE: u64 = 0x1000;

pub const SUBPARTS_PER_PART: u32 = 0xcb;

/// Data bytes of a full subpart.
pub const SUBPART_SIZE: u64 = 0xcc000;

/// Data bytes of a full part.
pub const PART_SIZE: u64 = 0xa1c4000;

/// Blocks of a full part: one master hash block, 0xCB hash blocks and the data blocks.
pub const FULL_PART_BLOCKS: u64 = 0xa290;

pub const MHT_SIZE: usize = 4096;

/// Size of a master hash block.
pub fn mht_size() -> (r: u32)
    ensures
        r == MHT_SIZE,
{
    MHT_SIZE as u32
}

/// A hash block is as long as a block, and holds the digests of 0xCC blocks or of 0xCB hash blocks
/// and the next part.
pub proof fn hash_blocks_are_blocks()
    ensures
        MHT_SIZE == 4096,
        BLOCK_SIZE == 4096,
        BLOCKS_PER_SUBPART == MHT_SIZE / 20,
        SUBPARTS_PER_PART == BLOCKS_PER_SUBPART - 1,
        BLOCKS_PER_PART == SUBPARTS_PER_PART * BLOCKS_PER_SUBPART,
        FULL_PART_BLOCKS == 1 + SUBPARTS_PER_PART + BLOCKS_PER_PART,
{
}

} // verus!
