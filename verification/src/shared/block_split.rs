//! How a symbol stream is partitioned into typed blocks.
use vstd::prelude::*;

verus! {

/// Largest number of block types.
pub const MAX_NUMBER_OF_BLOCK_TYPES: usize = 256;

/// A partition of a symbol stream into typed blocks.
pub struct BlockSplit {
    /// Number of block types.
    pub num_types: usize,
    /// Number of blocks.
    pub num_blocks: usize,
    /// The type of each block.
    pub types: Vec<u8>,
    /// The length of each block.
    pub lengths: Vec<u32>,
}

impl Default for BlockSplit {
    /// A partition without blocks.
    fn default() -> (split: Self)
        ensures
            split.num_types == 0,
            split.num_blocks == 0,
            split.types@.len() == 0,
            split.lengths@.len() == 0,
    {
        BlockSplit { num_types: 0, num_blocks: 0, types: Vec::new(), lengths: Vec::new() }
    }
}

impl BlockSplit {
    /// Makes room for a number of blocks, all of type zero and length zero.
    pub fn reserve(&mut self, num_blocks: usize)
        ensures
            final(self).num_types == old(self).num_types,
            final(self).num_blocks == num_blocks,
            final(self).types@ == Seq::new(num_blocks as nat, |i: int| 0u8),
            final(self).lengths@ == Seq::new(num_blocks as nat, |i: int| 0u32),
    {
        self.num_blocks = num_blocks;
        self.types = vec![0u8; num_blocks];
        self.lengths = vec![0u32; num_blocks];
        proof {
            assert(self.types@ =~= Seq::new(num_blocks as nat, |i: int| 0u8));
            assert(self.lengths@ =~= Seq::new(num_blocks as nat, |i: int| 0u32));
        }
    }
}

} // verus!
