//! The block arena that all postings writers of a segment share.

use crate::codec::SegmentError;
use vstd::prelude::*;

verus! {

/// How many blocks a chain with `room` free bytes takes on to hold `n` more
/// bytes, with blocks of `size` bytes.
pub open spec fn blocks_needed(room: int, n: int, size: int) -> int
    decreases (if n > room { n - room } else { 0 }),
{
    if room >= n || size <= 0 {
        0
    } else {
        1 + blocks_needed(room + size, n, size)
    }
}

/// The free bytes that are left of `room` once `n` bytes have gone in.
pub open spec fn room_after(room: int, n: int, size: int) -> int
    decreases (if n > room { n - room } else { 0 }),
{
    if room >= n || size <= 0 {
        room - n
    } else {
        room_after(room + size, n, size)
    }
}

/// No negative number of blocks is ever needed.
pub proof fn lemma_blocks_needed_nonnegative(room: int, n: int, size: int)
    ensures
        blocks_needed(room, n, size) >= 0,
    decreases (if n > room { n - room } else { 0 }),
{
    if !(room >= n || size <= 0) {
        lemma_blocks_needed_nonnegative(room + size, n, size);
    }
}

/// A chain never takes more blocks than it takes bytes.
pub proof fn lemma_blocks_needed_at_most(room: int, n: int, size: int)
    requires
        room >= 0,
        size >= 1,
    ensures
        blocks_needed(room, n, size) <= (if n > room { n - room } else { 0 }),
    decreases (if n > room { n - room } else { 0 }),
{
    if !(room >= n) {
        lemma_blocks_needed_at_most(room + size, n, size);
    }
}

/// The largest number of free bytes that a chain's tail is let to have.
pub const MAX_ROOM: u64 = 0x2_0000_0000;

/// The blocks of one term, in the order in which they were linked, with
/// the free bytes of the last.
pub struct TermChain {
    blocks: Vec<u32>,
    room: u64,
}

impl TermChain {
    /// The ids of the chain's blocks, the head first.
    pub closed spec fn blocks(&self) -> Seq<u32> {
        self.blocks@
    }

    /// The free bytes of the tail.
    pub closed spec fn room(&self) -> nat {
        self.room as nat
    }

    /// A chain without a block.
    pub fn new() -> (r: TermChain)
        ensures
            r.blocks().len() == 0,
            r.room() == 0,
    {
        TermChain { blocks: Vec::new(), room: 0 }
    }
}

/// An arena of blocks of one size, with the list of those that are free.
pub struct BlockStore {
    block_size: u32,
    free: Vec<u32>,
}

impl BlockStore {
    /// The size of a block in bytes.
    pub closed spec fn block_size(&self) -> nat {
        self.block_size as nat
    }

    /// The ids of the free blocks; the last is handed out first.
    pub closed spec fn free(&self) -> Seq<u32> {
        self.free@
    }

    /// A block holds at least one byte.
    pub open spec fn wf(&self) -> bool {
        self.block_size() > 0
    }

    /// An arena of `num_blocks` free blocks of `block_size` bytes each.
    pub fn new(num_blocks: u32, block_size: u32) -> (r: BlockStore)
        requires
            block_size > 0,
        ensures
            r.wf(),
            r.block_size() == block_size,
            r.free().len() == num_blocks,
            forall|i: int| 0 <= i < num_blocks ==> r.free()[i] == num_blocks - 1 - i,
    {
        let mut free: Vec<u32> = Vec::new();
        let mut id: u32 = num_blocks;
        while id > 0
            invariant
                id <= num_blocks,
                free@.len() == num_blocks - id,
                forall|i: int| 0 <= i < free@.len() ==> free@[i] == num_blocks - 1 - i,
            decreases id,
        {
            id -= 1;
            free.push(id);
        }
        BlockStore { block_size, free }
    }

    /// The number of free blocks.
    pub fn num_free_blocks(&self) -> (r: usize)
        ensures
            r == self.free().len(),
    {
        self.free.len()
    }

    /// Takes a block off the free list.
    pub fn allocate(&mut self) -> (r: Result<u32, SegmentError>)
        ensures
            final(self).block_size() == old(self).block_size(),
            match r {
                Ok(id) => old(self).free().len() > 0 && id == old(self).free().last()
                    && final(self).free() == old(self).free().drop_last(),
                Err(e) => e == SegmentError::OutOfBlocks && old(self).free().len() == 0
                    && final(self).free() == old(self).free(),
            },
    {
        match self.free.pop() {
            Some(id) => Ok(id),
            None => Err(SegmentError::OutOfBlocks),
        }
    }

    /// Makes room for `n` more bytes in `chain` and takes them, linking
    /// new blocks to its tail as the tail fills up. Where the free list
    /// runs out first, the blocks taken so far stay with the chain.
    pub fn write_bytes(&mut self, chain: &mut TermChain, n: u32) -> (r: Result<(), SegmentError>)
        requires
            old(self).wf(),
            old(chain).room() <= MAX_ROOM,
        ensures
            final(self).wf(),
            final(self).block_size() == old(self).block_size(),
            r.is_ok() <==> blocks_needed(
                old(chain).room() as int,
                n as int,
                old(self).block_size() as int,
            ) <= old(self).free().len(),
            final(chain).room() <= MAX_ROOM,
            final(self).free().len() <= old(self).free().len(),
            match r {
                Ok(_) => {
                    &&& final(self).free().len() == old(self).free().len() - blocks_needed(
                        old(chain).room() as int,
                        n as int,
                        old(self).block_size() as int,
                    )
                    &&& final(chain).room() == room_after(
                        old(chain).room() as int,
                        n as int,
                        old(self).block_size() as int,
                    )
                },
                Err(e) => {
                    &&& e == SegmentError::OutOfBlocks
                    &&& final(self).free().len() == 0
                },
            },
    {
        let ghost size = self.block_size as int;
        let ghost free0 = self.free@.len() as int;
        let ghost room0 = chain.room as int;
        while chain.room < n as u64
            invariant
                self.wf(),
                self.block_size as int == size,
                size == old(self).block_size(),
                chain.room <= MAX_ROOM,
                room0 == old(chain).room(),
                free0 == old(self).free().len(),
                free0 - self.free@.len() + blocks_needed(chain.room as int, n as int, size)
                    == blocks_needed(room0, n as int, size),
                room_after(chain.room as int, n as int, size) == room_after(room0, n as int, size),
                self.free@.len() <= free0,
            decreases (if chain.room < n { n - chain.room } else { 0 }),
        {
            proof {
                lemma_blocks_needed_nonnegative(chain.room as int + size, n as int, size);
            }
            match self.allocate() {
                Ok(id) => {
                    chain.blocks.push(id);
                    chain.room = chain.room + self.block_size as u64;
                },
                Err(e) => {
                    return Err(e);
                },
            }
        }
        chain.room = chain.room - n as u64;
        Ok(())
    }
}

} // verus!
