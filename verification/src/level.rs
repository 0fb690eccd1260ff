//! Level storage with block reuse: a growable array of blocks in which
//! emptied block slots are remembered on a free list and handed back out
//! before the array grows. Slot 0 always holds an empty block.

use vstd::prelude::*;

verus! {

/// A block a level can store: constructible empty, and aware of emptiness.
pub trait LevelBlock: Sized {
    /// Whether the block holds nothing.
    spec fn spec_is_empty(&self) -> bool;

    fn empty() -> (r: Self)
        ensures
            r.spec_is_empty(),
    ;

    fn is_empty(&self) -> (r: bool)
        ensures
            r == self.spec_is_empty(),
    ;
}

impl LevelBlock for u64 {
    /// A plain mask block is empty when no bit is set.
    open spec fn spec_is_empty(&self) -> bool {
        *self == 0u64
    }

    fn empty() -> (r: u64) {
        0
    }

    fn is_empty(&self) -> (r: bool) {
        *self == 0
    }
}

/// Block storage behind a level of a tree.
pub trait ILevel: Sized {
    /// The stored block type.
    type Block;

    spec fn inv(&self) -> bool;

    /// The stored blocks.
    spec fn view_blocks(&self) -> Seq<Self::Block>;

    fn blocks(&self) -> (r: &[Self::Block])
        requires
            self.inv(),
        ensures
            r@ == self.view_blocks(),
    ;

    /// Hands out the index of an empty block, reusing a freed slot where one
    /// exists and growing the storage otherwise.
    fn insert_empty_block(&mut self) -> (r: usize)
        requires
            old(self).inv(),
        ensures
            final(self).inv(),
            1 <= r < final(self).view_blocks().len(),
            old(self).view_blocks().len() <= final(self).view_blocks().len() <= old(self).view_blocks().len() + 1,
            forall|i: int|
                0 <= i < old(self).view_blocks().len() ==> final(self).view_blocks()[i] == old(self).view_blocks()[i],
    ;
}

/// A level: blocks plus the free list of emptied slots.
pub struct Level<B: LevelBlock> {
    blocks: Vec<B>,
    free: Vec<usize>,
}

impl<B: LevelBlock> Level<B> {
    /// Every free-list entry names an empty block past the reserved slot.
    pub closed spec fn free_ok(self) -> bool {
        forall|i: int|
            0 <= i < self.free@.len() ==> 1 <= (#[trigger] self.free@[i])
                < self.blocks@.len() && self.blocks@[self.free@[i] as int].spec_is_empty()
    }

    /// Marks an emptied block slot for reuse. The block itself is left
    /// untouched: it must already be empty.
    pub fn remove_empty_block_unchecked(&mut self, block_index: usize)
        requires
            old(self).inv(),
            1 <= block_index < old(self).view_blocks().len(),
            old(self).view_blocks()[block_index as int].spec_is_empty(),
        ensures
            final(self).inv(),
            final(self).view_blocks() == old(self).view_blocks(),
    {
        self.free.push(block_index);
    }
}

impl<B: LevelBlock> Default for Level<B> {
    /// An empty level always holds the reserved empty block at slot 0.
    fn default() -> (r: Self)
        ensures
            r.inv(),
            r.view_blocks().len() == 1,
            r.view_blocks()[0].spec_is_empty(),
    {
        let mut blocks: Vec<B> = Vec::new();
        blocks.push(B::empty());
        Level { blocks, free: Vec::new() }
    }
}

impl<B: LevelBlock> ILevel for Level<B> {
    type Block = B;

    closed spec fn inv(&self) -> bool {
        self.blocks@.len() >= 1 && self.blocks@[0].spec_is_empty() && self.free_ok()
    }

    closed spec fn view_blocks(&self) -> Seq<B> {
        self.blocks@
    }

    fn blocks(&self) -> (r: &[B]) {
        self.blocks.as_slice()
    }

    fn insert_empty_block(&mut self) -> (r: usize) {
        let popped = self.free.pop();
        match popped {
            Some(index) => {
                proof {
                    assert(old(self).free@[old(self).free@.len() - 1] == index);
                }
                index
            },
            None => {
                let index = self.blocks.len();
                self.blocks.push(B::empty());
                index
            },
        }
    }
}

} // verus!
