//! An in-memory block device holding whole 512-byte blocks.
use vstd::prelude::*;
use crate::config::BLOCK_SZ;

verus! {

/// A copy of `v`.
pub fn copy_bytes(v: &Vec<u8>) -> (r: Vec<u8>)
    ensures
        r@ == v@,
{
    let mut r: Vec<u8> = Vec::new();
    let mut i: usize = 0;
    while i < v.len()
        invariant
            i <= v@.len(),
            r@ == v@.subrange(0, i as int),
        decreases v.len() - i,
    {
        r.push(v[i]);
        i = i + 1;
        assert(r@ =~= v@.subrange(0, i as int));
    }
    assert(r@ =~= v@);
    r
}

/// A block of `BLOCK_SZ` zero bytes.
pub fn zero_block() -> (r: Vec<u8>)
    ensures
        r@ == Seq::new(512, |i: int| 0u8),
{
    let mut r: Vec<u8> = Vec::new();
    let mut i: usize = 0;
    while i < BLOCK_SZ
        invariant
            i <= 512,
            r@ == Seq::new(i as nat, |j: int| 0u8),
        decreases 512 - i,
    {
        r.push(0u8);
        i = i + 1;
        assert(r@ =~= Seq::new(i as nat, |j: int| 0u8));
    }
    r
}

/// A disk of fixed-size blocks kept in memory.
pub struct BlockDevice {
    blocks: Vec<Vec<u8>>,
}

impl BlockDevice {
    /// The contents of every block.
    pub closed spec fn view(&self) -> Seq<Seq<u8>> {
        Seq::new(self.blocks@.len(), |i: int| self.blocks@[i]@)
    }

    /// Every block holds exactly `BLOCK_SZ` bytes.
    pub open spec fn wf(&self) -> bool {
        &&& self.view().len() <= usize::MAX
        &&& forall|i: int| 0 <= i < self.view().len() ==> (#[trigger] self.view()[i]).len() == 512
    }

    /// A device of `n` zeroed blocks.
    pub fn new(n: usize) -> (r: BlockDevice)
        ensures
            r.wf(),
            r.view().len() == n,
            forall|i: int| 0 <= i < n ==> #[trigger] r.view()[i] == Seq::new(512, |j: int| 0u8),
    {
        let mut blocks: Vec<Vec<u8>> = Vec::new();
        let mut i: usize = 0;
        while i < n
            invariant
                i <= n,
                blocks@.len() == i,
                forall|k: int| 0 <= k < i ==> (#[trigger] blocks@[k])@ == Seq::new(512, |j: int| 0u8),
            decreases n - i,
        {
            blocks.push(zero_block());
            i = i + 1;
        }
        BlockDevice { blocks }
    }

    /// A device holding `blocks`, or `None` unless every block is `BLOCK_SZ` bytes long.
    pub fn from_blocks(blocks: Vec<Vec<u8>>) -> (r: Option<BlockDevice>)
        ensures
            r.is_some() <==> forall|i: int| 0 <= i < blocks@.len() ==> (#[trigger] blocks@[i])@.len() == 512,
            r.is_some() ==> r.unwrap().wf() && r.unwrap().view() == Seq::new(
                blocks@.len(),
                |i: int| blocks@[i]@,
            ),
    {
        let mut i: usize = 0;
        while i < blocks.len()
            invariant
                i <= blocks@.len(),
                forall|k: int| 0 <= k < i ==> (#[trigger] blocks@[k])@.len() == 512,
            decreases blocks.len() - i,
        {
            if blocks[i].len() != BLOCK_SZ {
                return None;
            }
            i = i + 1;
        }
        Some(BlockDevice { blocks })
    }

    /// Hands the blocks back.
    pub fn into_blocks(self) -> (r: Vec<Vec<u8>>)
        ensures
            Seq::new(r@.len(), |i: int| r@[i]@) == self.view(),
    {
        self.blocks
    }

    /// Number of blocks.
    pub fn num_blocks(&self) -> (r: usize)
        ensures
            r == self.view().len(),
    {
        self.blocks.len()
    }

    /// A copy of block `id`.
    pub fn read_block(&self, id: usize) -> (r: Vec<u8>)
        requires
            id < self.view().len(),
        ensures
            r@ == self.view()[id as int],
    {
        copy_bytes(&self.blocks[id])
    }

    /// Replaces block `id` with `buf`.
    pub fn write_block(&mut self, id: usize, buf: &Vec<u8>)
        requires
            id < old(self).view().len(),
        ensures
            final(self).view() == old(self).view().update(id as int, buf@),
            final(self).view().len() <= usize::MAX,
    {
        let b = copy_bytes(buf);
        self.blocks.set(id, b);
        let n = self.blocks.len();
        assert(self.view() =~= old(self).view().update(id as int, buf@));
    }
}

} // verus!
