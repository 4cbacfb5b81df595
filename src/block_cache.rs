//! A bounded write-back cache of disk blocks with first-in first-out eviction.
use vstd::prelude::*;
use crate::block_dev::{copy_bytes, BlockDevice};
use crate::config::BLOCK_CACHE_SIZE;

verus! {

/// One cached block: its contents, its number, and whether it was changed
/// since it was read.
pub struct BlockCache {
    cache: Vec<u8>,
    block_id: usize,
    modified: bool,
}

impl BlockCache {
    /// Contents of the cached block.
    pub closed spec fn data(&self) -> Seq<u8> {
        self.cache@
    }

    /// Number of the cached block.
    pub closed spec fn id(&self) -> usize {
        self.block_id
    }

    /// Whether the block was changed since it was read or written back.
    pub closed spec fn dirty(&self) -> bool {
        self.modified
    }

    /// Reads block `block_id` from `dev`.
    pub fn new(block_id: usize, dev: &BlockDevice) -> (r: BlockCache)
        requires
            block_id < dev.view().len(),
        ensures
            r.data() == dev.view()[block_id as int],
            r.id() == block_id,
            !r.dirty(),
    {
        BlockCache { cache: dev.read_block(block_id), block_id, modified: false }
    }

    /// Byte `offset` of the block.
    pub fn read_byte(&self, offset: usize) -> (r: u8)
        requires
            offset < self.data().len(),
        ensures
            r == self.data()[offset as int],
    {
        self.cache[offset]
    }

    /// Sets byte `offset` to `v` and marks the block dirty.
    pub fn write_byte(&mut self, offset: usize, v: u8)
        requires
            offset < old(self).data().len(),
        ensures
            final(self).data() == old(self).data().update(offset as int, v),
            final(self).id() == old(self).id(),
            final(self).dirty(),
    {
        self.cache.set(offset, v);
        self.modified = true;
    }

    /// Sets every byte to zero and marks the block dirty.
    pub fn fill_zero(&mut self)
        requires
            old(self).data().len() == 512,
        ensures
            final(self).data() == Seq::new(512, |i: int| 0u8),
            final(self).id() == old(self).id(),
            final(self).dirty(),
    {
        let mut i: usize = 0;
        while i < 512
            invariant
                i <= 512,
                self.cache@.len() == 512,
                self.block_id == old(self).block_id,
                forall|j: int| 0 <= j < i ==> self.cache@[j] == 0u8,
            decreases 512 - i,
        {
            self.cache.set(i, 0u8);
            i = i + 1;
        }
        self.modified = true;
        assert(self.cache@ =~= Seq::new(512, |i: int| 0u8));
    }

    /// Writes the block back to `dev` if it is dirty.
    pub fn sync(&mut self, dev: &mut BlockDevice)
        requires
            old(self).id() < old(dev).view().len(),
        ensures
            final(dev).view() == (if old(self).dirty() {
                old(dev).view().update(old(self).id() as int, old(self).data())
            } else {
                old(dev).view()
            }),
            final(self).data() == old(self).data(),
            final(self).id() == old(self).id(),
            !final(self).dirty(),
    {
        if self.modified {
            self.modified = false;
            dev.write_block(self.block_id, &self.cache);
        }
    }
}

/// The cache of at most `BLOCK_CACHE_SIZE` blocks, oldest first.
pub struct BlockCacheManager {
    queue: Vec<BlockCache>,
}

impl BlockCacheManager {
    /// The cached blocks, oldest first.
    pub closed spec fn entries(&self) -> Seq<BlockCache> {
        self.queue@
    }

    /// The cache's invariant against the device below it: a bounded number of
    /// distinct blocks of 512 bytes, where every clean block equals the disk.
    pub open spec fn wf(&self, dev: &BlockDevice) -> bool {
        let q = self.entries();
        &&& q.len() <= BLOCK_CACHE_SIZE
        &&& dev.wf()
        &&& forall|i: int|
            0 <= i < q.len() ==> (#[trigger] q[i]).id() < dev.view().len() && q[i].data().len()
                == 512
        &&& forall|i: int, j: int| 0 <= i < q.len() && 0 <= j < q.len() && i != j ==> q[i].id() != q[j].id()
        &&& forall|i: int| 0 <= i < q.len() && !(#[trigger] q[i]).dirty() ==> q[i].data() == dev.view()[q[i].id() as int]
    }

    /// Whether block `b` is cached.
    pub open spec fn cached(&self, b: int) -> bool {
        exists|i: int| 0 <= i < self.entries().len() && self.entries()[i].id() == b
    }

    /// The queue slot of cached block `b`.
    pub open spec fn slot(&self, b: int) -> int {
        choose|i: int| 0 <= i < self.entries().len() && self.entries()[i].id() == b
    }

    /// The disk as seen through the cache: cached blocks as cached, the others
    /// as on the device.
    pub open spec fn view(&self, dev: &BlockDevice) -> Seq<Seq<u8>> {
        Seq::new(
            dev.view().len(),
            |b: int|
                if self.cached(b) {
                    self.entries()[self.slot(b)].data()
                } else {
                    dev.view()[b]
                },
        )
    }

    proof fn lemma_slot(&self, dev: &BlockDevice, i: int)
        requires
            self.wf(dev),
            0 <= i < self.entries().len(),
        ensures
            self.cached(self.entries()[i].id() as int),
            self.slot(self.entries()[i].id() as int) == i,
    {
        let b = self.entries()[i].id() as int;
        let j = self.slot(b);
        assert(self.entries()[j].id() == b);
    }

    /// An empty cache.
    pub fn new() -> (r: BlockCacheManager)
        ensures
            r.entries().len() == 0,
            forall|dev: &BlockDevice| dev.wf() ==> #[trigger] r.view(dev) == dev.view(),
    {
        let r = BlockCacheManager { queue: Vec::new() };
        assert forall|dev: &BlockDevice| dev.wf() implies #[trigger] r.view(dev) == dev.view() by {
            assert(r.view(dev) =~= dev.view());
        }
        r
    }

    /// Drops the oldest block, writing it back first if it is dirty.
    fn evict_oldest(&mut self, dev: &mut BlockDevice)
        requires
            old(self).wf(old(dev)),
            old(self).entries().len() > 0,
        ensures
            final(self).wf(final(dev)),
            final(self).view(final(dev)) == old(self).view(old(dev)),
            final(dev).view().len() == old(dev).view().len(),
            final(self).entries() == old(self).entries().subrange(1, old(self).entries().len() as int),
    {
        let ghost st0 = *self;
        let ghost d0 = *dev;
        let mut victim = self.queue.remove(0);
        let ghost vid = victim.id() as int;
        victim.sync(dev);
        assert(self.entries() =~= st0.entries().subrange(1, st0.entries().len() as int));
        proof {
            st0.lemma_slot(&d0, 0);
        }
        assert forall|i: int| 0 <= i < self.entries().len() && !(#[trigger] self.entries()[i]).dirty() implies self.entries()[i].data() == dev.view()[self.entries()[i].id() as int] by {
            assert(st0.entries()[i + 1] == self.entries()[i]);
            assert(st0.entries()[i + 1].id() != st0.entries()[0].id());
        }
        assert(self.wf(dev));
        assert forall|b: int| 0 <= b < d0.view().len() implies #[trigger] self.view(dev)[b] == st0.view(&d0)[b] by {
            if self.cached(b) {
                let j = choose|j: int| 0 <= j < self.entries().len() && self.entries()[j].id() == b;
                self.lemma_slot(dev, j);
                assert(st0.entries()[j + 1] == self.entries()[j]);
                st0.lemma_slot(&d0, j + 1);
            } else if b == vid {
            } else {
                if st0.cached(b) {
                    let j = choose|j: int| 0 <= j < st0.entries().len() && st0.entries()[j].id() == b;
                    assert(self.entries()[j - 1].id() == b);
                }
            }
        }
        assert(self.view(dev) =~= st0.view(&d0));
    }

    /// Slot of block `block_id`, reading it in first when it is not cached. A
    /// full cache first writes back and drops its oldest block. The disk as
    /// seen through the cache does not change.
    pub fn get_block_cache(&mut self, block_id: usize, dev: &mut BlockDevice) -> (i: usize)
        requires
            old(self).wf(old(dev)),
            block_id < old(dev).view().len(),
        ensures
            final(self).wf(final(dev)),
            final(self).view(final(dev)) == old(self).view(old(dev)),
            final(dev).view().len() == old(dev).view().len(),
            i < final(self).entries().len(),
            final(self).entries()[i as int].id() == block_id,
            old(self).cached(block_id as int) ==> final(self).entries() == old(self).entries() && *final(dev) == *old(dev),
            !old(self).cached(block_id as int) ==> {
                let kept = if old(self).entries().len() == BLOCK_CACHE_SIZE {
                    old(self).entries().subrange(1, old(self).entries().len() as int)
                } else {
                    old(self).entries()
                };
                &&& final(self).entries() == kept.push(final(self).entries().last())
                &&& i == kept.len()
                &&& !final(self).entries().last().dirty()
            },
    {
        let mut k: usize = 0;
        while k < self.queue.len()
            invariant
                self.wf(dev),
                forall|j: int| 0 <= j < k ==> (#[trigger] self.entries()[j]).id() != block_id,
            decreases self.queue.len() - k,
        {
            if self.queue[k].block_id == block_id {
                proof {
                    self.lemma_slot(dev, k as int);
                }
                return k;
            }
            k = k + 1;
        }
        if self.queue.len() == BLOCK_CACHE_SIZE {
            self.evict_oldest(dev);
        }
        let ghost st1 = *self;
        assert(!st1.cached(block_id as int));
        let entry = BlockCache::new(block_id, dev);
        self.queue.push(entry);
        assert(self.entries() == st1.entries().push(entry));
        let n = self.queue.len() - 1;
        assert(self.wf(dev));
        assert forall|b: int| 0 <= b < dev.view().len() implies #[trigger] self.view(dev)[b] == st1.view(dev)[b] by {
            if b == block_id {
                self.lemma_slot(dev, n as int);
            } else if self.cached(b) {
                let j = choose|j: int| 0 <= j < self.entries().len() && self.entries()[j].id() == b;
                self.lemma_slot(dev, j);
                st1.lemma_slot(dev, j);
            } else {
                if st1.cached(b) {
                    let j = choose|j: int| 0 <= j < st1.entries().len() && st1.entries()[j].id() == b;
                    assert(self.entries()[j].id() == b);
                }
            }
        }
        assert(self.view(dev) =~= st1.view(dev));
        n
    }

    /// Byte `offset` of block `block_id` as seen through the cache.
    pub fn read_byte(&mut self, dev: &mut BlockDevice, block_id: usize, offset: usize) -> (r: u8)
        requires
            old(self).wf(old(dev)),
            block_id < old(dev).view().len(),
            offset < 512,
        ensures
            final(self).wf(final(dev)),
            final(self).view(final(dev)) == old(self).view(old(dev)),
            final(dev).view().len() == old(dev).view().len(),
            r == old(self).view(old(dev))[block_id as int][offset as int],
    {
        let i = self.get_block_cache(block_id, dev);
        proof {
            self.lemma_slot(dev, i as int);
        }
        self.queue[i].read_byte(offset)
    }

    /// Sets byte `offset` of block `block_id` to `v`, in the cache.
    pub fn write_byte(&mut self, dev: &mut BlockDevice, block_id: usize, offset: usize, v: u8)
        requires
            old(self).wf(old(dev)),
            block_id < old(dev).view().len(),
            offset < 512,
        ensures
            final(self).wf(final(dev)),
            final(self).view(final(dev)) == old(self).view(old(dev)).update(
                block_id as int,
                old(self).view(old(dev))[block_id as int].update(offset as int, v),
            ),
            final(dev).view().len() == old(dev).view().len(),
    {
        let ghost v0 = self.view(dev);
        let i = self.get_block_cache(block_id, dev);
        let ghost st1 = *self;
        proof {
            st1.lemma_slot(dev, i as int);
        }
        let mut e = self.queue.remove(i);
        e.write_byte(offset, v);
        self.queue.insert(i, e);
        assert(self.entries() =~= st1.entries().update(i as int, e));
        assert(self.wf(dev));
        assert forall|b: int| 0 <= b < dev.view().len() implies #[trigger] self.view(dev)[b] == v0.update(
            block_id as int,
            v0[block_id as int].update(offset as int, v),
        )[b] by {
            if b == block_id {
                self.lemma_slot(dev, i as int);
            } else if self.cached(b) {
                let j = choose|j: int| 0 <= j < self.entries().len() && self.entries()[j].id() == b;
                self.lemma_slot(dev, j);
                st1.lemma_slot(dev, j);
            } else {
                if st1.cached(b) {
                    let j = choose|j: int| 0 <= j < st1.entries().len() && st1.entries()[j].id() == b;
                    assert(self.entries()[j].id() == b);
                }
            }
        }
        assert(self.view(dev) =~= v0.update(block_id as int, v0[block_id as int].update(offset as int, v)));
    }

    /// Sets every byte of block `block_id` to zero, in the cache.
    pub fn zero_block(&mut self, dev: &mut BlockDevice, block_id: usize)
        requires
            old(self).wf(old(dev)),
            block_id < old(dev).view().len(),
        ensures
            final(self).wf(final(dev)),
            final(self).view(final(dev)) == old(self).view(old(dev)).update(
                block_id as int,
                Seq::new(512, |i: int| 0u8),
            ),
            final(dev).view().len() == old(dev).view().len(),
    {
        let ghost v0 = self.view(dev);
        let i = self.get_block_cache(block_id, dev);
        let ghost st1 = *self;
        let mut e = self.queue.remove(i);
        e.fill_zero();
        self.queue.insert(i, e);
        assert(self.entries() =~= st1.entries().update(i as int, e));
        assert(self.wf(dev));
        assert forall|b: int| 0 <= b < dev.view().len() implies #[trigger] self.view(dev)[b] == v0.update(
            block_id as int,
            Seq::new(512, |i: int| 0u8),
        )[b] by {
            if b == block_id {
                self.lemma_slot(dev, i as int);
            } else if self.cached(b) {
                let j = choose|j: int| 0 <= j < self.entries().len() && self.entries()[j].id() == b;
                self.lemma_slot(dev, j);
                st1.lemma_slot(dev, j);
            } else {
                if st1.cached(b) {
                    let j = choose|j: int| 0 <= j < st1.entries().len() && st1.entries()[j].id() == b;
                    assert(self.entries()[j].id() == b);
                }
            }
        }
        assert(self.view(dev) =~= v0.update(block_id as int, Seq::new(512, |i: int| 0u8)));
    }

    /// Writes every dirty block back, keeping all blocks cached. Afterwards the
    /// device holds what the cache showed.
    pub fn sync_all(&mut self, dev: &mut BlockDevice)
        requires
            old(self).wf(old(dev)),
        ensures
            final(self).wf(final(dev)),
            final(self).view(final(dev)) == old(self).view(old(dev)),
            final(dev).view() == old(self).view(old(dev)),
            final(self).entries().len() == old(self).entries().len(),
            forall|i: int| 0 <= i < final(self).entries().len() ==> !(#[trigger] final(self).entries()[i]).dirty(),
            forall|i: int| 0 <= i < final(self).entries().len() ==> #[trigger] final(self).entries()[i].id() == old(self).entries()[i].id(),
    {
        let ghost v0 = self.view(dev);
        let ghost n0 = self.entries().len();
        let mut i: usize = 0;
        while i < self.queue.len()
            invariant
                self.wf(dev),
                self.entries().len() == n0,
                forall|m: int| 0 <= m < n0 ==> #[trigger] self.entries()[m].id() == old(self).entries()[m].id(),
                self.view(dev) == v0,
                dev.view().len() == v0.len(),
                forall|j: int| 0 <= j < i ==> !(#[trigger] self.entries()[j]).dirty(),
            decreases self.queue.len() - i,
        {
            let ghost st1 = *self;
            let ghost d1 = *dev;
            proof {
                st1.lemma_slot(&d1, i as int);
            }
            let mut e = self.queue.remove(i);
            e.sync(dev);
            self.queue.insert(i, e);
            assert(self.entries() =~= st1.entries().update(i as int, e));
            assert forall|j: int| 0 <= j < self.entries().len() && !(#[trigger] self.entries()[j]).dirty() implies self.entries()[j].data() == dev.view()[self.entries()[j].id() as int] by {
                if j != i {
                    assert(st1.entries()[j].id() != st1.entries()[i as int].id());
                }
            }
            assert(self.wf(dev));
            assert forall|b: int| 0 <= b < dev.view().len() implies #[trigger] self.view(dev)[b] == v0[b] by {
                if self.cached(b) {
                    let j = choose|j: int| 0 <= j < self.entries().len() && self.entries()[j].id() == b;
                    self.lemma_slot(dev, j);
                    st1.lemma_slot(&d1, j);
                } else {
                    if st1.cached(b) {
                        let j = choose|j: int| 0 <= j < st1.entries().len() && st1.entries()[j].id() == b;
                        assert(self.entries()[j].id() == b);
                    }
                    assert(b != st1.entries()[i as int].id());
                }
            }
            assert(self.view(dev) =~= v0);
            i = i + 1;
        }
        assert forall|b: int| 0 <= b < dev.view().len() implies #[trigger] self.view(dev)[b] == dev.view()[b] by {
            if self.cached(b) {
                let j = choose|j: int| 0 <= j < self.entries().len() && self.entries()[j].id() == b;
                self.lemma_slot(dev, j);
            }
        }
        assert(self.view(dev) =~= dev.view());
    }
}

/// A byte written through the cache and not overwritten since is on the
/// device after `sync_all`: `write_byte` puts it in the cached view, later
/// writes elsewhere keep it, and `sync_all` makes the device equal the view.
pub proof fn lemma_written_byte_reaches_disk(
    view_written: Seq<Seq<u8>>,
    view_later: Seq<Seq<u8>>,
    disk_synced: Seq<Seq<u8>>,
    block: int,
    offset: int,
    v: u8,
)
    requires
        0 <= block < view_written.len(),
        0 <= offset < view_written[block].len(),
        view_written[block][offset] == v,
        view_later.len() == view_written.len(),
        view_later[block][offset] == view_written[block][offset],
        disk_synced == view_later,
    ensures
        disk_synced[block][offset] == v,
{
}

} // verus!