//! Stack allocator of physical frames.
use vstd::prelude::*;
use crate::address::{PhysPageNum, PPN_LIMIT};

verus! {

/// Hands out the frames of `[current, end)` once each, and reuses freed frames
/// newest first.
pub struct StackFrameAllocator {
    current: u64,
    end: u64,
    recycled: Vec<u64>,
}

impl StackFrameAllocator {
    /// The allocator's internal invariant.
    pub closed spec fn wf(&self) -> bool {
        &&& self.current <= self.end
        &&& self.end <= PPN_LIMIT
        &&& forall|i: int| 0 <= i < self.recycled@.len() ==> self.recycled@[i] < self.current
        &&& self.recycled@.no_duplicates()
    }

    /// Next frame never handed out before.
    pub closed spec fn fresh(&self) -> u64 {
        self.current
    }

    /// End of the pool.
    pub closed spec fn limit(&self) -> u64 {
        self.end
    }

    /// Freed frames, oldest first; the last one is reused first.
    pub closed spec fn recycled_view(&self) -> Seq<u64> {
        self.recycled@
    }

    /// Frames handed out and not yet given back.
    pub open spec fn issued(&self) -> Set<u64> {
        Set::new(|p: u64| p < self.fresh() && !self.recycled_view().contains(p))
    }

    /// Number of frames that can still be handed out.
    pub open spec fn available(&self) -> nat {
        (self.recycled_view().len() + (self.limit() - self.fresh())) as nat
    }

    /// What `allocate` does, as a relation between the states before and after.
    pub open spec fn alloc_outcome(pre: Self, post: Self, r: Option<PhysPageNum>) -> bool {
        &&& post.limit() == pre.limit()
        &&& (pre.available() == 0 <==> r.is_none())
        &&& r.is_none() ==> post == pre
        &&& r.is_some() ==> {
            let p = r.unwrap().0;
            &&& p == (if pre.recycled_view().len() > 0 {
                pre.recycled_view().last()
            } else {
                pre.fresh()
            })
            &&& p < PPN_LIMIT
            &&& !pre.issued().contains(p)
            &&& post.issued() == pre.issued().insert(p)
            &&& post.available() + 1 == pre.available()
            &&& pre.recycled_view().len() > 0 ==> post.recycled_view() == pre.recycled_view().drop_last()
                && post.fresh() == pre.fresh()
            &&& pre.recycled_view().len() == 0 ==> post.recycled_view() == pre.recycled_view()
                && post.fresh() == pre.fresh() + 1
        }
    }

    /// An allocator with an empty pool.
    pub fn new() -> (r: StackFrameAllocator)
        ensures
            r.wf(),
            r.available() == 0,
            r.issued() == Set::<u64>::empty(),
    {
        let r = StackFrameAllocator { current: 0, end: 0, recycled: Vec::new() };
        assert(r.issued() =~= Set::<u64>::empty());
        r
    }

    /// Makes `[l, r)` the pool; nothing is issued afterwards.
    pub fn init(&mut self, l: PhysPageNum, r: PhysPageNum)
        requires
            l.0 <= r.0,
            r.0 <= PPN_LIMIT,
        ensures
            final(self).wf(),
            final(self).fresh() == l.0,
            final(self).limit() == r.0,
            final(self).recycled_view().len() == 0,
            final(self).available() == r.0 - l.0,
    {
        self.current = l.0;
        self.end = r.0;
        self.recycled = Vec::new();
    }

    /// Whether at least `n` frames can still be handed out.
    pub fn can_allocate(&self, n: usize) -> (r: bool)
        requires
            self.wf(),
        ensures
            r == (self.available() >= n),
    {
        if self.recycled.len() >= n {
            true
        } else {
            self.end - self.current >= (n - self.recycled.len()) as u64
        }
    }

    /// Hands out a frame: the most recently freed one if any, else the next
    /// never-used one; `None` when the pool is exhausted.
    pub fn allocate(&mut self) -> (r: Option<PhysPageNum>)
        requires
            old(self).wf(),
        ensures
            final(self).wf(),
            Self::alloc_outcome(*old(self), *final(self), r),
    {
        let ghost pre = *self;
        if self.recycled.len() > 0 {
            let p = self.recycled.pop().unwrap();
            assert(pre.recycled@ =~= self.recycled@.push(p));
            assert(self.recycled@ =~= pre.recycled@.drop_last());
            assert(self.issued() =~= pre.issued().insert(p));
            Some(PhysPageNum(p))
        } else if self.current == self.end {
            None
        } else {
            self.current = self.current + 1;
            let p = self.current - 1;
            assert(self.issued() =~= pre.issued().insert(p));
            Some(PhysPageNum(p))
        }
    }

    /// Takes back an issued frame; it is handed out again before any fresh one.
    pub fn dealloc(&mut self, ppn: PhysPageNum)
        requires
            old(self).wf(),
            old(self).issued().contains(ppn.0),
        ensures
            final(self).wf(),
            final(self).issued() == old(self).issued().remove(ppn.0),
            final(self).recycled_view() == old(self).recycled_view().push(ppn.0),
            final(self).fresh() == old(self).fresh(),
            final(self).limit() == old(self).limit(),
            final(self).available() == old(self).available() + 1,
    {
        let ghost pre = *self;
        self.recycled.push(ppn.0);
        assert(self.recycled@ == pre.recycled@.push(ppn.0));
        assert forall|x: u64| self.recycled@.contains(x) <==> (pre.recycled@.contains(x) || x
            == ppn.0) by {
            if x == ppn.0 {
                assert(self.recycled@[pre.recycled@.len() as int] == x);
            } else if pre.recycled@.contains(x) {
                let i = choose|i: int| 0 <= i < pre.recycled@.len() && pre.recycled@[i] == x;
                assert(self.recycled@[i] == x);
            }
        }
        assert(self.issued() =~= pre.issued().remove(ppn.0));
    }
}

/// Two allocations with no deallocation between them never return the same
/// frame.
pub proof fn lemma_alloc_twice_distinct(
    st0: StackFrameAllocator,
    st1: StackFrameAllocator,
    st2: StackFrameAllocator,
    first: PhysPageNum,
    second: PhysPageNum,
)
    requires
        StackFrameAllocator::alloc_outcome(st0, st1, Some(first)),
        StackFrameAllocator::alloc_outcome(st1, st2, Some(second)),
    ensures
        first != second,
        st2.issued().contains(first.0),
        st2.issued().contains(second.0),
{
    assert(st1.issued().contains(first.0));
}

/// A frame stays issued until it is deallocated: an allocation never hands
/// out a frame that is still issued.
pub proof fn lemma_alloc_never_reissues(
    st0: StackFrameAllocator,
    st1: StackFrameAllocator,
    p: PhysPageNum,
    q: u64,
)
    requires
        StackFrameAllocator::alloc_outcome(st0, st1, Some(p)),
        st0.issued().contains(q),
    ensures
        p.0 != q,
        st1.issued().contains(q),
{
}

} // verus!
