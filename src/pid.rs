//! Process identifiers and kernel stacks.
use vstd::prelude::*;
use crate::address::{ceil_div, VirtAddr};
use crate::config::{KERNEL_STACK_SIZE, PAGE_SIZE, TRAMPOLINE};
use crate::frame_allocator::StackFrameAllocator;
use crate::memory_set::{lemma_next_block, MemorySet, MAP_R, MAP_W};
use crate::page_table::MAX_NODES;

verus! {

/// A process identifier owned by one process.
#[derive(Debug, PartialEq, Eq, Structural)]
pub struct PidHandle(pub usize);

/// Hands out identifiers from 0 upward and reuses freed ones newest first.
pub struct PidAllocator {
    current: usize,
    recycled: Vec<usize>,
}

impl PidAllocator {
    /// The allocator's invariant: freed identifiers are distinct and were
    /// handed out before.
    pub closed spec fn wf(&self) -> bool {
        &&& forall|i: int| 0 <= i < self.recycled@.len() ==> self.recycled@[i] < self.current
        &&& self.recycled@.no_duplicates()
    }

    /// Next identifier never handed out.
    pub closed spec fn fresh(&self) -> usize {
        self.current
    }

    /// Freed identifiers, oldest first.
    pub closed spec fn recycled_view(&self) -> Seq<usize> {
        self.recycled@
    }

    /// Identifiers handed out and not freed.
    pub open spec fn issued(&self) -> Set<usize> {
        Set::new(|p: usize| p < self.fresh() && !self.recycled_view().contains(p))
    }

    /// An allocator that has handed out nothing.
    pub fn new() -> (r: PidAllocator)
        ensures
            r.wf(),
            r.fresh() == 0,
            r.recycled_view().len() == 0,
            r.issued() == Set::<usize>::empty(),
    {
        let r = PidAllocator { current: 0, recycled: Vec::new() };
        assert(r.issued() =~= Set::<usize>::empty());
        r
    }

    /// The identifier `allocate` would hand out now.
    pub fn peek(&self) -> (r: usize)
        ensures
            r == (if self.recycled_view().len() > 0 {
                self.recycled_view().last()
            } else {
                self.fresh()
            }),
    {
        if self.recycled.len() > 0 {
            self.recycled[self.recycled.len() - 1]
        } else {
            self.current
        }
    }

    /// Next identifier never handed out.
    pub fn fresh_id(&self) -> (r: usize)
        ensures
            r == self.fresh(),
    {
        self.current
    }

    /// Freed identifiers lie below the next fresh one.
    pub proof fn lemma_recycled_below(&self)
        requires
            self.wf(),
        ensures
            forall|i: int| 0 <= i < self.recycled_view().len() ==> #[trigger] self.recycled_view()[i] < self.fresh(),
    {
    }

    /// The most recently freed identifier if any, else the next fresh one.
    pub fn allocate(&mut self) -> (r: PidHandle)
        requires
            old(self).wf(),
            old(self).fresh() < usize::MAX,
        ensures
            final(self).wf(),
            r.0 == (if old(self).recycled_view().len() > 0 {
                old(self).recycled_view().last()
            } else {
                old(self).fresh()
            }),
            !old(self).issued().contains(r.0),
            r.0 <= old(self).fresh(),
            final(self).issued() == old(self).issued().insert(r.0),
            final(self).fresh() >= old(self).fresh(),
            final(self).fresh() <= old(self).fresh() + 1,
    {
        let ghost pre = *self;
        if self.recycled.len() > 0 {
            let p = self.recycled.pop().unwrap();
            assert(pre.recycled@ =~= self.recycled@.push(p));
            assert(self.issued() =~= pre.issued().insert(p));
            PidHandle(p)
        } else {
            self.current = self.current + 1;
            let p = self.current - 1;
            assert(self.issued() =~= pre.issued().insert(p));
            PidHandle(p)
        }
    }

    /// Frees an issued identifier.
    pub fn dealloc(&mut self, pid: usize)
        requires
            old(self).wf(),
            old(self).issued().contains(pid),
        ensures
            final(self).wf(),
            final(self).issued() == old(self).issued().remove(pid),
            final(self).recycled_view() == old(self).recycled_view().push(pid),
            final(self).fresh() == old(self).fresh(),
    {
        let ghost pre = *self;
        self.recycled.push(pid);
        assert forall|x: usize| self.recycled@.contains(x) <==> (pre.recycled@.contains(x) || x == pid) by {
            if x == pid {
                assert(self.recycled@[pre.recycled@.len() as int] == x);
            } else if pre.recycled@.contains(x) {
                let i = choose|i: int| 0 <= i < pre.recycled@.len() && pre.recycled@[i] == x;
                assert(self.recycled@[i] == x);
            }
        }
        assert(self.issued() =~= pre.issued().remove(pid));
    }
}

/// Largest identifier whose kernel stack fits below the trampoline.
pub const MAX_STACK_ID: usize = 0x10000;

/// `(bottom, top)` of the kernel stack of `app_id`: stacks go down from the
/// trampoline, each followed by one guard page.
pub fn kernel_stack_position(app_id: usize) -> (r: (u64, u64))
    requires
        app_id <= MAX_STACK_ID,
    ensures
        r.1 == TRAMPOLINE - app_id * (KERNEL_STACK_SIZE + PAGE_SIZE),
        r.0 == r.1 - KERNEL_STACK_SIZE,
{
    let top = TRAMPOLINE - app_id as u64 * (KERNEL_STACK_SIZE + PAGE_SIZE);
    let bottom = top - KERNEL_STACK_SIZE;
    (bottom, top)
}

/// First page of the kernel stack of `app_id`, as seen through the 39-bit
/// virtual-address width.
pub open spec fn stack_bottom_vpn(app_id: usize) -> u64 {
    (((TRAMPOLINE - app_id * (KERNEL_STACK_SIZE + PAGE_SIZE) - KERNEL_STACK_SIZE) % 0x80_0000_0000) / 4096) as u64
}

/// Whether the pages of the kernel stack of `app_id` lie in no segment of
/// `space`.
pub open spec fn stack_range_free(space: MemorySet, app_id: usize) -> bool {
    forall|i: int| 0 <= i < space.segments().len() ==> !(#[trigger] space.segments()[i]).overlaps_pages(
        stack_bottom_vpn(app_id) as int,
        stack_bottom_vpn(app_id) + 2,
    )
}

/// The kernel stack of one process, a framed segment of the kernel space.
#[derive(Debug, PartialEq, Eq, Structural)]
pub struct KernelStack {
    pid: usize,
}

impl KernelStack {
    /// Process the stack belongs to.
    pub closed spec fn owner(&self) -> usize {
        self.pid
    }

    /// Adds the R|W stack segment of `pid_handle` to `kernel_space`, or
    /// `None`, changing nothing, when its pages are taken or frames run out.
    pub fn new(pid_handle: &PidHandle, kernel_space: &mut MemorySet, alloc: &mut StackFrameAllocator) -> (r: Option<KernelStack>)
        requires
            old(kernel_space).wf(old(alloc)),
            pid_handle.0 <= MAX_STACK_ID,
        ensures
            final(kernel_space).wf(final(alloc)),
            old(alloc).issued().subset_of(final(alloc).issued()),
            r.is_none() ==> *final(kernel_space) == *old(kernel_space) && *final(alloc) == *old(alloc),
            r.is_some() ==> r.unwrap().owner() == pid_handle.0,
            r.is_some() ==> final(alloc).available() + 6 >= old(alloc).available(),
            stack_range_free(*old(kernel_space), pid_handle.0) && old(alloc).available() >= 6
                && old(kernel_space).table().node_count() + 4 <= MAX_NODES ==> r.is_some(),
            r.is_some() ==> final(kernel_space).segments().len() == old(kernel_space).segments().len() + 1,
    {
        let (bottom, top) = kernel_stack_position(pid_handle.0);
        let start_va = VirtAddr::from_u64(bottom);
        let end_va = VirtAddr::from_u64(top);
        let ghost id = pid_handle.0 as int;
        assert(bottom % 0x80_0000_0000 <= top % 0x80_0000_0000) by (nonlinear_arith)
            requires
                top == 0xffff_ffff_ffff_f000u64 - id * 12288,
                bottom + 8192 == top,
                0 <= id <= 0x10000;
        proof {
            let id64 = pid_handle.0 as u64;
            assert((0xffff_ffff_ffff_f000u64 - id64 * 12288) % 0x80_0000_0000 == 0x7f_ffff_f000 - id64 * 12288) by (bit_vector)
                requires id64 <= 0x10000;
            assert((0xffff_ffff_ffff_d000u64 - id64 * 12288) % 0x80_0000_0000 == 0x7f_ffff_d000 - id64 * 12288) by (bit_vector)
                requires id64 <= 0x10000;
            assert(top == 0xffff_ffff_ffff_f000u64 - id64 * 12288);
            assert(bottom == 0xffff_ffff_ffff_d000u64 - id64 * 12288);
            assert(start_va.0 / 4096 == stack_bottom_vpn(pid_handle.0));
            assert(ceil_div(end_va.0 as int, 4096) == stack_bottom_vpn(pid_handle.0) + 2);
            assert(stack_bottom_vpn(pid_handle.0) + 2 <= 0x7ff_ffff);
            lemma_next_block(stack_bottom_vpn(pid_handle.0) as int);
        }
        if !kernel_space.area_is_free(start_va, end_va) {
            return None;
        }
        if kernel_space.insert_framed_area(start_va, end_va, MAP_R | MAP_W, alloc) {
            Some(KernelStack { pid: pid_handle.0 })
        } else {
            None
        }
    }

    /// Top of the stack.
    pub fn get_top(&self) -> (r: u64)
        requires
            self.owner() <= MAX_STACK_ID,
        ensures
            r == TRAMPOLINE - self.owner() * (KERNEL_STACK_SIZE + PAGE_SIZE),
    {
        let (_, top) = kernel_stack_position(self.pid);
        top
    }

    /// Removes the stack segment from `kernel_space`, giving its frames back:
    /// the first segment that starts at the stack's bottom page goes.
    pub fn release(self, kernel_space: &mut MemorySet, alloc: &mut StackFrameAllocator)
        requires
            old(kernel_space).wf(old(alloc)),
            self.owner() <= MAX_STACK_ID,
        ensures
            final(kernel_space).wf(final(alloc)),
            forall|i: int|
                0 <= i < old(kernel_space).segments().len()
                    && (#[trigger] old(kernel_space).segments()[i]).start() == stack_bottom_vpn(self.owner())
                    && (forall|j: int| 0 <= j < i ==> (#[trigger] old(kernel_space).segments()[j]).start() != stack_bottom_vpn(self.owner()))
                    ==> final(kernel_space).segments() == old(kernel_space).segments().remove(i),
    {
        let (bottom, _) = kernel_stack_position(self.pid);
        let bottom_va = VirtAddr::from_u64(bottom);
        kernel_space.remove_area_with_start_vpn(bottom_va.floor(), alloc);
    }
}

} // verus!
