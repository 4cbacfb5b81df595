//! Creating, forking and re-imaging processes: the process model, the
//! address spaces and the kernel stacks put together.
use vstd::prelude::*;
use crate::address::{PhysPageNum, PPN_LIMIT};
use crate::config::{KERNEL_STACK_SIZE, PAGE_SIZE, TRAMPOLINE};
use crate::frame_allocator::StackFrameAllocator;
use crate::elf::elf_entry;
use crate::memory_set::{copy_frames_needed, copy_nodes_needed, elf_loadable, MemorySet, TRAP_CONTEXT_VPN};
use crate::page_table::MAX_NODES;
use crate::pid::{stack_range_free, KernelStack, PidHandle, MAX_STACK_ID};
use crate::task::{first_reapable, sys_exec, sys_fork, sys_waitpid, waitpid_outcome, Kernel, TaskStatus};
use crate::layout::byte_of;
use crate::memory_set::write_user_bytes;
use crate::trap_context::TrapContext;

verus! {

/// The init process of the program `elf_data`: its address space from the
/// ELF file, the kernel stack of identifier 0 in `kernel_space`, and a kernel
/// whose only process starts at the entry point with the user stack. `None`
/// when the ELF file is rejected, the stack's pages are taken, or frames run
/// out.
pub fn new_init_process(
    elf_data: &[u8],
    strampoline: PhysPageNum,
    kernel_space: &mut MemorySet,
    alloc: &mut StackFrameAllocator,
    kernel_satp: u64,
    trap_handler: u64,
    sstatus: u64,
) -> (r: Option<(Kernel, MemorySet, KernelStack)>)
    requires
        old(kernel_space).wf(old(alloc)),
        strampoline.0 < PPN_LIMIT,
    ensures
        final(kernel_space).wf(final(alloc)),
        old(alloc).issued().subset_of(final(alloc).issued()),
        elf_loadable(elf_data@, old(alloc).available() - 6) && stack_range_free(*old(kernel_space), 0)
            && old(kernel_space).table().node_count() + 4 <= MAX_NODES ==> r.is_some(),
        r.is_some() ==> {
            let (k, space, stack) = r.unwrap();
            let init = k.task(0);
            let n = space.segments().len();
            &&& init.trap_cx.sepc == elf_entry(elf_data@)
            &&& k.wf()
            &&& k.init() == 0
            &&& k.ready() == seq![0usize]
            &&& k.running().is_none()
            &&& space.wf(final(alloc))
            &&& stack.owner() == 0
            &&& n >= 2
            &&& space.segments()[n - 1].start() == TRAP_CONTEXT_VPN
            &&& space.segments()[n - 2].start() == init.base_size / 4096
            &&& init.trap_cx.is_init_context(init.trap_cx.sepc, init.base_size, kernel_satp, TRAMPOLINE, trap_handler, sstatus)
        },
{
    let (space, user_sp, entry) = match MemorySet::from_elf(elf_data, strampoline, alloc) {
        None => return None,
        Some(t) => t,
    };
    let ghost a1 = *alloc;
    proof {
        kernel_space.lemma_wf_grow(old(alloc), alloc);
    }
    let pid = PidHandle(0);
    let stack = match KernelStack::new(&pid, kernel_space, alloc) {
        None => return None,
        Some(s) => s,
    };
    proof {
        space.lemma_wf_grow(&a1, alloc);
    }
    let top = stack.get_top();
    let cx = TrapContext::app_init_context(entry, user_sp, kernel_satp, top, trap_handler, sstatus);
    let k = Kernel::new(cx, user_sp);
    proof {
        let i = k.slot(0);
        assert(k.table()[0].pid == 0);
        assert(k.table()[i].pid == 0);
    }
    Some((k, space, stack))
}

/// Forks the running process of `k`, whose address space is `parent_space`:
/// the child gets a copy of the space in fresh frames, a kernel stack in
/// `kernel_space` and, through `sys_fork`, its identifier, trap context and
/// place in the ready queue. Returns the child's identifier, space and stack;
/// `None`, with `k` unchanged, when frames run out or the stack's pages are
/// taken.
pub fn fork_process(
    k: &mut Kernel,
    parent_space: &MemorySet,
    kernel_space: &mut MemorySet,
    alloc: &mut StackFrameAllocator,
) -> (r: Option<(isize, MemorySet, KernelStack)>)
    requires
        old(k).wf(),
        old(k).running().is_some(),
        parent_space.wf(old(alloc)),
        old(kernel_space).wf(old(alloc)),
    ensures
        final(k).wf(),
        final(kernel_space).wf(final(alloc)),
        parent_space.wf(final(alloc)),
        old(alloc).issued().subset_of(final(alloc).issued()),
        r.is_none() ==> *final(k) == *old(k),
        old(k).pids().fresh() < MAX_STACK_ID
            && stack_range_free(*old(kernel_space), old(k).next_pid_spec())
            && old(alloc).available() >= copy_frames_needed(parent_space.segments()) + 6
            && copy_nodes_needed(parent_space.segments()) <= MAX_NODES
            && old(kernel_space).table().node_count() + 4 <= MAX_NODES ==> r.is_some(),
        r.is_some() ==> {
            let (c, space, stack) = r.unwrap();
            let p = old(k).running().unwrap();
            &&& c >= 0
            &&& !old(k).has(c as usize)
            &&& final(k).has(c as usize)
            &&& final(k).task(c as usize).parent == Some(p)
            &&& final(k).task(c as usize).trap_cx.x@ == old(k).task(p).trap_cx.x@.update(10, 0)
            &&& final(k).task(c as usize).trap_cx.kernel_sp == TRAMPOLINE - c * (KERNEL_STACK_SIZE + PAGE_SIZE)
            &&& final(k).task(p).children@ == old(k).task(p).children@.push(c as usize)
            &&& final(k).ready() == old(k).ready().push(c as usize)
            &&& stack.owner() == c as usize
            &&& space.wf(final(alloc))
            &&& space.segments().len() == parent_space.segments().len()
            &&& forall|i: int| 0 <= i < space.segments().len() ==> (#[trigger] space.segments()[i]).copies(&parent_space.segments()[i], old(alloc))
        },
{
    if k.fresh_pid() >= MAX_STACK_ID {
        return None;
    }
    let ghost a0 = *alloc;
    let space = match MemorySet::from_existed_user(parent_space, alloc) {
        None => {
            proof {
                kernel_space.lemma_wf_grow(&a0, alloc);
            }
            return None;
        },
        Some(s) => s,
    };
    let ghost a1 = *alloc;
    proof {
        kernel_space.lemma_wf_grow(&a0, alloc);
    }
    let next = k.next_pid();
    proof {
        assert(k.pids().wf());
        assert(next <= k.pids().fresh()) by {
            if k.pids().recycled_view().len() > 0 {
                k.pids().lemma_recycled_below();
            }
        }
    }
    let stack = match KernelStack::new(&PidHandle(next), kernel_space, alloc) {
        None => {
            proof {
                parent_space.lemma_wf_grow(&a1, alloc);
            }
            return None;
        },
        Some(s) => s,
    };
    proof {
        parent_space.lemma_wf_grow(&a1, alloc);
        space.lemma_wf_grow(&a1, alloc);
    }
    let c = sys_fork(k);
    proof {
        assert(c as usize == next);
    }
    Some((c, space, stack))
}

/// Replaces the program of the running process with `elf_data`: a new
/// address space from the ELF file, and the trap context reset to its entry
/// point with its user stack. Returns the new space (the old one is the
/// caller's to recycle); `None`, with `k` unchanged, when the ELF file is
/// rejected or frames run out.
pub fn exec_process(
    k: &mut Kernel,
    elf_data: &[u8],
    strampoline: PhysPageNum,
    alloc: &mut StackFrameAllocator,
    kernel_satp: u64,
    trap_handler: u64,
    sstatus: u64,
) -> (r: Option<MemorySet>)
    requires
        old(k).wf(),
        old(k).running().is_some(),
        old(alloc).wf(),
        strampoline.0 < PPN_LIMIT,
    ensures
        final(k).wf(),
        final(alloc).wf(),
        old(alloc).issued().subset_of(final(alloc).issued()),
        r.is_none() ==> *final(k) == *old(k),
        elf_loadable(elf_data@, old(alloc).available() as int) ==> r.is_some(),
        r.is_some() ==> {
            let space = r.unwrap();
            let p = old(k).running().unwrap();
            let t = final(k).task(p);
            let n = space.segments().len();
            &&& t.trap_cx.sepc == elf_entry(elf_data@)
            &&& t.kernel_stack_top == old(k).task(p).kernel_stack_top
            &&& space.wf(final(alloc))
            &&& n >= 2
            &&& space.segments()[n - 2].start() == t.base_size / 4096
            &&& t.trap_cx.is_init_context(t.trap_cx.sepc, t.base_size, kernel_satp, old(k).task(p).kernel_stack_top, trap_handler, sstatus)
            &&& t.children@ == old(k).task(p).children@
            &&& t.parent == old(k).task(p).parent
            &&& t.task_status == TaskStatus::Running
        },
{
    match MemorySet::from_elf(elf_data, strampoline, alloc) {
        None => None,
        Some((space, user_sp, entry)) => {
            let _ = sys_exec(k, Some((entry, user_sp)), kernel_satp, trap_handler, sstatus);
            Some(space)
        },
    }
}

/// `waitpid(pid, exit_code_ptr)` for the running process of `k`, whose
/// address space is `space`: the outcome of `sys_waitpid`, and when a child
/// is reaped its exit code is stored little-endian in the four bytes at
/// `exit_code_ptr` (when they are mapped; the others stay as they were).
/// Returns the result of `sys_waitpid`.
pub fn wait_process(
    k: &mut Kernel,
    pid: isize,
    space: &mut MemorySet,
    exit_code_ptr: u64,
    alloc: &StackFrameAllocator,
) -> (r: isize)
    requires
        old(k).wf(),
        old(k).running().is_some(),
        old(space).wf(alloc),
        exit_code_ptr + 4 <= u64::MAX,
    ensures
        final(space).wf(alloc),
        exists|code: i32| #[trigger] waitpid_outcome(*old(k), pid, *final(k), (r, code))
            && (r >= 0 && (forall|m: int| 0 <= m < 4 ==> (#[trigger] old(space).user_byte((exit_code_ptr + m) as u64)).is_some())
                ==> forall|m: int| 0 <= m < 4 ==> #[trigger] final(space).user_byte((exit_code_ptr + m) as u64)
                    == Some(byte_of(code as u32, m))),
        r < 0 ==> *final(space) == *old(space),
{
    let (found, code) = sys_waitpid(k, pid);
    if found < 0 {
        return found;
    }
    let c = code as u32;
    assert(((c & 0xff) as u8) == byte_of(c, 0)) by (bit_vector);
    assert((((c >> 8u32) & 0xff) as u8) == byte_of(c, 1)) by (bit_vector);
    assert((((c >> 16u32) & 0xff) as u8) == byte_of(c, 2)) by (bit_vector);
    assert(((c >> 24u32) as u8) == byte_of(c, 3)) by (bit_vector);
    let bytes: [u8; 4] = [(c & 0xff) as u8, ((c >> 8u32) & 0xff) as u8, ((c >> 16u32) & 0xff) as u8, (c >> 24u32) as u8];
    let _ = write_user_bytes(space, exit_code_ptr, bytes.as_slice(), alloc);
    found
}

} // verus!