//! Processes, the FIFO ready queue and the scheduling decisions of the kernel.
use vstd::prelude::*;
use std::collections::VecDeque;
use crate::pid::{kernel_stack_position, PidAllocator, MAX_STACK_ID};
use crate::trap_context::TrapContext;

verus! {

/// State of a process.
#[derive(Clone, Copy, Debug, PartialEq, Eq, Structural)]
pub enum TaskStatus {
    Ready,
    Running,
    Zombie,
}

/// First-in first-out queue of ready processes, by identifier.
pub struct TaskManager {
    ready_queue: VecDeque<usize>,
}

impl TaskManager {
    /// The queued identifiers, head first.
    pub closed spec fn view(&self) -> Seq<usize> {
        self.ready_queue@
    }

    /// An empty queue.
    pub fn new() -> (r: TaskManager)
        ensures
            r.view() == Seq::<usize>::empty(),
    {
        TaskManager { ready_queue: VecDeque::new() }
    }

    /// Queues `task` at the tail.
    pub fn add(&mut self, task: usize)
        ensures
            final(self).view() == old(self).view().push(task),
    {
        self.ready_queue.push_back(task);
    }

    /// Takes the head of the queue, if any.
    pub fn fetch(&mut self) -> (r: Option<usize>)
        ensures
            old(self).view().len() == 0 ==> r.is_none() && final(self).view() == old(self).view(),
            old(self).view().len() > 0 ==> r == Some(old(self).view()[0]) && final(self).view()
                == old(self).view().subrange(1, old(self).view().len() as int),
    {
        self.ready_queue.pop_front()
    }

    /// Number of queued processes.
    pub fn len(&self) -> (r: usize)
        ensures
            r == self.view().len(),
    {
        self.ready_queue.len()
    }
}

/// A process: its identifier, the top of its kernel stack, its saved trap
/// context, the size of its user image, its state, its parent and children
/// by identifier, and its exit code.
pub struct TaskControlBlock {
    pub pid: usize,
    pub kernel_stack_top: u64,
    pub trap_cx: TrapContext,
    pub base_size: u64,
    pub task_status: TaskStatus,
    pub parent: Option<usize>,
    pub children: Vec<usize>,
    pub exit_code: i32,
}

impl TaskControlBlock {
    /// A ready process with no parent and no children.
    pub fn new(pid: usize, kernel_stack_top: u64, trap_cx: TrapContext, base_size: u64) -> (r: TaskControlBlock)
        ensures
            r.pid == pid,
            r.kernel_stack_top == kernel_stack_top,
            r.trap_cx == trap_cx,
            r.base_size == base_size,
            r.task_status == TaskStatus::Ready,
            r.parent.is_none(),
            r.children@.len() == 0,
            r.exit_code == 0,
    {
        TaskControlBlock {
            pid,
            kernel_stack_top,
            trap_cx,
            base_size,
            task_status: TaskStatus::Ready,
            parent: None,
            children: Vec::new(),
            exit_code: 0,
        }
    }

    /// The process identifier.
    pub fn getpid(&self) -> (r: usize)
        ensures
            r == self.pid,
    {
        self.pid
    }

    /// Whether the process has exited and waits to be reaped.
    pub fn is_zombie(&self) -> (r: bool)
        ensures
            r == (self.task_status == TaskStatus::Zombie),
    {
        self.task_status == TaskStatus::Zombie
    }
}

/// Whether child `c` is one that `waitpid(pid)` waits for: any child for
/// `-1`, else the child with that identifier.
pub open spec fn wait_matches(pid: isize, c: usize) -> bool {
    pid == -1 || (pid >= 0 && pid as usize == c)
}

/// The kernel's process state: identifiers, the process table, the ready
/// queue, the process running on the (single) processor, and the init process.
pub struct Kernel {
    pid_allocator: PidAllocator,
    tasks: Vec<TaskControlBlock>,
    manager: TaskManager,
    current: Option<usize>,
    initproc: usize,
}

impl Kernel {
    /// The process table.
    pub closed spec fn table(&self) -> Seq<TaskControlBlock> {
        self.tasks@
    }

    /// The ready queue, head first.
    pub closed spec fn ready(&self) -> Seq<usize> {
        self.manager.view()
    }

    /// The running process, if any.
    pub closed spec fn running(&self) -> Option<usize> {
        self.current
    }

    /// The init process.
    pub closed spec fn init(&self) -> usize {
        self.initproc
    }

    /// Identifiers in use.
    pub closed spec fn pids(&self) -> PidAllocator {
        self.pid_allocator
    }

    /// Whether a process with identifier `pid` exists.
    pub open spec fn has(&self, pid: usize) -> bool {
        exists|i: int| 0 <= i < self.table().len() && (#[trigger] self.table()[i]).pid == pid
    }

    /// Slot of process `pid` in the table.
    pub open spec fn slot(&self, pid: usize) -> int {
        choose|i: int| 0 <= i < self.table().len() && (#[trigger] self.table()[i]).pid == pid
    }

    /// Process `pid`.
    pub open spec fn task(&self, pid: usize) -> TaskControlBlock {
        self.table()[self.slot(pid)]
    }

    /// No two processes share an identifier.
    pub open spec fn pids_distinct(&self) -> bool {
        forall|i: int, j: int|
            0 <= i < self.table().len() && 0 <= j < self.table().len() && i != j
                ==> (#[trigger] self.table()[i]).pid != (#[trigger] self.table()[j]).pid
    }

    /// The kernel's invariant: identifiers are issued and distinct, and the
    /// running process, the queued ones, the init process and every child
    /// exist.
    pub open spec fn wf(&self) -> bool {
        &&& self.pids().wf()
        &&& self.pids_distinct()
        &&& forall|i: int| 0 <= i < self.table().len() ==> self.pids().issued().contains(#[trigger] self.table()[i].pid)
            && self.table()[i].pid <= MAX_STACK_ID
        &&& self.has(self.init())
        &&& self.task(self.init()).parent.is_none()
        &&& forall|i: int| 0 <= i < self.table().len() ==> (#[trigger] self.table()[i]).parent != Some(self.table()[i].pid)
        &&& self.running().is_some() ==> self.has(self.running().unwrap())
            && self.task(self.running().unwrap()).task_status == TaskStatus::Running
        &&& forall|k: int| 0 <= k < self.ready().len() ==> self.has(#[trigger] self.ready()[k])
            && self.task(self.ready()[k]).task_status == TaskStatus::Ready
        &&& self.ready().no_duplicates()
        &&& forall|i: int, j: int|
            0 <= i < self.table().len() && 0 <= j < self.table()[i].children@.len()
                ==> self.has(#[trigger] self.table()[i].children@[j])
                && self.task(self.table()[i].children@[j]).parent == Some(self.table()[i].pid)
        &&& forall|i: int| 0 <= i < self.table().len() ==> (#[trigger] self.table()[i]).children@.no_duplicates()
    }

    proof fn lemma_slot(&self, i: int)
        requires
            self.pids_distinct(),
            0 <= i < self.table().len(),
        ensures
            self.has(self.table()[i].pid),
            self.slot(self.table()[i].pid) == i,
    {
        let j = self.slot(self.table()[i].pid);
        assert(self.table()[j].pid == self.table()[i].pid);
    }

    /// Slot of process `pid`.
    fn find(&self, pid: usize) -> (r: Option<usize>)
        requires
            self.pids_distinct(),
        ensures
            r.is_none() <==> !self.has(pid),
            r.is_some() ==> r.unwrap() == self.slot(pid) && self.table()[r.unwrap() as int].pid == pid,
    {
        let mut i: usize = 0;
        while i < self.tasks.len()
            invariant
                self.pids_distinct(),
                forall|j: int| 0 <= j < i ==> (#[trigger] self.table()[j]).pid != pid,
            decreases self.tasks.len() - i,
        {
            if self.tasks[i].pid == pid {
                proof {
                    self.lemma_slot(i as int);
                }
                return Some(i);
            }
            i = i + 1;
        }
        None
    }

    /// A kernel whose only process is the init process, ready, with
    /// identifier 0 and the given trap context.
    pub fn new(trap_cx: TrapContext, base_size: u64) -> (r: Kernel)
        ensures
            r.wf(),
            r.init() == 0,
            r.table().len() == 1,
            r.table()[0].pid == 0,
            r.table()[0].trap_cx == trap_cx,
            r.table()[0].base_size == base_size,
            r.table()[0].task_status == TaskStatus::Ready,
            r.ready() == seq![0usize],
            r.running().is_none(),
    {
        let mut pid_allocator = PidAllocator::new();
        let pid = pid_allocator.allocate();
        let (_, top) = kernel_stack_position(pid.0);
        let init = TaskControlBlock::new(pid.0, top, trap_cx, base_size);
        let mut tasks: Vec<TaskControlBlock> = Vec::new();
        tasks.push(init);
        let mut manager = TaskManager::new();
        manager.add(0);
        let r = Kernel { pid_allocator, tasks, manager, current: None, initproc: 0 };
        assert(r.table()[0].pid == 0);
        proof {
            r.lemma_slot(0);
        }
        assert(r.ready() =~= seq![0usize]);
        r
    }

    /// Process `pid`, if it exists.
    pub fn get_task(&self, pid: usize) -> (r: Option<&TaskControlBlock>)
        requires
            self.wf(),
        ensures
            r.is_none() <==> !self.has(pid),
            r.is_some() ==> *r.unwrap() == self.task(pid),
    {
        match self.find(pid) {
            None => None,
            Some(i) => Some(&self.tasks[i]),
        }
    }

    /// The identifier the next fork takes.
    pub open spec fn next_pid_spec(&self) -> usize {
        if self.pids().recycled_view().len() > 0 {
            self.pids().recycled_view().last()
        } else {
            self.pids().fresh()
        }
    }

    /// The identifier the next fork will take: the most recently freed one
    /// if any, else the next fresh one.
    pub fn next_pid(&self) -> (r: usize)
        ensures
            r == self.next_pid_spec(),
    {
        self.pid_allocator.peek()
    }

    /// Number of queued processes.
    pub fn ready_len(&self) -> (r: usize)
        ensures
            r == self.ready().len(),
    {
        self.manager.len()
    }

    /// Next identifier never handed out.
    pub fn fresh_pid(&self) -> (r: usize)
        ensures
            r == self.pids().fresh(),
    {
        self.pid_allocator.fresh_id()
    }

    /// The running process.
    pub fn current_task(&self) -> (r: Option<usize>)
        ensures
            r == self.running(),
    {
        self.current
    }

    /// One round of the scheduler loop: takes the head of the ready queue,
    /// marks it running and makes it current. `None` when the queue is empty.
    pub fn run_next(&mut self) -> (r: Option<usize>)
        requires
            old(self).wf(),
            old(self).running().is_none(),
        ensures
            final(self).wf(),
            old(self).ready().len() == 0 ==> r.is_none() && final(self).table() == old(self).table()
                && final(self).ready() == old(self).ready() && final(self).running().is_none(),
            final(self).init() == old(self).init(),
            old(self).ready().len() > 0 ==> {
                let p = old(self).ready()[0];
                &&& r == Some(p)
                &&& final(self).running() == Some(p)
                &&& final(self).ready() == old(self).ready().subrange(1, old(self).ready().len() as int)
                &&& final(self).task(p).task_status == TaskStatus::Running
            },
    {
        let ghost pre = *self;
        match self.manager.fetch() {
            None => None,
            Some(p) => {
                assert(pre.has(p));
                let i = self.find(p).unwrap();
                let mut t = self.tasks.remove(i);
                t.task_status = TaskStatus::Running;
                self.tasks.insert(i, t);
                self.current = Some(p);
                proof {
                    assert(self.table() =~= pre.table().update(i as int, t));
                    self.lemma_keeps_pids(pre, i as int);
                    self.lemma_slot(i as int);
                }
                Some(p)
            },
        }
    }

    proof fn lemma_keeps_pids(&self, pre: Kernel, i: int)
        requires
            pre.wf(),
            0 <= i < pre.table().len(),
            self.table().len() == pre.table().len(),
            forall|j: int| 0 <= j < pre.table().len() && j != i ==> #[trigger] self.table()[j] == pre.table()[j],
            self.table()[i].pid == pre.table()[i].pid,
            self.table()[i].children@ == pre.table()[i].children@,
            self.pids() == pre.pids(),
            self.init() == pre.init(),
        ensures
            forall|p: usize| #[trigger] self.has(p) == pre.has(p),
            forall|p: usize| pre.has(p) ==> #[trigger] self.slot(p) == pre.slot(p),
            forall|a: int, b: int|
                0 <= a < self.table().len() && 0 <= b < self.table().len() && a != b
                    ==> (#[trigger] self.table()[a]).pid != (#[trigger] self.table()[b]).pid,
            forall|a: int| 0 <= a < self.table().len() ==> self.pids().issued().contains(#[trigger] self.table()[a].pid),
            self.has(self.init()),
            forall|a: int, b: int|
                0 <= a < self.table().len() && 0 <= b < self.table()[a].children@.len()
                    ==> self.has(#[trigger] self.table()[a].children@[b]),
    {
        assert forall|p: usize| #[trigger] self.has(p) == pre.has(p) by {
            if self.has(p) {
                let j = choose|j: int| 0 <= j < self.table().len() && (#[trigger] self.table()[j]).pid == p;
                if j != i {
                    assert(pre.table()[j].pid == p);
                } else {
                    assert(pre.table()[i].pid == p);
                }
            }
            if pre.has(p) {
                let j = choose|j: int| 0 <= j < pre.table().len() && (#[trigger] pre.table()[j]).pid == p;
                if j != i {
                    assert(self.table()[j].pid == p);
                } else {
                    assert(self.table()[i].pid == p);
                }
            }
        }
        assert forall|a: int, b: int|
            0 <= a < self.table().len() && 0 <= b < self.table().len() && a != b
                implies (#[trigger] self.table()[a]).pid != (#[trigger] self.table()[b]).pid by {
            assert(self.table()[a].pid == pre.table()[a].pid);
            assert(self.table()[b].pid == pre.table()[b].pid);
        }
        assert forall|p: usize| pre.has(p) implies #[trigger] self.slot(p) == pre.slot(p) by {
            let j = pre.slot(p);
            assert(pre.table()[j].pid == p);
            assert(self.table()[j].pid == p);
            let k = self.slot(p);
            assert(self.table()[k].pid == p);
        }
        assert forall|a: int| 0 <= a < self.table().len() implies self.pids().issued().contains(#[trigger] self.table()[a].pid) by {
            assert(self.table()[a].pid == pre.table()[a].pid);
        }
        assert forall|a: int, b: int|
            0 <= a < self.table().len() && 0 <= b < self.table()[a].children@.len()
                implies self.has(#[trigger] self.table()[a].children@[b]) by {
            assert(self.table()[a].children@ == pre.table()[a].children@);
            assert(pre.has(pre.table()[a].children@[b]));
        }
    }
}

impl Kernel {
    proof fn lemma_update(&self, pre: Kernel, i: int)
        requires
            pre.wf(),
            0 <= i < pre.table().len(),
            self.table() == pre.table().update(i, self.table()[i]),
            self.table()[i].pid == pre.table()[i].pid,
        ensures
            forall|p: usize| #[trigger] self.has(p) == pre.has(p),
            forall|p: usize| pre.has(p) ==> #[trigger] self.slot(p) == pre.slot(p),
            forall|p: usize| pre.has(p) && p != pre.table()[i].pid ==> #[trigger] self.task(p) == pre.task(p),
            self.task(pre.table()[i].pid) == self.table()[i],
            forall|a: int, b: int|
                0 <= a < self.table().len() && 0 <= b < self.table().len() && a != b
                    ==> (#[trigger] self.table()[a]).pid != (#[trigger] self.table()[b]).pid,
    {
        assert forall|p: usize| #[trigger] self.has(p) == pre.has(p) by {
            if self.has(p) {
                let j = choose|j: int| 0 <= j < self.table().len() && (#[trigger] self.table()[j]).pid == p;
                assert(pre.table()[j].pid == p);
            }
            if pre.has(p) {
                let j = choose|j: int| 0 <= j < pre.table().len() && (#[trigger] pre.table()[j]).pid == p;
                assert(self.table()[j].pid == p);
            }
        }
        assert forall|a: int, b: int|
            0 <= a < self.table().len() && 0 <= b < self.table().len() && a != b
                implies (#[trigger] self.table()[a]).pid != (#[trigger] self.table()[b]).pid by {
            assert(self.table()[a].pid == pre.table()[a].pid);
            assert(self.table()[b].pid == pre.table()[b].pid);
        }
        assert forall|p: usize| pre.has(p) implies #[trigger] self.slot(p) == pre.slot(p) by {
            let j = pre.slot(p);
            assert(pre.table()[j].pid == p);
            assert(self.table()[j].pid == p);
            let k = self.slot(p);
            assert(self.table()[k].pid == p);
        }
        pre.lemma_slot(i);
    }

    /// Sets the state of the process in slot `i`.
    fn set_status(&mut self, i: usize, status: TaskStatus)
        requires
            old(self).wf(),
            i < old(self).table().len(),
        ensures
            final(self).table() == old(self).table().update(i as int, final(self).table()[i as int]),
            final(self).table()[i as int].task_status == status,
            final(self).table()[i as int].pid == old(self).table()[i as int].pid,
            final(self).table()[i as int].children@ == old(self).table()[i as int].children@,
            final(self).table()[i as int].parent == old(self).table()[i as int].parent,
            final(self).table()[i as int].exit_code == old(self).table()[i as int].exit_code,
            final(self).table()[i as int].trap_cx == old(self).table()[i as int].trap_cx,
            final(self).ready() == old(self).ready(),
            final(self).running() == old(self).running(),
            final(self).init() == old(self).init(),
            final(self).pids() == old(self).pids(),
    {
        let mut t = self.tasks.remove(i);
        t.task_status = status;
        self.tasks.insert(i, t);
        assert(self.table() =~= old(self).table().update(i as int, t));
    }

    /// The running process gives up the processor: it becomes ready and goes
    /// to the tail of the ready queue; no process is running afterwards.
    pub fn suspend_current_and_run_next(&mut self)
        requires
            old(self).wf(),
            old(self).running().is_some(),
        ensures
            final(self).wf(),
            final(self).running().is_none(),
            final(self).ready() == old(self).ready().push(old(self).running().unwrap()),
            final(self).task(old(self).running().unwrap()).task_status == TaskStatus::Ready,
            final(self).init() == old(self).init(),
            forall|p: usize| #[trigger] final(self).has(p) == old(self).has(p),
    {
        let ghost pre = *self;
        let p = self.current.unwrap();
        let i = self.find(p).unwrap();
        self.set_status(i, TaskStatus::Ready);
        self.current = None;
        self.manager.add(p);
        proof {
            self.lemma_update(pre, i as int);
            assert forall|k: int| 0 <= k < self.ready().len() implies self.has(#[trigger] self.ready()[k])
                && self.task(self.ready()[k]).task_status == TaskStatus::Ready by {
                if k < pre.ready().len() {
                    assert(self.ready()[k] == pre.ready()[k]);
                    assert(pre.task(pre.ready()[k]).task_status == TaskStatus::Ready);
                }
            }
            assert(!pre.ready().contains(p)) by {
                if pre.ready().contains(p) {
                    let k = choose|k: int| 0 <= k < pre.ready().len() && pre.ready()[k] == p;
                    assert(pre.task(pre.ready()[k]).task_status == TaskStatus::Ready);
                }
            }
            assert forall|a: int, b: int|
                0 <= a < self.table().len() && 0 <= b < self.table()[a].children@.len()
                    implies self.has(#[trigger] self.table()[a].children@[b])
                    && self.task(self.table()[a].children@[b]).parent == Some(self.table()[a].pid) by {
                assert(self.table()[a].children@ == pre.table()[a].children@);
                assert(self.table()[a].pid == pre.table()[a].pid);
                let c = pre.table()[a].children@[b];
                if c == p {
                    assert(self.task(c).parent == pre.task(c).parent);
                }
            }
            assert forall|a: int| 0 <= a < self.table().len() implies (#[trigger] self.table()[a]).children@.no_duplicates() by {
                assert(self.table()[a].children@ == pre.table()[a].children@);
            }
            assert forall|a: int| 0 <= a < self.table().len() implies self.pids().issued().contains(#[trigger] self.table()[a].pid) by {
                assert(self.table()[a].pid == pre.table()[a].pid);
            }
        }
    }
}

/// Forks the running process: the child gets a fresh identifier, a copy of
/// the parent's trap context with `x10 = 0` (fork returns 0 in the child) and
/// its own kernel stack top, becomes the parent's last child and is queued.
/// Returns the child's identifier, which the parent sees.
/// What forking the running process does, as a relation between the kernel
/// before (`pre`), after (`post`) and the child identifier `r` returned.
pub open spec fn fork_outcome(pre: Kernel, post: Kernel, r: isize) -> bool {
    &&& post.wf()
    &&& r >= 0
    &&& r as usize == (if pre.pids().recycled_view().len() > 0 {
            pre.pids().recycled_view().last()
        } else {
            pre.pids().fresh()
        })
    &&& ({
            let c = r as usize;
            let p = pre.running().unwrap();
            let parent = pre.task(p);
            let child = post.task(c);
            &&& !pre.has(c)
            &&& post.has(c)
            &&& child.parent == Some(p)
            &&& child.task_status == TaskStatus::Ready
            &&& child.children@.len() == 0
            &&& child.exit_code == 0
            &&& child.base_size == parent.base_size
            &&& child.trap_cx.x@ == parent.trap_cx.x@.update(10, 0)
            &&& child.trap_cx.sepc == parent.trap_cx.sepc
            &&& child.trap_cx.sstatus == parent.trap_cx.sstatus
            &&& child.trap_cx.kernel_satp == parent.trap_cx.kernel_satp
            &&& child.trap_cx.trap_handler == parent.trap_cx.trap_handler
            &&& child.trap_cx.kernel_sp == child.kernel_stack_top
            &&& child.kernel_stack_top == crate::config::TRAMPOLINE - c * (crate::config::KERNEL_STACK_SIZE + crate::config::PAGE_SIZE)
            &&& post.task(p).children@ == parent.children@.push(c)
            &&& post.task(p).task_status == parent.task_status
            &&& post.ready() == pre.ready().push(c)
        })
    &&& post.running() == pre.running()
    &&& post.init() == pre.init()
    &&& forall|q: usize| pre.has(q) ==> #[trigger] post.has(q)
}

/// Forks the running process when the next identifier is below
/// `MAX_STACK_ID`; see `sys_fork`.
fn fork_task(k: &mut Kernel) -> (r: isize)
    requires
        old(k).wf(),
        old(k).running().is_some(),
        old(k).pids().fresh() < MAX_STACK_ID,
    ensures
        fork_outcome(*old(k), *final(k), r),

{
    let ghost pre = *k;
    let p = k.current.unwrap();
    let i = k.find(p).unwrap();
    let pid = k.pid_allocator.allocate();
    let c = pid.0;
    let (_, top) = kernel_stack_position(c);
    let mut cx = k.tasks[i].trap_cx;
    cx.x[10] = 0;
    cx.kernel_sp = top;
    let child = TaskControlBlock {
        pid: c,
        kernel_stack_top: top,
        trap_cx: cx,
        base_size: k.tasks[i].base_size,
        task_status: TaskStatus::Ready,
        parent: Some(p),
        children: Vec::new(),
        exit_code: 0,
    };
    proof {
        if pre.has(c) {
            let j = choose|j: int| 0 <= j < pre.table().len() && (#[trigger] pre.table()[j]).pid == c;
            assert(pre.pids().issued().contains(pre.table()[j].pid));
        }
        pre.lemma_slot(i as int);
    }
    let mut t = k.tasks.remove(i);
    t.children.push(c);
    k.tasks.insert(i, t);
    let ghost mid = *k;
    assert(mid.table() =~= pre.table().update(i as int, t));
    k.tasks.push(child);
    k.manager.add(c);
    let n = k.tasks.len() - 1;
    proof {
        let nn = n as int;
        assert(k.table() == mid.table().push(child));
        assert(k.table()[nn] == child);
        assert forall|q: usize| #[trigger] k.has(q) == (pre.has(q) || q == c) by {
            if k.has(q) {
                let j = choose|j: int| 0 <= j < k.table().len() && (#[trigger] k.table()[j]).pid == q;
                if j < nn {
                    assert(pre.table()[j].pid == q);
                }
            }
            if pre.has(q) {
                let j = choose|j: int| 0 <= j < pre.table().len() && (#[trigger] pre.table()[j]).pid == q;
                assert(k.table()[j].pid == q);
            }
            if q == c {
                assert(k.table()[nn].pid == q);
            }
        }
        assert forall|a: int, b: int|
            0 <= a < k.table().len() && 0 <= b < k.table().len() && a != b
                implies (#[trigger] k.table()[a]).pid != (#[trigger] k.table()[b]).pid by {
            if a < nn {
                assert(k.table()[a].pid == pre.table()[a].pid);
            }
            if b < nn {
                assert(k.table()[b].pid == pre.table()[b].pid);
            }
            if a == nn && b < nn {
                assert(pre.has(pre.table()[b].pid));
            }
            if b == nn && a < nn {
                assert(pre.has(pre.table()[a].pid));
            }
        }
        assert forall|q: usize| pre.has(q) implies #[trigger] k.slot(q) == pre.slot(q) && k.task(q).pid == q by {
            let j = pre.slot(q);
            assert(pre.table()[j].pid == q);
            assert(k.table()[j].pid == q);
            let m = k.slot(q);
            assert(k.table()[m].pid == q);
        }
        assert(k.slot(c) == nn) by {
            let m = k.slot(c);
            assert(k.table()[m].pid == c);
            assert(k.table()[nn].pid == c);
        }
        assert forall|q: usize| pre.has(q) && q != p implies #[trigger] k.task(q) == pre.task(q) by {
            let j = pre.slot(q);
            assert(pre.table()[j].pid == q);
            if j == i {
                assert(pre.table()[i as int].pid == p);
            }
        }
        assert(k.task(p) == t);
        assert forall|a: int| 0 <= a < k.table().len() implies k.pids().issued().contains(#[trigger] k.table()[a].pid) by {
            if a < nn {
                assert(k.table()[a].pid == pre.table()[a].pid);
                assert(pre.pids().issued().contains(pre.table()[a].pid));
            }
        }
        assert forall|m: int| 0 <= m < k.ready().len() implies k.has(#[trigger] k.ready()[m])
            && k.task(k.ready()[m]).task_status == TaskStatus::Ready by {
            if m < pre.ready().len() {
                let q = pre.ready()[m];
                assert(k.ready()[m] == q);
                assert(pre.task(q).task_status == TaskStatus::Ready);
                if q == p {
                    assert(pre.task(p).task_status == TaskStatus::Running);
                }
            }
        }
        assert(!pre.ready().contains(c)) by {
            if pre.ready().contains(c) {
                let m = choose|m: int| 0 <= m < pre.ready().len() && pre.ready()[m] == c;
                assert(pre.has(pre.ready()[m]));
            }
        }
        assert forall|a: int, b: int|
            0 <= a < k.table().len() && 0 <= b < k.table()[a].children@.len()
                implies k.has(#[trigger] k.table()[a].children@[b])
                && k.task(k.table()[a].children@[b]).parent == Some(k.table()[a].pid) by {
            if a < nn && a != i {
                assert(k.table()[a] == pre.table()[a]);
                let q = pre.table()[a].children@[b];
                assert(pre.has(q));
                assert(pre.task(q).parent == Some(pre.table()[a].pid));
            } else if a == i {
                if b < pre.table()[a].children@.len() {
                    let q = pre.table()[a].children@[b];
                    assert(k.table()[a].children@[b] == q);
                    assert(pre.has(q));
                    assert(pre.task(q).parent == Some(pre.table()[a].pid));
                    if q == p {
                        assert(pre.task(p).parent == Some(p));
                    }
                }
            }
        }
        assert forall|a: int| 0 <= a < k.table().len() implies (#[trigger] k.table()[a]).children@.no_duplicates() by {
            if a < nn && a != i {
                assert(k.table()[a] == pre.table()[a]);
            } else if a == i {
                assert(!pre.table()[a].children@.contains(c)) by {
                    if pre.table()[a].children@.contains(c) {
                        let b = choose|b: int| 0 <= b < pre.table()[a].children@.len() && pre.table()[a].children@[b] == c;
                        assert(pre.has(pre.table()[a].children@[b]));
                    }
                }
            }
        }
        assert(k.has(k.init()));
        assert(k.task(p).task_status == TaskStatus::Running);
    }
    c as isize
}

/// Forks the running process: the child gets a fresh identifier, a copy of
/// the parent's trap context with `x10 = 0` (fork returns 0 in the child) and
/// its own kernel stack top, becomes the parent's last child and is queued.
/// Returns the child's identifier, which the parent sees; -1, changing
/// nothing, once identifiers reach `MAX_STACK_ID`, past which kernel stacks
/// would run out of the stack area below the trampoline.
pub fn sys_fork(k: &mut Kernel) -> (r: isize)
    requires
        old(k).wf(),
        old(k).running().is_some(),
    ensures
        final(k).wf(),
        old(k).pids().fresh() < MAX_STACK_ID ==> fork_outcome(*old(k), *final(k), r),
        old(k).pids().fresh() >= MAX_STACK_ID ==> r == -1 && *final(k) == *old(k),
{
    if k.fresh_pid() >= MAX_STACK_ID {
        return -1;
    }
    fork_task(k)
}

impl Kernel {
    /// Sets the parent of the process in slot `i`.
    fn set_parent(&mut self, i: usize, parent: Option<usize>)
        requires
            i < old(self).table().len(),
        ensures
            final(self).table() == old(self).table().update(i as int, final(self).table()[i as int]),
            final(self).table()[i as int].parent == parent,
            final(self).table()[i as int].pid == old(self).table()[i as int].pid,
            final(self).table()[i as int].children@ == old(self).table()[i as int].children@,
            final(self).table()[i as int].task_status == old(self).table()[i as int].task_status,
            final(self).table()[i as int].exit_code == old(self).table()[i as int].exit_code,
            final(self).ready() == old(self).ready(),
            final(self).running() == old(self).running(),
            final(self).init() == old(self).init(),
            final(self).pids() == old(self).pids(),
    {
        let mut t = self.tasks.remove(i);
        t.parent = parent;
        self.tasks.insert(i, t);
        assert(self.table() =~= old(self).table().update(i as int, t));
    }

    /// Appends `c` to the children of the process in slot `i`.
    fn push_child(&mut self, i: usize, c: usize)
        requires
            i < old(self).table().len(),
        ensures
            final(self).table() == old(self).table().update(i as int, final(self).table()[i as int]),
            final(self).table()[i as int].children@ == old(self).table()[i as int].children@.push(c),
            final(self).table()[i as int].pid == old(self).table()[i as int].pid,
            final(self).table()[i as int].parent == old(self).table()[i as int].parent,
            final(self).table()[i as int].task_status == old(self).table()[i as int].task_status,
            final(self).table()[i as int].exit_code == old(self).table()[i as int].exit_code,
            final(self).ready() == old(self).ready(),
            final(self).running() == old(self).running(),
            final(self).init() == old(self).init(),
            final(self).pids() == old(self).pids(),
    {
        let mut t = self.tasks.remove(i);
        t.children.push(c);
        self.tasks.insert(i, t);
        assert(self.table() =~= old(self).table().update(i as int, t));
    }
}

/// Ends the running process, which must not be the init process: it becomes
/// a zombie with `exit_code`, its children move to the init process in
/// order, and no process is running afterwards.
pub fn exit_current_and_run_next(k: &mut Kernel, exit_code: i32)
    requires
        old(k).wf(),
        old(k).running().is_some(),
        old(k).running().unwrap() != old(k).init(),
    ensures
        final(k).wf(),
        ({
            let p = old(k).running().unwrap();
            let kids = old(k).task(p).children@;
            &&& final(k).task(p).task_status == TaskStatus::Zombie
            &&& final(k).task(p).exit_code == exit_code
            &&& final(k).task(p).children@.len() == 0
            &&& final(k).task(p).parent == old(k).task(p).parent
            &&& final(k).task(old(k).init()).children@ == old(k).task(old(k).init()).children@ + kids
            &&& forall|j: int| 0 <= j < kids.len() ==> #[trigger] final(k).task(kids[j]).parent == Some(old(k).init())
        }),
        final(k).running().is_none(),
        final(k).ready() == old(k).ready(),
        final(k).init() == old(k).init(),
        forall|q: usize| #[trigger] final(k).has(q) == old(k).has(q),
        forall|q: usize| old(k).has(q) && #[trigger] old(k).task(q).parent != Some(old(k).running().unwrap()) && q != old(k).running().unwrap() && q != old(k).init()
            ==> final(k).task(q) == old(k).task(q),
{
    let ghost pre = *k;
    let p = k.current.unwrap();
    let i = k.find(p).unwrap();
    let mut t = k.tasks.remove(i);
    let mut kids: Vec<usize> = Vec::new();
    std::mem::swap(&mut t.children, &mut kids);
    t.task_status = TaskStatus::Zombie;
    t.exit_code = exit_code;
    k.tasks.insert(i, t);
    k.current = None;
    let ghost st1 = *k;
    proof {
        assert(k.table() =~= pre.table().update(i as int, t));
        k.lemma_update(pre, i as int);
        pre.lemma_slot(i as int);
        assert(kids@ == pre.task(p).children@);
    }
    assert(k.wf()) by {
        assert forall|m: int| 0 <= m < k.ready().len() implies k.has(#[trigger] k.ready()[m])
            && k.task(k.ready()[m]).task_status == TaskStatus::Ready by {
            let q = pre.ready()[m];
            if q == p {
                assert(pre.task(p).task_status == TaskStatus::Running);
            }
        }
        assert forall|a: int, b: int|
            0 <= a < k.table().len() && 0 <= b < k.table()[a].children@.len()
                implies k.has(#[trigger] k.table()[a].children@[b])
                && k.task(k.table()[a].children@[b]).parent == Some(k.table()[a].pid) by {
            if a != i {
                let q = pre.table()[a].children@[b];
                assert(k.table()[a] == pre.table()[a]);
                assert(pre.task(q).parent == Some(pre.table()[a].pid));
                if q == p {
                    assert(k.task(p).parent == pre.task(p).parent);
                }
            }
        }
        assert forall|a: int| 0 <= a < k.table().len() implies (#[trigger] k.table()[a]).children@.no_duplicates() by {
            if a != i {
                assert(k.table()[a] == pre.table()[a]);
            }
        }
        assert forall|a: int| 0 <= a < k.table().len() implies k.pids().issued().contains(#[trigger] k.table()[a].pid) by {
            assert(k.table()[a].pid == pre.table()[a].pid);
        }
    }
    let init = k.initproc;
    let mut j: usize = 0;
    while j < kids.len()
        invariant
            k.wf(),
            pre.wf(),
            pre.has(p),
            pre.running() == Some(p),
            k.init() == pre.init(),
            init == pre.init(),
            k.running().is_none(),
            k.ready() == pre.ready(),
            p != k.init(),
            k.has(p),
            kids@ == pre.task(p).children@,
            kids@.no_duplicates(),
            j <= kids@.len(),
            forall|q: usize| #[trigger] k.has(q) == pre.has(q),
            k.task(p).task_status == TaskStatus::Zombie,
            k.task(p).exit_code == exit_code,
            k.task(p).children@.len() == 0,
            k.task(p).parent == pre.task(p).parent,
            k.task(k.init()).children@ == pre.task(pre.init()).children@ + kids@.subrange(0, j as int),
            forall|m: int| 0 <= m < j ==> #[trigger] k.task(kids@[m]).parent == Some(pre.init()),
            forall|m: int| j <= m < kids@.len() ==> k.has(#[trigger] kids@[m]) && k.task(kids@[m]).parent == Some(p),
            forall|q: usize| pre.has(q) && #[trigger] pre.task(q).parent != Some(p) && q != p && q != pre.init()
                ==> k.task(q) == pre.task(q),
        decreases kids.len() - j,
    {
        let c = kids[j];
        let ghost st2 = *k;
        assert(st2.task(c).parent == Some(p));
        assert(st2.task(st2.init()).parent.is_none());
        assert(c != init);
        let ci = k.find(c).unwrap();
        k.set_parent(ci, Some(init));
        let ghost st3 = *k;
        proof {
            k.lemma_update(st2, ci as int);
            st2.lemma_slot(ci as int);
        }
        let ii = k.find(init).unwrap();
        k.push_child(ii, c);
        proof {
            k.lemma_update(st3, ii as int);
            st3.lemma_slot(ii as int);
            assert(st2.task(c).parent == Some(p));
            assert(!st2.task(init).children@.contains(c)) by {
                if st2.task(init).children@.contains(c) {
                    let b = choose|b: int| 0 <= b < st2.task(init).children@.len() && st2.task(init).children@[b] == c;
                    st2.lemma_slot(st2.slot(init));
                    assert(st2.table()[st2.slot(init)].children@[b] == c);
                }
            }
            assert forall|q: usize| st2.has(q) && q != c && q != init implies #[trigger] k.task(q) == st2.task(q) by {
                assert(st3.task(q) == st2.task(q));
            }
            assert(k.task(c) == st3.task(c));
            assert(k.task(c).parent == Some(init));
            assert forall|a: int| 0 <= a < k.table().len() implies k.pids().issued().contains(#[trigger] k.table()[a].pid) by {
                assert(k.table()[a].pid == st2.table()[a].pid);
            }
            assert forall|m: int| 0 <= m < k.ready().len() implies k.has(#[trigger] k.ready()[m])
                && k.task(k.ready()[m]).task_status == TaskStatus::Ready by {
                let q = k.ready()[m];
                if q == c {
                    assert(k.task(c).task_status == st2.task(c).task_status);
                } else if q == init {
                    assert(k.task(init).task_status == st2.task(init).task_status);
                }
            }
            assert forall|a: int, b: int|
                0 <= a < k.table().len() && 0 <= b < k.table()[a].children@.len()
                    implies k.has(#[trigger] k.table()[a].children@[b])
                    && k.task(k.table()[a].children@[b]).parent == Some(k.table()[a].pid) by {
                let q = k.table()[a].children@[b];
                if a == ii {
                    if b < st2.table()[a].children@.len() {
                        assert(k.table()[a].children@[b] == st2.table()[a].children@[b]);
                        assert(st2.task(q).parent == Some(st2.table()[a].pid));
                        if q == c {
                            assert(st2.table()[a].pid == init);
                        }
                    }
                } else {
                    assert(k.table()[a].children@ == st2.table()[a].children@);
                    assert(k.table()[a].pid == st2.table()[a].pid);
                    assert(st2.task(q).parent == Some(st2.table()[a].pid));
                    if q == c {
                        assert(st2.table()[a].pid == p);
                        st2.lemma_slot(a);
                        assert(st2.task(p).children@.len() == 0);
                    }
                }
            }
            assert forall|a: int| 0 <= a < k.table().len() implies (#[trigger] k.table()[a]).children@.no_duplicates() by {
                if a != ii {
                    assert(k.table()[a].children@ == st2.table()[a].children@);
                }
            }
            assert forall|a: int| 0 <= a < k.table().len() implies (#[trigger] k.table()[a]).parent != Some(k.table()[a].pid) by {
                if a == ci {
                } else {
                    assert(k.table()[a].parent == st2.table()[a].parent);
                    assert(k.table()[a].pid == st2.table()[a].pid);
                }
            }
            assert(k.task(init).children@ =~= pre.task(pre.init()).children@ + kids@.subrange(0, j as int + 1));
            assert forall|m: int| 0 <= m < j + 1 implies #[trigger] k.task(kids@[m]).parent == Some(pre.init()) by {
                if m < j {
                    let q = kids@[m];
                    assert(q != c);
                    pre.lemma_slot(pre.slot(p));
                    assert(pre.table()[pre.slot(p)].children@[m] == q);
                    assert(pre.has(q));
                    assert(st2.has(q));
                    assert(st2.task(q).parent == Some(pre.init()));
                    assert(q != init);
                    assert(st3.task(q) == st2.task(q));
                    assert(k.task(q) == st3.task(q));
                }
            }
            assert forall|m: int| j + 1 <= m < kids@.len() implies k.has(#[trigger] kids@[m]) && k.task(kids@[m]).parent == Some(p) by {
                assert(kids@[m] != c);
                assert(kids@[m] != init);
            }
        }
        j = j + 1;
    }
}

/// Whether some child in `children` is one that `waitpid(pid)` waits for.
pub open spec fn any_match(children: Seq<usize>, pid: isize) -> bool {
    exists|j: int| 0 <= j < children.len() && wait_matches(pid, #[trigger] children[j])
}

/// Whether `c` is a child that `waitpid(pid)` can reap in `k`.
pub open spec fn reapable(k: Kernel, pid: isize, c: usize) -> bool {
    wait_matches(pid, c) && k.task(c).task_status == TaskStatus::Zombie
}

/// Whether `j` is the first position of `children` that `waitpid(pid)` can reap.
pub open spec fn first_reapable(k: Kernel, children: Seq<usize>, pid: isize, j: int) -> bool {
    &&& 0 <= j < children.len()
    &&& reapable(k, pid, children[j])
    &&& forall|m: int| 0 <= m < j ==> !reapable(k, pid, #[trigger] children[m])
}

fn has_match(children: &Vec<usize>, pid: isize) -> (r: bool)
    ensures
        r == any_match(children@, pid),
{
    let mut j: usize = 0;
    while j < children.len()
        invariant
            j <= children@.len(),
            forall|m: int| 0 <= m < j ==> !wait_matches(pid, #[trigger] children@[m]),
        decreases children.len() - j,
    {
        if wait_matches_exec(pid, children[j]) {
            return true;
        }
        j = j + 1;
    }
    false
}

fn wait_matches_exec(pid: isize, c: usize) -> (r: bool)
    ensures
        r == wait_matches(pid, c),
{
    pid == -1 || (pid >= 0 && pid as usize == c)
}

/// What `sys_waitpid(pid)` does, as a relation between the kernel before
/// (`pre`), after (`post`) and its result `r`.
pub open spec fn waitpid_outcome(pre: Kernel, pid: isize, post: Kernel, r: (isize, i32)) -> bool {
    let p = pre.running().unwrap();
    let ch = pre.task(p).children@;
    &&& post.wf()
    &&& post.running() == pre.running()
    &&& post.ready() == pre.ready()
    &&& post.init() == pre.init()
    &&& !any_match(ch, pid) ==> r == (-1isize, 0i32) && post.table() == pre.table()
    &&& any_match(ch, pid) && (forall|j: int| 0 <= j < ch.len() ==> !reapable(pre, pid, #[trigger] ch[j]))
        ==> r == (-2isize, 0i32) && post.table() == pre.table()
    &&& forall|j: int| #[trigger] first_reapable(pre, ch, pid, j) ==> {
        &&& r == (ch[j] as isize, pre.task(ch[j]).exit_code)
        &&& 0 <= ch[j] <= MAX_STACK_ID
        &&& r.0 >= 0
        &&& !post.has(ch[j])
        &&& !post.pids().issued().contains(ch[j])
        &&& post.task(p).children@ == ch.remove(j)
        &&& forall|q: usize| q != ch[j] ==> #[trigger] post.has(q) == pre.has(q)
    }
}

/// Waits for a child of the running process: `-1` when no child matches
/// `pid` (`-1` matches any), `-2` when matching children exist but none has
/// exited, else the first matching zombie in fork order is removed from the
/// children and from the process table, its identifier is freed, and its
/// identifier and exit code are returned.
pub fn sys_waitpid(k: &mut Kernel, pid: isize) -> (r: (isize, i32))
    requires
        old(k).wf(),
        old(k).running().is_some(),
    ensures
        waitpid_outcome(*old(k), pid, *final(k), r),
{
    let ghost pre = *k;
    let p = k.current.unwrap();
    let i = k.find(p).unwrap();
    let ghost ch = k.tasks[i as int].children@;
    proof {
        pre.lemma_slot(i as int);
    }
    let n = k.tasks[i].children.len();
    if !has_match(&k.tasks[i].children, pid) {
        return (-1, 0);
    }
    let mut j: usize = 0;
    while j < n
        invariant
            *k == pre,
            pre == *old(k),
            pre.wf(),
            pre.running() == Some(p),
            i == pre.slot(p),
            n == ch.len(),
            ch == pre.task(p).children@,
            i < k.tasks@.len(),
            j <= n,
            forall|m: int| 0 <= m < j ==> !reapable(pre, pid, #[trigger] ch[m]),
        decreases n - j,
    {
        let c = k.tasks[i].children[j];
        if wait_matches_exec(pid, c) {
            proof {
                pre.lemma_slot(i as int);
                assert(pre.has(c));
            }
            let ci = k.find(c).unwrap();
            if k.tasks[ci].is_zombie() {
                proof {
                    assert(first_reapable(pre, ch, pid, j as int));
                }
                let r = reap(k, i, j, ci);
                return r;
            }
        }
        j = j + 1;
    }
    (-2, 0)
}

/// Removes child `j` of the process in slot `i`, a zombie in slot `ci`, and
/// frees its identifier; returns its identifier and exit code.
fn reap(k: &mut Kernel, i: usize, j: usize, ci: usize) -> (r: (isize, i32))
    requires
        old(k).wf(),
        old(k).running().is_some(),
        i == old(k).slot(old(k).running().unwrap()),
        j < old(k).table()[i as int].children@.len(),
        ci == old(k).slot(old(k).table()[i as int].children@[j as int]),
        old(k).table()[ci as int].task_status == TaskStatus::Zombie,
    ensures
        final(k).wf(),
        final(k).running() == old(k).running(),
        final(k).ready() == old(k).ready(),
        final(k).init() == old(k).init(),
        ({
            let p = old(k).running().unwrap();
            let ch = old(k).task(p).children@;
            &&& r == (ch[j as int] as isize, old(k).task(ch[j as int]).exit_code)
            &&& !final(k).has(ch[j as int])
            &&& !final(k).pids().issued().contains(ch[j as int])
            &&& final(k).task(p).children@ == ch.remove(j as int)
            &&& forall|q: usize| q != ch[j as int] ==> #[trigger] final(k).has(q) == old(k).has(q)
        }),
{
    let ghost pre = *k;
    let ghost p = pre.running().unwrap();
    proof {
        pre.lemma_slot(i as int);
    }
    let c = k.tasks[i].children[j];
    proof {
        assert(pre.has(c));
        pre.lemma_slot(ci as int);
        assert(pre.table()[ci as int].pid == c);
        assert(ci != i) by {
            if ci == i {
                assert(pre.task(p).task_status == TaskStatus::Running);
            }
        }
    }
    let mut t = k.tasks.remove(i);
    t.children.remove(j);
    k.tasks.insert(i, t);
    let ghost st1 = *k;
    proof {
        assert(st1.table() =~= pre.table().update(i as int, t));
        st1.lemma_update(pre, i as int);
    }
    let removed = k.tasks.remove(ci);
    k.pid_allocator.dealloc(c);
    proof {
        assert(st1.pids_distinct());
        k.lemma_removed(st1, ci as int);
        assert(st1.table()[ci as int].pid == c);
        let ch = pre.task(p).children@;
        assert(ch[j as int] == c);
        assert(t.children@ == ch.remove(j as int));
        assert(pre.task(c).task_status == TaskStatus::Zombie);
        assert(pre.task(c).parent == Some(p));
        assert(removed == pre.table()[ci as int]);
        assert(p != c);
        assert(k.task(p) == t);
        assert forall|a: int| 0 <= a < k.table().len() implies k.pids().issued().contains(#[trigger] k.table()[a].pid)
            && k.table()[a].pid <= MAX_STACK_ID by {
            let b = if a < ci { a } else { a + 1 };
            assert(k.table()[a] == st1.table()[b]);
            assert(st1.table()[b].pid == pre.table()[b].pid);
            assert(pre.pids().issued().contains(pre.table()[b].pid));
            assert(b != ci);
        }
        assert(k.init() != c) by {
            assert(pre.task(pre.init()).parent.is_none());
        }
        assert(k.has(k.init()));
        assert(k.task(k.init()).parent.is_none()) by {
            if k.init() == p {
                assert(t.parent == pre.task(p).parent);
            } else {
                assert(k.task(k.init()) == pre.task(k.init()));
            }
        }
        assert forall|a: int| 0 <= a < k.table().len() implies (#[trigger] k.table()[a]).parent != Some(k.table()[a].pid) by {
            let b = if a < ci { a } else { a + 1 };
            assert(k.table()[a] == st1.table()[b]);
            if b != i {
                assert(st1.table()[b] == pre.table()[b]);
            }
        }
        assert forall|m: int| 0 <= m < k.ready().len() implies k.has(#[trigger] k.ready()[m])
            && k.task(k.ready()[m]).task_status == TaskStatus::Ready by {
            let q = k.ready()[m];
            assert(pre.task(q).task_status == TaskStatus::Ready);
            assert(q != c);
            assert(q != p);
            assert(k.task(q) == pre.task(q));
        }
        assert(k.task(p).task_status == TaskStatus::Running);
        assert forall|a: int, b: int|
            0 <= a < k.table().len() && 0 <= b < k.table()[a].children@.len()
                implies k.has(#[trigger] k.table()[a].children@[b])
                && k.task(k.table()[a].children@[b]).parent == Some(k.table()[a].pid) by {
            let a0 = if a < ci { a } else { a + 1 };
            assert(k.table()[a] == st1.table()[a0]);
            let x = k.table()[a].children@[b];
            if a0 == i {
                let b0 = if b < j { b } else { b + 1 };
                assert(x == ch[b0]);
                assert(pre.table()[i as int].children@[b0] == x);
                assert(pre.task(x).parent == Some(p));
                assert(x != c);
                if x == p {
                    assert(pre.task(p).parent == Some(p));
                    pre.lemma_slot(i as int);
                } else {
                    assert(k.task(x) == pre.task(x));
                }
            } else {
                assert(st1.table()[a0] == pre.table()[a0]);
                assert(pre.table()[a0].children@[b] == x);
                assert(pre.task(x).parent == Some(pre.table()[a0].pid));
                if x == c {
                    pre.lemma_slot(a0);
                    pre.lemma_slot(i as int);
                }
                if x == p {
                    assert(k.task(p).parent == pre.task(p).parent);
                } else {
                    assert(k.task(x) == pre.task(x));
                }
            }
        }
        assert forall|a: int| 0 <= a < k.table().len() implies (#[trigger] k.table()[a]).children@.no_duplicates() by {
            let a0 = if a < ci { a } else { a + 1 };
            assert(k.table()[a] == st1.table()[a0]);
            if a0 == i {
                assert(t.children@ == ch.remove(j as int));
                assert forall|x: int, y: int| 0 <= x < t.children@.len() && 0 <= y < t.children@.len() && x != y implies t.children@[x] != t.children@[y] by {
                    let x0 = if x < j { x } else { x + 1 };
                    let y0 = if y < j { y } else { y + 1 };
                    assert(t.children@[x] == ch[x0]);
                    assert(t.children@[y] == ch[y0]);
                    pre.lemma_slot(i as int);
                }
            } else {
                assert(st1.table()[a0] == pre.table()[a0]);
            }
        }
    }
    (c as isize, removed.exit_code)
}

impl Kernel {
    proof fn lemma_removed(&self, pre: Kernel, ci: int)
        requires
            pre.pids_distinct(),
            0 <= ci < pre.table().len(),
            self.table() == pre.table().remove(ci),
        ensures
            self.pids_distinct(),
            !self.has(pre.table()[ci].pid),
            forall|q: usize| q != pre.table()[ci].pid ==> #[trigger] self.has(q) == pre.has(q),
            forall|q: usize| q != pre.table()[ci].pid && pre.has(q) ==> #[trigger] self.task(q) == pre.task(q),
    {
        let c = pre.table()[ci].pid;
        assert forall|a: int, b: int|
            0 <= a < self.table().len() && 0 <= b < self.table().len() && a != b
                implies (#[trigger] self.table()[a]).pid != (#[trigger] self.table()[b]).pid by {
            let a0 = if a < ci { a } else { a + 1 };
            let b0 = if b < ci { b } else { b + 1 };
            assert(self.table()[a] == pre.table()[a0]);
            assert(self.table()[b] == pre.table()[b0]);
        }
        assert(!self.has(c)) by {
            if self.has(c) {
                let a = choose|a: int| 0 <= a < self.table().len() && (#[trigger] self.table()[a]).pid == c;
                let a0 = if a < ci { a } else { a + 1 };
                assert(self.table()[a] == pre.table()[a0]);
            }
        }
        assert forall|q: usize| q != c implies #[trigger] self.has(q) == pre.has(q) by {
            if self.has(q) {
                let a = choose|a: int| 0 <= a < self.table().len() && (#[trigger] self.table()[a]).pid == q;
                let a0 = if a < ci { a } else { a + 1 };
                assert(self.table()[a] == pre.table()[a0]);
            }
            if pre.has(q) {
                let a = choose|a: int| 0 <= a < pre.table().len() && (#[trigger] pre.table()[a]).pid == q;
                if a < ci {
                    assert(self.table()[a] == pre.table()[a]);
                } else if a > ci {
                    assert(self.table()[a - 1] == pre.table()[a]);
                }
            }
        }
        assert forall|q: usize| q != c && pre.has(q) implies #[trigger] self.task(q) == pre.task(q) by {
            pre.lemma_slot(pre.slot(q));
            let a = pre.slot(q);
            assert(pre.table()[a].pid == q);
            let m = self.slot(q);
            assert(self.has(q));
            assert(self.table()[m].pid == q);
            let m0 = if m < ci { m } else { m + 1 };
            assert(self.table()[m] == pre.table()[m0]);
        }
    }
}

/// When the running process has exactly one child and that child has
/// exited with some code, `waitpid(-1)` returns the child's identifier and
/// that code, and a second `waitpid(-1)` returns -1.
pub proof fn lemma_wait_discipline(k0: Kernel, k1: Kernel, r1: (isize, i32), k2: Kernel, r2: (isize, i32))
    requires
        k0.wf(),
        k0.running().is_some(),
        k0.task(k0.running().unwrap()).children@.len() == 1,
        k0.task(k0.task(k0.running().unwrap()).children@[0]).task_status == TaskStatus::Zombie,
        waitpid_outcome(k0, -1isize, k1, r1),
        waitpid_outcome(k1, -1isize, k2, r2),
    ensures
        r1 == (
            k0.task(k0.running().unwrap()).children@[0] as isize,
            k0.task(k0.task(k0.running().unwrap()).children@[0]).exit_code,
        ),
        r2 == (-1isize, 0i32),
{
    let p = k0.running().unwrap();
    let ch = k0.task(p).children@;
    assert(first_reapable(k0, ch, -1isize, 0));
    assert(k1.task(p).children@ == ch.remove(0));
    assert(k1.task(p).children@.len() == 0);
    assert(!any_match(k1.task(p).children@, -1isize));
}

/// The identifier of the running process.
pub fn sys_getpid(k: &Kernel) -> (r: isize)
    requires
        k.wf(),
        k.running().is_some(),
    ensures
        r == k.running().unwrap() as isize,
{
    let p = k.current.unwrap();
    proof {
        let i = k.slot(p);
        assert(k.table()[i].pid == p);
    }
    p as isize
}

/// The running process yields: it goes to the tail of the ready queue.
/// Returns 0.
pub fn sys_yield(k: &mut Kernel) -> (r: isize)
    requires
        old(k).wf(),
        old(k).running().is_some(),
    ensures
        final(k).wf(),
        r == 0,
        final(k).running().is_none(),
        final(k).ready() == old(k).ready().push(old(k).running().unwrap()),
        final(k).task(old(k).running().unwrap()).task_status == TaskStatus::Ready,
{
    k.suspend_current_and_run_next();
    0
}

/// The running process, not the init process, exits with `exit_code`.
pub fn sys_exit(k: &mut Kernel, exit_code: i32)
    requires
        old(k).wf(),
        old(k).running().is_some(),
        old(k).running().unwrap() != old(k).init(),
    ensures
        final(k).wf(),
        final(k).running().is_none(),
        final(k).task(old(k).running().unwrap()).task_status == TaskStatus::Zombie,
        final(k).task(old(k).running().unwrap()).exit_code == exit_code,
{
    exit_current_and_run_next(k, exit_code);
}

/// The time in milliseconds, as read from the timer.
pub fn sys_get_time(now_ms: usize) -> (r: isize)
    requires
        now_ms <= isize::MAX,
    ensures
        r == now_ms,
{
    now_ms as isize
}

/// Replaces the running program: `None` (no such program) gives -1; else
/// the running process's trap context starts the new image at `entry` with
/// stack `user_sp`, and 0 is returned.
pub fn sys_exec(
    k: &mut Kernel,
    image: Option<(u64, u64)>,
    kernel_satp: u64,
    trap_handler: u64,
    sstatus: u64,
) -> (r: isize)
    requires
        old(k).wf(),
        old(k).running().is_some(),
    ensures
        final(k).wf(),
        final(k).running() == old(k).running(),
        final(k).ready() == old(k).ready(),
        image.is_none() ==> r == -1 && final(k).table() == old(k).table(),
        image.is_some() ==> {
            let p = old(k).running().unwrap();
            let t = final(k).task(p);
            &&& r == 0
            &&& t.trap_cx.is_init_context(
                image.unwrap().0,
                image.unwrap().1,
                kernel_satp,
                old(k).task(p).kernel_stack_top,
                trap_handler,
                sstatus,
            )
            &&& t.base_size == image.unwrap().1
            &&& t.kernel_stack_top == old(k).task(p).kernel_stack_top
            &&& t.pid == p
            &&& t.children@ == old(k).task(p).children@
            &&& t.parent == old(k).task(p).parent
            &&& t.task_status == old(k).task(p).task_status
        },
{
    match image {
        None => -1,
        Some((entry, user_sp)) => {
            let ghost pre = *k;
            let p = k.current.unwrap();
            let i = k.find(p).unwrap();
            let mut t = k.tasks.remove(i);
            t.trap_cx = TrapContext::app_init_context(entry, user_sp, kernel_satp, t.kernel_stack_top, trap_handler, sstatus);
            t.base_size = user_sp;
            k.tasks.insert(i, t);
            proof {
                assert(k.table() =~= pre.table().update(i as int, t));
                k.lemma_update(pre, i as int);
                pre.lemma_slot(i as int);
                assert forall|a: int| 0 <= a < k.table().len() implies k.pids().issued().contains(#[trigger] k.table()[a].pid)
                    && k.table()[a].pid <= MAX_STACK_ID by {
                    assert(k.table()[a].pid == pre.table()[a].pid);
                }
                assert forall|a: int| 0 <= a < k.table().len() implies (#[trigger] k.table()[a]).parent != Some(k.table()[a].pid) by {
                    assert(k.table()[a].pid == pre.table()[a].pid);
                }
                assert forall|m: int| 0 <= m < k.ready().len() implies k.has(#[trigger] k.ready()[m])
                    && k.task(k.ready()[m]).task_status == TaskStatus::Ready by {
                    let q = k.ready()[m];
                    if q == p {
                        assert(k.task(p).task_status == pre.task(p).task_status);
                    }
                }
                assert forall|a: int, b: int|
                    0 <= a < k.table().len() && 0 <= b < k.table()[a].children@.len()
                        implies k.has(#[trigger] k.table()[a].children@[b])
                        && k.task(k.table()[a].children@[b]).parent == Some(k.table()[a].pid) by {
                    assert(k.table()[a].children@ == pre.table()[a].children@);
                    assert(k.table()[a].pid == pre.table()[a].pid);
                    let q = pre.table()[a].children@[b];
                    if q == p {
                        assert(k.task(p).parent == pre.task(p).parent);
                    }
                }
                assert forall|a: int| 0 <= a < k.table().len() implies (#[trigger] k.table()[a]).children@.no_duplicates() by {
                    assert(k.table()[a].children@ == pre.table()[a].children@);
                }
                assert(k.task(k.init()).parent.is_none()) by {
                    if k.init() == p {
                        assert(t.parent == pre.task(p).parent);
                    }
                }
            }
            0
        },
    }
}

} // verus!