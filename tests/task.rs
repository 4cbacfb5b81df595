use rcore::pid::{kernel_stack_position, PidAllocator};
use rcore::task::{
    sys_exec, sys_exit, sys_fork, sys_get_time, sys_getpid, sys_waitpid, sys_yield, Kernel,
    TaskManager, TaskStatus,
};
use rcore::trap_context::TrapContext;

fn boot() -> Kernel {
    let cx = TrapContext::app_init_context(0x10000, 0x13000, 0x8000_0000_0008_0000, 0, 0x1234, 0x122);
    let mut k = Kernel::new(cx, 0x13000);
    assert_eq!(k.run_next(), Some(0));
    k
}

#[test]
fn trap_context_for_new_task() {
    let cx = TrapContext::app_init_context(0x10000, 0x13000, 7, 8, 9, 0x1122);
    assert_eq!(cx.x[2], 0x13000);
    assert_eq!(cx.x[10], 0);
    assert_eq!(cx.sepc, 0x10000);
    assert_eq!(cx.sstatus, 0x1022);
    assert_eq!((cx.kernel_satp, cx.kernel_sp, cx.trap_handler), (7, 8, 9));
}

#[test]
fn pids_are_reused_newest_first() {
    let mut p = PidAllocator::new();
    assert_eq!(p.allocate().0, 0);
    assert_eq!(p.allocate().0, 1);
    assert_eq!(p.allocate().0, 2);
    p.dealloc(0);
    p.dealloc(2);
    assert_eq!(p.allocate().0, 2);
    assert_eq!(p.allocate().0, 0);
    assert_eq!(p.allocate().0, 3);
}

#[test]
fn kernel_stacks_below_trampoline() {
    assert_eq!(kernel_stack_position(0), (0xffff_ffff_ffff_d000, 0xffff_ffff_ffff_f000));
    assert_eq!(kernel_stack_position(1), (0xffff_ffff_ffff_a000, 0xffff_ffff_ffff_c000));
}

#[test]
fn ready_queue_is_fifo() {
    let mut m = TaskManager::new();
    m.add(4);
    m.add(2);
    m.add(9);
    assert_eq!(m.fetch(), Some(4));
    assert_eq!(m.fetch(), Some(2));
    assert_eq!(m.len(), 1);
    assert_eq!(m.fetch(), Some(9));
    assert_eq!(m.fetch(), None);
}

#[test]
fn fork_child_returns_zero() {
    let mut k = boot();
    let child = sys_fork(&mut k);
    assert_eq!(child, 1);
    let t = k.get_task(1).unwrap();
    assert_eq!(t.trap_cx.x[10], 0);
    assert_eq!(t.trap_cx.x[2], 0x13000);
    assert_eq!(t.trap_cx.kernel_sp, kernel_stack_position(1).1);
    assert_eq!(t.parent, Some(0));
    assert_eq!(t.task_status, TaskStatus::Ready);
    assert_eq!(k.get_task(0).unwrap().children, vec![1]);
}

#[test]
fn fork_exit_wait_s4() {
    let mut k = boot();
    let child = sys_fork(&mut k);
    assert_eq!(sys_yield(&mut k), 0);
    assert_eq!(k.run_next(), Some(child as usize));
    assert_eq!(sys_getpid(&k), child);
    sys_exit(&mut k, 7);
    assert_eq!(k.get_task(child as usize).unwrap().task_status, TaskStatus::Zombie);
    assert_eq!(k.run_next(), Some(0));
    assert_eq!(sys_waitpid(&mut k, -1), (child, 7));
    assert!(k.get_task(child as usize).is_none());
    assert_eq!(sys_waitpid(&mut k, -1), (-1, 0));
}

#[test]
fn waitpid_before_exit_gives_minus_two() {
    let mut k = boot();
    let c1 = sys_fork(&mut k);
    let c2 = sys_fork(&mut k);
    assert_eq!(sys_waitpid(&mut k, -1), (-2, 0));
    assert_eq!(sys_waitpid(&mut k, 5), (-1, 0));
    assert_eq!(sys_waitpid(&mut k, c2), (-2, 0));
    let _ = c1;
}

#[test]
fn orphans_go_to_init_s5() {
    let mut k = boot();
    let shell = sys_fork(&mut k) as usize;
    sys_yield(&mut k);
    assert_eq!(k.run_next(), Some(shell));
    let grandchild = sys_fork(&mut k) as usize;
    sys_exit(&mut k, 0);
    assert_eq!(k.get_task(grandchild).unwrap().parent, Some(0));
    assert_eq!(k.get_task(0).unwrap().children, vec![shell, grandchild]);
    assert_eq!(k.run_next(), Some(0));
    assert_eq!(sys_waitpid(&mut k, -1), (shell as isize, 0));
    assert_eq!(sys_waitpid(&mut k, -1), (-2, 0));
}

#[test]
fn yields_alternate_fifo_s6() {
    let mut k = boot();
    let a = sys_fork(&mut k) as usize;
    let b = sys_fork(&mut k) as usize;
    sys_yield(&mut k);
    let mut order = Vec::new();
    for _ in 0..9 {
        let p = k.run_next().unwrap();
        order.push(p);
        sys_yield(&mut k);
    }
    assert_eq!(order, vec![a, b, 0, a, b, 0, a, b, 0]);
    assert_eq!(k.ready_len(), 3);
}

#[test]
fn exec_replaces_context() {
    let mut k = boot();
    assert_eq!(sys_exec(&mut k, None, 1, 2, 0x100), -1);
    assert_eq!(sys_exec(&mut k, Some((0x20000, 0x25000)), 1, 2, 0x100), 0);
    let t = k.get_task(0).unwrap();
    assert_eq!(t.trap_cx.sepc, 0x20000);
    assert_eq!(t.trap_cx.x[2], 0x25000);
    assert_eq!(t.base_size, 0x25000);
    assert_eq!(sys_get_time(1234), 1234);
}
