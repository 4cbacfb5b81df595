use rcore::address::{PhysPageNum, VirtPageNum};
use rcore::frame_allocator::StackFrameAllocator;
use rcore::memory_set::{translated_byte_buffer, write_user_bytes, MemorySet};
use rcore::pid::kernel_stack_position;
use rcore::process::{exec_process, fork_process, new_init_process, wait_process};
use rcore::task::{sys_waitpid, sys_exit, TaskStatus};

fn init_elf(entry: u64, vaddr: u64) -> Vec<u8> {
    let mut f = vec![0u8; 0x200];
    f[0..4].copy_from_slice(&[0x7f, b'E', b'L', b'F']);
    f[4] = 2;
    f[5] = 1;
    f[6] = 1;
    f[16..18].copy_from_slice(&2u16.to_le_bytes());
    f[24..32].copy_from_slice(&entry.to_le_bytes());
    f[32..40].copy_from_slice(&64u64.to_le_bytes());
    f[54..56].copy_from_slice(&56u16.to_le_bytes());
    f[56..58].copy_from_slice(&1u16.to_le_bytes());
    f[64..68].copy_from_slice(&1u32.to_le_bytes());
    f[68..72].copy_from_slice(&6u32.to_le_bytes());
    f[72..80].copy_from_slice(&0x100u64.to_le_bytes());
    f[80..88].copy_from_slice(&vaddr.to_le_bytes());
    f[96..104].copy_from_slice(&8u64.to_le_bytes());
    f[104..112].copy_from_slice(&0x1000u64.to_le_bytes());
    f[0x100..0x108].copy_from_slice(b"initproc");
    f
}

fn setup() -> (StackFrameAllocator, MemorySet) {
    let mut a = StackFrameAllocator::new();
    a.init(PhysPageNum(0x80000), PhysPageNum(0x80400));
    let ks = MemorySet::new_bare(&mut a).unwrap();
    (a, ks)
}

#[test]
fn init_process_from_elf() {
    let (mut a, mut ks) = setup();
    let elf = init_elf(0x10000, 0x10000);
    let (k, space, _stack) = new_init_process(&elf, PhysPageNum(0x8_0200), &mut ks, &mut a, 5, 6, 0x100).unwrap();
    let init = k.get_task(0).unwrap();
    assert_eq!(init.trap_cx.sepc, 0x10000);
    assert_eq!(init.trap_cx.x[2], 0x12000);
    assert_eq!(init.base_size, 0x12000);
    assert_eq!(init.trap_cx.kernel_sp, kernel_stack_position(0).1);
    assert_eq!(init.trap_cx.sstatus, 0);
    assert_eq!(translated_byte_buffer(&space, 0x10000, 8, &a).unwrap(), b"initproc".to_vec());
    assert!(ks.translate(VirtPageNum(0x7ff_fffd)).unwrap().writable());
}

#[test]
fn fork_process_copies_space() {
    let (mut a, mut ks) = setup();
    let elf = init_elf(0x10000, 0x10000);
    let (mut k, mut space, _stack) = new_init_process(&elf, PhysPageNum(0x8_0200), &mut ks, &mut a, 5, 6, 0).unwrap();
    assert_eq!(k.run_next(), Some(0));
    let (child, mut child_space, _child_stack) = fork_process(&mut k, &space, &mut ks, &mut a).unwrap();
    assert_eq!(child, 1);
    assert_eq!(k.get_task(1).unwrap().trap_cx.x[10], 0);
    assert_eq!(k.get_task(1).unwrap().trap_cx.sepc, 0x10000);
    assert_eq!(translated_byte_buffer(&child_space, 0x10000, 8, &a).unwrap(), b"initproc".to_vec());
    assert!(write_user_bytes(&mut child_space, 0x10000, b"CHILD", &a));
    assert_eq!(translated_byte_buffer(&space, 0x10000, 5, &a).unwrap(), b"initp".to_vec());
    assert!(write_user_bytes(&mut space, 0x10001, b"Z", &a));
    assert_eq!(translated_byte_buffer(&child_space, 0x10000, 5, &a).unwrap(), b"CHILD".to_vec());
    assert!(ks.translate(VirtPageNum(0x7ff_fffa)).is_some());
}

#[test]
fn exec_process_reloads_image() {
    let (mut a, mut ks) = setup();
    let elf = init_elf(0x10000, 0x10000);
    let (mut k, _space, _stack) = new_init_process(&elf, PhysPageNum(0x8_0200), &mut ks, &mut a, 5, 6, 0).unwrap();
    assert_eq!(k.run_next(), Some(0));
    let other = init_elf(0x40004, 0x40000);
    let new_space = exec_process(&mut k, &other, PhysPageNum(0x8_0200), &mut a, 5, 6, 0).unwrap();
    let t = k.get_task(0).unwrap();
    assert_eq!(t.trap_cx.sepc, 0x40004);
    assert_eq!(t.trap_cx.x[2], 0x42000);
    assert_eq!(t.task_status, TaskStatus::Running);
    assert!(new_space.translate(VirtPageNum(0x40)).is_some());
    let mut bad = other.clone();
    bad[0] = 0;
    assert!(exec_process(&mut k, &bad, PhysPageNum(0x8_0200), &mut a, 5, 6, 0).is_none());
}

#[test]
fn forked_child_exit_is_reaped() {
    let (mut a, mut ks) = setup();
    let elf = init_elf(0x10000, 0x10000);
    let (mut k, space, _stack) = new_init_process(&elf, PhysPageNum(0x8_0200), &mut ks, &mut a, 5, 6, 0).unwrap();
    assert_eq!(k.run_next(), Some(0));
    let (child, mut child_space, _s) = fork_process(&mut k, &space, &mut ks, &mut a).unwrap();
    assert!(a.can_allocate(1));
    k.suspend_current_and_run_next();
    assert_eq!(k.run_next(), Some(child as usize));
    sys_exit(&mut k, 7);
    child_space.recycle_data_pages(&mut a);
    assert_eq!(k.run_next(), Some(0));
    assert_eq!(sys_waitpid(&mut k, -1), (child, 7));
    assert_eq!(sys_waitpid(&mut k, -1), (-1, 0));
}

#[test]
fn wait_writes_exit_code_to_parent() {
    let (mut a, mut ks) = setup();
    let elf = init_elf(0x10000, 0x10000);
    let (mut k, mut space, _stack) = new_init_process(&elf, PhysPageNum(0x8_0200), &mut ks, &mut a, 5, 6, 0).unwrap();
    assert_eq!(k.run_next(), Some(0));
    let (child, _child_space, _s) = fork_process(&mut k, &space, &mut ks, &mut a).unwrap();
    assert_eq!(wait_process(&mut k, -1, &mut space, 0x12000, &a), -2);
    k.suspend_current_and_run_next();
    assert_eq!(k.run_next(), Some(child as usize));
    sys_exit(&mut k, -7);
    assert_eq!(k.run_next(), Some(0));
    assert_eq!(wait_process(&mut k, -1, &mut space, 0x12000, &a), child);
    let code = translated_byte_buffer(&space, 0x12000, 4, &a).unwrap();
    assert_eq!(i32::from_le_bytes([code[0], code[1], code[2], code[3]]), -7);
    assert_eq!(wait_process(&mut k, -1, &mut space, 0x12000, &a), -1);
}
