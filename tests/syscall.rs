use rcore::address::{PhysPageNum, VirtAddr};
use rcore::frame_allocator::StackFrameAllocator;
use rcore::memory_set::{MemorySet, MAP_R, MAP_U, MAP_W};
use rcore::syscall::{decode_syscall, sys_read, sys_write, Syscall, FD_STDIN, FD_STDOUT};

#[test]
fn syscall_numbers() {
    assert_eq!(decode_syscall(63), Some(Syscall::Read));
    assert_eq!(decode_syscall(64), Some(Syscall::Write));
    assert_eq!(decode_syscall(93), Some(Syscall::Exit));
    assert_eq!(decode_syscall(124), Some(Syscall::Yield));
    assert_eq!(decode_syscall(169), Some(Syscall::GetTime));
    assert_eq!(decode_syscall(172), Some(Syscall::GetPid));
    assert_eq!(decode_syscall(220), Some(Syscall::Fork));
    assert_eq!(decode_syscall(221), Some(Syscall::Exec));
    assert_eq!(decode_syscall(260), Some(Syscall::WaitPid));
    assert_eq!(decode_syscall(0), None);
}

#[test]
fn console_read_and_write_through_user_space() {
    let mut a = StackFrameAllocator::new();
    a.init(PhysPageNum(0x80000), PhysPageNum(0x80040));
    let mut ms = MemorySet::new_bare(&mut a).unwrap();
    assert!(ms.insert_framed_area(VirtAddr(0x1000), VirtAddr(0x2000), MAP_R | MAP_W | MAP_U, &mut a));
    assert_eq!(sys_read(&mut ms, FD_STDIN, 0x1100, 1, b"AZ", &a), 1);
    assert_eq!(sys_read(&mut ms, FD_STDIN, 0x1101, 8, b"BC", &a), 2);
    assert_eq!(sys_read(&mut ms, FD_STDIN, 0x9000, 1, b"C", &a), -1);
    assert_eq!(sys_read(&mut ms, FD_STDIN, 0x1ffe, 4, b"WXYZ", &a), -1);
    let (n, bytes) = sys_write(&ms, FD_STDOUT, 0x1100, 3, &a).unwrap();
    assert_eq!(n, 3);
    assert_eq!(bytes, b"ABC".to_vec());
    assert_eq!(sys_write(&ms, FD_STDOUT, 0x1ffe, 2, &a).unwrap().1, vec![0, 0]);
    assert!(sys_write(&ms, FD_STDOUT, 0x1fff, 2, &a).is_none());
}
