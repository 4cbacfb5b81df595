use rcore::address::{PhysAddr, PhysPageNum, SimpleRange, SimpleRangeIterator, VirtAddr, VirtPageNum};
use rcore::frame_allocator::StackFrameAllocator;
use rcore::memory_set::{
    translated_byte_buffer, translated_str, write_user_bytes, KernelLayout, MapArea, MapType,
    MemorySet, MAP_R, MAP_U, MAP_W, MAP_X, TRAMPOLINE_VPN,
};
use rcore::page_table::{PageTable, PageTableEntry, PTE_R, PTE_V, PTE_W, PTE_X};

fn pool(frames: u64) -> StackFrameAllocator {
    let mut a = StackFrameAllocator::new();
    a.init(PhysPageNum(0x80000), PhysPageNum(0x80000 + frames));
    a
}

#[test]
fn address_rounding() {
    assert_eq!(PhysAddr(0x1234).floor(), PhysPageNum(1));
    assert_eq!(PhysAddr(0x1234).ceil(), PhysPageNum(2));
    assert_eq!(PhysAddr(0x2000).ceil(), PhysPageNum(2));
    assert_eq!(PhysAddr(0).ceil(), PhysPageNum(0));
    assert_eq!(VirtAddr(4097).ceil(), VirtPageNum(2));
    assert_eq!(VirtAddr(0x1fff).floor(), VirtPageNum(1));
    assert_eq!(VirtAddr(0x1234).page_offset(), 0x234);
    assert_eq!(PhysAddr(0x5678).page_offset(), 0x678);
    assert!(VirtAddr(0x3000).aligned());
    assert!(!PhysAddr(0x3001).aligned());
}

#[test]
fn address_masks_and_indexes() {
    assert_eq!(VirtAddr::from_u64(u64::MAX - 4095).0, 0x7f_ffff_f000);
    assert_eq!(PhysAddr::from_u64(u64::MAX).0, 0xff_ffff_ffff_ffff);
    assert_eq!(VirtPageNum::from_u64(u64::MAX).0, 0x7ff_ffff);
    assert_eq!(PhysPageNum::from_u64(u64::MAX).0, 0xfff_ffff_ffff);
    assert_eq!(VirtPageNum((3 << 18) | (5 << 9) | 7).indexes(), [3, 5, 7]);
    assert_eq!(PhysPageNum(3).addr().0, 0x3000);
}

#[test]
fn range_iteration() {
    let r = SimpleRange::new(VirtPageNum(3), VirtPageNum(6));
    assert_eq!(r.get_start(), VirtPageNum(3));
    assert_eq!(r.get_end(), VirtPageNum(6));
    let mut it = SimpleRangeIterator::new(r.get_start(), r.get_end());
    let mut seen = Vec::new();
    while let Some(v) = it.next() {
        seen.push(v.0);
    }
    assert_eq!(seen, vec![3, 4, 5]);
}

#[test]
fn frames_never_handed_out_twice() {
    let mut a = pool(5);
    let mut got = Vec::new();
    for _ in 0..5 {
        got.push(a.allocate().unwrap().0);
    }
    assert_eq!(got, vec![0x80000, 0x80001, 0x80002, 0x80003, 0x80004]);
    assert!(a.allocate().is_none());
    a.dealloc(PhysPageNum(0x80001));
    a.dealloc(PhysPageNum(0x80003));
    assert_eq!(a.allocate().unwrap().0, 0x80003);
    assert_eq!(a.allocate().unwrap().0, 0x80001);
    assert!(a.allocate().is_none());
    assert!(!a.can_allocate(1));
}

#[test]
fn pte_fields() {
    let e = PageTableEntry::new(PhysPageNum(0x8_0123), PTE_R | PTE_W | PTE_V);
    assert_eq!(e.ppn().0, 0x8_0123);
    assert_eq!(e.flags(), PTE_R | PTE_W | PTE_V);
    assert!(e.is_valid() && e.readable() && e.writable() && !e.executable());
    assert!(!PageTableEntry::empty().is_valid());
}

#[test]
fn map_translate_unmap() {
    let mut a = pool(64);
    let mut t = PageTable::new(&mut a).unwrap();
    let vpn = VirtPageNum(0x12345);
    assert!(t.translate(vpn).is_none());
    assert!(t.map(vpn, PhysPageNum(0x9_0000), PTE_R | PTE_X, &mut a));
    let e = t.translate(vpn).unwrap();
    assert_eq!(e.ppn().0, 0x9_0000);
    assert_eq!(e.flags(), PTE_R | PTE_X | PTE_V);
    assert!(t.translate(VirtPageNum(0x12346)).is_none());
    assert_eq!(t.translate_va(VirtAddr(0x12345_678)).unwrap().0, 0x9_0000_678);
    t.unmap(vpn);
    assert!(t.translate(vpn).is_none());
    assert_eq!(t.token(), (8u64 << 60) | 0x80000);
}

#[test]
fn map_takes_nodes_only_when_missing() {
    let mut a = pool(4);
    let mut t = PageTable::new(&mut a).unwrap();
    assert!(t.map(VirtPageNum(0), PhysPageNum(1), PTE_R, &mut a));
    assert!(t.map(VirtPageNum(1), PhysPageNum(2), PTE_R, &mut a));
    assert!(!a.can_allocate(2));
    assert!(t.translate(VirtPageNum(1)).is_some());
    assert!(!t.map(VirtPageNum(1 << 18), PhysPageNum(3), PTE_R, &mut a));
}

#[test]
fn framed_area_maps_fresh_zeroed_frames() {
    let mut a = pool(64);
    let mut ms = MemorySet::new_bare(&mut a).unwrap();
    assert!(ms.insert_framed_area(VirtAddr(0x1000), VirtAddr(0x3000), MAP_R | MAP_W | MAP_U, &mut a));
    let e1 = ms.translate(VirtPageNum(1)).unwrap();
    let e2 = ms.translate(VirtPageNum(2)).unwrap();
    assert!(e1.writable() && e2.writable());
    assert_ne!(e1.ppn(), e2.ppn());
    assert!(ms.translate(VirtPageNum(3)).is_none());
    assert_eq!(ms.read_user_byte(0x1abc, &a), Some(0));
    assert_eq!(ms.read_user_byte(0x3000, &a), None);
    assert!(!ms.area_is_free(VirtAddr(0x2000), VirtAddr(0x4000)));
    assert!(ms.area_is_free(VirtAddr(0x3000), VirtAddr(0x4000)));
}

#[test]
fn user_bytes_round_trip() {
    let mut a = pool(64);
    let mut ms = MemorySet::new_bare(&mut a).unwrap();
    assert!(ms.insert_framed_area(VirtAddr(0x1000), VirtAddr(0x3000), MAP_R | MAP_W | MAP_U, &mut a));
    assert!(write_user_bytes(&mut ms, 0x1ffe, b"hi!\0", &a));
    assert_eq!(translated_byte_buffer(&ms, 0x1ffe, 3, &a).unwrap(), b"hi!".to_vec());
    assert_eq!(translated_str(&ms, 0x1ffe, 100, &a).unwrap(), b"hi!".to_vec());
    assert!(translated_byte_buffer(&ms, 0x2ffe, 4, &a).is_none());
    assert!(!write_user_bytes(&mut ms, 0x5000, b"x", &a));
}

#[test]
fn removing_a_segment_frees_its_frames() {
    let mut a = pool(64);
    let mut ms = MemorySet::new_bare(&mut a).unwrap();
    assert!(ms.insert_framed_area(VirtAddr(0x1000), VirtAddr(0x5000), MAP_R | MAP_U, &mut a));
    assert!(!a.can_allocate(64 - 3 - 4 + 1));
    ms.remove_area_with_start_vpn(VirtPageNum(1), &mut a);
    assert!(ms.translate(VirtPageNum(2)).is_none());
    assert!(a.can_allocate(64 - 3));
    assert!(ms.insert_framed_area(VirtAddr(0x1000), VirtAddr(0x2000), MAP_R | MAP_U, &mut a));
    ms.recycle_data_pages(&mut a);
    assert!(ms.translate(VirtPageNum(1)).is_none());
    assert!(a.can_allocate(64 - 3));
}

#[test]
fn fork_copy_is_isolated() {
    let mut a = pool(128);
    let mut parent = MemorySet::new_bare(&mut a).unwrap();
    assert!(parent.map_trampoline(PhysPageNum(0x8_0200), &mut a));
    assert!(parent.insert_framed_area(VirtAddr(0x10000), VirtAddr(0x12000), MAP_R | MAP_W | MAP_U, &mut a));
    assert!(write_user_bytes(&mut parent, 0x10010, b"abc", &a));
    let mut child = MemorySet::from_existed_user(&parent, &mut a).unwrap();
    assert_eq!(translated_byte_buffer(&child, 0x10010, 3, &a).unwrap(), b"abc".to_vec());
    assert_ne!(
        child.translate(VirtPageNum(0x10)).unwrap().ppn(),
        parent.translate(VirtPageNum(0x10)).unwrap().ppn()
    );
    assert_eq!(
        child.translate(VirtPageNum(TRAMPOLINE_VPN)).unwrap().ppn().0,
        0x8_0200
    );
    assert!(write_user_bytes(&mut child, 0x10010, b"X", &a));
    assert_eq!(parent.read_user_byte(0x10010, &a), Some(b'a'));
    assert!(write_user_bytes(&mut parent, 0x11000, b"Y", &a));
    assert_eq!(child.read_user_byte(0x11000, &a), Some(0));
}

#[test]
fn kernel_space_permissions() {
    let mut a = pool(256);
    let layout = KernelLayout {
        stext: 0x8020_0000,
        etext: 0x8020_3000,
        srodata: 0x8020_3000,
        erodata: 0x8020_4000,
        sdata: 0x8020_4000,
        edata: 0x8020_5000,
        sbss_with_stack: 0x8020_5000,
        ebss: 0x8021_5000,
        ekernel: 0x8021_5000,
        memory_end: 0x8080_0000,
    };
    let mmio = vec![(0x1000_1000u64, 0x1000u64)];
    let ks = MemorySet::new_kernel(&layout, &mmio, PhysPageNum(0x8_0200), &mut a).unwrap();
    let text = ks.translate(VirtAddr(0x8020_1800).floor()).unwrap();
    assert!(text.executable() && !text.writable());
    assert_eq!(text.ppn().0, 0x8_0201);
    let rodata = ks.translate(VirtAddr(0x8020_3800).floor()).unwrap();
    assert!(!rodata.writable() && !rodata.executable());
    let data = ks.translate(VirtAddr(0x8020_4800).floor()).unwrap();
    assert!(data.writable() && !data.executable());
    assert!(ks.translate(VirtAddr(0x807f_f000).floor()).unwrap().writable());
    assert!(ks.translate(VirtPageNum(0x1_0001)).is_some());
    assert!(ks.translate(VirtPageNum(TRAMPOLINE_VPN)).unwrap().executable());
}

#[test]
fn identical_area_maps_pages_to_themselves() {
    let mut a = pool(16);
    let mut ms = MemorySet::new_bare(&mut a).unwrap();
    let area = MapArea::new(VirtAddr(0x8000_0000), VirtAddr(0x8000_3000), MapType::Identical, MAP_R | MAP_X);
    assert_eq!(area.start_vpn().0, 0x8_0000);
    assert_eq!(area.end_vpn().0, 0x8_0003);
    assert!(ms.push(area, &mut a));
    assert_eq!(ms.translate(VirtPageNum(0x8_0002)).unwrap().ppn().0, 0x8_0002);
}

fn tiny_elf() -> Vec<u8> {
    let mut f = vec![0u8; 0x200];
    f[0..4].copy_from_slice(&[0x7f, b'E', b'L', b'F']);
    f[4] = 2;
    f[5] = 1;
    f[6] = 1;
    f[16..18].copy_from_slice(&2u16.to_le_bytes());
    f[18..20].copy_from_slice(&0xf3u16.to_le_bytes());
    f[20..24].copy_from_slice(&1u32.to_le_bytes());
    f[24..32].copy_from_slice(&0x10000u64.to_le_bytes());
    f[32..40].copy_from_slice(&64u64.to_le_bytes());
    f[52..54].copy_from_slice(&64u16.to_le_bytes());
    f[54..56].copy_from_slice(&56u16.to_le_bytes());
    f[56..58].copy_from_slice(&1u16.to_le_bytes());
    let ph = 64;
    f[ph..ph + 4].copy_from_slice(&1u32.to_le_bytes());
    f[ph + 4..ph + 8].copy_from_slice(&5u32.to_le_bytes());
    f[ph + 8..ph + 16].copy_from_slice(&0x100u64.to_le_bytes());
    f[ph + 16..ph + 24].copy_from_slice(&0x10000u64.to_le_bytes());
    f[ph + 32..ph + 40].copy_from_slice(&4u64.to_le_bytes());
    f[ph + 40..ph + 48].copy_from_slice(&0x1800u64.to_le_bytes());
    f[0x100..0x104].copy_from_slice(&[0x13, 0x05, 0x70, 0x00]);
    f
}

#[test]
fn elf_loading_builds_user_space() {
    let mut a = pool(256);
    let elf = tiny_elf();
    let (ms, sp, entry) = MemorySet::from_elf(&elf, PhysPageNum(0x8_0200), &mut a).unwrap();
    assert_eq!(entry, 0x10000);
    assert_eq!(sp, 0x13000);
    let code = ms.translate(VirtPageNum(0x10)).unwrap();
    assert!(code.readable() && code.executable() && !code.writable());
    assert_eq!(code.flags() & MAP_U, MAP_U);
    assert!(ms.translate(VirtPageNum(0x11)).is_some());
    assert!(ms.translate(VirtPageNum(0x12)).is_none());
    assert!(ms.translate(VirtPageNum(0x13)).unwrap().writable());
    assert!(ms.translate(VirtPageNum(0x14)).is_some());
    assert!(ms.translate(VirtPageNum(0x15)).is_none());
    assert!(ms.translate(VirtPageNum(TRAMPOLINE_VPN - 1)).unwrap().writable());
    assert_eq!(translated_byte_buffer(&ms, 0x10000, 5, &a).unwrap(), vec![0x13, 0x05, 0x70, 0x00, 0x00]);
    let _ = MAP_X;
}

#[test]
fn elf_with_bad_magic_is_rejected() {
    let mut a = pool(64);
    let mut elf = tiny_elf();
    elf[1] = b'X';
    assert!(MemorySet::from_elf(&elf, PhysPageNum(0x8_0200), &mut a).is_none());
    assert!(MemorySet::from_elf(&elf[..10], PhysPageNum(0x8_0200), &mut a).is_none());
}
