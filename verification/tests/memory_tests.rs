use rcore_os::address::{PhysPageNum, VirtAddr, VirtPageNum};
use rcore_os::config::{KERNEL_STACK_SIZE, PAGE_SIZE, TRAMPOLINE};
use rcore_os::memory_set::{kernel_stack_position, MapPermission, MemorySet};
use rcore_os::page_table::{translated_byte_buffer, PTEFlags, PageTable, PhysMem};

fn user_rw() -> MapPermission {
    MapPermission::from_bits(MapPermission::R | MapPermission::W | MapPermission::U).unwrap()
}

fn mapped(ms: &MemorySet, mem: &PhysMem, vpn: u64) -> bool {
    ms.translate(mem, VirtPageNum(vpn)).map_or(false, |e| e.is_valid())
}

#[test]
fn page_table_map_translate_unmap() {
    let mut mem = PhysMem::new(64);
    let mut pt = PageTable::new(&mut mem);
    let flags = PTEFlags::from_bits_truncate(PTEFlags::R | PTEFlags::W);
    let vpn = VirtPageNum(0x12345);
    assert!(pt.translate(&mem, vpn).map_or(true, |e| !e.is_valid()));
    assert_eq!(pt.map(&mut mem, vpn, PhysPageNum(40), flags), Some(()));
    let e = pt.translate(&mem, vpn).unwrap();
    assert!(e.is_valid() && e.readable() && e.writable() && !e.executable());
    assert_eq!(e.ppn().0, 40);
    assert_eq!(pt.map(&mut mem, vpn, PhysPageNum(41), flags), None);
    assert_eq!(pt.translate(&mem, vpn).unwrap().ppn().0, 40);
    pt.unmap(&mut mem, vpn);
    assert!(pt.translate(&mem, vpn).map_or(true, |e| !e.is_valid()));
}

#[test]
fn page_table_map_fails_without_frames_for_tables() {
    let mut mem = PhysMem::new(2);
    let mut pt = PageTable::new(&mut mem);
    let flags = PTEFlags::from_bits_truncate(PTEFlags::R);
    assert_eq!(pt.map(&mut mem, VirtPageNum(5), PhysPageNum(1), flags), None);
    assert!(pt.translate(&mem, VirtPageNum(5)).map_or(true, |e| !e.is_valid()));
}

#[test]
fn page_table_token_round_trips_root() {
    let mut mem = PhysMem::new(8);
    let pt = PageTable::new(&mut mem);
    let token = pt.token();
    assert_eq!(token >> 60, 8);
    let again = PageTable::from_token(token);
    assert_eq!(again.token(), token);
}

#[test]
fn byte_buffer_splits_at_page_boundary() {
    let mut mem = PhysMem::new(64);
    let mut pt = PageTable::new(&mut mem);
    let flags = PTEFlags::from_bits_truncate(PTEFlags::R | PTEFlags::W | PTEFlags::U);
    assert!(pt.map(&mut mem, VirtPageNum(0x10), PhysPageNum(20), flags).is_some());
    assert!(pt.map(&mut mem, VirtPageNum(0x11), PhysPageNum(30), flags).is_some());
    let segs = translated_byte_buffer(&mem, pt.token(), 0x10 * 4096 + 4000, 200);
    assert_eq!(segs.len(), 2);
    assert_eq!((segs[0].ppn.0, segs[0].offset, segs[0].len), (20, 4000, 96));
    assert_eq!((segs[1].ppn.0, segs[1].offset, segs[1].len), (30, 0, 104));
}

#[test]
fn framed_area_insert_and_remove() {
    let mut mem = PhysMem::new(64);
    let mut ms = MemorySet::new_bare(&mut mem);
    assert_eq!(ms.insert_framed_area(&mut mem, VirtAddr(0x1000), VirtAddr(0x2800), user_rw()), Some(()));
    assert!(mapped(&ms, &mem, 1) && mapped(&ms, &mem, 2));
    assert!(!mapped(&ms, &mem, 0) && !mapped(&ms, &mem, 3));
    let e = ms.translate(&mem, VirtPageNum(1)).unwrap();
    assert!(e.readable() && e.writable() && !e.executable());
    assert!(ms.has_mapped_pages(&mem, VirtPageNum(0), VirtPageNum(2)));
    assert!(!ms.has_unmapped_pages(&mem, VirtPageNum(1), VirtPageNum(3)));
    assert!(ms.has_unmapped_pages(&mem, VirtPageNum(1), VirtPageNum(4)));
    assert_eq!(ms.remove_framed_area(&mut mem, VirtPageNum(1), VirtPageNum(2)), None);
    assert_eq!(ms.remove_framed_area(&mut mem, VirtPageNum(1), VirtPageNum(3)), Some(()));
    assert!(!mapped(&ms, &mem, 1) && !mapped(&ms, &mem, 2));
    assert_eq!(ms.remove_framed_area(&mut mem, VirtPageNum(1), VirtPageNum(3)), None);
}

#[test]
fn framed_area_insert_fails_when_frames_run_out() {
    let mut mem = PhysMem::new(4);
    let mut ms = MemorySet::new_bare(&mut mem);
    assert_eq!(ms.insert_framed_area(&mut mem, VirtAddr(0x1000), VirtAddr(0x4000), user_rw()), None);
    assert!(!ms.has_mapped_pages(&mem, VirtPageNum(0), VirtPageNum(8)));
}

#[test]
fn frames_of_removed_area_are_reused() {
    let mut mem = PhysMem::new(6);
    let mut ms = MemorySet::new_bare(&mut mem);
    assert!(ms.insert_framed_area(&mut mem, VirtAddr(0x1000), VirtAddr(0x4000), user_rw()).is_some());
    assert!(ms.insert_framed_area(&mut mem, VirtAddr(0x8000), VirtAddr(0x9000), user_rw()).is_none());
    assert!(ms.remove_framed_area(&mut mem, VirtPageNum(1), VirtPageNum(4)).is_some());
    assert!(ms.insert_framed_area(&mut mem, VirtAddr(0x8000), VirtAddr(0x9000), user_rw()).is_some());
    assert!(mapped(&ms, &mem, 8));
}

#[test]
fn heap_area_grows_and_shrinks() {
    let mut mem = PhysMem::new(64);
    let mut ms = MemorySet::new_bare(&mut mem);
    assert!(ms.insert_framed_area(&mut mem, VirtAddr(0x5000), VirtAddr(0x5000), user_rw()).is_some());
    assert!(!mapped(&ms, &mem, 5));
    assert!(ms.append_to(&mut mem, VirtAddr(0x5000), VirtAddr(0x7800)));
    assert!(mapped(&ms, &mem, 5) && mapped(&ms, &mem, 6) && mapped(&ms, &mem, 7));
    assert!(!mapped(&ms, &mem, 8));
    assert!(ms.shrink_to(&mut mem, VirtAddr(0x5000), VirtAddr(0x6000)));
    assert!(mapped(&ms, &mem, 5));
    assert!(!mapped(&ms, &mem, 6) && !mapped(&ms, &mem, 7));
    assert!(!ms.shrink_to(&mut mem, VirtAddr(0x9000), VirtAddr(0x9000)));
    assert!(!ms.append_to(&mut mem, VirtAddr(0x9000), VirtAddr(0xa000)));
}

#[test]
fn mmap_refuses_mapped_pages_and_munmap_needs_exact_area() {
    let mut mem = PhysMem::new(64);
    let mut ms = MemorySet::new_bare(&mut mem);
    assert_eq!(ms.mmap(&mut mem, VirtAddr(0x1000), VirtAddr(0x3000), user_rw()), Some(()));
    assert_eq!(ms.mmap(&mut mem, VirtAddr(0x2000), VirtAddr(0x4000), user_rw()), None);
    assert!(!mapped(&ms, &mem, 3));
    assert_eq!(ms.munmap(&mut mem, VirtAddr(0x1000), VirtAddr(0x2000)), None);
    assert_eq!(ms.munmap(&mut mem, VirtAddr(0x1000), VirtAddr(0x3000)), Some(()));
    assert!(!mapped(&ms, &mem, 1));
}

#[test]
fn recycle_unmaps_every_area() {
    let mut mem = PhysMem::new(64);
    let mut ms = MemorySet::new_bare(&mut mem);
    assert!(ms.insert_framed_area(&mut mem, VirtAddr(0x1000), VirtAddr(0x2000), user_rw()).is_some());
    assert!(ms.insert_framed_area(&mut mem, VirtAddr(0x40000), VirtAddr(0x42000), user_rw()).is_some());
    ms.recycle_data_pages(&mut mem);
    assert!(!ms.has_mapped_pages(&mem, VirtPageNum(0), VirtPageNum(0x50)));
}

#[test]
fn kernel_stacks_sit_below_trampoline_with_guard_pages() {
    assert_eq!(kernel_stack_position(0), (TRAMPOLINE - KERNEL_STACK_SIZE, TRAMPOLINE));
    let (bottom, top) = kernel_stack_position(2);
    assert_eq!(top, TRAMPOLINE - 2 * (KERNEL_STACK_SIZE + PAGE_SIZE));
    assert_eq!(top - bottom, KERNEL_STACK_SIZE);
}

#[test]
fn virtual_addresses_floor_ceil_and_sign_extension() {
    let va = VirtAddr::from_usize(0x1234);
    assert_eq!(va.floor().0, 1);
    assert_eq!(va.ceil().0, 2);
    assert_eq!(va.page_offset(), 0x234);
    assert!(!va.aligned());
    assert_eq!(VirtAddr(0x2000).ceil().0, 2);
    assert_eq!(VirtAddr(0).ceil().0, 0);
    let high = VirtAddr::from_usize(0xffff_ffff_ffff_f000);
    assert_eq!(high.0, 0x7f_ffff_f000);
    assert_eq!(high.to_usize(), 0xffff_ffff_ffff_f000);
    assert_eq!(VirtPageNum(0x12345).indexes(), [0, 0x91, 0x145]);
    assert_eq!(PhysPageNum(3).start_addr().0, 0x3000);
}

fn put(buf: &mut Vec<u8>, off: usize, value: u64, n: usize) {
    for k in 0..n {
        buf[off + k] = (value >> (8 * k)) as u8;
    }
}

fn tiny_elf() -> Vec<u8> {
    let mut elf = vec![0u8; 64 + 56 + 16];
    elf[0..6].copy_from_slice(&[0x7f, b'E', b'L', b'F', 2, 1]);
    put(&mut elf, 24, 0x1000, 8);
    put(&mut elf, 32, 64, 8);
    put(&mut elf, 54, 56, 2);
    put(&mut elf, 56, 1, 2);
    put(&mut elf, 64, 1, 4);
    put(&mut elf, 68, 5, 4);
    put(&mut elf, 72, 0, 8);
    put(&mut elf, 80, 0x1000, 8);
    put(&mut elf, 96, 0x78, 8);
    put(&mut elf, 104, 0x1800, 8);
    elf
}

#[test]
fn from_elf_lays_out_user_space() {
    let mut mem = PhysMem::new(256);
    let (ms, sp, entry) = MemorySet::from_elf(&mut mem, &tiny_elf(), PhysPageNum(200)).unwrap();
    assert_eq!(entry, 0x1000);
    assert_eq!(sp, 0x6000);
    let text = ms.translate(&mem, VirtPageNum(1)).unwrap();
    assert!(text.is_valid() && text.readable() && text.executable() && !text.writable());
    assert!(mapped(&ms, &mem, 2));
    assert!(!mapped(&ms, &mem, 0) && !mapped(&ms, &mem, 3));
    let stack = ms.translate(&mem, VirtPageNum(4)).unwrap();
    assert!(stack.readable() && stack.writable() && !stack.executable());
    assert!(mapped(&ms, &mem, 5) && !mapped(&ms, &mem, 6));
    let trap = ms.translate(&mem, VirtPageNum(0x7ff_fffe)).unwrap();
    assert!(trap.is_valid() && trap.writable() && trap.flags().bits() & PTEFlags::U == 0);
    let tramp = ms.translate(&mem, VirtPageNum(0x7ff_ffff)).unwrap();
    assert_eq!(tramp.ppn().0, 200);
    assert!(tramp.executable() && !tramp.writable());
}

#[test]
fn from_elf_rejects_bad_images() {
    let mut mem = PhysMem::new(256);
    let mut bad = tiny_elf();
    bad[0] = 0;
    assert!(MemorySet::from_elf(&mut mem, &bad, PhysPageNum(200)).is_none());
    let mut short = tiny_elf();
    short.truncate(100);
    assert!(MemorySet::from_elf(&mut mem, &short, PhysPageNum(200)).is_none());
    let mut high = tiny_elf();
    put(&mut high, 80, 0x40_0000_0000, 8);
    assert!(MemorySet::from_elf(&mut mem, &high, PhysPageNum(200)).is_none());
    assert!(MemorySet::from_elf(&mut PhysMem::new(3), &tiny_elf(), PhysPageNum(200)).is_none());
}
