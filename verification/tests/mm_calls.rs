use lib::frame_allocator::StackFrameAllocator;
use lib::memory_set::{MapArea, MapPermission, MapType, MemorySet, VPNRange};
use lib::mm::{
    is_user_readable, is_user_writable, translate_ptr, PTEFlags, PageTable, PageTableEntry,
    PhysAddr, PhysPageNum, VirtAddr, VirtPageNum,
};
use lib::process::{mmap_accepts, sys_mmap, sys_munmap};

fn user_table() -> PageTable {
    let mut pt = PageTable::new();
    // page 0x10: user read/write
    pt.map(VirtPageNum(0x10), PhysPageNum(0x80400), PTEFlags { bits: PTEFlags::U | PTEFlags::R | PTEFlags::W });
    // page 0x11: user read only
    pt.map(VirtPageNum(0x11), PhysPageNum(0x80401), PTEFlags { bits: PTEFlags::U | PTEFlags::R });
    // page 0x12: kernel read/write
    pt.map(VirtPageNum(0x12), PhysPageNum(0x80402), PTEFlags { bits: PTEFlags::R | PTEFlags::W });
    pt
}

#[test]
fn virt_addr_parts() {
    let va = VirtAddr::from_usize(0x12345);
    assert_eq!(va.floor(), VirtPageNum(0x12));
    assert_eq!(va.ceil(), VirtPageNum(0x13));
    assert_eq!(va.page_offset(), 0x345);
    assert_eq!(VirtAddr::from_usize(0x3000).ceil(), VirtPageNum(3));
    assert_eq!(VirtAddr::from_usize(0).ceil(), VirtPageNum(0));
    // only the low 39 bits are kept
    assert_eq!(VirtAddr::from_usize(0x80_0000_1234).0, 0x1234);
    assert_eq!(PhysAddr::from_ppn(PhysPageNum(0x80400)), PhysAddr(0x8040_0000));
}

#[test]
fn page_table_entry_fields() {
    let e = PageTableEntry::new(PhysPageNum(0x80400), PTEFlags { bits: 0x1f });
    assert_eq!(e.bits, (0x80400u64 << 10) | 0x1f);
    assert_eq!(e.ppn(), PhysPageNum(0x80400));
    assert_eq!(e.flags(), PTEFlags { bits: 0x1f });
    assert!(e.is_valid());
    assert!(!PageTableEntry::empty().is_valid());
}

#[test]
fn writable_and_readable_checks() {
    let pt = user_table();
    assert!(is_user_writable(&pt, 0x10_008));
    assert!(is_user_readable(&pt, 0x10_008));
    assert!(!is_user_writable(&pt, 0x11_000));
    assert!(is_user_readable(&pt, 0x11_fff));
    assert!(!is_user_writable(&pt, 0x12_000));
    assert!(!is_user_readable(&pt, 0x12_000));
    assert!(!is_user_writable(&pt, 0x13_000));
    assert!(!is_user_readable(&pt, 0x13_000));
}

#[test]
fn translate_keeps_offset() {
    let pt = user_table();
    assert_eq!(translate_ptr(&pt, 0x10_123), 0x8040_0123);
    assert_eq!(translate_ptr(&pt, 0x11_ff8), 0x8040_1ff8);
}

#[test]
fn unmapped_entry_is_cleared() {
    let mut pt = user_table();
    pt.unmap(VirtPageNum(0x10));
    assert_eq!(pt.translate(VirtPageNum(0x10)), Some(PageTableEntry { bits: 0 }));
    assert!(!is_user_writable(&pt, 0x10_000));
    assert_eq!(pt.translate(VirtPageNum(0x99)), None);
}

fn area(l: usize, r: usize, bits: u8) -> MapArea {
    MapArea {
        vpn_range: VPNRange { l: VirtPageNum(l), r: VirtPageNum(r) },
        map_type: MapType::Framed,
        map_perm: MapPermission { bits },
    }
}

fn frames() -> StackFrameAllocator {
    StackFrameAllocator::new(0x80400, 0x80500)
}

#[test]
fn frame_allocator_recycles_last_given_back() {
    let mut f = StackFrameAllocator::new(10, 13);
    assert!(f.has_free_frames(3));
    assert!(!f.has_free_frames(4));
    assert_eq!(f.frame_alloc(), Some(PhysPageNum(10)));
    assert_eq!(f.frame_alloc(), Some(PhysPageNum(11)));
    f.frame_dealloc(PhysPageNum(10));
    assert_eq!(f.frame_alloc(), Some(PhysPageNum(10)));
    assert_eq!(f.frame_alloc(), Some(PhysPageNum(12)));
    assert_eq!(f.frame_alloc(), None);
    assert!(!f.has_free_frames(1));
}

#[test]
fn mmap_adds_user_area_and_maps_it() {
    let mut ms = MemorySet::new_bare();
    let mut f = frames();
    assert_eq!(sys_mmap(&mut ms, &mut f, 0x1000_0000, 0x2001, 0b011), 0);
    assert_eq!(ms.areas, vec![area(0x10000, 0x10003, 0x16)]);
    assert_eq!(f.current, 0x80403);
    for (k, vpn) in (0x10000..0x10003).enumerate() {
        let e = ms.page_table.translate(VirtPageNum(vpn)).unwrap();
        assert_eq!(e.flags(), PTEFlags { bits: 0x17 });
        assert_eq!(e.ppn(), PhysPageNum(0x80400 + k as u64));
    }
    assert!(is_user_writable(&ms.page_table, 0x1000_2fff));
    assert!(!is_user_writable(&ms.page_table, 0x1000_3000));
    assert_eq!(translate_ptr(&ms.page_table, 0x1000_1234), 0x8040_1234);
    assert_eq!(sys_mmap(&mut ms, &mut f, 0x2000_0000, 0x1000, 0b100), 0);
    assert_eq!(ms.areas[1], area(0x20000, 0x20001, 0x18));
    assert!(!is_user_readable(&ms.page_table, 0x2000_0000));
    assert_eq!(sys_mmap(&mut ms, &mut f, 0x3000_0000, 0x1000, 0b111), 0);
    assert_eq!(ms.areas[2].map_perm.bits, 0x1e);
}

#[test]
fn mmap_refuses_bad_arguments() {
    let mut ms = MemorySet::new_bare();
    let mut f = frames();
    assert_eq!(sys_mmap(&mut ms, &mut f, 0x1000_0000, 0, 1), -1);
    assert_eq!(sys_mmap(&mut ms, &mut f, 0x1000_0001, 0x1000, 1), -1);
    assert_eq!(sys_mmap(&mut ms, &mut f, 0x1000_0000, 0x1000, 0), -1);
    assert_eq!(sys_mmap(&mut ms, &mut f, 0x1000_0000, 0x1000, 8), -1);
    assert_eq!(sys_mmap(&mut ms, &mut f, 0x1000_0000, 0x1000, 0b1001), -1);
    assert!(ms.areas.is_empty());
    assert_eq!(f.current, 0x80400);
}

#[test]
fn mmap_refuses_overlap() {
    let mut ms = MemorySet::new_bare();
    let mut f = frames();
    assert_eq!(sys_mmap(&mut ms, &mut f, 0x1000_0000, 0x3000, 1), 0);
    assert_eq!(mmap_accepts(&ms, 0x1000_2000, 0x1000, 1), None);
    assert_eq!(sys_mmap(&mut ms, &mut f, 0x1000_2000, 0x1000, 1), -1);
    assert_eq!(sys_mmap(&mut ms, &mut f, 0x0fff_f000, 0x2000, 1), -1);
    assert_eq!(mmap_accepts(&ms, 0x1000_3000, 0x1800, 1), Some(2));
    assert_eq!(sys_mmap(&mut ms, &mut f, 0x1000_3000, 0x1000, 1), 0);
    assert_eq!(sys_mmap(&mut ms, &mut f, 0x0fff_f000, 0x1000, 1), 0);
    assert_eq!(ms.areas.len(), 3);
    assert_eq!(f.current, 0x80405);
}

#[test]
fn munmap_removes_exact_area_and_frees_frames() {
    let mut ms = MemorySet::new_bare();
    let mut f = frames();
    assert_eq!(sys_mmap(&mut ms, &mut f, 0x1000_0000, 0x3000, 3), 0);
    assert_eq!(sys_mmap(&mut ms, &mut f, 0x2000_0000, 0x1000, 3), 0);
    assert_eq!(sys_munmap(&mut ms, &mut f, 0x1000_0000, 0x1000), -1);
    assert_eq!(sys_munmap(&mut ms, &mut f, 0x1000_0000, 0), -1);
    assert_eq!(sys_munmap(&mut ms, &mut f, 0x1000_0800, 0x3000), -1);
    assert_eq!(sys_munmap(&mut ms, &mut f, 0x1000_0000, 0x2800), 0);
    assert_eq!(ms.areas, vec![area(0x20000, 0x20001, 0x16)]);
    assert_eq!(f.recycled, vec![0x80400, 0x80401, 0x80402]);
    assert!(!is_user_writable(&ms.page_table, 0x1000_0000));
    assert_eq!(ms.page_table.translate(VirtPageNum(0x10001)), Some(PageTableEntry { bits: 0 }));
    assert!(is_user_writable(&ms.page_table, 0x2000_0000));
    assert_eq!(sys_munmap(&mut ms, &mut f, 0x1000_0000, 0x3000), -1);
}

#[test]
fn mmap_then_munmap_restores() {
    let mut ms = MemorySet::new_bare();
    let mut f = frames();
    assert_eq!(sys_mmap(&mut ms, &mut f, 0x4000, 0x1000, 1), 0);
    let before = ms.areas.clone();
    assert_eq!(sys_mmap(&mut ms, &mut f, 0x8000, 0x4000, 2), 0);
    assert!(is_user_writable(&ms.page_table, 0xb000));
    assert_eq!(sys_munmap(&mut ms, &mut f, 0x8000, 0x4000), 0);
    assert_eq!(ms.areas, before);
    assert!(!is_user_writable(&ms.page_table, 0xb000));
    assert!(is_user_readable(&ms.page_table, 0x4000));
    assert!(f.has_free_frames(0xff));
    assert!(!f.has_free_frames(0x100));
}

#[test]
fn delete_reports_presence() {
    let mut ms = MemorySet::new_bare();
    let mut f = frames();
    ms.insert_framed_area(&mut f, VirtAddr(0x5000), VirtAddr(0x7000), MapPermission { bits: MapPermission::U | MapPermission::R });
    assert_eq!(ms.areas[0].vpn_range.get_start(), VirtPageNum(5));
    assert_eq!(ms.areas[0].vpn_range.get_end(), VirtPageNum(7));
    assert!(is_user_readable(&ms.page_table, 0x6fff));
    assert!(!ms.delete(&mut f, VirtAddr(0x5000), VirtAddr(0x6000)));
    assert!(ms.delete(&mut f, VirtAddr(0x5000), VirtAddr(0x7000)));
    assert!(ms.areas.is_empty());
    assert!(!is_user_readable(&ms.page_table, 0x6fff));
}

#[test]
fn two_adjacent_mmaps_and_free_counts() {
    let mut ms = MemorySet::new_bare();
    let mut f = StackFrameAllocator::new(0x80400, 0x80403);
    assert!(f.check_wf());
    assert_eq!(sys_mmap(&mut ms, &mut f, 0x1000_0000, 0x1000, 3), 0);
    assert_eq!(sys_mmap(&mut ms, &mut f, 0x1000_1000, 0x1000, 1), 0);
    assert_eq!(ms.areas, vec![area(0x10000, 0x10001, 0x16), area(0x10001, 0x10002, 0x12)]);
    assert!(f.has_free_frames(1));
    assert!(!f.has_free_frames(2));
    assert_eq!(sys_munmap(&mut ms, &mut f, 0x1000_0000, 0x1000), 0);
    assert!(f.has_free_frames(2));
    assert!(!f.has_free_frames(3));
    let bad = StackFrameAllocator { current: 5, end: 9, recycled: vec![1, 1] };
    assert!(!bad.check_wf());
    let bad2 = StackFrameAllocator { current: 5, end: 9, recycled: vec![6] };
    assert!(!bad2.check_wf());
}
