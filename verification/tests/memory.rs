use easy_kernel::config::{MEMORY_END, PAGE_SIZE, TRAMPOLINE, TRAP_CONTEXT_BASE};
use easy_kernel::drivers::virtio::{
    dma_alloc, dma_dealloc, has_free_run, has_used_run, phys_to_virt, virt_to_phys,
};
use easy_kernel::mm::address::{PhysAddr, PhysPageNum, VPNRange, VirtAddr, VirtPageNum};
use easy_kernel::mm::admission::{image_has_room, kernel_has_room};
use easy_kernel::mm::elf::{is_loadable, parse_elf, SegmentKind};
use easy_kernel::mm::frame_allocator::PhysMemory;
use easy_kernel::mm::kernel_space::{kernel_stack_position, remap_test, KernelLayout};
use easy_kernel::mm::memory_set::{
    MapArea, MapPermission, MapType, MemorySet, MAP_R, MAP_U, MAP_W, MAP_X,
};
use easy_kernel::mm::page_table::{
    translated_byte_buffer, FrameSlice, PTEFlags, PageTable, PageTableEntry, PTE_R, PTE_V, PTE_W,
};
use easy_kernel::mm::user_memory::copy_to_user;

const RW: MapPermission = MapPermission { bits: MAP_R | MAP_W | MAP_U };

fn memory(frames: usize) -> PhysMemory {
    PhysMemory::new(PhysPageNum(0x80000), frames)
}

fn le(v: &mut Vec<u8>, x: u64, n: usize) {
    v.extend_from_slice(&x.to_le_bytes()[..n]);
}

/// An ELF file with 64-bit fields: `(type, flags, vaddr, mem_size, data)`.
fn elf64(entry: u64, segments: &[(u32, u32, u64, u64, &[u8])]) -> Vec<u8> {
    let mut v = vec![0x7f, 0x45, 0x4c, 0x46, 2, 1, 1, 0, 0, 0, 0, 0, 0, 0, 0, 0];
    le(&mut v, 2, 2);
    le(&mut v, 243, 2);
    le(&mut v, 1, 4);
    le(&mut v, entry, 8);
    le(&mut v, 64, 8);
    le(&mut v, 0, 8);
    le(&mut v, 0, 4);
    le(&mut v, 64, 2);
    le(&mut v, 56, 2);
    le(&mut v, segments.len() as u64, 2);
    le(&mut v, 0, 6);
    let mut offset = 64 + 56 * segments.len() as u64;
    for (kind, flags, vaddr, mem_size, data) in segments {
        le(&mut v, *kind as u64, 4);
        le(&mut v, *flags as u64, 4);
        le(&mut v, offset, 8);
        le(&mut v, *vaddr, 8);
        le(&mut v, *vaddr, 8);
        le(&mut v, data.len() as u64, 8);
        le(&mut v, *mem_size, 8);
        le(&mut v, 4096, 8);
        offset += data.len() as u64;
    }
    for (_, _, _, _, data) in segments {
        v.extend_from_slice(data);
    }
    v
}

#[test]
fn addresses_are_cut_and_extended() {
    assert_eq!(VirtAddr::new(TRAMPOLINE).0, 0x7f_ffff_f000);
    assert_eq!(VirtAddr::new(TRAMPOLINE).to_word(), TRAMPOLINE);
    assert_eq!(VirtAddr::new(0x1234).to_word(), 0x1234);
    assert_eq!(VirtAddr(0x3f_ffff_ffff).to_word(), 0x3f_ffff_ffff);
    assert_eq!(VirtAddr(0x40_0000_0000).to_word(), 0xffff_ffc0_0000_0000);
    assert_eq!(VirtAddr(0x1fff).floor(), VirtPageNum(1));
    assert_eq!(VirtAddr(0x1001).ceil(), VirtPageNum(2));
    assert_eq!(VirtAddr(0x1000).ceil(), VirtPageNum(1));
    assert_eq!(VirtAddr(0).ceil(), VirtPageNum(0));
    assert_eq!(VirtAddr(0x1abc).page_offset(), 0xabc);
    assert!(VirtAddr(0x2000).aligned());
    assert_eq!(PhysAddr::new(u64::MAX).0, 0xff_ffff_ffff_ffff);
    assert_eq!(VirtPageNum(0x7ff_ffff).indexes(), [511, 511, 511]);
    assert_eq!(VirtPageNum(0x4_0000 + 512 * 3 + 5).indexes(), [1, 3, 5]);
    assert_eq!(VirtPageNum(7).addr(), VirtAddr(0x7000));
    assert_eq!(PAGE_SIZE, 4096);
}

#[test]
fn frames_come_in_order_and_zeroed() {
    let mut mem = memory(3);
    let a = mem.frame_alloc().unwrap();
    let b = mem.frame_alloc().unwrap();
    assert_eq!((a.0, b.0), (0x80000, 0x80001));
    mem.write_word(a, 511, 0x1122_3344_5566_7788);
    assert_eq!(mem.read_word(a, 511), 0x1122_3344_5566_7788);
    assert_eq!(mem.read_bytes(a, 4088, 8), vec![0x88, 0x77, 0x66, 0x55, 0x44, 0x33, 0x22, 0x11]);
    mem.frame_dealloc(a);
    let c = mem.frame_alloc().unwrap();
    assert_eq!(c, a);
    assert_eq!(mem.read_word(c, 511), 0);
    assert!(mem.frame_alloc().is_some());
    assert!(mem.frame_alloc().is_none());
}

#[test]
fn entries_hold_a_page_and_flags() {
    let e = PageTableEntry::new(PhysPageNum(0x80123), PTEFlags { bits: PTE_V | PTE_R });
    assert_eq!(e.bits, (0x80123 << 10) | 3);
    assert_eq!(e.ppn(), PhysPageNum(0x80123));
    assert_eq!(e.flags().bits, 3);
    assert!(e.is_valid() && e.readable() && !e.writable() && !e.executable());
    assert!(!e.user_accessible());
    assert!(!PageTableEntry::empty().is_valid());
    assert!(PTEFlags { bits: 7 }.contains(PTEFlags { bits: PTE_W }));
    assert_eq!(PTEFlags::from_bits(0xff), Some(PTEFlags { bits: 0xff }));
    assert_eq!(PTEFlags::empty().bits, 0);
}

#[test]
fn page_tables_map_and_unmap() {
    let mut mem = memory(8);
    let mut table = PageTable::new(&mut mem);
    assert!(table.translate(&mem, VirtPageNum(5)).is_none());
    table.map(&mut mem, VirtPageNum(5), PhysPageNum(0x99), PTEFlags { bits: PTE_R });
    let e = table.translate(&mem, VirtPageNum(5)).unwrap();
    assert_eq!((e.ppn(), e.flags().bits), (PhysPageNum(0x99), PTE_R | PTE_V));
    assert!(!table.translate(&mem, VirtPageNum(6)).unwrap().is_valid());
    let again = PageTable::from_token(table.token());
    assert_eq!(again.translate(&mem, VirtPageNum(5)), Some(e));
    assert_eq!(table.token(), (8 << 60) | 0x80000);
    table.unmap(&mut mem, VirtPageNum(5));
    assert_eq!(table.translate(&mem, VirtPageNum(5)), Some(PageTableEntry::empty()));
    table.recycle(&mut mem);
    assert_eq!(mem.frame_alloc(), Some(PhysPageNum(0x80000)));
}

#[test]
fn buffers_are_cut_at_pages() {
    let mut mem = memory(16);
    let mut space = MemorySet::new_bare(&mut mem);
    space.insert_framed_area(VirtAddr(0x1000), VirtAddr(0x4000), RW, &mut mem);
    let ppn = |v: u64| space.translate(&mem, VirtPageNum(v)).unwrap().ppn();
    assert_eq!(
        translated_byte_buffer(&mem, space.token(), 0x1f00, 0x1200),
        vec![
            FrameSlice { ppn: ppn(1), start: 0xf00, end: 4096 },
            FrameSlice { ppn: ppn(2), start: 0, end: 4096 },
            FrameSlice { ppn: ppn(3), start: 0, end: 0x100 },
        ]
    );
    assert_eq!(
        translated_byte_buffer(&mem, space.token(), 0x1010, 0x10),
        vec![FrameSlice { ppn: ppn(1), start: 0x10, end: 0x20 }]
    );
    assert_eq!(translated_byte_buffer(&mem, space.token(), 0x1010, 0), vec![]);
}

#[test]
fn areas_overlap_and_belong() {
    let a = MapArea::new(VirtAddr(0x2000), VirtAddr(0x3fff), MapType::Framed, RW);
    let range = |s: u64, e: u64| VPNRange::new(VirtPageNum(s), VirtPageNum(e));
    assert!(a.overlaps(&range(3, 9)));
    assert!(!a.overlaps(&range(4, 9)));
    assert!(!a.overlaps(&range(0, 2)));
    assert!(a.belongs_to(&range(2, 4)));
    assert!(!a.belongs_to(&range(3, 4)));
}

#[test]
fn ranges_are_mapped_and_unmapped() {
    let mut mem = memory(16);
    let mut space = MemorySet::new_bare(&mut mem);
    let va = |x: u64| VirtAddr(x);
    assert_eq!(space.mmap(va(0x10000), va(0x12000), RW, &mut mem), Ok(()));
    assert_eq!(space.mmap(va(0x12000), va(0x13000), RW, &mut mem), Ok(()));
    assert_eq!(space.mmap(va(0x11000), va(0x14000), RW, &mut mem), Err(()));
    assert_eq!(space.mmap(va(0x20000), va(0x1f000), RW, &mut mem), Err(()));
    assert!(space.translate(&mem, VirtPageNum(0x11)).unwrap().is_valid());
    assert_eq!(space.munmap(va(0x10000), va(0x11000), &mut mem), Err(()));
    assert_eq!(space.munmap(va(0x10000), va(0x14000), &mut mem), Err(()));
    assert_eq!(space.munmap(va(0x14000), va(0x13000), &mut mem), Err(()));
    assert_eq!(space.munmap(va(0x10000), va(0x13000), &mut mem), Ok(()));
    assert!(!space.translate(&mem, VirtPageNum(0x11)).unwrap().is_valid());
    assert_eq!(space.areas.len(), 0);
    assert_eq!(space.munmap(va(0x10000), va(0x13000), &mut mem), Err(()));
    space.recycle(&mut mem);
    for _ in 0..16 {
        assert!(mem.frame_alloc().is_some());
    }
}

#[test]
fn an_empty_area_can_stand_in_the_way() {
    let mut mem = memory(16);
    let mut space = MemorySet::new_bare(&mut mem);
    space.insert_framed_area(VirtAddr(0x11000), VirtAddr(0x11000), RW, &mut mem);
    assert_eq!(space.mmap(VirtAddr(0x10000), VirtAddr(0x12000), RW, &mut mem), Err(()));
    assert_eq!(space.mmap(VirtAddr(0x11000), VirtAddr(0x12000), RW, &mut mem), Ok(()));
    assert_eq!(space.munmap(VirtAddr(0x11000), VirtAddr(0x12000), &mut mem), Ok(()));
    assert_eq!(space.areas.len(), 0);
    space.insert_framed_area(VirtAddr(0x10000), VirtAddr(0x12000), RW, &mut mem);
    space.insert_framed_area(VirtAddr(0x11000), VirtAddr(0x11000), RW, &mut mem);
    assert_eq!(space.munmap(VirtAddr(0x10000), VirtAddr(0x12000), &mut mem), Err(()));
}

#[test]
fn areas_shrink_and_grow() {
    let mut mem = memory(16);
    let mut space = MemorySet::new_bare(&mut mem);
    space.insert_framed_area(VirtAddr(0x5000), VirtAddr(0x5000), RW, &mut mem);
    assert!(space.append_to(VirtAddr(0x5000), VirtAddr(0x6001), &mut mem));
    assert!(space.translate(&mem, VirtPageNum(6)).unwrap().is_valid());
    assert!(space.shrink_to(VirtAddr(0x5000), VirtAddr(0x5800), &mut mem));
    assert!(!space.translate(&mem, VirtPageNum(6)).unwrap().is_valid());
    assert!(space.translate(&mem, VirtPageNum(5)).unwrap().is_valid());
    assert!(!space.append_to(VirtAddr(0x7000), VirtAddr(0x8000), &mut mem));
    assert!(!space.shrink_to(VirtAddr(0x7000), VirtAddr(0x7000), &mut mem));
}

#[test]
fn the_kernel_is_mapped_to_itself() {
    let l = KernelLayout {
        stext: 0x8020_0000,
        etext: 0x8020_4000,
        srodata: 0x8020_4000,
        erodata: 0x8020_6000,
        sdata: 0x8020_6000,
        edata: 0x8020_7000,
        sbss_with_stack: 0x8020_7000,
        ebss: 0x8020_9000,
        ekernel: MEMORY_END - 0x4000,
        strampoline: 0x8020_1000,
    };
    let mut mem = memory(16);
    let space = MemorySet::new_kernel(&l, &mut mem);
    let entry = |v: u64| space.translate(&mem, VirtPageNum(v)).unwrap();
    assert_eq!(entry(0x80203).ppn(), PhysPageNum(0x80203));
    assert_eq!(entry(0x80203).flags().bits, MAP_R | MAP_X | PTE_V);
    assert_eq!(entry(0x80205).flags().bits, MAP_R | PTE_V);
    assert_eq!(entry(0x80206).flags().bits, MAP_R | MAP_W | PTE_V);
    assert_eq!(entry(0x87fff).flags().bits, MAP_R | MAP_W | PTE_V);
    assert_eq!(entry(0x7ff_ffff).ppn(), PhysPageNum(0x80201));
    assert_eq!(entry(0x7ff_ffff).flags().bits, MAP_R | MAP_X | PTE_V);
    assert!(!entry(0x80209).is_valid());
    assert!(remap_test(&space, &l, &mem));
    let swapped = KernelLayout { stext: l.sdata, etext: l.edata, ..l };
    assert!(!remap_test(&space, &swapped, &mem));
}

#[test]
fn kernel_stacks_have_guard_pages() {
    assert_eq!(kernel_stack_position(0), (TRAMPOLINE - 0x2000, TRAMPOLINE));
    assert_eq!(kernel_stack_position(2), (TRAMPOLINE - 0x8000, TRAMPOLINE - 0x6000));
}

#[test]
fn headers_of_elf_files_are_read() {
    let file = elf64(
        0x1_0040,
        &[(1, 5, 0x1_0000, 0x2000, b"code"), (4, 4, 0, 0, b""), (1, 6, 0x2_0000, 0x10, b"data!")],
    );
    let image = parse_elf(&file);
    assert_eq!(image.entry_point, 0x1_0040);
    assert_eq!(image.segments.len(), 2);
    let (a, b) = (image.segments[0], image.segments[1]);
    assert_eq!(a.kind, SegmentKind::Load);
    assert_eq!((a.readable, a.writable, a.executable), (true, false, true));
    assert_eq!((b.readable, b.writable, b.executable), (true, true, false));
    assert_eq!((a.virtual_addr, a.mem_size, a.file_size), (0x1_0000, 0x2000, 4));
    assert_eq!((a.offset, b.offset), (64 + 168, 64 + 168 + 4));
}

#[test]
fn headers_with_narrow_fields_are_read() {
    let mut v = vec![0x7f, 0x45, 0x4c, 0x46, 1, 1, 1, 0, 0, 0, 0, 0, 0, 0, 0, 0];
    le(&mut v, 2, 2);
    le(&mut v, 243, 2);
    le(&mut v, 1, 4);
    le(&mut v, 0x8000_1234, 4);
    le(&mut v, 52, 4);
    le(&mut v, 0, 8);
    le(&mut v, 52, 2);
    le(&mut v, 32, 2);
    le(&mut v, 1, 2);
    le(&mut v, 0, 6);
    for x in [1, 84, 0x4000, 0x4000, 3, 9, 4, 4096] {
        le(&mut v, x, 4);
    }
    v.extend_from_slice(b"abc");
    let image = parse_elf(&v);
    assert_eq!(image.entry_point, 0x8000_1234);
    let p = image.segments[0];
    assert_eq!((p.offset, p.virtual_addr, p.file_size, p.mem_size), (84, 0x4000, 3, 9));
    assert_eq!((p.readable, p.writable, p.executable), (true, false, false));
}

#[test]
fn a_program_is_loaded_into_exactly_its_frames() {
    let code: Vec<u8> = (0..4100).map(|i| (i % 251) as u8).collect();
    let file = elf64(0x1_0040, &[(1, 5, 0x1_0000, 0x2000, &code)]);
    let mut mem = memory(10);
    let (space, user_sp, entry) = MemorySet::from_elf(&file, 0x8020_1000, &mut mem);
    assert_eq!(entry, 0x1_0040);
    assert_eq!(user_sp, 0x1_5000);
    let e = |v: u64| space.translate(&mem, VirtPageNum(v)).unwrap();
    assert_eq!(e(0x10).flags().bits, MAP_R | MAP_X | MAP_U | PTE_V);
    assert!(mem.read_bytes(e(0x10).ppn(), 0, 4096) == code[..4096]);
    assert!(mem.read_bytes(e(0x11).ppn(), 0, 4) == code[4096..]);
    assert!(mem.read_bytes(e(0x11).ppn(), 4, 4092).iter().all(|b| *b == 0));
    assert!(!e(0x12).is_valid());
    assert_eq!(e(0x13).flags().bits, MAP_R | MAP_W | MAP_U | PTE_V);
    assert!(e(0x14).is_valid());
    assert!(!e(0x15).is_valid());
    let trap = VirtAddr::new(TRAP_CONTEXT_BASE).floor();
    assert_eq!(e(trap.0).flags().bits, MAP_R | MAP_W | PTE_V);
    assert_eq!(e(0x7ff_ffff).ppn(), PhysPageNum(0x80201));
    assert!(mem.frame_alloc().is_none());
    space.recycle(&mut mem);
    assert_eq!(mem.frame_alloc(), Some(PhysPageNum(0x80000)));
}

#[test]
fn a_copy_has_frames_of_its_own() {
    let file = elf64(0x1_0000, &[(1, 7, 0x1_0000, 0x1000, b"original")]);
    let mut mem = memory(32);
    let (space, _, _) = MemorySet::from_elf(&file, 0x8020_1000, &mut mem);
    copy_to_user(space.token(), 0x1_0004, b"XYZ", &mut mem);
    let copy = MemorySet::from_existed_user(&space, 0x8020_1000, &mut mem);
    let page = |s: &MemorySet, mem: &PhysMemory| {
        let p = s.translate(mem, VirtPageNum(0x10)).unwrap().ppn();
        mem.read_bytes(p, 0, 9)
    };
    assert_eq!(page(&copy, &mem), b"origXYZl\0");
    copy_to_user(copy.token(), 0x1_0000, b"copy", &mut mem);
    assert_eq!(page(&copy, &mem), b"copyXYZl\0");
    assert_eq!(page(&space, &mem), b"origXYZl\0");
    assert_eq!(copy.areas.len(), space.areas.len());
}

#[test]
fn devices_get_consecutive_frames() {
    let mut mem = memory(8);
    mem.frame_alloc();
    let mut queue = Vec::new();
    assert_eq!(dma_alloc(3, &mut queue, &mut mem), 0x8000_1000);
    assert_eq!(queue, vec![0x80001, 0x80002, 0x80003]);
    assert_eq!(dma_alloc(0, &mut queue, &mut mem), 0);
    assert_eq!(dma_dealloc(0x8000_1000, 2, &mut mem), 0);
    assert_eq!(mem.frame_alloc(), Some(PhysPageNum(0x80001)));
    assert_eq!(phys_to_virt(0x1234), 0x1234);
    let mut space = MemorySet::new_bare(&mut mem);
    space.insert_framed_area(VirtAddr(0x9000), VirtAddr(0xa000), RW, &mut mem);
    let ppn = space.translate(&mem, VirtPageNum(9)).unwrap().ppn();
    assert_eq!(virt_to_phys(0x9123, space.token(), &mem), ppn.0 * 4096 + 0x123);
}

#[test]
fn what_is_written_to_a_program_is_read_there() {
    let mut mem = memory(16);
    let mut space = MemorySet::new_bare(&mut mem);
    space.insert_framed_area(VirtAddr(0x1000), VirtAddr(0x5000), RW, &mut mem);
    let text: Vec<u8> = (0..5000).map(|i| (i % 241 + 1) as u8).collect();
    copy_to_user(space.token(), 0x1ffd, &text, &mut mem);
    let mut read: Vec<u8> = Vec::new();
    for s in translated_byte_buffer(&mem, space.token(), 0x1ffd, 5000) {
        read.extend(mem.read_bytes(s.ppn, s.start, s.end - s.start));
    }
    assert!(read == text);
    let last = space.translate(&mem, VirtPageNum(4)).unwrap().ppn();
    assert!(mem.read_bytes(last, 0, 4096).iter().all(|b| *b == 0));
}

#[test]
fn growing_and_shrinking_back_leaves_no_trace() {
    let mut mem = memory(16);
    let mut space = MemorySet::new_bare(&mut mem);
    space.insert_framed_area(VirtAddr(0x5000), VirtAddr(0x6000), RW, &mut mem);
    assert!(space.append_to(VirtAddr(0x5000), VirtAddr(0x8000), &mut mem));
    assert!(space.translate(&mem, VirtPageNum(7)).unwrap().is_valid());
    assert!(space.shrink_to(VirtAddr(0x5000), VirtAddr(0x6000), &mut mem));
    for v in [6, 7] {
        assert!(!space.translate(&mem, VirtPageNum(v)).unwrap().is_valid());
    }
    assert!(space.translate(&mem, VirtPageNum(5)).unwrap().is_valid());
    let mut free = 0;
    while mem.frame_alloc().is_some() {
        free += 1;
    }
    assert_eq!(free, 16 - 4);
}

#[test]
fn the_stack_lies_above_the_highest_segment() {
    let file = elf64(
        0x1_0000,
        &[(1, 6, 0x2_0000, 0x1000, b"high"), (1, 5, 0x1_0000, 0x1000, b"low")],
    );
    let mut mem = memory(32);
    let (space, user_sp, _) = MemorySet::from_elf(&file, 0x8020_1000, &mut mem);
    assert_eq!(user_sp, 0x2_4000);
    let valid = |v: u64| space.translate(&mem, VirtPageNum(v)).unwrap().is_valid();
    assert!(valid(0x10) && valid(0x20));
    assert!(!valid(0x11) && !valid(0x12) && !valid(0x13));
    assert!(!valid(0x21));
    assert!(valid(0x22) && valid(0x23));
    assert!(!valid(0x24));
}

#[test]
fn images_are_tested_before_they_are_loaded() {
    let fits = |segments: &[(u32, u32, u64, u64, &[u8])], frames: usize| {
        let file = elf64(0x1_0000, segments);
        image_has_room(&parse_elf(&file), &file, &memory(frames))
    };
    let code: (u32, u32, u64, u64, &[u8]) = (1, 5, 0x1_0000, 0x2000, b"code");
    assert!(fits(&[code], 10));
    assert!(!fits(&[code], 9));
    assert!(!fits(&[code], 2));
    assert!(fits(&[code, (1, 6, 0x1_2000, 0x1000, b"data")], 11));
    assert!(!fits(&[code, (1, 6, 0x1_1000, 0x1000, b"data")], 32));
    assert!(!fits(&[(1, 5, u64::MAX - 1, 0x1000, b"code")], 32));
    assert!(!fits(&[(1, 5, TRAP_CONTEXT_BASE, 0x1000, b"code")], 32));
    assert!(!fits(&[(1, 5, 0x1_0000, 0, b"code")], 32));
    let mut cut = elf64(0x1_0000, &[code]);
    let image = parse_elf(&cut);
    cut.pop();
    assert!(!image_has_room(&image, &cut, &memory(32)));
}

#[test]
fn files_are_tested_before_they_are_read() {
    let good = elf64(0x1_0000, &[(1, 5, 0x1_0000, 0x1000, b"code")]);
    assert!(is_loadable(&good));
    assert!(!is_loadable(b""));
    assert!(!is_loadable(&good[..63]));
    assert!(!is_loadable(&good[..100]));
    let mut bad = good.clone();
    bad[0] = 0;
    assert!(!is_loadable(&bad));
}

#[test]
fn free_frames_are_counted() {
    let mut mem = memory(3);
    assert_eq!(mem.free_frames(), 3);
    let a = mem.frame_alloc().unwrap();
    mem.frame_alloc();
    assert_eq!(mem.free_frames(), 1);
    mem.frame_dealloc(a);
    assert_eq!(mem.free_frames(), 2);
}

#[test]
fn runs_of_frames_are_tested() {
    let mut mem = memory(6);
    assert_eq!(mem.first_free(), Some(PhysPageNum(0x80000)));
    assert!(has_free_run(6, &mem));
    assert!(!has_free_run(7, &mem));
    assert!(has_free_run(0, &mem));
    for _ in 0..3 {
        mem.frame_alloc();
    }
    mem.frame_dealloc(PhysPageNum(0x80001));
    assert_eq!(mem.first_free(), Some(PhysPageNum(0x80001)));
    assert!(mem.is_free(PhysPageNum(0x80001)) && !mem.is_used(PhysPageNum(0x80001)));
    assert!(!mem.is_free(PhysPageNum(0x80002)) && mem.is_used(PhysPageNum(0x80002)));
    assert!(!mem.is_free(PhysPageNum(0x7ffff)) && !mem.is_used(PhysPageNum(0x80006)));
    assert!(has_free_run(1, &mem));
    assert!(!has_free_run(2, &mem));
    assert!(has_used_run(0x8000_0000, 1, &mem));
    assert!(!has_used_run(0x8000_0000, 2, &mem));
    assert!(has_used_run(0x8000_2000, 1, &mem));
    assert!(has_used_run(0x8000_1000, 0, &mem));
    while mem.frame_alloc().is_some() {}
    assert_eq!(mem.first_free(), None);
    assert!(!has_free_run(1, &mem));
}

#[test]
fn the_kernel_is_tested_before_it_is_mapped() {
    let l = KernelLayout {
        stext: 0x8020_0000,
        etext: 0x8020_4000,
        srodata: 0x8020_4000,
        erodata: 0x8020_6000,
        sdata: 0x8020_6000,
        edata: 0x8020_7000,
        sbss_with_stack: 0x8020_7000,
        ebss: 0x8020_9000,
        ekernel: MEMORY_END - 0x4000,
        strampoline: 0x8020_1000,
    };
    let mut mem = memory(6);
    assert!(kernel_has_room(&l, &mem));
    MemorySet::new_kernel(&l, &mut mem);
    assert_eq!(mem.free_frames(), 0);
    assert!(!kernel_has_room(&l, &memory(5)));
    assert!(!kernel_has_room(&KernelLayout { etext: 0x8020_4001, ..l }, &memory(16)));
    assert!(!kernel_has_room(&KernelLayout { etext: 0x801f_0000, ..l }, &memory(16)));
}
