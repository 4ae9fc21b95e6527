use sv39_mm::address::{PhysAddr, PhysPageNum, VirtAddr, VirtPageNum};
use sv39_mm::config::{PAGE_SIZE, TRAMPOLINE, TRAP_CONTEXT, USER_STACK_SIZE};
use sv39_mm::frame_allocator::{frame_remain_num, init_frame_allocator, StackFrameAllocator};
use sv39_mm::memory_set::{KernelLayout, MapArea, MapPermission, MapType, MemorySet, MAP_PERM_R,
    MAP_PERM_U, MAP_PERM_W, MAP_PERM_X};
use sv39_mm::page_table::PageTable;

fn fresh_allocator() -> StackFrameAllocator {
    init_frame_allocator(PhysPageNum(0x81000), PhysPageNum(0x90000))
}

#[test]
fn bare_space_translates_nothing() {
    let mut a = fresh_allocator();
    let ms = MemorySet::new_bare(&mut a).unwrap();
    assert!(ms.translate(VirtPageNum(0)).is_none());
    assert!(ms.translate(VirtPageNum(0x1234)).is_none());
    assert_eq!(ms.token(), (3u64 << 62) | 0x81000);
}

#[test]
fn mmap_rejects_bad_ports() {
    let mut a = fresh_allocator();
    let mut ms = MemorySet::new_bare(&mut a).unwrap();
    // No permission bit at all.
    assert_eq!(ms.mmap(0x10000, PAGE_SIZE, 0, &mut a), -1);
    // A bit above bit 2.
    assert_eq!(ms.mmap(0x10000, PAGE_SIZE, 8, &mut a), -1);
    assert_eq!(ms.mmap(0x10000, PAGE_SIZE, 9, &mut a), -1);
    assert_eq!(ms.mmap(0x10000, PAGE_SIZE, 0x17, &mut a), -1);
    // Nothing was mapped by the failures.
    assert!(ms.translate(VirtPageNum(0x10)).is_none());
}

#[test]
fn mmap_rejects_misaligned_start() {
    let mut a = fresh_allocator();
    let mut ms = MemorySet::new_bare(&mut a).unwrap();
    assert_eq!(ms.mmap(0x10001, PAGE_SIZE, 7, &mut a), -1);
    assert_eq!(ms.mmap(0x10800, PAGE_SIZE, 1, &mut a), -1);
}

#[test]
fn mmap_accepts_every_valid_port() {
    for port in 1usize..=7 {
        let mut a = fresh_allocator();
        let mut ms = MemorySet::new_bare(&mut a).unwrap();
        assert_eq!(ms.mmap(0x10000, 2 * PAGE_SIZE, port, &mut a), 0);
        let pte = ms.translate(VirtPageNum(0x10)).unwrap();
        assert!(pte.is_valid());
        // The port's read/write/execute bits land one position higher in the
        // entry, and the page is always user-accessible.
        assert_eq!((pte.flags().bits >> 1) & 0x7, port as u8);
        assert_eq!(pte.flags().bits & MAP_PERM_U, MAP_PERM_U);
    }
}

#[test]
fn mmap_rejects_overlap() {
    let mut a = fresh_allocator();
    let mut ms = MemorySet::new_bare(&mut a).unwrap();
    assert_eq!(ms.mmap(0x10000, 4 * PAGE_SIZE, 3, &mut a), 0);
    // Any page in the requested range already mapped: rejected.
    assert_eq!(ms.mmap(0x12000, 4 * PAGE_SIZE, 3, &mut a), -1);
    assert_eq!(ms.mmap(0x10000, PAGE_SIZE, 1, &mut a), -1);
    // A disjoint range is fine.
    assert_eq!(ms.mmap(0x20000, PAGE_SIZE, 1, &mut a), 0);
}

#[test]
fn mmap_rejects_exhaustion() {
    let mut a = init_frame_allocator(PhysPageNum(0x81000), PhysPageNum(0x81008));
    let mut ms = MemorySet::new_bare(&mut a).unwrap();
    // Seven frames remain; sixteen pages cannot be admitted.
    assert_eq!(ms.mmap(0x10000, 16 * PAGE_SIZE, 3, &mut a), -1);
    // A single page still fits.
    assert_eq!(ms.mmap(0x10000, PAGE_SIZE, 3, &mut a), 0);
}

#[test]
fn munmap_removes_an_exactly_matching_range() {
    let mut a = fresh_allocator();
    let mut ms = MemorySet::new_bare(&mut a).unwrap();
    assert_eq!(ms.mmap(0x10000, 3 * PAGE_SIZE, 3, &mut a), 0);
    assert!(ms.translate(VirtPageNum(0x11)).unwrap().is_valid());
    assert_eq!(ms.munmap(0x10000, 3 * PAGE_SIZE, &mut a), 0);
    for vpn in 0x10..0x13usize {
        let t = ms.translate(VirtPageNum(vpn));
        assert!(t.is_none() || !t.unwrap().is_valid());
    }
    // The same range again: nothing covers it any more.
    assert_eq!(ms.munmap(0x10000, 3 * PAGE_SIZE, &mut a), -1);
    // And the pages can be mapped afresh.
    assert_eq!(ms.mmap(0x10000, 3 * PAGE_SIZE, 1, &mut a), 0);
}

#[test]
fn munmap_covers_several_whole_segments() {
    let mut a = fresh_allocator();
    let mut ms = MemorySet::new_bare(&mut a).unwrap();
    assert_eq!(ms.mmap(0x10000, 2 * PAGE_SIZE, 3, &mut a), 0);
    assert_eq!(ms.mmap(0x12000, PAGE_SIZE, 1, &mut a), 0);
    assert_eq!(ms.munmap(0x10000, 3 * PAGE_SIZE, &mut a), 0);
    for vpn in 0x10..0x13usize {
        let t = ms.translate(VirtPageNum(vpn));
        assert!(t.is_none() || !t.unwrap().is_valid());
    }
}

#[test]
fn munmap_rejects_partial_overlap() {
    let mut a = fresh_allocator();
    let mut ms = MemorySet::new_bare(&mut a).unwrap();
    assert_eq!(ms.mmap(0x10000, 4 * PAGE_SIZE, 3, &mut a), 0);
    // Half a segment is not a whole segment.
    assert_eq!(ms.munmap(0x10000, 2 * PAGE_SIZE, &mut a), -1);
    // A range sticking out past the segment is not covered either.
    assert_eq!(ms.munmap(0x10000, 5 * PAGE_SIZE, &mut a), -1);
    // The mapping survives the rejections.
    assert!(ms.translate(VirtPageNum(0x10)).unwrap().is_valid());
    assert!(ms.translate(VirtPageNum(0x13)).unwrap().is_valid());
}

#[test]
fn insert_framed_area_maps_a_kernel_stack() {
    let mut a = fresh_allocator();
    let mut ms = MemorySet::new_bare(&mut a).unwrap();
    ms.insert_framed_area(
        VirtAddr(0x40000),
        VirtAddr(0x42000),
        MapPermission { bits: MAP_PERM_R | MAP_PERM_W },
        &mut a,
    );
    let pte = ms.translate(VirtPageNum(0x40)).unwrap();
    assert!(pte.is_valid());
    assert!(pte.writable());
    assert!(!pte.executable());
    assert!(ms.translate(VirtPageNum(0x41)).unwrap().is_valid());
    let above = ms.translate(VirtPageNum(0x42));
    assert!(above.is_none() || !above.unwrap().is_valid());
}

fn test_layout() -> KernelLayout {
    KernelLayout {
        stext: 0x80200000,
        etext: 0x80202000,
        srodata: 0x80202000,
        erodata: 0x80204000,
        sdata: 0x80204000,
        edata: 0x80206000,
        sbss_with_stack: 0x80206000,
        ebss: 0x80208000,
        ekernel: 0x80208000,
        memory_end: 0x80210000,
        strampoline: 0x80200000,
    }
}

#[test]
fn kernel_space_protects_its_regions() {
    let layout = test_layout();
    let mut a = fresh_allocator();
    let ms = MemorySet::new_kernel(&layout, &mut a);
    // Mid-text: executable, not writable.
    let mid_text = VirtAddr((layout.stext + layout.etext) / 2).floor();
    let pte = ms.translate(mid_text).unwrap();
    assert!(pte.is_valid());
    assert!(!pte.writable());
    assert!(pte.executable());
    // Identity mapping: the page translates to itself.
    assert_eq!(pte.ppn(), PhysPageNum(mid_text.0));
    // Mid-rodata: not writable.
    let mid_rodata = VirtAddr((layout.srodata + layout.erodata) / 2).floor();
    assert!(!ms.translate(mid_rodata).unwrap().writable());
    // Mid-data: writable, not executable.
    let mid_data = VirtAddr((layout.sdata + layout.edata) / 2).floor();
    let pte = ms.translate(mid_data).unwrap();
    assert!(pte.writable());
    assert!(!pte.executable());
    // The physical-memory tail is writable too.
    let mid_phys = VirtAddr((layout.ekernel + layout.memory_end) / 2).floor();
    assert!(ms.translate(mid_phys).unwrap().writable());
    // The trampoline page resolves to the trampoline code frame.
    let tramp = VirtAddr(TRAMPOLINE).floor();
    let pte = ms.translate(tramp).unwrap();
    assert!(pte.executable());
    assert!(!pte.writable());
    assert_eq!(pte.ppn(), PhysPageNum(layout.strampoline / PAGE_SIZE));
}

fn push_u16(v: &mut Vec<u8>, at: usize, x: u16) {
    v[at..at + 2].copy_from_slice(&x.to_le_bytes());
}

fn push_u32(v: &mut Vec<u8>, at: usize, x: u32) {
    v[at..at + 4].copy_from_slice(&x.to_le_bytes());
}

fn push_u64(v: &mut Vec<u8>, at: usize, x: u64) {
    v[at..at + 8].copy_from_slice(&x.to_le_bytes());
}

/// A minimal two-segment executable image: one read-execute code segment and
/// one read-write data segment, each one page.
fn two_segment_image() -> Vec<u8> {
    let mut v = vec![0u8; 0x200];
    v[0] = 0x7f;
    v[1] = 0x45;
    v[2] = 0x4c;
    v[3] = 0x46;
    v[4] = 2;
    push_u64(&mut v, 24, 0x10080); // entry point
    push_u64(&mut v, 32, 64); // program-header table offset
    push_u16(&mut v, 54, 56); // entry size
    push_u16(&mut v, 56, 2); // entry count
    // Code segment: R+X, one page at 0x10000, eight initialized bytes.
    let p0 = 64;
    push_u32(&mut v, p0, 1);
    push_u32(&mut v, p0 + 4, 1 | 4);
    push_u64(&mut v, p0 + 8, 0x180);
    push_u64(&mut v, p0 + 16, 0x10000);
    push_u64(&mut v, p0 + 32, 8);
    push_u64(&mut v, p0 + 40, 0x1000);
    // Data segment: R+W, one page at 0x11000, no initialized bytes.
    let p1 = 64 + 56;
    push_u32(&mut v, p1, 1);
    push_u32(&mut v, p1 + 4, 2 | 4);
    push_u64(&mut v, p1 + 8, 0);
    push_u64(&mut v, p1 + 16, 0x11000);
    push_u64(&mut v, p1 + 32, 0);
    push_u64(&mut v, p1 + 40, 0x1000);
    v
}

#[test]
fn loading_an_image_lays_out_the_address_space() {
    let image = two_segment_image();
    let mut a = fresh_allocator();
    let (ms, user_stack_top, entry) =
        MemorySet::from_elf(&image, PhysAddr(0x80200000), &mut a).unwrap();
    assert_eq!(entry, 0x10080);
    // The entry point's page is executable and user-accessible, not writable.
    let code = ms.translate(VirtPageNum(0x10)).unwrap();
    assert!(code.is_valid());
    assert!(code.executable());
    assert!(!code.writable());
    assert_eq!(code.flags().bits & MAP_PERM_U, MAP_PERM_U);
    // The data page is writable but not executable.
    let data = ms.translate(VirtPageNum(0x11)).unwrap();
    assert!(data.writable());
    assert!(!data.executable());
    // A guard page sits directly above the highest segment, unmapped.
    let guard = ms.translate(VirtPageNum(0x12));
    assert!(guard.is_none() || !guard.unwrap().is_valid());
    // The user stack sits above the guard page, writable and user-accessible.
    let stack_pages = USER_STACK_SIZE / PAGE_SIZE;
    assert_eq!(user_stack_top, (0x12 + 1 + stack_pages) * PAGE_SIZE);
    for vpn in 0x13..0x13 + stack_pages {
        let pte = ms.translate(VirtPageNum(vpn)).unwrap();
        assert!(pte.is_valid());
        assert!(pte.writable());
        assert_eq!(pte.flags().bits & MAP_PERM_U, MAP_PERM_U);
    }
    // The trap-context page is reserved below the trampoline, kernel-only.
    let trap = ms.translate(VirtAddr(TRAP_CONTEXT).floor()).unwrap();
    assert!(trap.is_valid());
    assert!(trap.writable());
    assert_eq!(trap.flags().bits & MAP_PERM_U, 0);
    // The trampoline is mapped to the shared code page.
    let tramp = ms.translate(VirtAddr(TRAMPOLINE).floor()).unwrap();
    assert!(tramp.executable());
    assert_eq!(tramp.ppn(), PhysPageNum(0x80200000 / PAGE_SIZE));
}

#[test]
fn loading_consumes_only_what_it_needs() {
    let image = two_segment_image();
    let mut a = fresh_allocator();
    let before = frame_remain_num(&a);
    let _ = MemorySet::from_elf(&image, PhysAddr(0x80200000), &mut a).unwrap();
    // Root + trampoline walk + two one-page segments + stack + trap page,
    // each with their own walk nodes, stay well under the worst case.
    assert!(before - frame_remain_num(&a) <= 24);
}

#[test]
fn copy_data_fills_frames_in_page_order() {
    let mut a = fresh_allocator();
    let mut pt = PageTable::new(&mut a).unwrap();
    let mut area = MapArea::new(
        VirtAddr(0x30000),
        VirtAddr(0x32000),
        MapType::Framed,
        MapPermission { bits: MAP_PERM_R | MAP_PERM_X },
    );
    area.map(&mut pt, &mut a);
    // A page and a half of patterned data; the rest stays zero-filled.
    let data: Vec<u8> = (0..PAGE_SIZE + PAGE_SIZE / 2).map(|i| (i % 251) as u8).collect();
    area.copy_data(&data);
    assert_eq!(area.read_byte(0, 0), 0);
    assert_eq!(area.read_byte(0, 1), 1);
    assert_eq!(area.read_byte(0, 250), 250);
    assert_eq!(area.read_byte(0, 251), 0);
    let boundary = PAGE_SIZE % 251;
    assert_eq!(area.read_byte(1, 0), boundary as u8);
    assert_eq!(area.read_byte(1, PAGE_SIZE / 2 - 1), ((PAGE_SIZE + PAGE_SIZE / 2 - 1) % 251) as u8);
    // Beyond the data: the zero fill of the fresh frames.
    assert_eq!(area.read_byte(1, PAGE_SIZE / 2), 0);
    assert_eq!(area.read_byte(1, PAGE_SIZE - 1), 0);
    // Both pages are translated with the segment's permissions.
    assert!(pt.translate(VirtPageNum(0x30)).unwrap().executable());
    assert!(pt.translate(VirtPageNum(0x31)).unwrap().is_valid());
}
