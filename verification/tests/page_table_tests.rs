use sv39_mm::address::{PhysPageNum, VirtPageNum};
use sv39_mm::frame_allocator::init_frame_allocator;
use sv39_mm::page_table::{translated_byte_buffer, PageTable, PageTableEntry, PagingError, PTEFlags,
    PTE_R, PTE_V, PTE_W, PTE_X};

#[test]
fn entry_bit_layout_is_exact() {
    let pte = PageTableEntry::new(PhysPageNum(0x1234), PTEFlags::from_bits(PTE_V | PTE_R | PTE_W));
    assert_eq!(pte.bits, (0x1234u64 << 10) | 0b111);
    assert_eq!(pte.ppn(), PhysPageNum(0x1234));
    assert_eq!(pte.flags().bits, 0b111);
    assert!(pte.is_valid());
    assert!(pte.readable());
    assert!(pte.writable());
    assert!(!pte.executable());
    let empty = PageTableEntry::empty();
    assert_eq!(empty.bits, 0);
    assert!(!empty.is_valid());
}

#[test]
fn flag_set_operations() {
    let rw = PTEFlags::from_bits(PTE_R).union(PTEFlags::from_bits(PTE_W));
    assert_eq!(rw.bits, PTE_R | PTE_W);
    assert!(rw.contains(PTEFlags::from_bits(PTE_R)));
    assert!(!rw.contains(PTEFlags::from_bits(PTE_X)));
    assert_eq!(PTEFlags::empty().bits, 0);
}

#[test]
fn token_encodes_mode_and_root() {
    let mut a = init_frame_allocator(PhysPageNum(0x1000), PhysPageNum(0x2000));
    let pt = PageTable::new(&mut a).unwrap();
    assert_eq!(pt.token(), (3u64 << 62) | 0x1000);
}

#[test]
fn from_token_recovers_the_root() {
    let view = PageTable::from_token((3u64 << 62) | 0x81234);
    assert_eq!(view.token(), (3u64 << 62) | 0x81234);
}

#[test]
fn map_then_translate() {
    let mut a = init_frame_allocator(PhysPageNum(0x1000), PhysPageNum(0x2000));
    let mut pt = PageTable::new(&mut a).unwrap();
    let vpn = VirtPageNum(0x42);
    assert!(pt.translate(vpn).is_none());
    pt.map(vpn, PhysPageNum(0x777), PTEFlags::from_bits(PTE_R | PTE_W), &mut a).unwrap();
    let pte = pt.translate(vpn).unwrap();
    assert!(pte.is_valid());
    assert_eq!(pte.ppn(), PhysPageNum(0x777));
    assert!(pte.readable());
    assert!(pte.writable());
    assert!(!pte.executable());
    // A neighbouring page stays untranslated even though its leaf node now
    // exists.
    let neighbour = pt.translate(VirtPageNum(0x43)).unwrap();
    assert!(!neighbour.is_valid());
}

#[test]
fn remap_reflects_only_the_latest_mapping() {
    // Map, unmap, and map again with different flags: the final translation
    // shows only the second mapping.
    let mut a = init_frame_allocator(PhysPageNum(0x1000), PhysPageNum(0x2000));
    let mut pt = PageTable::new(&mut a).unwrap();
    let vpn = VirtPageNum(0x9999);
    pt.map(vpn, PhysPageNum(0x100), PTEFlags::from_bits(PTE_R), &mut a).unwrap();
    pt.unmap(vpn).unwrap();
    pt.map(vpn, PhysPageNum(0x200), PTEFlags::from_bits(PTE_R | PTE_X), &mut a).unwrap();
    let pte = pt.translate(vpn).unwrap();
    assert!(pte.is_valid());
    assert_eq!(pte.ppn(), PhysPageNum(0x200));
    assert!(pte.executable());
    assert!(!pte.writable());
}

#[test]
fn mapping_over_a_live_translation_is_rejected() {
    let mut a = init_frame_allocator(PhysPageNum(0x1000), PhysPageNum(0x2000));
    let mut pt = PageTable::new(&mut a).unwrap();
    let vpn = VirtPageNum(5);
    pt.map(vpn, PhysPageNum(0x10), PTEFlags::from_bits(PTE_R), &mut a).unwrap();
    assert_eq!(
        pt.map(vpn, PhysPageNum(0x11), PTEFlags::from_bits(PTE_R), &mut a),
        Err(PagingError::AlreadyMapped)
    );
}

#[test]
fn unmapping_a_dead_translation_is_rejected() {
    let mut a = init_frame_allocator(PhysPageNum(0x1000), PhysPageNum(0x2000));
    let mut pt = PageTable::new(&mut a).unwrap();
    assert_eq!(pt.unmap(VirtPageNum(5)), Err(PagingError::NotMapped));
    pt.map(VirtPageNum(5), PhysPageNum(0x10), PTEFlags::from_bits(PTE_R), &mut a).unwrap();
    pt.unmap(VirtPageNum(5)).unwrap();
    assert_eq!(pt.unmap(VirtPageNum(5)), Err(PagingError::NotMapped));
}

#[test]
fn node_exhaustion_is_reported() {
    // One frame serves the root; none is left for the walk's nodes.
    let mut a = init_frame_allocator(PhysPageNum(0x1000), PhysPageNum(0x1001));
    let mut pt = PageTable::new(&mut a).unwrap();
    assert_eq!(
        pt.map(VirtPageNum(1), PhysPageNum(0x10), PTEFlags::from_bits(PTE_R), &mut a),
        Err(PagingError::FrameExhausted)
    );
    assert!(PageTable::new(&mut a).is_err());
}

#[test]
fn byte_buffer_splits_a_range_into_page_chunks() {
    let mut a = init_frame_allocator(PhysPageNum(0x1000), PhysPageNum(0x2000));
    let mut pt = PageTable::new(&mut a).unwrap();
    pt.map(VirtPageNum(0x10), PhysPageNum(0x500), PTEFlags::from_bits(PTE_R | PTE_V), &mut a)
        .unwrap();
    pt.map(VirtPageNum(0x11), PhysPageNum(0x600), PTEFlags::from_bits(PTE_R | PTE_V), &mut a)
        .unwrap();
    // 0x10100..0x11080 crosses one page boundary.
    let chunks = translated_byte_buffer(&pt, 0x10100, 0xF80).unwrap();
    assert_eq!(chunks.len(), 2);
    assert_eq!(chunks[0], (PhysPageNum(0x500), 0x100, 0x1000));
    assert_eq!(chunks[1], (PhysPageNum(0x600), 0, 0x80));
    // An empty range touches no page at all.
    assert_eq!(translated_byte_buffer(&pt, 0x10100, 0).unwrap().len(), 0);
    // A range with an untranslated page is refused.
    assert!(translated_byte_buffer(&pt, 0x11000, 0x1001).is_none());
}
