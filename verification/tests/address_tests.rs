use sv39_mm::address::{PhysAddr, PhysPageNum, SimpleRange, SimpleRangeIterator, VirtAddr,
    VirtPageNum};
use sv39_mm::config::{PAGE_SIZE, PAGE_SIZE_BITS};

#[test]
fn floor_truncates_offset() {
    assert_eq!(VirtAddr(0).floor(), VirtPageNum(0));
    assert_eq!(VirtAddr(4095).floor(), VirtPageNum(0));
    assert_eq!(VirtAddr(4096).floor(), VirtPageNum(1));
    assert_eq!(PhysAddr(0x80200fff).floor(), PhysPageNum(0x80200));
}

#[test]
fn ceil_rounds_up() {
    assert_eq!(VirtAddr(0).ceil(), VirtPageNum(0));
    assert_eq!(VirtAddr(1).ceil(), VirtPageNum(1));
    assert_eq!(VirtAddr(4096).ceil(), VirtPageNum(1));
    assert_eq!(VirtAddr(4097).ceil(), VirtPageNum(2));
    assert_eq!(PhysAddr(0x80200001).ceil(), PhysPageNum(0x80201));
}

#[test]
fn page_offset_and_alignment() {
    assert_eq!(VirtAddr(0x12345).page_offset(), 0x345);
    assert!(VirtAddr(0x12000).aligned());
    assert!(!VirtAddr(0x12001).aligned());
    assert_eq!(PhysAddr(0x80200123).page_offset(), 0x123);
    assert!(PhysAddr(0x80200000).aligned());
    assert!(!PhysAddr(0x80200800).aligned());
}

#[test]
fn indexes_split_three_levels() {
    // vpn = i0 * 2^18 + i1 * 2^9 + i2 with indices (1, 2, 3).
    let vpn = VirtPageNum((1 << 18) | (2 << 9) | 3);
    assert_eq!(vpn.indexes(), [1, 2, 3]);
    // The top page of the virtual range walks through the last entry of
    // every level.
    let top = VirtAddr(usize::MAX - PAGE_SIZE + 1).floor();
    assert_eq!(top.indexes(), [511, 511, 511]);
    // Only the low 27 bits take part in the walk.
    let aliased = VirtPageNum(1 << 27);
    assert_eq!(aliased.indexes(), [0, 0, 0]);
}

#[test]
fn page_number_address_roundtrip() {
    // Page-aligned constructions survive the conversion in both directions.
    for vpn in [0usize, 1, 0x80200, 0xFFFFF] {
        let va = VirtAddr::from(VirtPageNum(vpn));
        assert_eq!(va.0, vpn << PAGE_SIZE_BITS);
        assert!(va.aligned());
        assert_eq!(va.floor(), VirtPageNum(vpn));
    }
    for ppn in [0usize, 7, 0x80200] {
        let pa = PhysAddr::from(PhysPageNum(ppn));
        assert_eq!(pa.floor(), PhysPageNum(ppn));
        assert_eq!(PhysAddr::from(pa.floor()), pa);
    }
}

#[test]
fn usize_conversions() {
    assert_eq!(VirtAddr::from(0x1234usize), VirtAddr(0x1234));
    assert_eq!(PhysAddr::from(0x5678usize), PhysAddr(0x5678));
    assert_eq!(VirtPageNum::from(9usize), VirtPageNum(9));
    assert_eq!(PhysPageNum::from(9usize), PhysPageNum(9));
}

#[test]
fn simple_range_bounds() {
    let r = SimpleRange::new(VirtPageNum(3), VirtPageNum(7));
    assert_eq!(r.get_start(), VirtPageNum(3));
    assert_eq!(r.get_end(), VirtPageNum(7));
}

#[test]
fn simple_range_iterator_walks_in_order() {
    let mut it = SimpleRangeIterator::new(VirtPageNum(3), VirtPageNum(6));
    assert_eq!(it.next(), Some(VirtPageNum(3)));
    assert_eq!(it.next(), Some(VirtPageNum(4)));
    assert_eq!(it.next(), Some(VirtPageNum(5)));
    assert_eq!(it.next(), None);
    assert_eq!(it.next(), None);
    let mut empty = SimpleRangeIterator::new(VirtPageNum(4), VirtPageNum(4));
    assert_eq!(empty.next(), None);
}
