use sv39_mm::address::PhysAddr;
use sv39_mm::elf::{parse_elf, ElfError, SegmentInfo};
use sv39_mm::frame_allocator::init_frame_allocator;
use sv39_mm::address::PhysPageNum;
use sv39_mm::memory_set::MemorySet;

fn set_u16(v: &mut Vec<u8>, at: usize, x: u16) {
    v[at..at + 2].copy_from_slice(&x.to_le_bytes());
}

fn set_u32(v: &mut Vec<u8>, at: usize, x: u32) {
    v[at..at + 4].copy_from_slice(&x.to_le_bytes());
}

fn set_u64(v: &mut Vec<u8>, at: usize, x: u64) {
    v[at..at + 8].copy_from_slice(&x.to_le_bytes());
}

fn minimal_image() -> Vec<u8> {
    let mut v = vec![0u8; 0x100];
    v[0] = 0x7f;
    v[1] = 0x45;
    v[2] = 0x4c;
    v[3] = 0x46;
    v[4] = 2;
    set_u64(&mut v, 24, 0x10000);
    set_u64(&mut v, 32, 64);
    set_u16(&mut v, 54, 56);
    set_u16(&mut v, 56, 1);
    set_u32(&mut v, 64, 1);
    set_u32(&mut v, 68, 5);
    set_u64(&mut v, 72, 0);
    set_u64(&mut v, 80, 0x10000);
    set_u64(&mut v, 96, 0);
    set_u64(&mut v, 104, 0x800);
    v
}

#[test]
fn a_sound_image_parses() {
    let img = minimal_image();
    let parsed = parse_elf(&img).unwrap();
    assert_eq!(parsed.entry, 0x10000);
    assert_eq!(parsed.segments.len(), 1);
    assert_eq!(
        parsed.segments[0],
        SegmentInfo { start_va: 0x10000, end_va: 0x10800, flags: 5, file_off: 0, file_size: 0 }
    );
}

#[test]
fn non_loadable_entries_are_skipped() {
    let mut img = minimal_image();
    set_u32(&mut img, 64, 6); // some other entry type
    let parsed = parse_elf(&img).unwrap();
    assert_eq!(parsed.segments.len(), 0);
}

#[test]
fn truncated_header_is_rejected() {
    assert_eq!(parse_elf(&[0x7f, 0x45]), Err(ElfError::TruncatedHeader));
    assert_eq!(parse_elf(&[0u8; 63]), Err(ElfError::TruncatedHeader));
}

#[test]
fn bad_magic_is_rejected() {
    let mut img = minimal_image();
    img[0] = 0x7e;
    assert_eq!(parse_elf(&img), Err(ElfError::BadMagic));
}

#[test]
fn unsupported_class_is_rejected() {
    let mut img = minimal_image();
    img[4] = 1;
    assert_eq!(parse_elf(&img), Err(ElfError::UnsupportedClass));
}

#[test]
fn truncated_table_is_rejected() {
    let mut img = minimal_image();
    set_u16(&mut img, 56, 900); // far more entries than the image holds
    assert_eq!(parse_elf(&img), Err(ElfError::TruncatedProgramHeaders));
    let mut img = minimal_image();
    set_u16(&mut img, 54, 8); // entries too small for the 64-bit layout
    assert_eq!(parse_elf(&img), Err(ElfError::TruncatedProgramHeaders));
}

#[test]
fn overlong_file_range_is_rejected() {
    let mut img = minimal_image();
    set_u64(&mut img, 96, 0x10000); // more initialized bytes than the image
    assert_eq!(parse_elf(&img), Err(ElfError::MalformedSegment));
}

#[test]
fn loader_rejects_what_the_parser_rejects() {
    let mut a = init_frame_allocator(PhysPageNum(0x81000), PhysPageNum(0x90000));
    let mut img = minimal_image();
    img[0] = 0;
    assert!(matches!(
        MemorySet::from_elf(&img, PhysAddr(0x80200000), &mut a),
        Err(ElfError::BadMagic)
    ));
}

#[test]
fn loader_rejects_overlapping_segments() {
    let mut img = minimal_image();
    set_u16(&mut img, 56, 2);
    // Second entry loads over the same page as the first.
    let p1 = 64 + 56;
    set_u32(&mut img, p1, 1);
    set_u32(&mut img, p1 + 4, 6);
    set_u64(&mut img, p1 + 8, 0);
    set_u64(&mut img, p1 + 16, 0x10000);
    set_u64(&mut img, p1 + 32, 0);
    set_u64(&mut img, p1 + 40, 0x800);
    let mut a = init_frame_allocator(PhysPageNum(0x81000), PhysPageNum(0x90000));
    assert!(matches!(
        MemorySet::from_elf(&img, PhysAddr(0x80200000), &mut a),
        Err(ElfError::BadLayout)
    ));
}

#[test]
fn loader_reports_exhaustion() {
    let img = minimal_image();
    let mut a = init_frame_allocator(PhysPageNum(0x81000), PhysPageNum(0x81004));
    assert!(matches!(
        MemorySet::from_elf(&img, PhysAddr(0x80200000), &mut a),
        Err(ElfError::FrameExhausted)
    ));
}
