use chronos_kernel::loader::{
    parse_elf, read_u16, read_u32, read_u64, ElfError, ElfHeader, ProgramHeader, Segment, PF_R,
    PF_W, PF_X, PT_LOAD,
};

/// One program header and the bytes of its segment.
struct Part {
    typ: u32,
    flags: u32,
    vaddr: u64,
    memsz: u64,
    data: Vec<u8>,
}

/// An ELF64 image for RISC-V with the given entry point and parts.
fn image(entry: u64, parts: &[Part]) -> Vec<u8> {
    let mut out = vec![0u8; 64];
    out[0..4].copy_from_slice(&[0x7f, b'E', b'L', b'F']);
    out[4] = 2;
    out[5] = 1;
    out[6] = 1;
    out[16..18].copy_from_slice(&2u16.to_le_bytes());
    out[18..20].copy_from_slice(&0xF3u16.to_le_bytes());
    out[20..24].copy_from_slice(&1u32.to_le_bytes());
    out[24..32].copy_from_slice(&entry.to_le_bytes());
    out[32..40].copy_from_slice(&64u64.to_le_bytes());
    out[52..54].copy_from_slice(&64u16.to_le_bytes());
    out[54..56].copy_from_slice(&56u16.to_le_bytes());
    out[56..58].copy_from_slice(&(parts.len() as u16).to_le_bytes());
    let mut offset = 64 + 56 * parts.len() as u64;
    for p in parts {
        out.extend_from_slice(&p.typ.to_le_bytes());
        out.extend_from_slice(&p.flags.to_le_bytes());
        out.extend_from_slice(&offset.to_le_bytes());
        out.extend_from_slice(&p.vaddr.to_le_bytes());
        out.extend_from_slice(&p.vaddr.to_le_bytes());
        out.extend_from_slice(&(p.data.len() as u64).to_le_bytes());
        out.extend_from_slice(&p.memsz.to_le_bytes());
        out.extend_from_slice(&0x1000u64.to_le_bytes());
        offset += p.data.len() as u64;
    }
    for p in parts {
        out.extend_from_slice(&p.data);
    }
    out
}

fn load(flags: u32, vaddr: u64, memsz: u64, data: &[u8]) -> Part {
    Part { typ: PT_LOAD, flags, vaddr, memsz, data: data.to_vec() }
}

#[test]
fn numbers_are_little_endian() {
    let bytes = [0x01, 0x02, 0x03, 0x04, 0x05, 0x06, 0x07, 0x08, 0x09];
    assert_eq!(read_u16(&bytes, 0), 0x0201);
    assert_eq!(read_u16(&bytes, 7), 0x0908);
    assert_eq!(read_u32(&bytes, 1), 0x0504_0302);
    assert_eq!(read_u64(&bytes, 0), 0x0807_0605_0403_0201);
    assert_eq!(read_u64(&[0xff; 8], 0), u64::MAX);
}

#[test]
fn header_fields() {
    let img = image(0x1_0000, &[load(PF_R | PF_X, 0x1_0000, 0x10, &[1, 2, 3])]);
    let h = ElfHeader::read(&img);
    assert_eq!(h.magic, [0x7f, b'E', b'L', b'F']);
    assert_eq!(h.class, 2);
    assert_eq!(h.machine, 0xF3);
    assert_eq!(h.entry, 0x1_0000);
    assert_eq!(h.phoff, 64);
    assert_eq!(h.phnum, 1);
    assert_eq!(h.phentsize, 56);
    let ph = ProgramHeader::read(&img, 64);
    assert_eq!(ph.typ, PT_LOAD);
    assert_eq!(ph.flags, PF_R | PF_X);
    assert_eq!(ph.offset, 64 + 56);
    assert_eq!(ph.vaddr, 0x1_0000);
    assert_eq!(ph.filesz, 3);
    assert_eq!(ph.memsz, 0x10);
}

#[test]
fn loadable_segments_in_order() {
    let img = image(
        0x1_0078,
        &[
            load(PF_R | PF_X, 0x1_0078, 0x400, &[0xaa; 0x200]),
            Part { typ: 4, flags: PF_R, vaddr: 0x5_0000, memsz: 8, data: vec![9; 8] },
            load(PF_R | PF_W, 0x2_0000, 0x1000, &[]),
        ],
    );
    let (entry, segments) = parse_elf(&img).unwrap();
    assert_eq!(entry, 0x1_0078);
    assert_eq!(segments.len(), 2);
    assert_eq!(segments[0].vaddr, 0x1_0078);
    assert_eq!(segments[0].memsz, 0x400);
    assert_eq!(segments[0].data, vec![0xaa; 0x200]);
    assert_eq!(segments[0].flags, PF_R | PF_X);
    assert!(segments[0].is_readable());
    assert!(segments[0].is_executable());
    assert!(!segments[0].is_writable());
    assert_eq!(segments[1].vaddr, 0x2_0000);
    assert_eq!(segments[1].data.len(), 0);
    assert!(segments[1].is_writable());
    assert!(!segments[1].is_executable());
}

#[test]
fn image_without_program_headers() {
    let (entry, segments) = parse_elf(&image(0x42, &[])).unwrap();
    assert_eq!(entry, 0x42);
    assert!(segments.is_empty());
}

#[test]
fn short_image_is_refused() {
    assert_eq!(parse_elf(&[]).unwrap_err(), ElfError::TooShort);
    assert_eq!(parse_elf(&image(0, &[])[..63]).unwrap_err(), ElfError::TooShort);
}

#[test]
fn bad_magic_is_refused() {
    let mut img = image(0, &[]);
    img[1] = b'F';
    assert_eq!(parse_elf(&img).unwrap_err(), ElfError::BadMagic);
}

#[test]
fn other_class_is_refused() {
    let mut img = image(0, &[]);
    img[4] = 1;
    assert_eq!(parse_elf(&img).unwrap_err(), ElfError::NotElf64);
}

#[test]
fn other_machine_is_refused() {
    let mut img = image(0, &[]);
    img[18] = 0x3e;
    assert_eq!(parse_elf(&img).unwrap_err(), ElfError::NotRiscV);
}

#[test]
fn program_header_beyond_the_image_is_refused() {
    let mut img = image(0, &[]);
    img[56] = 1;
    assert_eq!(parse_elf(&img).unwrap_err(), ElfError::HeaderOutOfBounds);
    let mut far = image(0, &[load(PF_R, 0x1000, 1, &[1])]);
    far[32..40].copy_from_slice(&u64::MAX.to_le_bytes());
    assert_eq!(parse_elf(&far).unwrap_err(), ElfError::HeaderOutOfBounds);
}

#[test]
fn segment_bytes_beyond_the_image_are_refused() {
    let mut img = image(0, &[load(PF_R, 0x1000, 4, &[1, 2, 3, 4])]);
    // one byte more than the image holds
    img[64 + 32..64 + 40].copy_from_slice(&5u64.to_le_bytes());
    assert_eq!(parse_elf(&img).unwrap_err(), ElfError::SegmentOutOfBounds);
    img[64 + 32..64 + 40].copy_from_slice(&u64::MAX.to_le_bytes());
    assert_eq!(parse_elf(&img).unwrap_err(), ElfError::SegmentOutOfBounds);
}

#[test]
fn the_first_fault_is_reported() {
    let mut img = image(0, &[load(PF_R, 0x1000, 4, &[1, 2, 3, 4])]);
    img[0] = 0;
    img[4] = 1;
    img[18] = 0;
    assert_eq!(parse_elf(&img).unwrap_err(), ElfError::BadMagic);
}

#[test]
fn elf_error_messages() {
    assert_eq!(ElfError::TooShort.message(), "ELF data too short");
    assert_eq!(ElfError::BadMagic.message(), "Invalid ELF magic");
    assert_eq!(ElfError::NotElf64.message(), "Not a 64-bit ELF");
    assert_eq!(ElfError::NotRiscV.message(), "Not a RISC-V ELF");
    assert_eq!(ElfError::HeaderOutOfBounds.message(), "Program header out of bounds");
    assert_eq!(ElfError::SegmentOutOfBounds.message(), "Segment data out of bounds");
}

#[test]
fn segment_flags() {
    let s = Segment { vaddr: 0, memsz: 0, data: Vec::new(), flags: PF_W };
    assert!(s.is_writable() && !s.is_readable() && !s.is_executable());
}
