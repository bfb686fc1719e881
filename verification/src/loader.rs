//! ELF64 images of user programs.
//!
//! An image is read as bytes in little-endian order: the file header in the
//! first 64 bytes, then program headers of 56 bytes each, beginning at the
//! offset that the file header names.

use vstd::prelude::*;

verus! {

/// Size of the ELF64 file header.
pub const ELF_HEADER_SIZE: usize = 64;

/// Size of an ELF64 program header.
pub const PROGRAM_HEADER_SIZE: usize = 56;

/// Program header type of a loadable segment.
pub const PT_LOAD: u32 = 1;

/// Segment flag: executable.
pub const PF_X: u32 = 1;

/// Segment flag: writable.
pub const PF_W: u32 = 2;

/// Segment flag: readable.
pub const PF_R: u32 = 4;

/// The class byte of a 64-bit image.
pub const ELF_CLASS_64: u8 = 2;

/// The machine number of RISC-V.
pub const EM_RISCV: u16 = 0xF3;

/// The 16-bit number at offset `off`.
pub open spec fn le_u16(s: Seq<u8>, off: int) -> int {
    s[off] as int + s[off + 1] as int * 0x100
}

/// The 32-bit number at offset `off`.
pub open spec fn le_u32(s: Seq<u8>, off: int) -> int {
    le_u16(s, off) + le_u16(s, off + 2) * 0x1_0000
}

/// The 64-bit number at offset `off`.
pub open spec fn le_u64(s: Seq<u8>, off: int) -> int {
    le_u32(s, off) + le_u32(s, off + 4) * 0x1_0000_0000
}

/// Whether the image begins with the four magic bytes.
pub open spec fn has_magic(s: Seq<u8>) -> bool {
    s[0] == 0x7f && s[1] == 0x45 && s[2] == 0x4c && s[3] == 0x46
}

/// Reads the 16-bit number at offset `off`.
pub fn read_u16(data: &[u8], off: usize) -> (r: u16)
    requires
        off + 2 <= data@.len(),
    ensures
        r == le_u16(data@, off as int),
{
    let _ = data.len();
    (data[off] as u16) + (data[off + 1] as u16) * 0x100
}

/// Reads the 32-bit number at offset `off`.
pub fn read_u32(data: &[u8], off: usize) -> (r: u32)
    requires
        off + 4 <= data@.len(),
    ensures
        r == le_u32(data@, off as int),
{
    let _ = data.len();
    (read_u16(data, off) as u32) + (read_u16(data, off + 2) as u32) * 0x1_0000
}

/// Reads the 64-bit number at offset `off`.
pub fn read_u64(data: &[u8], off: usize) -> (r: u64)
    requires
        off + 8 <= data@.len(),
    ensures
        r == le_u64(data@, off as int),
{
    let _ = data.len();
    (read_u32(data, off) as u64) + (read_u32(data, off + 4) as u64) * 0x1_0000_0000
}

/// The ELF64 file header.
#[derive(Copy, Clone, Debug)]
pub struct ElfHeader {
    pub magic: [u8; 4],
    pub class: u8,
    pub data: u8,
    pub version: u8,
    pub osabi: u8,
    pub abiversion: u8,
    pub pad: [u8; 7],
    pub typ: u16,
    pub machine: u16,
    pub version2: u32,
    pub entry: u64,
    pub phoff: u64,
    pub shoff: u64,
    pub flags: u32,
    pub ehsize: u16,
    pub phentsize: u16,
    pub phnum: u16,
    pub shentsize: u16,
    pub shnum: u16,
    pub shstrndx: u16,
}

impl ElfHeader {
    /// Reads the file header from the first 64 bytes of an image.
    pub fn read(data: &[u8]) -> (r: Self)
        requires
            data@.len() >= ELF_HEADER_SIZE,
        ensures
            r.magic@ == data@.subrange(0, 4),
            r.class == data@[4],
            r.data == data@[5],
            r.version == data@[6],
            r.osabi == data@[7],
            r.abiversion == data@[8],
            r.pad@ == data@.subrange(9, 16),
            r.typ == le_u16(data@, 16),
            r.machine == le_u16(data@, 18),
            r.version2 == le_u32(data@, 20),
            r.entry == le_u64(data@, 24),
            r.phoff == le_u64(data@, 32),
            r.shoff == le_u64(data@, 40),
            r.flags == le_u32(data@, 48),
            r.ehsize == le_u16(data@, 52),
            r.phentsize == le_u16(data@, 54),
            r.phnum == le_u16(data@, 56),
            r.shentsize == le_u16(data@, 58),
            r.shnum == le_u16(data@, 60),
            r.shstrndx == le_u16(data@, 62),
    {
        let magic = [data[0], data[1], data[2], data[3]];
        let pad = [data[9], data[10], data[11], data[12], data[13], data[14], data[15]];
        proof {
            assert(magic@ =~= data@.subrange(0, 4));
            assert(pad@ =~= data@.subrange(9, 16));
        }
        ElfHeader {
            magic,
            class: data[4],
            data: data[5],
            version: data[6],
            osabi: data[7],
            abiversion: data[8],
            pad,
            typ: read_u16(data, 16),
            machine: read_u16(data, 18),
            version2: read_u32(data, 20),
            entry: read_u64(data, 24),
            phoff: read_u64(data, 32),
            shoff: read_u64(data, 40),
            flags: read_u32(data, 48),
            ehsize: read_u16(data, 52),
            phentsize: read_u16(data, 54),
            phnum: read_u16(data, 56),
            shentsize: read_u16(data, 58),
            shnum: read_u16(data, 60),
            shstrndx: read_u16(data, 62),
        }
    }
}

/// An ELF64 program header.
#[derive(Copy, Clone, Debug)]
pub struct ProgramHeader {
    pub typ: u32,
    pub flags: u32,
    pub offset: u64,
    pub vaddr: u64,
    pub paddr: u64,
    pub filesz: u64,
    pub memsz: u64,
    pub align: u64,
}

impl ProgramHeader {
    /// The program header that the 56 bytes from offset `off` hold.
    pub open spec fn at(s: Seq<u8>, off: int) -> ProgramHeader {
        ProgramHeader {
            typ: le_u32(s, off) as u32,
            flags: le_u32(s, off + 4) as u32,
            offset: le_u64(s, off + 8) as u64,
            vaddr: le_u64(s, off + 16) as u64,
            paddr: le_u64(s, off + 24) as u64,
            filesz: le_u64(s, off + 32) as u64,
            memsz: le_u64(s, off + 40) as u64,
            align: le_u64(s, off + 48) as u64,
        }
    }

    /// Reads the program header at offset `off`.
    pub fn read(data: &[u8], off: usize) -> (r: Self)
        requires
            off + PROGRAM_HEADER_SIZE <= data@.len(),
        ensures
            r == Self::at(data@, off as int),
    {
        let _ = data.len();
        ProgramHeader {
            typ: read_u32(data, off),
            flags: read_u32(data, off + 4),
            offset: read_u64(data, off + 8),
            vaddr: read_u64(data, off + 16),
            paddr: read_u64(data, off + 24),
            filesz: read_u64(data, off + 32),
            memsz: read_u64(data, off + 40),
            align: read_u64(data, off + 48),
        }
    }
}

/// A loadable segment: where it goes, how much memory it takes, the
/// bytes that the image holds for it, and its flags.
#[derive(Debug)]
pub struct Segment {
    pub vaddr: u64,
    pub memsz: u64,
    pub data: Vec<u8>,
    pub flags: u32,
}

/// A loadable segment as a value of specifications.
pub struct SegmentView {
    pub vaddr: u64,
    pub memsz: u64,
    pub data: Seq<u8>,
    pub flags: u32,
}

impl Segment {
    /// The segment as a value of specifications.
    pub open spec fn view(&self) -> SegmentView {
        SegmentView { vaddr: self.vaddr, memsz: self.memsz, data: self.data@, flags: self.flags }
    }

    /// Whether the segment is readable.
    pub fn is_readable(&self) -> (r: bool)
        ensures
            r == (self.flags & PF_R != 0),
    {
        self.flags & PF_R != 0
    }

    /// Whether the segment is writable.
    pub fn is_writable(&self) -> (r: bool)
        ensures
            r == (self.flags & PF_W != 0),
    {
        self.flags & PF_W != 0
    }

    /// Whether the segment is executable.
    pub fn is_executable(&self) -> (r: bool)
        ensures
            r == (self.flags & PF_X != 0),
    {
        self.flags & PF_X != 0
    }
}

/// Why an image was refused.
#[derive(Copy, Clone, Debug, PartialEq, Eq, Structural)]
pub enum ElfError {
    /// The image is shorter than a file header.
    TooShort,
    /// The image does not begin with the magic bytes.
    BadMagic,
    /// The image is not of the 64-bit class.
    NotElf64,
    /// The image is not for RISC-V.
    NotRiscV,
    /// A program header reaches beyond the image.
    HeaderOutOfBounds,
    /// The bytes of a loadable segment reach beyond the image.
    SegmentOutOfBounds,
}

impl ElfError {
    /// The error in words.
    pub open spec fn text(self) -> Seq<char> {
        match self {
            ElfError::TooShort => "ELF data too short"@,
            ElfError::BadMagic => "Invalid ELF magic"@,
            ElfError::NotElf64 => "Not a 64-bit ELF"@,
            ElfError::NotRiscV => "Not a RISC-V ELF"@,
            ElfError::HeaderOutOfBounds => "Program header out of bounds"@,
            ElfError::SegmentOutOfBounds => "Segment data out of bounds"@,
        }
    }

    /// The error in words.
    pub fn message(&self) -> (r: &'static str)
        ensures
            r@ == self.text(),
    {
        match self {
            ElfError::TooShort => "ELF data too short",
            ElfError::BadMagic => "Invalid ELF magic",
            ElfError::NotElf64 => "Not a 64-bit ELF",
            ElfError::NotRiscV => "Not a RISC-V ELF",
            ElfError::HeaderOutOfBounds => "Program header out of bounds",
            ElfError::SegmentOutOfBounds => "Segment data out of bounds",
        }
    }
}

/// The offset of program header `i`.
pub open spec fn header_offset(s: Seq<u8>, i: int) -> int {
    le_u64(s, 32) + i * PROGRAM_HEADER_SIZE
}

/// The loadable segments among the first `n` program headers, or the
/// first fault among them.
pub open spec fn segments_upto(s: Seq<u8>, n: int) -> Result<Seq<SegmentView>, ElfError>
    decreases n,
{
    if n <= 0 {
        Ok(Seq::empty())
    } else {
        match segments_upto(s, n - 1) {
            Err(e) => Err(e),
            Ok(segs) => {
                let off = header_offset(s, n - 1);
                if off + PROGRAM_HEADER_SIZE > s.len() {
                    Err(ElfError::HeaderOutOfBounds)
                } else {
                    let ph = ProgramHeader::at(s, off);
                    if ph.typ != PT_LOAD {
                        Ok(segs)
                    } else if ph.offset + ph.filesz > s.len() {
                        Err(ElfError::SegmentOutOfBounds)
                    } else {
                        Ok(
                            segs.push(
                                SegmentView {
                                    vaddr: ph.vaddr,
                                    memsz: ph.memsz,
                                    data: s.subrange(
                                        ph.offset as int,
                                        ph.offset as int + ph.filesz as int,
                                    ),
                                    flags: ph.flags,
                                },
                            ),
                        )
                    }
                }
            },
        }
    }
}

/// A fault among the first program headers is the fault of the image.
pub proof fn lemma_segments_fault(s: Seq<u8>, k: int, n: int)
    requires
        0 <= k <= n,
        segments_upto(s, k) is Err,
    ensures
        segments_upto(s, n) == segments_upto(s, k),
    decreases n - k,
{
    if k < n {
        lemma_segments_fault(s, k, n - 1);
    }
}

/// What an image holds: its entry point and its loadable segments in the
/// order of their program headers, or why it is refused.
pub open spec fn parse_spec(s: Seq<u8>) -> Result<(u64, Seq<SegmentView>), ElfError> {
    if s.len() < ELF_HEADER_SIZE {
        Err(ElfError::TooShort)
    } else if !has_magic(s) {
        Err(ElfError::BadMagic)
    } else if s[4] != ELF_CLASS_64 {
        Err(ElfError::NotElf64)
    } else if le_u16(s, 18) != EM_RISCV {
        Err(ElfError::NotRiscV)
    } else {
        match segments_upto(s, le_u16(s, 56)) {
            Err(e) => Err(e),
            Ok(segs) => Ok((le_u64(s, 24) as u64, segs)),
        }
    }
}

/// The segments of `v` as values of specifications.
pub open spec fn views(v: Seq<Segment>) -> Seq<SegmentView> {
    Seq::new(v.len(), |i: int| v[i].view())
}

/// Reads an ELF64 image for RISC-V: its entry point and its loadable
/// segments, or the first fault in the order file header, then program
/// headers one by one.
pub fn parse_elf(elf_data: &[u8]) -> (r: Result<(u64, Vec<Segment>), ElfError>)
    ensures
        match r {
            Ok((entry, segments)) => parse_spec(elf_data@) == Ok::<
                (u64, Seq<SegmentView>),
                ElfError,
            >((entry, views(segments@))),
            Err(e) => parse_spec(elf_data@) == Err::<(u64, Seq<SegmentView>), ElfError>(e),
        },
{
    if elf_data.len() < ELF_HEADER_SIZE {
        return Err(ElfError::TooShort);
    }
    let header = ElfHeader::read(elf_data);
    if header.magic[0] != 0x7f || header.magic[1] != 0x45 || header.magic[2] != 0x4c
        || header.magic[3] != 0x46 {
        return Err(ElfError::BadMagic);
    }
    if header.class != ELF_CLASS_64 {
        return Err(ElfError::NotElf64);
    }
    if header.machine != EM_RISCV {
        return Err(ElfError::NotRiscV);
    }
    let len = elf_data.len();
    let mut segments: Vec<Segment> = Vec::new();
    let mut i: u16 = 0;
    proof {
        assert(views(segments@) =~= Seq::empty());
    }
    while i < header.phnum
        invariant
            i <= header.phnum,
            len == elf_data@.len(),
            header.phoff == le_u64(elf_data@, 32),
            header.phnum == le_u16(elf_data@, 56),
            elf_data@.len() >= ELF_HEADER_SIZE,
            has_magic(elf_data@),
            elf_data@[4] == ELF_CLASS_64,
            le_u16(elf_data@, 18) == EM_RISCV,
            segments_upto(elf_data@, i as int) == Ok::<Seq<SegmentView>, ElfError>(
                views(segments@),
            ),
        decreases header.phnum - i,
    {
        let off: u128 = (header.phoff as u128) + (i as u128) * (PROGRAM_HEADER_SIZE as u128);
        if off + (PROGRAM_HEADER_SIZE as u128) > (len as u128) {
            proof {
                lemma_segments_fault(elf_data@, i + 1, header.phnum as int);
            }
            return Err(ElfError::HeaderOutOfBounds);
        }
        let ph = ProgramHeader::read(elf_data, off as usize);
        if ph.typ == PT_LOAD {
            if (ph.offset as u128) + (ph.filesz as u128) > (len as u128) {
                proof {
                    lemma_segments_fault(elf_data@, i + 1, header.phnum as int);
                }
                return Err(ElfError::SegmentOutOfBounds);
            }
            let from = ph.offset as usize;
            let to = from + ph.filesz as usize;
            let data = copy_range(elf_data, from, to);
            let ghost before = views(segments@);
            segments.push(Segment { vaddr: ph.vaddr, memsz: ph.memsz, data, flags: ph.flags });
            proof {
                assert(views(segments@) =~= before.push(segments@.last().view()));
            }
        }
        i += 1;
    }
    Ok((header.entry, segments))
}

/// A copy of the bytes from `from` up to, but without, `to`.
pub fn copy_range(data: &[u8], from: usize, to: usize) -> (r: Vec<u8>)
    requires
        from <= to <= data@.len(),
    ensures
        r@ == data@.subrange(from as int, to as int),
{
    let mut out: Vec<u8> = Vec::new();
    let mut i = from;
    while i < to
        invariant
            from <= i <= to <= data@.len(),
            out@ == data@.subrange(from as int, i as int),
        decreases to - i,
    {
        out.push(data[i]);
        proof {
            assert(out@ =~= data@.subrange(from as int, i + 1));
        }
        i += 1;
    }
    out
}

} // verus!
