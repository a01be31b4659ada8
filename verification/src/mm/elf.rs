//! Program files: what is read from an ELF image, and where its parts go.
//!
//! The headers are read by the `xmas_elf` crate. Which parts are mapped, at
//! which addresses and with which rights is decided here.

use vstd::prelude::*;

use super::address::{pages_to_cover, PAGE_SIZE, VA_LIMIT, VPN_LIMIT};
use super::pte::MapPermission;
use vstd::utf8::valid_utf8;

verus! {

/// The kind of a program that can be mapped anywhere.
pub const ET_DYN: u16 = 3;

/// What a part of a program file is.
#[derive(Clone, Copy, Debug, PartialEq, Eq, Structural)]
pub enum SegmentKind {
    /// A part that is mapped.
    Load,
    /// The name of the interpreter.
    Interp,
    /// The program headers themselves.
    Phdr,
    /// Anything else; it is left alone.
    Other,
}

/// The kind of part that a number stands for.
pub open spec fn kind_of(n: int) -> SegmentKind {
    if n == 1 {
        SegmentKind::Load
    } else if n == 3 {
        SegmentKind::Interp
    } else if n == 6 {
        SegmentKind::Phdr
    } else {
        SegmentKind::Other
    }
}

/// Two bytes, the low one first.
pub open spec fn le16(b: Seq<u8>, at: int) -> int {
    b[at] + b[at + 1] * 0x100
}

/// Four bytes, the low one first.
pub open spec fn le32(b: Seq<u8>, at: int) -> int {
    le16(b, at) + le16(b, at + 2) * 0x1_0000
}

/// Eight bytes, the low one first.
pub open spec fn le64(b: Seq<u8>, at: int) -> int {
    le32(b, at) + le32(b, at + 4) * 0x1_0000_0000
}

/// What is used of the header of a program file.
#[derive(Clone, Copy, Debug, PartialEq, Eq, Structural)]
pub struct ElfHeader {
    /// The fields have 64 bits.
    pub wide: bool,
    /// The kind of file.
    pub kind: u16,
    /// Where the program starts.
    pub entry: u64,
    /// Where the program headers are in the file.
    pub ph_offset: u64,
    /// The bytes of a program header.
    pub ph_entry_size: u16,
    /// The number of program headers.
    pub ph_count: u16,
}

/// What is used of a program header.
#[derive(Clone, Copy, Debug, PartialEq, Eq, Structural)]
pub struct ProgramHeader {
    /// What the part is.
    pub kind: SegmentKind,
    /// It may be read.
    pub read: bool,
    /// It may be written.
    pub write: bool,
    /// It may be run.
    pub execute: bool,
    /// Where it is in the file.
    pub offset: u64,
    /// Where it goes.
    pub virtual_addr: u64,
    /// Its bytes in the file.
    pub file_size: u64,
    /// Its bytes in memory.
    pub mem_size: u64,
    /// Its alignment in memory.
    pub align: u64,
}

/// The bytes start like a program file that is long enough for its header.
pub open spec fn has_header(b: Seq<u8>) -> bool {
    &&& b.len() >= 16
    &&& b[0] == 0x7f && b[1] == 0x45 && b[2] == 0x4c && b[3] == 0x46
    &&& (b[4] == 1 && b.len() >= 52) || (b[4] == 2 && b.len() >= 64)
}

/// The header of a program file.
pub open spec fn header_of(b: Seq<u8>) -> ElfHeader {
    if b[4] == 2 {
        ElfHeader {
            wide: true,
            kind: le16(b, 16) as u16,
            entry: le64(b, 24) as u64,
            ph_offset: le64(b, 32) as u64,
            ph_entry_size: le16(b, 54) as u16,
            ph_count: le16(b, 56) as u16,
        }
    } else {
        ElfHeader {
            wide: false,
            kind: le16(b, 16) as u16,
            entry: le32(b, 24) as u64,
            ph_offset: le32(b, 28) as u64,
            ph_entry_size: le16(b, 42) as u16,
            ph_count: le16(b, 44) as u16,
        }
    }
}

/// Where program header `i` is in the file.
pub open spec fn ph_at(h: ElfHeader, i: int) -> int {
    h.ph_offset + i * h.ph_entry_size
}

/// Program header `i` can be read: it is there, whole, and aligned as its fields are.
pub open spec fn ph_readable(h: ElfHeader, len: int, i: int) -> bool {
    &&& h.ph_offset > 0
    &&& h.ph_entry_size >= if h.wide {
        56int
    } else {
        32int
    }
    &&& ph_at(h, i) + h.ph_entry_size <= len
    &&& ph_at(h, i) % (if h.wide {
        8int
    } else {
        4int
    }) == 0
}

/// The program header at a place in the file.
pub open spec fn ph_of(b: Seq<u8>, wide: bool, at: int) -> ProgramHeader {
    if wide {
        ProgramHeader {
            kind: kind_of(le32(b, at)),
            read: le32(b, at + 4) / 4 % 2 == 1,
            write: le32(b, at + 4) / 2 % 2 == 1,
            execute: le32(b, at + 4) % 2 == 1,
            offset: le64(b, at + 8) as u64,
            virtual_addr: le64(b, at + 16) as u64,
            file_size: le64(b, at + 32) as u64,
            mem_size: le64(b, at + 40) as u64,
            align: le64(b, at + 48) as u64,
        }
    } else {
        ProgramHeader {
            kind: kind_of(le32(b, at)),
            read: le32(b, at + 24) / 4 % 2 == 1,
            write: le32(b, at + 24) / 2 % 2 == 1,
            execute: le32(b, at + 24) % 2 == 1,
            offset: le32(b, at + 4) as u64,
            virtual_addr: le32(b, at + 8) as u64,
            file_size: le32(b, at + 16) as u64,
            mem_size: le32(b, at + 20) as u64,
            align: le32(b, at + 28) as u64,
        }
    }
}

/// Reads the header of a program file.
///
/// This is `xmas_elf::ElfFile::new` with the getters of the second part of the
/// header. It refuses a file that is too short for its header, has another
/// magic number, or is neither of 32 nor of 64 bits. The fields are read in
/// the byte order of the machine, which is taken to be the one of the file,
/// the low byte first. The crate wants the bytes aligned in memory, so they
/// are copied to such a place.
#[verifier::external_body]
fn read_header(data: &Vec<u8>) -> (header: Option<ElfHeader>)
    ensures
        header is Some <==> has_header(data@),
        header matches Some(h) ==> h == header_of(data@),
{
    let mut room = vec![0u8; data.len() + 8];
    let skip = room.as_ptr().align_offset(8);
    let place = &mut room[skip..][..data.len()];
    place.copy_from_slice(data);
    let elf = xmas_elf::ElfFile::new(place).ok()?;
    let pt2 = elf.header.pt2;
    Some(ElfHeader {
        wide: matches!(pt2, xmas_elf::header::HeaderPt2::Header64(_)),
        kind: pt2.type_().0,
        entry: pt2.entry_point(),
        ph_offset: pt2.ph_offset(),
        ph_entry_size: pt2.ph_entry_size(),
        ph_count: pt2.ph_count(),
    })
}

/// The numbers of a program header, but for its kind.
#[derive(Clone, Copy, Debug, PartialEq, Eq, Structural)]
struct ProgramFields {
    flags: u32,
    offset: u64,
    virtual_addr: u64,
    file_size: u64,
    mem_size: u64,
    align: u64,
}

/// The numbers of the program header at a place in the file.
spec fn fields_of(b: Seq<u8>, wide: bool, at: int) -> ProgramFields {
    let ph = ph_of(b, wide, at);
    ProgramFields {
        flags: le32(
            b,
            if wide {
                at + 4
            } else {
                at + 24
            },
        ) as u32,
        offset: ph.offset,
        virtual_addr: ph.virtual_addr,
        file_size: ph.file_size,
        mem_size: ph.mem_size,
        align: ph.align,
    }
}

/// Reads the kind of a program header.
///
/// This is `xmas_elf::program::ProgramHeader::get_type` on a program header
/// that `xmas_elf::ElfFile::program_header` returns, on a file whose header was
/// accepted and whose program header `i` lies in the file, whole and aligned;
/// on others the crate fails. A kind that the crate does not know, and one
/// that nothing here asks for, is another.
#[verifier::external_body]
fn read_program_kind(data: &Vec<u8>, i: u16) -> (kind: Option<SegmentKind>)
    requires
        has_header(data@),
        i < header_of(data@).ph_count,
        ph_readable(header_of(data@), data@.len() as int, i as int),
    ensures
        kind == Some(
            ph_of(data@, header_of(data@).wide, ph_at(header_of(data@), i as int)).kind,
        ),
{
    let mut room = vec![0u8; data.len() + 8];
    let skip = room.as_ptr().align_offset(8);
    let place = &mut room[skip..][..data.len()];
    place.copy_from_slice(data);
    let ph = xmas_elf::ElfFile::new(place).ok()?.program_header(i).ok()?;
    Some(match ph.get_type() {
        Ok(xmas_elf::program::Type::Load) => SegmentKind::Load,
        Ok(xmas_elf::program::Type::Interp) => SegmentKind::Interp,
        Ok(xmas_elf::program::Type::Phdr) => SegmentKind::Phdr,
        _ => SegmentKind::Other,
    })
}

/// Reads the numbers of a program header.
///
/// This is `xmas_elf::ElfFile::program_header` with the getters of a program
/// header, on a file whose header was accepted and whose program header `i`
/// lies in the file, whole and aligned; on others the crate fails. The fields
/// are read as in the header of the file.
#[verifier::external_body]
fn read_program_fields(data: &Vec<u8>, i: u16) -> (fields: Option<ProgramFields>)
    requires
        has_header(data@),
        i < header_of(data@).ph_count,
        ph_readable(header_of(data@), data@.len() as int, i as int),
    ensures
        fields == Some(
            fields_of(data@, header_of(data@).wide, ph_at(header_of(data@), i as int)),
        ),
{
    let mut room = vec![0u8; data.len() + 8];
    let skip = room.as_ptr().align_offset(8);
    let place = &mut room[skip..][..data.len()];
    place.copy_from_slice(data);
    let ph = xmas_elf::ElfFile::new(place).ok()?.program_header(i).ok()?;
    let (flags, offset, virtual_addr) = (ph.flags().0, ph.offset(), ph.virtual_addr());
    let (file_size, mem_size, align) = (ph.file_size(), ph.mem_size(), ph.align());
    Some(ProgramFields { flags, offset, virtual_addr, file_size, mem_size, align })
}

/// Reads a program header.
fn read_program_header(data: &Vec<u8>, i: u16) -> (header: Option<ProgramHeader>)
    requires
        has_header(data@),
        i < header_of(data@).ph_count,
        ph_readable(header_of(data@), data@.len() as int, i as int),
    ensures
        header == Some(
            ph_of(data@, header_of(data@).wide, ph_at(header_of(data@), i as int)),
        ),
{
    match (read_program_kind(data, i), read_program_fields(data, i)) {
        (Some(kind), Some(fields)) => Some(
            ProgramHeader {
                kind,
                read: fields.flags / 4 % 2 == 1,
                write: fields.flags / 2 % 2 == 1,
                execute: fields.flags % 2 == 1,
                offset: fields.offset,
                virtual_addr: fields.virtual_addr,
                file_size: fields.file_size,
                mem_size: fields.mem_size,
                align: fields.align,
            },
        ),
        _ => None,
    }
}

/// Why a program cannot be loaded.
#[derive(Clone, Copy, Debug, PartialEq, Eq, Structural)]
pub enum LoadError {
    /// The file is not a program.
    NotElf,
    /// A program header does not lie in the file, or not as it should.
    BadProgramHeaders,
    /// A part is larger in the file than in memory, or does not lie in the file.
    BadSegment,
    /// The alignment of a part is not a power of two.
    BadAlignment,
    /// The name of the interpreter does not lie in the file.
    BadInterp,
    /// An address does not exist.
    OutOfRange,
    /// Two parts lie on the same page.
    Overlap,
    /// There are no frames.
    OutOfFrames,
}

/// A program file with its headers.
pub struct ElfImage {
    pub header: ElfHeader,
    pub segments: Vec<ProgramHeader>,
    /// The bytes of the file.
    pub len: u64,
}

/// The program headers of a file.
pub open spec fn segments_of(b: Seq<u8>) -> Seq<ProgramHeader> {
    let h = header_of(b);
    Seq::new(h.ph_count as nat, |i: int| ph_of(b, h.wide, ph_at(h, i)))
}

/// The file is a program whose headers can be read.
pub open spec fn is_program(b: Seq<u8>) -> bool {
    &&& has_header(b)
    &&& forall|i: int|
        0 <= i < header_of(b).ph_count ==> #[trigger] ph_readable(
            header_of(b),
            b.len() as int,
            i,
        )
}

/// Reads the headers of a program file.
pub fn parse_elf(data: &Vec<u8>) -> (image: Result<ElfImage, LoadError>)
    ensures
        match image {
            Ok(image) => {
                &&& is_program(data@)
                &&& image.header == header_of(data@)
                &&& image.segments@ == segments_of(data@)
                &&& image.len == data@.len()
            },
            Err(LoadError::NotElf) => !has_header(data@),
            Err(LoadError::BadProgramHeaders) => has_header(data@) && !is_program(data@),
            Err(_) => false,
        },
{
    let header = match read_header(data) {
        None => {
            return Err(LoadError::NotElf);
        },
        Some(header) => header,
    };
    let mut segments: Vec<ProgramHeader> = Vec::new();
    let mut i: u16 = 0;
    let least: u16 = if header.wide {
        56
    } else {
        32
    };
    let unit: u64 = if header.wide {
        8
    } else {
        4
    };
    while i < header.ph_count
        invariant
            i <= header.ph_count,
            has_header(data@),
            header == header_of(data@),
            least == if header.wide {
                56u16
            } else {
                32u16
            },
            unit == if header.wide {
                8u64
            } else {
                4u64
            },
            segments@ == segments_of(data@).take(i as int),
            forall|k: int|
                0 <= k < i ==> #[trigger] ph_readable(header, data@.len() as int, k),
        decreases header.ph_count - i,
    {
        assert(0 <= i * header.ph_entry_size <= 0xffff * 0xffff) by (nonlinear_arith)
            requires
                0 <= i <= 0xffff,
                0 <= header.ph_entry_size <= 0xffff,
        ;
        let step: u64 = i as u64 * header.ph_entry_size as u64;
        let len: u64 = data.len() as u64;
        let size: u64 = header.ph_entry_size as u64;
        let whole: bool = header.ph_offset > 0 && header.ph_entry_size >= least && header.ph_offset
            <= len && step <= len - header.ph_offset && size <= len - header.ph_offset - step;
        if !whole || (header.ph_offset + step) % unit != 0 {
            assert(!ph_readable(header, data@.len() as int, i as int));
            return Err(LoadError::BadProgramHeaders);
        }
        assert(ph_readable(header, data@.len() as int, i as int));
        match read_program_header(data, i) {
            None => {
                return Err(LoadError::BadProgramHeaders);
            },
            Some(ph) => {
                segments.push(ph);
                assert(segments@ =~= segments_of(data@).take(i + 1));
            },
        }
        i = i + 1;
    }
    assert(segments@ =~= segments_of(data@));
    Ok(ElfImage { header, segments, len: data.len() as u64 })
}

/// The program headers of the file of an interpreter: none where the file does not tell where
/// they are, or how long one is.
pub open spec fn interp_segments(b: Seq<u8>) -> Seq<ProgramHeader> {
    if header_of(b).ph_offset == 0 || header_of(b).ph_entry_size == 0 {
        Seq::empty()
    } else {
        segments_of(b)
    }
}

/// The file is an interpreter whose headers can be read.
pub open spec fn is_interp(b: Seq<u8>) -> bool {
    has_header(b) && (header_of(b).ph_offset == 0 || header_of(b).ph_entry_size == 0 || is_program(
        b,
    ))
}

/// Reads the headers of the file of an interpreter.
pub fn parse_interp(data: &Vec<u8>) -> (image: Result<ElfImage, LoadError>)
    ensures
        match image {
            Ok(image) => {
                &&& is_interp(data@)
                &&& image.header == header_of(data@)
                &&& image.segments@ == interp_segments(data@)
                &&& image.len == data@.len()
            },
            Err(LoadError::NotElf) => !has_header(data@),
            Err(LoadError::BadProgramHeaders) => has_header(data@) && !is_interp(data@),
            Err(_) => false,
        },
{
    match read_header(data) {
        None => Err(LoadError::NotElf),
        Some(header) => if header.ph_offset == 0 || header.ph_entry_size == 0 {
            let len: usize = data.len();
            Ok(ElfImage { header, segments: Vec::new(), len: len as u64 })
        } else {
            parse_elf(data)
        },
    }
}

/// The alignment asked for is none or a power of two.
pub open spec fn good_align(raw: u64) -> bool {
    raw == 0 || raw & ((raw - 1) as u64) == 0
}

/// The alignment of a part in memory: at least a page.
pub open spec fn align_of(raw: u64) -> u64 {
    if raw <= 4096 {
        4096
    } else {
        raw
    }
}

/// Returns the alignment of a part in memory; none where it is not a power of two.
pub fn load_align(raw_align: u64) -> (align: Option<u64>)
    ensures
        align == if good_align(raw_align) {
            Some(align_of(raw_align))
        } else {
            None
        },
{
    if raw_align == 0 {
        return Some(PAGE_SIZE);
    }
    if raw_align & (raw_align - 1) != 0 {
        return None;
    }
    if raw_align <= PAGE_SIZE {
        Some(PAGE_SIZE)
    } else {
        Some(raw_align)
    }
}

/// The next multiple of `align` from `value` on.
pub open spec fn aligned(value: int, align: int) -> int {
    (value + align - 1) / align * align
}

/// Rounds up to a multiple; none where that is too large.
pub fn align_up(value: u64, align: u64) -> (up: Option<u64>)
    requires
        align > 0,
    ensures
        up == if value + align - 1 > u64::MAX {
            None
        } else {
            Some(aligned(value as int, align as int) as u64)
        },
        up matches Some(n) ==> n == aligned(value as int, align as int) && value <= n < value
            + align && n as int % align as int == 0,
{
    if align - 1 > u64::MAX - value {
        return None;
    }
    let sum: u64 = value + (align - 1);
    assert(sum as int / align as int * align as int <= sum && sum < sum as int / align as int
        * align as int + align && (sum as int / align as int * align as int) % align as int == 0)
        by (nonlinear_arith)
        requires
            align > 0,
    ;
    Some(sum / align * align)
}

/// The strictest alignment of the parts that are mapped.
pub open spec fn strictest(s: Seq<ProgramHeader>) -> u64
    decreases s.len(),
{
    if s.len() == 0 {
        4096
    } else {
        let rest = strictest(s.drop_last());
        if s.last().kind == SegmentKind::Load && align_of(s.last().align) > rest {
            align_of(s.last().align)
        } else {
            rest
        }
    }
}

/// Every part that is mapped has an alignment.
pub open spec fn all_aligned(s: Seq<ProgramHeader>) -> bool {
    forall|i: int|
        0 <= i < s.len() && (#[trigger] s[i]).kind == SegmentKind::Load ==> good_align(s[i].align)
}

/// Returns the strictest alignment of the parts that are mapped; none where one has none.
pub fn image_align(segments: &Vec<ProgramHeader>) -> (align: Option<u64>)
    ensures
        align == if all_aligned(segments@) {
            Some(strictest(segments@))
        } else {
            None
        },
        align matches Some(a) ==> a >= 4096,
{
    let mut most: u64 = PAGE_SIZE;
    let mut i: usize = 0;
    assert(segments@.take(0) =~= Seq::<ProgramHeader>::empty());
    while i < segments.len()
        invariant
            i <= segments@.len(),
            most >= 4096,
            most == strictest(segments@.take(i as int)),
            forall|k: int|
                0 <= k < i && (#[trigger] segments@[k]).kind == SegmentKind::Load ==> good_align(
                    segments@[k].align,
                ),
        decreases segments@.len() - i,
    {
        assert(segments@.take(i + 1).drop_last() =~= segments@.take(i as int));
        if segments[i].kind == SegmentKind::Load {
            match load_align(segments[i].align) {
                None => {
                    assert(!good_align(segments@[i as int].align));
                    return None;
                },
                Some(align) => {
                    if align > most {
                        most = align;
                    }
                },
            }
        }
        i = i + 1;
    }
    assert(segments@.take(segments@.len() as int) =~= segments@);
    Some(most)
}

/// A part of a program with its place in memory.
#[derive(Clone, Copy, Debug, PartialEq, Eq, Structural)]
pub struct LoadSegment {
    /// The address of its first byte.
    pub start: u64,
    /// The address behind its last byte.
    pub end: u64,
    /// What the user may do with it.
    pub perm: MapPermission,
    /// Where its bytes are in the file.
    pub offset: u64,
    /// Its bytes in the file; the rest is zero.
    pub file_size: u64,
}

impl LoadSegment {
    /// The pages of the part lie among addresses that exist, and its bytes in the file fit in.
    pub open spec fn wf(self) -> bool {
        &&& self.start < VA_LIMIT
        &&& self.end < VA_LIMIT
        &&& self.start / 4096 <= pages_to_cover(self.end as int)
        &&& self.start + self.file_size <= pages_to_cover(self.end as int) * 4096
        &&& self.offset + self.file_size <= u64::MAX
    }
}

/// Where a part goes. Of where it starts and ends only the bits count that an address has.
pub open spec fn placed(ph: ProgramHeader, bias: int) -> LoadSegment {
    LoadSegment {
        start: ((ph.virtual_addr + bias) % (VA_LIMIT as int)) as u64,
        end: ((ph.virtual_addr + bias + ph.mem_size) % (VA_LIMIT as int)) as u64,
        perm: MapPermission { r: ph.read, w: ph.write, x: ph.execute, u: true },
        offset: ph.offset,
        file_size: ph.file_size,
    }
}

/// The parts that stay where something comes to start at a page: all but those without pages
/// that start there, too.
pub open spec fn shown_beside(page: int) -> spec_fn(LoadSegment) -> bool {
    |part: LoadSegment|
        part.start / 4096 != page || part.start / 4096 < pages_to_cover(part.end as int)
}

/// Where the parts that are mapped go, in the order of their headers. A part without pages goes
/// where a later one starts at the same page.
pub open spec fn placed_all(s: Seq<ProgramHeader>, bias: int) -> Seq<LoadSegment>
    decreases s.len(),
{
    if s.len() == 0 {
        Seq::empty()
    } else {
        let front = placed_all(s.drop_last(), bias);
        if s.last().kind == SegmentKind::Load {
            let part = placed(s.last(), bias);
            front.filter(shown_beside((part.start / 4096) as int)).push(part)
        } else {
            front
        }
    }
}

/// The page behind the last of the parts that are mapped.
pub open spec fn end_of(s: Seq<LoadSegment>) -> int
    decreases s.len(),
{
    if s.len() == 0 {
        0
    } else {
        let rest = end_of(s.drop_last());
        if pages_to_cover(s.last().end as int) > rest {
            pages_to_cover(s.last().end as int)
        } else {
            rest
        }
    }
}

/// The address of the program headers in memory, zero where they are not mapped.
///
/// A part that is mapped and holds them tells it; else the first part that
/// names it does.
pub open spec fn phdr_of(s: Seq<ProgramHeader>, ph_offset: int, bias: int) -> int
    decreases s.len(),
{
    if s.len() == 0 {
        0
    } else {
        let rest = phdr_of(s.drop_last(), ph_offset, bias);
        let ph = s.last();
        if ph.kind == SegmentKind::Load && ph.offset <= ph_offset < ph.offset + ph.file_size {
            ph.virtual_addr + (ph_offset - ph.offset) + bias
        } else if ph.kind == SegmentKind::Phdr && rest == 0 {
            ph.virtual_addr + bias
        } else {
            rest
        }
    }
}

/// The place of the interpreter's name in the file: the last that is named.
pub open spec fn interp_of(s: Seq<ProgramHeader>) -> Option<(u64, u64)>
    decreases s.len(),
{
    if s.len() == 0 {
        None
    } else if s.last().kind == SegmentKind::Interp {
        Some((s.last().offset, s.last().file_size))
    } else {
        interp_of(s.drop_last())
    }
}

/// What is wrong with part `i`, if anything is.
///
/// Of an interpreter only the parts that are mapped count.
pub open spec fn problem_of(
    s: Seq<ProgramHeader>,
    i: int,
    ph_offset: int,
    len: int,
    bias: int,
    main: bool,
) -> Option<LoadError> {
    let ph = s[i];
    match ph.kind {
        SegmentKind::Load => if ph.file_size > ph.mem_size || ph.offset + ph.file_size > len {
            Some(LoadError::BadSegment)
        } else if ph.virtual_addr + bias + ph.mem_size > u64::MAX || !placed(ph, bias).wf() {
            Some(LoadError::OutOfRange)
        } else {
            None
        },
        SegmentKind::Interp => if main && ph.offset + ph.file_size > len {
            Some(LoadError::BadInterp)
        } else {
            None
        },
        SegmentKind::Phdr => if main && phdr_of(s.take(i), ph_offset, bias) == 0
            && ph.virtual_addr + bias > u64::MAX {
            Some(LoadError::OutOfRange)
        } else {
            None
        },
        SegmentKind::Other => None,
    }
}

/// The first thing that is wrong with the parts from `i` on, if anything is.
pub open spec fn first_problem(
    s: Seq<ProgramHeader>,
    i: int,
    ph_offset: int,
    len: int,
    bias: int,
    main: bool,
) -> Option<LoadError>
    decreases s.len() - i,
{
    if i >= s.len() {
        None
    } else if problem_of(s, i, ph_offset, len, bias, main) is Some {
        problem_of(s, i, ph_offset, len, bias, main)
    } else {
        first_problem(s, i + 1, ph_offset, len, bias, main)
    }
}

/// How a program is mapped.
pub struct LoadPlan {
    /// What is added to the addresses in the file.
    pub bias: u64,
    /// The address of the first instruction.
    pub entry: u64,
    /// The parts to map.
    pub segments: Vec<LoadSegment>,
    /// The page behind the last part.
    pub end_page: u64,
    /// The address of the program headers, or zero.
    pub phdr_addr: u64,
    /// The number of program headers.
    pub ph_count: u16,
    /// The bytes of a program header.
    pub ph_entry_size: u16,
    /// Where the interpreter's name is in the file, and its length.
    pub interp: Option<(u64, u64)>,
}

impl LoadPlan {
    /// The parts lie among user addresses and before the end that the plan tells.
    pub open spec fn wf(&self) -> bool {
        &&& forall|i: int|
            0 <= i < self.segments@.len() ==> (#[trigger] self.segments@[i]).wf()
        &&& end_of(self.segments@) <= self.end_page <= VPN_LIMIT
    }
}

/// What a plan says.
pub struct Plan {
    pub bias: int,
    pub entry: int,
    pub segments: Seq<LoadSegment>,
    pub end_page: int,
    pub phdr_addr: int,
    pub ph_count: u16,
    pub ph_entry_size: u16,
    pub interp: Option<(u64, u64)>,
}

impl View for LoadPlan {
    type V = Plan;

    open spec fn view(&self) -> Plan {
        Plan {
            bias: self.bias as int,
            entry: self.entry as int,
            segments: self.segments@,
            end_page: self.end_page as int,
            phdr_addr: self.phdr_addr as int,
            ph_count: self.ph_count,
            ph_entry_size: self.ph_entry_size,
            interp: self.interp,
        }
    }
}

/// How a program with these headers is mapped with a bias, itself or as an interpreter. The
/// page behind the last part is not for a part without pages.
pub open spec fn plan_of(h: ElfHeader, s: Seq<ProgramHeader>, bias: int, main: bool) -> Plan {
    Plan {
        bias,
        entry: h.entry + bias,
        segments: placed_all(s, bias).filter(shown_beside(end_of(placed_all(s, bias)))),
        end_page: end_of(placed_all(s, bias)),
        phdr_addr: if main {
            phdr_of(s, h.ph_offset as int, bias)
        } else {
            0
        },
        ph_count: h.ph_count,
        ph_entry_size: h.ph_entry_size,
        interp: if main {
            interp_of(s)
        } else {
            None
        },
    }
}

/// How a program with these headers is mapped with a bias, or the first thing that is wrong.
pub open spec fn placing(
    h: ElfHeader,
    s: Seq<ProgramHeader>,
    len: int,
    bias: int,
    main: bool,
) -> Result<Plan, LoadError> {
    if h.entry + bias > u64::MAX {
        Err(LoadError::OutOfRange)
    } else {
        match first_problem(s, 0, h.ph_offset as int, len, bias, main) {
            Some(e) => Err(e),
            None => Ok(plan_of(h, s, bias, main)),
        }
    }
}

/// How a program with these headers is mapped, where the bias exists, or what is wrong.
pub open spec fn planning(
    h: ElfHeader,
    s: Seq<ProgramHeader>,
    len: int,
    bias: Option<int>,
    main: bool,
) -> Result<Plan, LoadError> {
    if !all_aligned(s) {
        Err(LoadError::BadAlignment)
    } else {
        match bias {
            None => Err(LoadError::OutOfRange),
            Some(bias) => placing(h, s, len, bias, main),
        }
    }
}

/// The outcome is the one that is specified.
pub open spec fn plans(outcome: Result<LoadPlan, LoadError>, wanted: Result<Plan, LoadError>) -> bool {
    match outcome {
        Ok(plan) => plan.wf() && wanted == Ok::<Plan, LoadError>(plan@),
        Err(e) => wanted == Err::<Plan, LoadError>(e),
    }
}

/// Parts that go are without pages, and the end of the others is not behind that of all.
pub proof fn lemma_shown(s: Seq<LoadSegment>, page: int)
    ensures
        end_of(s.filter(shown_beside(page))) <= end_of(s),
        end_of(s) <= end_of(s.filter(shown_beside(page))) || end_of(s) <= page,
        forall|i: int|
            0 <= i < s.filter(shown_beside(page)).len() ==> s.contains(
                #[trigger] s.filter(shown_beside(page))[i],
            ),
    decreases s.len(),
{
    reveal(Seq::filter);
    let kept = s.filter(shown_beside(page));
    if s.len() > 0 {
        let front = s.drop_last();
        lemma_shown(front, page);
        assert(s[s.len() - 1] == s.last());
        let before = front.filter(shown_beside(page));
        assert forall|i: int| 0 <= i < kept.len() implies s.contains(#[trigger] kept[i]) by {
            if i < before.len() {
                assert(front.contains(before[i]));
                let k = choose|k: int| 0 <= k < front.len() && front[k] == before[i];
                assert(s[k] == kept[i]);
            }
        }
        if shown_beside(page)(s.last()) {
            assert(kept.drop_last() =~= before);
        }
    }
}

/// The parts end among the pages that exist.
pub proof fn lemma_end_exists(s: Seq<LoadSegment>)
    requires
        forall|i: int| 0 <= i < s.len() ==> (#[trigger] s[i]).wf(),
    ensures
        0 <= end_of(s) <= VPN_LIMIT,
    decreases s.len(),
{
    if s.len() > 0 {
        assert(s[s.len() - 1].wf());
        assert forall|i: int| 0 <= i < s.drop_last().len() implies (#[trigger] s.drop_last()[i]).wf() by {
            assert(s[i].wf());
        }
        lemma_end_exists(s.drop_last());
    }
}

/// Takes those parts away that have no pages and start at a page.
fn keep_shown(segments: &Vec<LoadSegment>, page: u64) -> (kept: Vec<LoadSegment>)
    requires
        forall|i: int| 0 <= i < segments@.len() ==> (#[trigger] segments@[i]).wf(),
    ensures
        kept@ == segments@.filter(shown_beside(page as int)),
{
    let ghost s = segments@;
    let mut kept: Vec<LoadSegment> = Vec::new();
    let mut i: usize = 0;
    assert(s.take(0).filter(shown_beside(page as int)) =~= Seq::<LoadSegment>::empty()) by {
        reveal(Seq::filter);
    }
    while i < segments.len()
        invariant
            i <= s.len(),
            s == segments@,
            forall|k: int| 0 <= k < s.len() ==> (#[trigger] s[k]).wf(),
            kept@ == s.take(i as int).filter(shown_beside(page as int)),
        decreases s.len() - i,
    {
        let part = segments[i];
        assert(s[i as int].wf());
        assert(s.take(i + 1).drop_last() =~= s.take(i as int));
        proof {
            reveal(Seq::filter);
        }
        if part.start / PAGE_SIZE != page || part.start / PAGE_SIZE < (part.end + (PAGE_SIZE - 1))
            / PAGE_SIZE {
            kept.push(part);
        }
        i = i + 1;
    }
    assert(s.take(s.len() as int) =~= s);
    kept
}

/// Plans how a program is mapped with a bias, itself or as an interpreter.
pub fn plan_at(image: &ElfImage, bias: u64, main: bool) -> (plan: Result<LoadPlan, LoadError>)
    ensures
        plans(plan, placing(image.header, image.segments@, image.len as int, bias as int, main)),
{
    if image.header.entry > u64::MAX - bias {
        return Err(LoadError::OutOfRange);
    }
    let ghost s = image.segments@;
    let ghost b = bias as int;
    let mut segments: Vec<LoadSegment> = Vec::new();
    let mut end_page: u64 = 0;
    let mut phdr_addr: u64 = 0;
    let mut interp: Option<(u64, u64)> = None;
    let mut i: usize = 0;
    let ghost at = image.header.ph_offset as int;
    let ghost whole = first_problem(s, 0, at, image.len as int, b, main);
    assert(s.take(0) =~= Seq::<ProgramHeader>::empty());
    while i < image.segments.len()
        invariant
            i <= s.len(),
            s == image.segments@,
            b == bias,
            image.header.entry + bias <= u64::MAX,
            at == image.header.ph_offset,
            whole == first_problem(s, 0, at, image.len as int, b, main),
            whole == first_problem(s, i as int, at, image.len as int, b, main),
            segments@ == placed_all(s.take(i as int), b),
            end_page == end_of(segments@),
            main ==> phdr_addr == phdr_of(s.take(i as int), at, b),
            main ==> interp == interp_of(s.take(i as int)),
            !main ==> phdr_addr == 0 && interp is None,
            forall|k: int|
                0 <= k < segments@.len() ==> (#[trigger] segments@[k]).wf(),
        decreases s.len() - i,
    {
        assert(s.take(i + 1).drop_last() =~= s.take(i as int));
        let ph = image.segments[i];
        match ph.kind {
            SegmentKind::Load => {
                if ph.file_size > ph.mem_size || ph.offset > image.len || ph.file_size > image.len
                    - ph.offset {
                    return Err(LoadError::BadSegment);
                }
                if ph.virtual_addr > u64::MAX - bias || ph.mem_size > u64::MAX - bias
                    - ph.virtual_addr {
                    return Err(LoadError::OutOfRange);
                }
                let start: u64 = (ph.virtual_addr + bias) % VA_LIMIT;
                let end: u64 = (ph.virtual_addr + bias + ph.mem_size) % VA_LIMIT;
                let last: u64 = (end + (PAGE_SIZE - 1)) / PAGE_SIZE;
                if start / PAGE_SIZE > last || start > last * PAGE_SIZE || ph.file_size > last
                    * PAGE_SIZE - start {
                    return Err(LoadError::OutOfRange);
                }
                let segment = LoadSegment {
                    start,
                    end,
                    perm: MapPermission { r: ph.read, w: ph.write, x: ph.execute, u: true },
                    offset: ph.offset,
                    file_size: ph.file_size,
                };
                assert(segment == placed(ph, b));
                proof {
                    lemma_shown(segments@, (start / 4096) as int);
                }
                let ghost all = segments@;
                segments = keep_shown(&segments, start / PAGE_SIZE);
                let ghost had = segments@;
                assert forall|k: int| 0 <= k < had.len() implies (#[trigger] had[k]).wf() by {
                    assert(all.contains(had[k]));
                }
                segments.push(segment);
                assert(segments@.drop_last() =~= had);
                if last > end_page {
                    end_page = last;
                }
                if main && ph.offset <= image.header.ph_offset && image.header.ph_offset - ph.offset
                    < ph.file_size {
                    phdr_addr = ph.virtual_addr + (image.header.ph_offset - ph.offset) + bias;
                }
            },
            SegmentKind::Interp => if main {
                if ph.offset > image.len || ph.file_size > image.len - ph.offset {
                    return Err(LoadError::BadInterp);
                }
                interp = Some((ph.offset, ph.file_size));
            },
            SegmentKind::Phdr => if main && phdr_addr == 0 {
                if ph.virtual_addr > u64::MAX - bias {
                    return Err(LoadError::OutOfRange);
                }
                phdr_addr = ph.virtual_addr + bias;
            },
            SegmentKind::Other => {},
        }
        i = i + 1;
    }
    assert(s.take(s.len() as int) =~= s);
    let shown = keep_shown(&segments, end_page);
    proof {
        lemma_shown(segments@, end_page as int);
        lemma_end_exists(segments@);
        assert forall|k: int| 0 <= k < shown@.len() implies (#[trigger] shown@[k]).wf() by {
            assert(segments@.contains(shown@[k]));
        }
    }
    Ok(
        LoadPlan {
            bias,
            entry: image.header.entry + bias,
            segments: shown,
            end_page,
            phdr_addr,
            ph_count: image.header.ph_count,
            ph_entry_size: image.header.ph_entry_size,
            interp,
        },
    )
}

/// Where programs and their stacks go.
#[derive(Clone, Copy, Debug, PartialEq, Eq, Structural)]
pub struct ImageLayout {
    /// Where a program goes that can go anywhere.
    pub app_base: u64,
    /// What is added to the addresses of a program that has a fixed place.
    pub app_offset: u64,
    /// The bytes of the stack, in whole pages.
    pub stack_size: u64,
}

/// The bias of the program itself; none where it does not exist.
pub open spec fn main_bias(h: ElfHeader, s: Seq<ProgramHeader>, layout: ImageLayout) -> Option<int> {
    if h.kind != ET_DYN {
        Some(layout.app_offset as int)
    } else if layout.app_base + strictest(s) - 1 > u64::MAX {
        None
    } else {
        Some(aligned(layout.app_base as int, strictest(s) as int))
    }
}

/// How the program in a file is mapped, or what is wrong with it.
pub open spec fn main_plan(b: Seq<u8>, layout: ImageLayout) -> Result<Plan, LoadError> {
    let h = header_of(b);
    let s = segments_of(b);
    if !has_header(b) {
        Err(LoadError::NotElf)
    } else if !is_program(b) {
        Err(LoadError::BadProgramHeaders)
    } else {
        planning(h, s, b.len() as int, main_bias(h, s, layout), true)
    }
}

/// Plans how the program itself is mapped.
pub fn plan_main(image: &ElfImage, layout: ImageLayout) -> (plan: Result<LoadPlan, LoadError>)
    ensures
        plans(
            plan,
            planning(
                image.header,
                image.segments@,
                image.len as int,
                main_bias(image.header, image.segments@, layout),
                true,
            ),
        ),
{
    let align: u64 = match image_align(&image.segments) {
        None => {
            return Err(LoadError::BadAlignment);
        },
        Some(align) => align,
    };
    let bias: u64 = if image.header.kind == ET_DYN {
        match align_up(layout.app_base, align) {
            None => {
                return Err(LoadError::OutOfRange);
            },
            Some(bias) => bias,
        }
    } else {
        layout.app_offset
    };
    plan_at(image, bias, true)
}

/// The pages between parts that nobody may touch.
pub const GUARD_PAGES: u64 = 10;

/// The bias of the interpreter of a program that ends at a page; none where it does not exist.
pub open spec fn interp_bias(s: Seq<ProgramHeader>, main_end: int) -> Option<int> {
    let base = (main_end + GUARD_PAGES) * 4096;
    if base + strictest(s) - 1 > u64::MAX {
        None
    } else {
        Some(aligned(base, strictest(s) as int))
    }
}

/// How the interpreter in a file is mapped behind a program, or what is wrong with it.
pub open spec fn interp_plan(b: Seq<u8>, main_end: int) -> Result<Plan, LoadError> {
    let h = header_of(b);
    let s = interp_segments(b);
    if !has_header(b) {
        Err(LoadError::NotElf)
    } else if !is_interp(b) {
        Err(LoadError::BadProgramHeaders)
    } else {
        planning(h, s, b.len() as int, interp_bias(s, main_end), false)
    }
}

/// Plans how the interpreter of a program is mapped behind the program.
pub fn plan_interp(image: &ElfImage, main_end: u64) -> (plan: Result<LoadPlan, LoadError>)
    requires
        main_end <= 0x800_0000,
    ensures
        plans(
            plan,
            planning(
                image.header,
                image.segments@,
                image.len as int,
                interp_bias(image.segments@, main_end as int),
                false,
            ),
        ),
{
    let align: u64 = match image_align(&image.segments) {
        None => {
            return Err(LoadError::BadAlignment);
        },
        Some(align) => align,
    };
    match align_up((main_end + GUARD_PAGES) * PAGE_SIZE, align) {
        None => Err(LoadError::OutOfRange),
        Some(bias) => plan_at(image, bias, false),
    }
}

/// Tells whether bytes are text, as `core::str::from_utf8` does, which accepts exactly the
/// bytes that encode characters.
#[verifier::external_body]
pub(crate) fn is_utf8(bytes: &Vec<u8>) -> (yes: bool)
    ensures
        yes == valid_utf8(bytes@),
{
    core::str::from_utf8(bytes.as_slice()).is_ok()
}

/// The bytes without the zeros at their end.
pub open spec fn without_zeros(name: Seq<u8>) -> Seq<u8>
    decreases name.len(),
{
    if name.len() > 0 && name.last() == 0 {
        without_zeros(name.drop_last())
    } else {
        name
    }
}

/// Returns the name of the interpreter without the zeros at its end; one that is no text
/// counts as empty.
pub fn interp_path(data: &Vec<u8>, at: (u64, u64)) -> (path: Vec<u8>)
    requires
        at.0 + at.1 <= data@.len(),
    ensures
        ({
            let name = data@.subrange(at.0 as int, at.0 + at.1);
            path@ == if valid_utf8(name) {
                without_zeros(name)
            } else {
                Seq::empty()
            }
        }),
{
    let len: usize = data.len();
    assert(at.0 + at.1 <= len);
    let start: usize = at.0 as usize;
    let end: usize = start + at.1 as usize;
    let ghost name = data@.subrange(at.0 as int, at.0 + at.1);
    let mut path: Vec<u8> = Vec::new();
    let mut i: usize = start;
    while i < end
        invariant
            start <= i <= end <= data@.len(),
            path@ == data@.subrange(start as int, i as int),
        decreases end - i,
    {
        path.push(data[i]);
        assert(path@ =~= data@.subrange(start as int, i + 1));
        i = i + 1;
    }
    if !is_utf8(&path) {
        return Vec::new();
    }
    while path.len() > 0 && path[path.len() - 1] == 0
        invariant
            without_zeros(path@) == without_zeros(name),
        decreases path@.len(),
    {
        let ghost had = path@;
        path.pop();
        assert(path@ =~= had.drop_last());
    }
    path
}

/// Every part of a program that can go anywhere lies at its address in the
/// file and the same multiple of its alignment further on.
pub proof fn law_bias_keeps_alignment(
    h: ElfHeader,
    s: Seq<ProgramHeader>,
    layout: ImageLayout,
)
    requires
        h.kind == ET_DYN,
        main_bias(h, s, layout) is Some,
    ensures
        main_bias(h, s, layout)->Some_0 % (strictest(s) as int) == 0,
        main_bias(h, s, layout)->Some_0 >= layout.app_base,
{
    let a = strictest(s) as int;
    lemma_strictest(s);
    let v = layout.app_base + a - 1;
    assert((v / a * a) % a == 0 && v < v / a * a + a) by (nonlinear_arith)
        requires
            a > 0,
    ;
}

proof fn lemma_strictest(s: Seq<ProgramHeader>)
    ensures
        strictest(s) >= 4096,
    decreases s.len(),
{
    if s.len() > 0 {
        lemma_strictest(s.drop_last());
    }
}

} // verus!
