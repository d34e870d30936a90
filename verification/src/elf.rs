//! Turns a symbol name into the file offset a uprobe needs.

use vstd::prelude::*;
use vstd::slice::slice_subrange;
use vstd::utf8::{decode_utf8, valid_utf8};
use crate::bytes::{self, i32_at, u16_at, u32_at, u64_at};
use crate::fault::{self, tell, ElfPart, Fault, Kind, Outcome};
use crate::lists::{self, insert};
use crate::text::{self, bytes_hex, same};

verus! {

pub const PT_LOAD: u32 = 1;
pub const PT_NOTE: u32 = 4;
pub const PT_GNU_EH_FRAME: u32 = 0x6474_E550;
pub const SHN_UNDEF: u16 = 0;
pub const STT_GNU_IFUNC: u8 = 10;
pub const PN_XNUM: u16 = 0xFFFF;
pub const SHT_NOBITS: u32 = 8;
pub const SHF_COMPRESSED: u64 = 0x800;

pub const ELFCLASS64: u8 = 2;
pub const ELFDATA2LSB: u8 = 1;

/// A part of a file and the addresses that it is loaded at.
#[derive(Debug, Clone, Copy, PartialEq, Eq, Structural)]
pub struct Segment {
    pub offset: u64,
    pub vaddr: u64,
    pub filesz: u64,
}

/// Where `at` goes when `size` numbers from `from` on are laid from `to` on.
pub open spec fn moved(from: u64, size: u64, to: u64, at: u64) -> Option<u64> {
    if from + size <= u64::MAX && from <= at && at < from + size && to + (at - from) <= u64::MAX {
        Some((to + (at - from)) as u64)
    } else {
        None
    }
}

fn shift(from: u64, size: u64, to: u64, at: u64) -> (r: Option<u64>)
    ensures
        r == moved(from, size, to, at),
{
    let end: u64 = match from.checked_add(size) {
        Some(end) => end,
        None => return None,
    };
    if from <= at && at < end {
        to.checked_add(at - from)
    } else {
        None
    }
}

/// The file offset of an address inside one segment.
pub open spec fn segment_offset(seg: Segment, vaddr: u64) -> Option<u64> {
    moved(seg.vaddr, seg.filesz, seg.offset, vaddr)
}

/// The address of a file offset inside one segment.
pub open spec fn segment_vaddr(seg: Segment, offset: u64) -> Option<u64> {
    moved(seg.offset, seg.filesz, seg.vaddr, offset)
}

/// The file offset of an address, from the first segment that has one.
pub open spec fn offset_of(segments: Seq<Segment>, vaddr: u64) -> Option<u64>
    decreases segments.len(),
{
    if segments.len() == 0 {
        None
    } else {
        match segment_offset(segments[0], vaddr) {
            Some(offset) => Some(offset),
            None => offset_of(segments.skip(1), vaddr),
        }
    }
}

/// The address of a file offset, from the first segment that has one.
pub open spec fn vaddr_of(segments: Seq<Segment>, offset: u64) -> Option<u64>
    decreases segments.len(),
{
    if segments.len() == 0 {
        None
    } else {
        match segment_vaddr(segments[0], offset) {
            Some(vaddr) => Some(vaddr),
            None => vaddr_of(segments.skip(1), offset),
        }
    }
}

/// A symbol's value is a virtual address in the object's own address space.
/// uprobes want a file offset, so it has to be walked back through whichever
/// `PT_LOAD` segment maps it.
pub fn vaddr_to_file_offset(segments: &[Segment], vaddr: u64) -> (r: Option<u64>)
    ensures
        r == offset_of(segments@, vaddr),
{
    let mut i: usize = 0;
    assert(segments@.skip(0) =~= segments@);
    while i < segments.len()
        invariant
            i <= segments@.len(),
            offset_of(segments@, vaddr) == offset_of(segments@.skip(i as int), vaddr),
        decreases segments@.len() - i,
    {
        assert(segments@.skip(i as int).skip(1) =~= segments@.skip(i + 1));
        let seg = segments[i];
        if let Some(offset) = shift(seg.vaddr, seg.filesz, seg.offset, vaddr) {
            return Some(offset);
        }
        i += 1;
    }
    None
}

/// The inverse of `vaddr_to_file_offset`. A caller is only useful if it can be
/// named as the address a disassembler shows. The two coincide whenever the
/// first `PT_LOAD` sits at offset 0 vaddr 0, which is common enough to hide
/// the difference and not a rule.
pub fn file_offset_to_vaddr(segments: &[Segment], offset: u64) -> (r: Option<u64>)
    ensures
        r == vaddr_of(segments@, offset),
{
    let mut i: usize = 0;
    assert(segments@.skip(0) =~= segments@);
    while i < segments.len()
        invariant
            i <= segments@.len(),
            vaddr_of(segments@, offset) == vaddr_of(segments@.skip(i as int), offset),
        decreases segments@.len() - i,
    {
        assert(segments@.skip(i as int).skip(1) =~= segments@.skip(i + 1));
        let seg = segments[i];
        if let Some(vaddr) = shift(seg.offset, seg.filesz, seg.vaddr, offset) {
            return Some(vaddr);
        }
        i += 1;
    }
    None
}

proof fn lemma_offset_of(segments: Seq<Segment>, vaddr: u64, i: int)
    requires
        0 <= i < segments.len(),
        segment_offset(segments[i], vaddr) is Some,
        forall|j: int|
            0 <= j < i ==> (#[trigger] segment_offset(segments[j], vaddr) is None
                || segment_offset(segments[j], vaddr) == segment_offset(segments[i], vaddr)),
    ensures
        offset_of(segments, vaddr) == segment_offset(segments[i], vaddr),
    decreases i,
{
    if i > 0 {
        let rest = segments.skip(1);
        assert forall|j: int| 0 <= j < i - 1 implies (#[trigger] segment_offset(rest[j], vaddr)
            is None || segment_offset(rest[j], vaddr) == segment_offset(rest[i - 1], vaddr)) by {
            assert(segment_offset(segments[j + 1], vaddr) is None || segment_offset(
                segments[j + 1],
                vaddr,
            ) == segment_offset(segments[i], vaddr));
        }
        lemma_offset_of(rest, vaddr, i - 1);
        assert(segment_offset(segments[0], vaddr) is None || segment_offset(segments[0], vaddr)
            == segment_offset(segments[i], vaddr));
    }
}

proof fn lemma_vaddr_of(segments: Seq<Segment>, offset: u64, i: int)
    requires
        0 <= i < segments.len(),
        segment_vaddr(segments[i], offset) is Some,
        forall|j: int|
            0 <= j < i ==> (#[trigger] segment_vaddr(segments[j], offset) is None
                || segment_vaddr(segments[j], offset) == segment_vaddr(segments[i], offset)),
    ensures
        vaddr_of(segments, offset) == segment_vaddr(segments[i], offset),
    decreases i,
{
    if i > 0 {
        let rest = segments.skip(1);
        assert forall|j: int| 0 <= j < i - 1 implies (#[trigger] segment_vaddr(rest[j], offset)
            is None || segment_vaddr(rest[j], offset) == segment_vaddr(rest[i - 1], offset)) by {
            assert(segment_vaddr(segments[j + 1], offset) is None || segment_vaddr(
                segments[j + 1],
                offset,
            ) == segment_vaddr(segments[i], offset));
        }
        lemma_vaddr_of(rest, offset, i - 1);
        assert(segment_vaddr(segments[0], offset) is None || segment_vaddr(segments[0], offset)
            == segment_vaddr(segments[i], offset));
    }
}

/// An address has the file offset that the first segment around it gives it:
/// as far into the segment's file bytes as the address is into its addresses.
pub proof fn lemma_address_is_found_in_its_segment(segments: Seq<Segment>, vaddr: u64, i: int)
    requires
        0 <= i < segments.len(),
        segments[i].vaddr <= vaddr < segments[i].vaddr + segments[i].filesz,
        segments[i].vaddr + segments[i].filesz <= u64::MAX,
        segments[i].offset + (vaddr - segments[i].vaddr) <= u64::MAX,
        forall|j: int|
            0 <= j < i ==> !((#[trigger] segments[j]).vaddr <= vaddr < segments[j].vaddr
                + segments[j].filesz),
    ensures
        offset_of(segments, vaddr) == Some(
            (segments[i].offset + (vaddr - segments[i].vaddr)) as u64,
        ),
{
    assert forall|j: int| 0 <= j < i implies (#[trigger] segment_offset(segments[j], vaddr) is None
        || segment_offset(segments[j], vaddr) == segment_offset(segments[i], vaddr)) by {
        assert(!(segments[j].vaddr <= vaddr < segments[j].vaddr + segments[j].filesz));
    }
    lemma_offset_of(segments, vaddr, i);
}

/// A file offset has the address that the first segment around it gives it.
pub proof fn lemma_offset_is_found_in_its_segment(segments: Seq<Segment>, offset: u64, i: int)
    requires
        0 <= i < segments.len(),
        segments[i].offset <= offset < segments[i].offset + segments[i].filesz,
        segments[i].offset + segments[i].filesz <= u64::MAX,
        segments[i].vaddr + (offset - segments[i].offset) <= u64::MAX,
        forall|j: int|
            0 <= j < i ==> !((#[trigger] segments[j]).offset <= offset < segments[j].offset
                + segments[j].filesz),
    ensures
        vaddr_of(segments, offset) == Some(
            (segments[i].vaddr + (offset - segments[i].offset)) as u64,
        ),
{
    assert forall|j: int| 0 <= j < i implies (#[trigger] segment_vaddr(segments[j], offset) is None
        || segment_vaddr(segments[j], offset) == segment_vaddr(segments[i], offset)) by {
        assert(!(segments[j].offset <= offset < segments[j].offset + segments[j].filesz));
    }
    lemma_vaddr_of(segments, offset, i);
}

/// An address outside every segment has no file offset, and an offset outside
/// every segment has no address.
pub proof fn lemma_outside_every_segment(segments: Seq<Segment>, at: u64)
    ensures
        (forall|j: int|
            0 <= j < segments.len() ==> !((#[trigger] segments[j]).vaddr <= at < segments[j].vaddr
                + segments[j].filesz)) ==> offset_of(segments, at) is None,
        (forall|j: int|
            0 <= j < segments.len() ==> !((#[trigger] segments[j]).offset <= at < segments[j].offset
                + segments[j].filesz)) ==> vaddr_of(segments, at) is None,
    decreases segments.len(),
{
    if segments.len() > 0 {
        let rest = segments.skip(1);
        lemma_outside_every_segment(rest, at);
        assert(forall|j: int| 0 <= j < rest.len() ==> #[trigger] rest[j] == segments[j + 1]);
        if forall|j: int|
            0 <= j < segments.len() ==> !((#[trigger] segments[j]).vaddr <= at < segments[j].vaddr
                + segments[j].filesz) {
            assert(!(segments[0].vaddr <= at < segments[0].vaddr + segments[0].filesz));
        }
        if forall|j: int|
            0 <= j < segments.len() ==> !((#[trigger] segments[j]).offset <= at < segments[j].offset
                + segments[j].filesz) {
            assert(!(segments[0].offset <= at < segments[0].offset + segments[0].filesz));
        }
    }
}

/// An address and its file offset lead back to each other, as long as the
/// segment that holds both is the one that either search finds: no segment
/// before it takes the address to another offset or the offset to another
/// address, and it ends within the range of the numbers.
pub proof fn lemma_offset_and_address_round_trip(segments: Seq<Segment>, vaddr: u64, i: int)
    requires
        0 <= i < segments.len(),
        segment_offset(segments[i], vaddr) is Some,
        segments[i].offset + segments[i].filesz <= u64::MAX,
        forall|j: int|
            0 <= j < i ==> (#[trigger] segment_offset(segments[j], vaddr) is None
                || segment_offset(segments[j], vaddr) == segment_offset(segments[i], vaddr)),
        forall|j: int|
            0 <= j < i ==> (#[trigger] segment_vaddr(
                segments[j],
                segment_offset(segments[i], vaddr)->0,
            ) is None || segment_vaddr(segments[j], segment_offset(segments[i], vaddr)->0) == Some(
                vaddr,
            )),
    ensures
        offset_of(segments, vaddr) is Some,
        vaddr_of(segments, offset_of(segments, vaddr)->0) == Some(vaddr),
{
    lemma_offset_of(segments, vaddr, i);
    lemma_vaddr_of(segments, segment_offset(segments[i], vaddr)->0, i);
}

/// A file offset and its address lead back to each other in the same way.
pub proof fn lemma_address_and_offset_round_trip(segments: Seq<Segment>, offset: u64, i: int)
    requires
        0 <= i < segments.len(),
        segment_vaddr(segments[i], offset) is Some,
        segments[i].vaddr + segments[i].filesz <= u64::MAX,
        forall|j: int|
            0 <= j < i ==> (#[trigger] segment_vaddr(segments[j], offset) is None
                || segment_vaddr(segments[j], offset) == segment_vaddr(segments[i], offset)),
        forall|j: int|
            0 <= j < i ==> (#[trigger] segment_offset(
                segments[j],
                segment_vaddr(segments[i], offset)->0,
            ) is None || segment_offset(segments[j], segment_vaddr(segments[i], offset)->0) == Some(
                offset,
            )),
    ensures
        vaddr_of(segments, offset) is Some,
        offset_of(segments, vaddr_of(segments, offset)->0) == Some(offset),
{
    lemma_vaddr_of(segments, offset, i);
    lemma_offset_of(segments, segment_vaddr(segments[i], offset)->0, i);
}

/// Whether a file begins as a little-endian 64-bit object does.
pub open spec fn begins_as_elf64(data: Seq<u8>) -> bool {
    data.len() >= 6 && data[0] == 0x7F && data[1] == 0x45 && data[2] == 0x4C && data[3] == 0x46
        && data[4] == ELFCLASS64 && data[5] == ELFDATA2LSB
}

/// The segment that a program header describes.
pub open spec fn segment_at(data: Seq<u8>, at: int) -> Segment {
    Segment {
        offset: bytes::le64(data, at + 8) as u64,
        vaddr: bytes::le64(data, at + 16) as u64,
        filesz: bytes::le64(data, at + 32) as u64,
    }
}

/// The loaded segments among the first `n` program headers, unless one of
/// those headers is cut off.
pub open spec fn load_segments(data: Seq<u8>, phoff: int, entsize: int, n: int) -> Option<
    Seq<Segment>,
>
    decreases n,
{
    if n <= 0 {
        Some(Seq::empty())
    } else {
        let at = phoff + (n - 1) * entsize;
        match load_segments(data, phoff, entsize, n - 1) {
            None => None,
            Some(before) => if at + 4 > data.len() {
                None
            } else if bytes::le32(data, at) != PT_LOAD {
                Some(before)
            } else if at + 40 > data.len() {
                None
            } else {
                Some(before.push(segment_at(data, at)))
            },
        }
    }
}

/// The loaded segments of a file, from its head alone.
pub open spec fn head_segments(data: Seq<u8>) -> Option<Seq<Segment>> {
    if !begins_as_elf64(data) || data.len() < 0x3A || bytes::le64(data, 0x20) > usize::MAX
        || bytes::le16(data, 0x36) < 56 {
        None
    } else {
        load_segments(
            data,
            bytes::le64(data, 0x20),
            bytes::le16(data, 0x36),
            bytes::le16(data, 0x38),
        )
    }
}

proof fn lemma_cut_off(data: Seq<u8>, phoff: int, entsize: int, n: int, m: int)
    requires
        n <= m,
        load_segments(data, phoff, entsize, n) is None,
    ensures
        load_segments(data, phoff, entsize, m) is None,
    decreases m - n,
{
    if n < m {
        lemma_cut_off(data, phoff, entsize, n, m - 1);
    }
}

/// Reads `PT_LOAD` entries straight out of the ELF header, without the section
/// table. Sections sit at the end of the file, so a reader that wants them
/// fails on the truncated head of a mapped library and its whole layout ends
/// up empty.
#[must_use]
pub fn segments_from_head(data: &[u8]) -> (r: Option<Vec<Segment>>)
    ensures
        r is Some <==> head_segments(data@) is Some,
        r matches Some(segments) ==> head_segments(data@) == Some(segments@),
{
    if data.len() < 0x3A || data[0] != 0x7F || data[1] != 0x45 || data[2] != 0x4C || data[3]
        != 0x46 || data[4] != ELFCLASS64 || data[5] != ELFDATA2LSB {
        return None;
    }
    let (phoff, entsize, count) = match (u64_at(data, 0x20), u16_at(data, 0x36), u16_at(
        data,
        0x38,
    )) {
        (Some(phoff), Some(entsize), Some(count)) => (phoff, entsize, count),
        _ => return None,
    };
    let phoff: usize = match usize::try_from(phoff) {
        Ok(phoff) => phoff,
        Err(_) => return None,
    };
    if entsize < 56 {
        return None;
    }
    let total: usize = data.len();
    let mut out: Vec<Segment> = Vec::new();
    let mut n: u16 = 0;
    while n < count
        invariant
            n <= count,
            total == data@.len(),
            head_segments(data@) == load_segments(
                data@,
                phoff as int,
                entsize as int,
                count as int,
            ),
            load_segments(data@, phoff as int, entsize as int, n as int) == Some(out@),
        decreases count - n,
    {
        assert(n * entsize <= 0xFFFF * 0xFFFF) by (nonlinear_arith)
            requires
                n <= 0xFFFF,
                entsize <= 0xFFFF,
        ;
        let within: u32 = n as u32 * entsize as u32;
        assert(((n + 1) - 1) * entsize == within);
        proof {
            if load_segments(data@, phoff as int, entsize as int, n + 1) is None {
                lemma_cut_off(data@, phoff as int, entsize as int, n + 1, count as int);
            }
        }
        let at: usize = match phoff.checked_add(within as usize) {
            Some(at) => at,
            None => return None,
        };
        let kind: u32 = match u32_at(data, at) {
            Some(kind) => kind,
            None => return None,
        };
        if kind == PT_LOAD {
            if total < 40 || at > total - 40 {
                return None;
            }
            match (u64_at(data, at + 8), u64_at(data, at + 16), u64_at(data, at + 32)) {
                (Some(offset), Some(vaddr), Some(filesz)) => {
                    out.push(Segment { offset, vaddr, filesz });
                },
                _ => return None,
            }
        }
        n += 1;
    }
    Some(out)
}

/// Whether a note that carries a build id begins at `at`. A build id is a
/// hash, so a length outside 8 to 64 is padding that happens to hold a three.
pub open spec fn build_id_note(notes: Seq<u8>, at: int) -> bool {
    &&& at + 16 <= notes.len()
    &&& bytes::le32(notes, at + 8) == 3
    &&& bytes::le32(notes, at) == 4
    &&& 8 <= bytes::le32(notes, at + 4) <= 64
    &&& notes.subrange(at + 12, at + 16) == seq![0x47u8, 0x4Eu8, 0x55u8, 0u8]
}

/// The build id of the first note from `at` on that carries one, looked for
/// every four bytes, unless that note is cut off.
pub open spec fn build_id_from(notes: Seq<u8>, at: int) -> Option<Seq<char>>
    decreases notes.len() - at,
{
    if at + 12 >= notes.len() {
        None
    } else if build_id_note(notes, at) {
        let end = at + 16 + bytes::le32(notes, at + 4);
        if end <= notes.len() {
            Some(text::bytes_text(notes.subrange(at + 16, end)))
        } else {
            None
        }
    } else {
        build_id_from(notes, at + 4)
    }
}

/// Scans a `PT_NOTE` payload rather than walking it entry by entry. Walking is
/// the documented layout, but some libraries declare a run of zeros ahead of
/// the real note, and a zero header has no length, so a strict walk advances
/// twelve bytes at a time and steps over the note it is looking for.
pub fn build_id_from_notes(notes: &[u8]) -> (r: Option<String>)
    ensures
        r is Some <==> build_id_from(notes@, 0) is Some,
        r matches Some(id) ==> build_id_from(notes@, 0) == Some(id@),
{
    let total: usize = notes.len();
    let mut at: usize = 0;
    while at < total && total - at > 12
        invariant
            total == notes@.len(),
            build_id_from(notes@, 0) == build_id_from(notes@, at as int),
        decreases total - at,
    {
        if total - at >= 16 && notes[at + 12] == 0x47 && notes[at + 13] == 0x4E && notes[at + 14]
            == 0x55 && notes[at + 15] == 0 {
            assert(notes@.subrange(at + 12, at + 16) =~= seq![0x47u8, 0x4Eu8, 0x55u8, 0u8]);
            if let (Some(name), Some(desc), Some(kind)) = (
                u32_at(notes, at),
                u32_at(notes, at + 4),
                u32_at(notes, at + 8),
            ) {
                if kind == 3 && name == 4 && 8 <= desc && desc <= 64 {
                    let len: usize = desc as usize;
                    if total - at - 16 < len {
                        return None;
                    }
                    return Some(bytes_hex(slice_subrange(notes, at + 16, at + 16 + len)));
                }
            }
        } else {
            assert(!build_id_note(notes@, at as int)) by {
                if at + 16 <= total {
                    let four = notes@.subrange(at + 12, at + 16);
                    assert(four[0] == notes@[at + 12] && four[1] == notes@[at + 13] && four[2]
                        == notes@[at + 14] && four[3] == notes@[at + 15]);
                }
            }
        }
        at += 4;
    }
    None
}

/// What a program header says of a part of the file.
#[derive(Debug, Clone, Copy, PartialEq, Eq, Structural)]
pub struct ProgramHeader {
    pub kind: u32,
    pub offset: u64,
    pub vaddr: u64,
    pub filesz: u64,
}

/// A symbol, with its name out of the string table. A name that the table
/// does not hold is empty.
#[derive(Debug)]
pub struct Symbol {
    pub name: String,
    pub value: u64,
    pub section: u16,
    pub info: u8,
}

pub struct SymbolView {
    pub name: Seq<char>,
    pub value: u64,
    pub section: u16,
    pub info: u8,
}

impl View for Symbol {
    type V = SymbolView;

    open spec fn view(&self) -> SymbolView {
        SymbolView {
            name: self.name@,
            value: self.value,
            section: self.section,
            info: self.info,
        }
    }
}

/// The views of symbols.
pub open spec fn symbol_views(symbols: Seq<Symbol>) -> Seq<SymbolView> {
    Seq::new(symbols.len(), |i: int| symbols[i]@)
}

/// A symbol as a symbol table holds it, with its name by its offset in the
/// string table.
#[derive(Debug, Clone, Copy, PartialEq, Eq, Structural)]
pub struct SymbolEntry {
    pub name: u32,
    pub value: u64,
    pub section: u16,
    pub info: u8,
}

/// The strings that a symbol table takes its names from.
#[verifier::external_type_specification]
#[verifier::external_body]
pub struct ExStringTable<'data>(::elf::string_table::StringTable<'data>);

/// A section header, field by field.
#[derive(Debug, Clone, Copy, PartialEq, Eq, Structural)]
pub struct Section {
    pub name: u32,
    pub kind: u32,
    pub flags: u64,
    pub addr: u64,
    pub offset: u64,
    pub size: u64,
    pub link: u32,
    pub info: u32,
    pub addralign: u64,
    pub entsize: u64,
}

/// Whether `elf::ElfBytes::<AnyEndian>::minimal_parse` accepts a file.
pub uninterp spec fn readable(data: Seq<u8>) -> bool;

/// The program headers that `elf::ElfBytes::segments` iterates over.
pub uninterp spec fn program_headers_of(data: Seq<u8>) -> Option<Seq<ProgramHeader>>;

/// The bytes that a string table holds.
pub uninterp spec fn strings_in(table: ::elf::string_table::StringTable<'_>) -> Seq<u8>;

/// The entries that `elf::ElfBytes::dynamic_symbol_table` hands out, and the
/// bytes of their strings.
pub uninterp spec fn dynamic_symbols_of(data: Seq<u8>) -> Result<
    Option<(Seq<SymbolEntry>, Seq<u8>)>,
    (),
>;

/// The entries that `elf::ElfBytes::symbol_table` hands out, and the bytes of
/// their strings.
pub uninterp spec fn symbols_of(data: Seq<u8>) -> Result<
    Option<(Seq<SymbolEntry>, Seq<u8>)>,
    (),
>;

/// The header that `elf::ElfBytes::section_header_by_name` finds.
pub uninterp spec fn section_named(data: Seq<u8>, name: Seq<char>) -> Result<Option<Section>, ()>;

/// The bytes that `elf::ElfBytes::section_data` hands out.
pub uninterp spec fn section_bytes_of(data: Seq<u8>, section: Section) -> Result<Seq<u8>, ()>;

/// `elf::ElfBytes::<AnyEndian>::minimal_parse`: whether a file is accepted
/// depends on its bytes alone.
#[verifier::external_body]
fn minimal_parse(data: &[u8]) -> (r: Result<(), ::elf::ParseError>)
    ensures
        r is Ok <==> readable(data@),
{
    ::elf::ElfBytes::<::elf::endian::AnyEndian>::minimal_parse(data).map(|_file| ())
}

/// Whether a file is a little-endian 64-bit object that counts its program
/// headers in its own header. One with more than that field can hold counts
/// them in its section table.
pub open spec fn counts_headers(data: Seq<u8>) -> bool {
    begins_as_elf64(data) && bytes::le16(data, 0x38) < PN_XNUM
}

/// The program header that begins at `at` in a little-endian 64-bit object.
pub open spec fn header_at(data: Seq<u8>, at: int) -> ProgramHeader {
    ProgramHeader {
        kind: bytes::le32(data, at) as u32,
        offset: bytes::le64(data, at + 8) as u64,
        vaddr: bytes::le64(data, at + 16) as u64,
        filesz: bytes::le64(data, at + 32) as u64,
    }
}

/// Whether these are the program headers that the header of a little-endian
/// 64-bit object says where to find: so many, one after the other, all inside
/// the file.
pub open spec fn tabled(data: Seq<u8>, headers: Seq<ProgramHeader>) -> bool {
    &&& data.len() >= 64
    &&& bytes::le16(data, 0x36) == 56
    &&& bytes::le16(data, 0x38) == headers.len()
    &&& bytes::le64(data, 0x20) + 56 * headers.len() <= data.len()
    &&& forall|i: int|
        0 <= i < headers.len() ==> #[trigger] headers[i] == header_at(
            data,
            bytes::le64(data, 0x20) + 56 * i,
        )
}

/// `elf::ElfBytes::segments`: the program headers depend on the file's bytes
/// alone. A file that is not accepted has none. Those of a little-endian 64-bit
/// object that counts them in its header are read one after the other from
/// where that header says, 56 bytes each.
#[verifier::external_body]
fn program_headers(data: &[u8]) -> (r: Option<Vec<ProgramHeader>>)
    ensures
        r is Some <==> program_headers_of(data@) is Some,
        r matches Some(headers) ==> {
            &&& readable(data@)
            &&& program_headers_of(data@) == Some(headers@)
            &&& counts_headers(data@) ==> tabled(data@, headers@)
        },
{
    let file = ::elf::ElfBytes::<::elf::endian::AnyEndian>::minimal_parse(data).ok()?;
    let table = file.segments()?;
    Some(
        table.iter().map(
            |header| ProgramHeader {
                kind: header.p_type,
                offset: header.p_offset,
                vaddr: header.p_vaddr,
                filesz: header.p_filesz,
            },
        ).collect(),
    )
}

/// `elf::ElfBytes::dynamic_symbol_table`: the entries and the bytes of their strings
/// depend on the file's bytes alone, and so does whether the file has such a
/// table and whether it is refused.
#[verifier::external_body]
fn dynamic_symbols<'data>(data: &'data [u8]) -> (r: Result<
    Option<(Vec<SymbolEntry>, ::elf::string_table::StringTable<'data>)>,
    ::elf::ParseError,
>)
    ensures
        match r {
            Ok(Some(table)) => dynamic_symbols_of(data@) == Ok::<Option<(Seq<SymbolEntry>, Seq<u8>)>, ()>(
                Some((table.0@, strings_in(table.1))),
            ),
            Ok(None) => dynamic_symbols_of(data@) == Ok::<Option<(Seq<SymbolEntry>, Seq<u8>)>, ()>(None),
            Err(_) => dynamic_symbols_of(data@) is Err,
        },
{
    let file = ::elf::ElfBytes::<::elf::endian::AnyEndian>::minimal_parse(data)?;
    Ok(file.dynamic_symbol_table()?.map(|(table, strings)| (table.iter().map(
        |symbol| SymbolEntry {
            name: symbol.st_name,
            value: symbol.st_value,
            section: symbol.st_shndx,
            info: symbol.st_info,
        },
    ).collect(), strings)))
}

/// `elf::ElfBytes::symbol_table`: the entries and the bytes of their strings
/// depend on the file's bytes alone, and so does whether the file has such a
/// table and whether it is refused.
#[verifier::external_body]
fn symbols<'data>(data: &'data [u8]) -> (r: Result<
    Option<(Vec<SymbolEntry>, ::elf::string_table::StringTable<'data>)>,
    ::elf::ParseError,
>)
    ensures
        match r {
            Ok(Some(table)) => symbols_of(data@) == Ok::<Option<(Seq<SymbolEntry>, Seq<u8>)>, ()>(
                Some((table.0@, strings_in(table.1))),
            ),
            Ok(None) => symbols_of(data@) == Ok::<Option<(Seq<SymbolEntry>, Seq<u8>)>, ()>(None),
            Err(_) => symbols_of(data@) is Err,
        },
{
    let file = ::elf::ElfBytes::<::elf::endian::AnyEndian>::minimal_parse(data)?;
    Ok(file.symbol_table()?.map(|(table, strings)| (table.iter().map(
        |symbol| SymbolEntry {
            name: symbol.st_name,
            value: symbol.st_value,
            section: symbol.st_shndx,
            info: symbol.st_info,
        },
    ).collect(), strings)))
}

/// The bytes of a string that begins at `at`, up to the NUL that ends it.
pub open spec fn raw_string(strings: Seq<u8>, at: int) -> Option<Seq<u8>>
    decreases strings.len() - at,
{
    if at >= strings.len() {
        None
    } else if strings[at] == 0 {
        Some(Seq::empty())
    } else {
        match raw_string(strings, at + 1) {
            None => None,
            Some(rest) => Some(seq![strings[at]] + rest),
        }
    }
}

/// `elf::string_table::StringTable::get`: the text of the bytes from an offset
/// up to the next NUL. It fails where no NUL follows and where those bytes are
/// no UTF-8.
#[verifier::external_body]
fn string_at<'data>(strings: &::elf::string_table::StringTable<'data>, at: usize) -> (r: Result<
    &'data str,
    ::elf::ParseError,
>)
    ensures
        match r {
            Ok(text) => raw_string(strings_in(*strings), at as int) matches Some(raw) && valid_utf8(
                raw,
            ) && text@ == decode_utf8(raw),
            Err(_) => raw_string(strings_in(*strings), at as int) matches Some(raw) ==> !valid_utf8(
                raw,
            ),
        },
{
    strings.get(at)
}

/// The name at an offset of a string table. One that the table does not hold
/// is empty.
pub open spec fn symbol_name(strings: Seq<u8>, at: int) -> Seq<char> {
    match raw_string(strings, at) {
        Some(raw) => if valid_utf8(raw) {
            decode_utf8(raw)
        } else {
            Seq::empty()
        },
        None => Seq::empty(),
    }
}

/// The symbols of a table, with their names.
pub open spec fn named(entries: Seq<SymbolEntry>, strings: Seq<u8>) -> Seq<SymbolView> {
    Seq::new(
        entries.len(),
        |i: int|
            SymbolView {
                name: symbol_name(strings, entries[i].name as int),
                value: entries[i].value,
                section: entries[i].section,
                info: entries[i].info,
            },
    )
}

/// Names the symbols of a table.
fn name_symbols(
    entries: &[SymbolEntry],
    strings: &::elf::string_table::StringTable<'_>,
) -> (r: Vec<Symbol>)
    ensures
        symbol_views(r@) == named(entries@, strings_in(*strings)),
{
    let mut out: Vec<Symbol> = Vec::new();
    while out.len() < entries.len()
        invariant
            out@.len() <= entries@.len(),
            symbol_views(out@) =~= named(entries@, strings_in(*strings)).take(out@.len() as int),
        decreases entries@.len() - out@.len(),
    {
        let ghost before = symbol_views(out@);
        let entry = entries[out.len()];
        let name = match string_at(strings, entry.name as usize) {
            Ok(name) => name.to_owned(),
            Err(_) => String::new(),
        };
        out.push(
            Symbol { name, value: entry.value, section: entry.section, info: entry.info },
        );
        assert(symbol_views(out@) =~= before.push(out@.last()@));
    }
    assert(symbol_views(out@) =~= named(entries@, strings_in(*strings)));
    out
}

/// `elf::ElfBytes::section_header_by_name`: the header depends on the file's
/// bytes and the name alone.
#[verifier::external_body]
fn find_section(data: &[u8], name: &str) -> (r: Result<Option<Section>, ::elf::ParseError>)
    ensures
        match r {
            Ok(found) => section_named(data@, name@) == Ok::<Option<Section>, ()>(found),
            Err(_) => section_named(data@, name@) is Err,
        },
{
    let file = ::elf::ElfBytes::<::elf::endian::AnyEndian>::minimal_parse(data)?;
    Ok(file.section_header_by_name(name)?.map(|header| Section {
        name: header.sh_name,
        kind: header.sh_type,
        flags: header.sh_flags,
        addr: header.sh_addr,
        offset: header.sh_offset,
        size: header.sh_size,
        link: header.sh_link,
        info: header.sh_info,
        addralign: header.sh_addralign,
        entsize: header.sh_entsize,
    }))
}

/// Whether a section's bytes stand in the file as they are: it has some, and
/// they are not compressed.
pub open spec fn stored_plainly(section: Section) -> bool {
    section.kind != SHT_NOBITS && section.flags & SHF_COMPRESSED == 0
}

/// `elf::ElfBytes::section_data`: the bytes depend on the file's bytes and the
/// section's header alone. Those of a section that is stored plainly are what
/// the header's offset and size cut out of the file, and a section without
/// bytes in the file has none. In a file that is accepted, a plain section
/// fails only where it reaches past the file's end. What is handed out of a
/// compressed section is not said here.
#[verifier::external_body]
fn section_bytes<'data>(data: &'data [u8], section: Section) -> (r: Result<
    &'data [u8],
    ::elf::ParseError,
>)
    ensures
        match r {
            Ok(found) => {
                &&& section_bytes_of(data@, section) == Ok::<Seq<u8>, ()>(found@)
                &&& section.kind == SHT_NOBITS ==> found@.len() == 0
                &&& stored_plainly(section) ==> extent(
                    data@,
                    section.offset as int,
                    section.size as int,
                ) == Some(found@)
            },
            Err(_) => {
                &&& section_bytes_of(data@, section) is Err
                &&& readable(data@) ==> section.kind != SHT_NOBITS
                &&& readable(data@) && stored_plainly(section) ==> extent(
                    data@,
                    section.offset as int,
                    section.size as int,
                ) is None
            },
        },
{
    let file = ::elf::ElfBytes::<::elf::endian::AnyEndian>::minimal_parse(data)?;
    let header = ::elf::section::SectionHeader {
        sh_name: section.name, sh_type: section.kind, sh_flags: section.flags,
        sh_addr: section.addr, sh_offset: section.offset, sh_size: section.size,
        sh_link: section.link, sh_info: section.info, sh_addralign: section.addralign,
        sh_entsize: section.entsize,
    };
    file.section_data(&header).map(|(found, _compression)| found)
}

/// The program headers of one kind, in order.
pub open spec fn of_kind(headers: Seq<ProgramHeader>, kind: u32) -> Seq<ProgramHeader>
    decreases headers.len(),
{
    if headers.len() == 0 {
        Seq::empty()
    } else {
        let before = of_kind(headers.drop_last(), kind);
        if headers.last().kind == kind {
            before.push(headers.last())
        } else {
            before
        }
    }
}

/// Picks the program headers of one kind.
pub fn headers_of_kind(headers: &[ProgramHeader], kind: u32) -> (r: Vec<ProgramHeader>)
    ensures
        r@ == of_kind(headers@, kind),
{
    let mut out: Vec<ProgramHeader> = Vec::new();
    let mut i: usize = 0;
    while i < headers.len()
        invariant
            i <= headers@.len(),
            out@ == of_kind(headers@.take(i as int), kind),
        decreases headers@.len() - i,
    {
        assert(headers@.take(i + 1).drop_last() =~= headers@.take(i as int));
        if headers[i].kind == kind {
            out.push(headers[i]);
        }
        i += 1;
    }
    assert(headers@.take(i as int) =~= headers@);
    out
}

/// The segments that program headers describe.
pub open spec fn described(headers: Seq<ProgramHeader>) -> Seq<Segment> {
    Seq::new(
        headers.len(),
        |i: int| Segment {
            offset: headers[i].offset,
            vaddr: headers[i].vaddr,
            filesz: headers[i].filesz,
        },
    )
}

/// The loaded segments that program headers describe.
pub fn loaded(headers: &[ProgramHeader]) -> (r: Vec<Segment>)
    ensures
        r@ == described(of_kind(headers@, PT_LOAD)),
{
    let loads = headers_of_kind(headers, PT_LOAD);
    let mut out: Vec<Segment> = Vec::new();
    while out.len() < loads.len()
        invariant
            out@.len() <= loads@.len(),
            out@ =~= described(loads@).take(out@.len() as int),
        decreases loads@.len() - out@.len(),
    {
        let header = loads[out.len()];
        out.push(Segment { offset: header.offset, vaddr: header.vaddr, filesz: header.filesz });
    }
    assert(out@ =~= described(loads@));
    out
}

/// The loaded segments of a file.
pub open spec fn segments_of(data: Seq<u8>) -> Outcome<Seq<Segment>> {
    match program_headers_of(data) {
        None => Outcome::Told(Kind::InvalidData, "no program headers"@),
        Some(headers) => Outcome::Got(described(of_kind(headers, PT_LOAD))),
    }
}

proof fn lemma_load_segments(data: Seq<u8>, headers: Seq<ProgramHeader>, n: int)
    requires
        tabled(data, headers),
        0 <= n <= headers.len(),
    ensures
        load_segments(data, bytes::le64(data, 0x20), 56, n) == Some(
            described(of_kind(headers.take(n), PT_LOAD)),
        ),
    decreases n,
{
    let phoff = bytes::le64(data, 0x20);
    if n == 0 {
        assert(described(of_kind(headers.take(0), PT_LOAD)) =~= Seq::<Segment>::empty());
    } else {
        lemma_load_segments(data, headers, n - 1);
        let upto = headers.take(n);
        assert(upto.drop_last() =~= headers.take(n - 1));
        assert(upto.last() == header_at(data, phoff + 56 * (n - 1)));
        let before = of_kind(headers.take(n - 1), PT_LOAD);
        if upto.last().kind == PT_LOAD {
            assert(described(before.push(upto.last())) =~= described(before).push(
                segment_at(data, phoff + 56 * (n - 1)),
            ));
        }
    }
}

/// Both readers of the program headers give the same loaded segments, in the
/// order of the headers: the one that takes the whole object, and the one that
/// takes no more than its head. It holds of every little-endian 64-bit object
/// that counts its program headers in its header.
pub proof fn lemma_readers_agree(data: Seq<u8>, headers: Seq<ProgramHeader>)
    requires
        counts_headers(data),
        tabled(data, headers),
        data.len() <= usize::MAX,
    ensures
        head_segments(data) == Some(described(of_kind(headers, PT_LOAD))),
{
    lemma_load_segments(data, headers, headers.len() as int);
    assert(headers.take(headers.len() as int) =~= headers);
}

/// The value and the type of the first symbol of that name which has an
/// address in the object. An imported symbol has none.
pub open spec fn symbol_in(symbols: Seq<SymbolView>, name: Seq<char>) -> Option<(u64, u8)>
    decreases symbols.len(),
{
    if symbols.len() == 0 {
        None
    } else if symbols[0].value != 0 && symbols[0].section != SHN_UNDEF && symbols[0].name == name {
        Some((symbols[0].value, symbols[0].info & 0xF))
    } else {
        symbol_in(symbols.skip(1), name)
    }
}

/// A look-up finds the first symbol of that name which has a value and is
/// defined in the object, whatever else is said of the symbol, and gives its
/// value and its type.
pub proof fn lemma_defined_symbol_is_found(symbols: Seq<SymbolView>, name: Seq<char>, i: int)
    requires
        0 <= i < symbols.len(),
        symbols[i].name == name,
        symbols[i].value != 0,
        symbols[i].section != SHN_UNDEF,
        forall|j: int|
            0 <= j < i ==> (#[trigger] symbols[j]).name != name || symbols[j].value == 0
                || symbols[j].section == SHN_UNDEF,
    ensures
        symbol_in(symbols, name) == Some((symbols[i].value, symbols[i].info & 0xF)),
    decreases i,
{
    if i > 0 {
        assert(symbols[0].name != name || symbols[0].value == 0 || symbols[0].section == SHN_UNDEF);
        let rest = symbols.skip(1);
        assert forall|j: int| 0 <= j < i - 1 implies (#[trigger] rest[j]).name != name
            || rest[j].value == 0 || rest[j].section == SHN_UNDEF by {
            assert(rest[j] == symbols[j + 1]);
        }
        lemma_defined_symbol_is_found(rest, name, i - 1);
    }
}

/// A look-up finds only what the table defines under that name.
pub proof fn lemma_found_symbol_is_defined(symbols: Seq<SymbolView>, name: Seq<char>)
    requires
        symbol_in(symbols, name) is Some,
    ensures
        exists|i: int|
            0 <= i < symbols.len() && (#[trigger] symbols[i]).name == name && symbols[i].value != 0
                && symbols[i].section != SHN_UNDEF && symbol_in(symbols, name) == Some(
                (symbols[i].value, symbols[i].info & 0xF),
            ),
    decreases symbols.len(),
{
    let first = symbols[0];
    if first.name == name && first.value != 0 && first.section != SHN_UNDEF {
        lemma_defined_symbol_is_found(symbols, name, 0);
    } else {
        let rest = symbols.skip(1);
        lemma_found_symbol_is_defined(rest, name);
        let i = choose|i: int|
            0 <= i < rest.len() && (#[trigger] rest[i]).name == name && rest[i].value != 0
                && rest[i].section != SHN_UNDEF && symbol_in(rest, name) == Some(
                (rest[i].value, rest[i].info & 0xF),
            );
        assert(symbols[i + 1] == rest[i]);
    }
}

/// Finds the first symbol of that name which has an address in the object.
pub fn look_up(symbols: &[Symbol], name: &str) -> (r: Option<(u64, u8)>)
    ensures
        r == symbol_in(symbol_views(symbols@), name@),
{
    let ghost views = symbol_views(symbols@);
    let mut i: usize = 0;
    assert(views.skip(0) =~= views);
    while i < symbols.len()
        invariant
            i <= symbols@.len(),
            views == symbol_views(symbols@),
            symbol_in(views, name@) == symbol_in(views.skip(i as int), name@),
        decreases symbols@.len() - i,
    {
        assert(views.skip(i as int).skip(1) =~= views.skip(i + 1));
        let symbol = &symbols[i];
        if symbol.value != 0 && symbol.section != SHN_UNDEF && same(symbol.name.as_str(), name) {
            return Some((symbol.value, symbol.info & 0xF));
        }
        i += 1;
    }
    None
}

/// What a symbol table says of a name.
pub open spec fn looked_up(
    table: Result<Option<(Seq<SymbolEntry>, Seq<u8>)>, ()>,
    name: Seq<char>,
) -> Outcome<Option<(u64, u8)>> {
    match table {
        Err(_) => Outcome::Refused(ElfPart::Symbols),
        Ok(None) => Outcome::Got(None),
        Ok(Some(found)) => Outcome::Got(symbol_in(named(found.0, found.1), name)),
    }
}

/// The value and the type of a symbol, out of the dynamic table first and the
/// full one second.
pub open spec fn symbol_of(data: Seq<u8>, name: Seq<char>) -> Outcome<Option<(u64, u8)>> {
    match looked_up(dynamic_symbols_of(data), name) {
        Outcome::Got(None) => looked_up(symbols_of(data), name),
        outcome => outcome,
    }
}

/// The addresses that an unwind table lists, relative to where it is loaded.
pub open spec fn listed(table: Seq<u8>, base: u64, i: int) -> int {
    base + bytes::le32_signed(table, 12 + 8 * i)
}

/// Whether an unwind table is encoded as every toolchain encodes it.
pub open spec fn usual_encoding(table: Seq<u8>) -> bool {
    table[1] == 0x1B && table[2] == 0x03 && table[3] == 0x3B
}

/// Whether `entries` are the addresses that an unwind table lists, each once.
pub open spec fn lists_entries(entries: Seq<u64>, table: Seq<u8>, base: u64) -> bool {
    &&& lists::ascending(entries)
    &&& forall|a: u64| #[trigger]
        entries.contains(a) <==> exists|i: int|
            0 <= i < bytes::le32(table, 8) && #[trigger] listed(table, base, i) == a
}

/// Why an unwind table cannot be used, if it cannot.
pub open spec fn table_refusal(table: Seq<u8>, base: u64) -> Option<Seq<char>> {
    let count = bytes::le32(table, 8);
    if table.len() < 4 {
        Some(".eh_frame_hdr too short"@)
    } else if !usual_encoding(table) {
        Some("unsupported .eh_frame_hdr encoding"@)
    } else if table.len() < 12 {
        Some("truncated fde count"@)
    } else if 12 + 8 * count > usize::MAX {
        Some("fde table size overflows"@)
    } else if 12 + 8 * count > table.len() {
        Some("truncated fde table"@)
    } else if exists|i: int|
        0 <= i < count && !(0 <= #[trigger] listed(table, base, i) <= u64::MAX) {
        Some("fde address is out of range"@)
    } else {
        None
    }
}

/// Reads the function entry points out of an unwind table.
pub fn entries_in(table: &[u8], base: u64) -> (r: Result<Vec<u64>, Fault>)
    ensures
        match table_refusal(table@, base) {
            Some(text) => r matches Err(f) && fault::told(f, Kind::InvalidData, text),
            None => r matches Ok(entries) && lists_entries(entries@, table@, base),
        },
{
    let total: usize = table.len();
    if total < 4 {
        return Err(tell(Kind::InvalidData, ".eh_frame_hdr too short"));
    }
    if table[1] != 0x1B || table[2] != 0x03 || table[3] != 0x3B {
        return Err(tell(Kind::InvalidData, "unsupported .eh_frame_hdr encoding"));
    }
    let word: u32 = match u32_at(table, 8) {
        Some(word) => word,
        None => return Err(tell(Kind::InvalidData, "truncated fde count")),
    };
    let count: usize = word as usize;
    let end: usize = match count.checked_mul(8) {
        Some(len) => match len.checked_add(12) {
            Some(end) => end,
            None => return Err(tell(Kind::InvalidData, "fde table size overflows")),
        },
        None => return Err(tell(Kind::InvalidData, "fde table size overflows")),
    };
    if end > total {
        return Err(tell(Kind::InvalidData, "truncated fde table"));
    }
    let mut entries: Vec<u64> = Vec::new();
    let mut n: usize = 0;
    while n < count
        invariant
            n <= count,
            12 + 8 * count == end,
            end <= total,
            total == table@.len(),
            count == bytes::le32(table@, 8),
            total >= 12,
            usual_encoding(table@),
            lists::ascending(entries@),
            forall|i: int| 0 <= i < n ==> 0 <= #[trigger] listed(table@, base, i) <= u64::MAX,
            forall|a: u64| #[trigger]
                entries@.contains(a) <==> exists|i: int|
                    0 <= i < n && #[trigger] listed(table@, base, i) == a,
        decreases count - n,
    {
        let rel: i32 = match i32_at(table, 12 + 8 * n) {
            Some(rel) => rel,
            None => return Err(tell(Kind::InvalidData, "truncated fde table")),
        };
        assert(listed(table@, base, n as int) == base + rel);
        let addr: i128 = base as i128 + rel as i128;
        if addr < 0 || addr > u64::MAX as i128 {
            return Err(tell(Kind::InvalidData, "fde address is out of range"));
        }
        let addr: u64 = addr as u64;
        let ghost before = entries@;
        insert(&mut entries, addr);
        assert forall|a: u64| #[trigger] entries@.contains(a) <==> exists|i: int|
            0 <= i < n + 1 && #[trigger] listed(table@, base, i) == a by {
            if before.contains(a) {
                let i = choose|i: int| 0 <= i < n && #[trigger] listed(table@, base, i) == a;
                assert(0 <= i < n + 1 && listed(table@, base, i) == a);
            }
            if a == addr {
                assert(0 <= n < n + 1 && listed(table@, base, n as int) == a);
            }
        }
        n += 1;
    }
    Ok(entries)
}

/// A run of bytes of a file.
pub open spec fn extent(data: Seq<u8>, start: int, len: int) -> Option<Seq<u8>> {
    if start + len <= data.len() {
        Some(data.subrange(start, start + len))
    } else {
        None
    }
}

fn cut<'data>(data: &'data [u8], start: usize, len: usize) -> (r: Option<&'data [u8]>)
    ensures
        r is Some <==> extent(data@, start as int, len as int) is Some,
        r matches Some(part) ==> extent(data@, start as int, len as int) == Some(part@),
{
    let total: usize = data.len();
    if start <= total && len <= total - start {
        Some(slice_subrange(data, start, start + len))
    } else {
        None
    }
}

/// The part of a file that a program header describes, and its address.
pub open spec fn unwind_in(data: Seq<u8>, header: ProgramHeader) -> Outcome<(Seq<u8>, u64)> {
    if header.offset > usize::MAX {
        Outcome::Told(Kind::InvalidData, "bad segment offset"@)
    } else if header.filesz > usize::MAX {
        Outcome::Told(Kind::InvalidData, "bad segment size"@)
    } else {
        match extent(data, header.offset as int, header.filesz as int) {
            None => Outcome::Told(Kind::InvalidData, "PT_GNU_EH_FRAME lies outside the file"@),
            Some(table) => Outcome::Got((table, header.vaddr)),
        }
    }
}

/// Cuts the unwind table out of a file by its program header.
pub fn unwind_segment<'data>(data: &'data [u8], header: ProgramHeader) -> (r: Result<
    (&'data [u8], u64),
    Fault,
>)
    ensures
        match r {
            Ok(found) => unwind_in(data@, header) == Outcome::Got((found.0@, found.1)),
            Err(f) => fault::fails(unwind_in(data@, header), f),
        },
{
    let start: usize = match usize::try_from(header.offset) {
        Ok(start) => start,
        Err(_) => return Err(tell(Kind::InvalidData, "bad segment offset")),
    };
    let len: usize = match usize::try_from(header.filesz) {
        Ok(len) => len,
        Err(_) => return Err(tell(Kind::InvalidData, "bad segment size")),
    };
    match cut(data, start, len) {
        Some(table) => Ok((table, header.vaddr)),
        None => Err(tell(Kind::InvalidData, "PT_GNU_EH_FRAME lies outside the file")),
    }
}

/// The unwind table of a file and the address it is loaded at: through the
/// program header that names it, else through the section of that name.
pub open spec fn unwind_of(data: Seq<u8>) -> Outcome<(Seq<u8>, u64)> {
    let named = match program_headers_of(data) {
        None => Seq::empty(),
        Some(headers) => of_kind(headers, PT_GNU_EH_FRAME),
    };
    if named.len() > 0 {
        unwind_in(data, named[0])
    } else {
        match section_named(data, ".eh_frame_hdr"@) {
            Err(_) => Outcome::Refused(ElfPart::Sections),
            Ok(None) => Outcome::Told(
                Kind::InvalidData,
                "no .eh_frame_hdr, so functions cannot be enumerated"@,
            ),
            Ok(Some(section)) => match section_bytes_of(data, section) {
                Err(_) => Outcome::Refused(ElfPart::Unwind),
                Ok(table) => Outcome::Got((table, section.addr)),
            },
        }
    }
}

/// The section that the unwind table of a file is found through, where no
/// program header names the table.
pub open spec fn unwind_section(data: Seq<u8>) -> Option<Section> {
    let segment = match program_headers_of(data) {
        None => false,
        Some(headers) => of_kind(headers, PT_GNU_EH_FRAME).len() > 0,
    };
    match section_named(data, ".eh_frame_hdr"@) {
        Ok(Some(section)) if !segment => Some(section),
        _ => None,
    }
}

/// The unwind table of a file as a section that is stored plainly gives it.
pub open spec fn unwind_at(data: Seq<u8>, section: Section) -> Outcome<(Seq<u8>, u64)> {
    match extent(data, section.offset as int, section.size as int) {
        None => Outcome::Refused(ElfPart::Unwind),
        Some(table) => Outcome::Got((table, section.addr)),
    }
}

/// The build id of the first note segment that carries one, unless a segment
/// before it lies outside the file.
pub open spec fn build_id_in(data: Seq<u8>, notes: Seq<ProgramHeader>) -> Option<Seq<char>>
    decreases notes.len(),
{
    if notes.len() == 0 || notes[0].offset > usize::MAX || notes[0].filesz > usize::MAX {
        None
    } else {
        match extent(data, notes[0].offset as int, notes[0].filesz as int) {
            None => None,
            Some(payload) => match build_id_from(payload, 0) {
                Some(id) => Some(id),
                None => build_id_in(data, notes.skip(1)),
            },
        }
    }
}

/// Finds the build id among the note segments of a file.
pub fn build_id_among(data: &[u8], headers: &[ProgramHeader]) -> (r: Option<String>)
    ensures
        r is Some <==> build_id_in(data@, of_kind(headers@, PT_NOTE)) is Some,
        r matches Some(id) ==> build_id_in(data@, of_kind(headers@, PT_NOTE)) == Some(id@),
{
    let notes = headers_of_kind(headers, PT_NOTE);
    let mut i: usize = 0;
    assert(notes@.skip(0) =~= notes@);
    while i < notes.len()
        invariant
            i <= notes@.len(),
            notes@ == of_kind(headers@, PT_NOTE),
            build_id_in(data@, notes@) == build_id_in(data@, notes@.skip(i as int)),
        decreases notes@.len() - i,
    {
        assert(notes@.skip(i as int).skip(1) =~= notes@.skip(i + 1));
        let header = notes[i];
        let start: usize = match usize::try_from(header.offset) {
            Ok(start) => start,
            Err(_) => return None,
        };
        let len: usize = match usize::try_from(header.filesz) {
            Ok(len) => len,
            Err(_) => return None,
        };
        match cut(data, start, len) {
            None => return None,
            Some(payload) => {
                let id = build_id_from_notes(payload);
                if id.is_some() {
                    return id;
                }
            },
        }
        i += 1;
    }
    None
}

/// The build id of a file.
pub open spec fn build_id_of(data: Seq<u8>) -> Option<Seq<char>> {
    match program_headers_of(data) {
        None => None,
        Some(headers) => build_id_in(data, of_kind(headers, PT_NOTE)),
    }
}

/// The file offset to probe for a symbol of that value and type.
pub open spec fn probe_point(value: u64, kind: u8, segments: Outcome<Seq<Segment>>) -> Outcome<
    u64,
> {
    if kind == STT_GNU_IFUNC {
        Outcome::Told(Kind::InvalidData, IFUNC_REFUSAL@)
    } else {
        match segments {
            Outcome::Told(kind, text) => Outcome::Told(kind, text),
            Outcome::Refused(part) => Outcome::Refused(part),
            Outcome::Got(segments) => match offset_of(segments, value) {
                Some(offset) => Outcome::Got(offset),
                None => Outcome::Told(
                    Kind::InvalidData,
                    "symbol is not inside any PT_LOAD segment"@,
                ),
            },
        }
    }
}

/// Places a probe for a symbol of that value and type.
pub fn place_probe(value: u64, kind: u8, segments: &[Segment]) -> (r: Result<u64, Fault>)
    ensures
        match r {
            Ok(offset) => probe_point(value, kind, Outcome::Got(segments@)) == Outcome::Got(offset),
            Err(f) => fault::fails(probe_point(value, kind, Outcome::Got(segments@)), f),
        },
{
    if kind == STT_GNU_IFUNC {
        return Err(tell(Kind::InvalidData, IFUNC_REFUSAL));
    }
    match vaddr_to_file_offset(segments, value) {
        Some(offset) => Ok(offset),
        None => Err(tell(Kind::InvalidData, "symbol is not inside any PT_LOAD segment")),
    }
}

/// The file offset to probe for a symbol.
pub open spec fn probe_offset_of(data: Seq<u8>, symbol: Seq<char>) -> Outcome<u64> {
    match symbol_of(data, symbol) {
        Outcome::Told(kind, text) => Outcome::Told(kind, text),
        Outcome::Refused(part) => Outcome::Refused(part),
        Outcome::Got(None) => Outcome::Told(Kind::InvalidData, "symbol not found"@),
        Outcome::Got(Some(found)) => probe_point(found.0, found.1, segments_of(data)),
    }
}

/// An ifunc's value is a resolver that runs once at relocation, so a probe
/// there would never see a call.
pub const IFUNC_REFUSAL: &'static str =
    "symbol is an ifunc, so its address is chosen at relocation time; probe the resolved implementation instead";

/// An object file in memory.
#[derive(Debug, Clone, Copy)]
pub struct Elf<'data> {
    pub data: &'data [u8],
}

impl<'data> Elf<'data> {
    /// Takes a file that the ELF reader accepts.
    pub fn parse(data: &'data [u8]) -> (r: Result<Self, Fault>)
        ensures
            match r {
                Ok(object) => readable(data@) && object.data@ == data@,
                Err(f) => !readable(data@) && fault::refused(f, ElfPart::Object),
            },
    {
        match minimal_parse(data) {
            Ok(_) => Ok(Elf { data }),
            Err(cause) => Err(Fault::Elf { part: ElfPart::Object, cause }),
        }
    }

    /// The loaded segments. They are those that the head of the file alone
    /// gives, where it counts its program headers in its header.
    pub fn segments(&self) -> (r: Result<Vec<Segment>, Fault>)
        ensures
            match r {
                Ok(segments) => segments_of(self.data@) == Outcome::Got(segments@),
                Err(f) => fault::fails(segments_of(self.data@), f),
            },
            r matches Ok(segments) ==> counts_headers(self.data@) ==> head_segments(self.data@)
                == Some(segments@),
    {
        let headers = match program_headers(self.data) {
            Some(headers) => headers,
            None => return Err(tell(Kind::InvalidData, "no program headers")),
        };
        proof {
            assert(self.data@.len() == self.data.len());
            if counts_headers(self.data@) {
                lemma_readers_agree(self.data@, headers@);
            }
        }
        Ok(loaded(&headers))
    }

    /// The value and the type of a symbol. Prefers `.dynsym`, since stripped
    /// system libraries only have that one.
    pub fn symbol_value(&self, name: &str) -> (r: Result<Option<(u64, u8)>, Fault>)
        ensures
            match r {
                Ok(found) => symbol_of(self.data@, name@) == Outcome::Got(found),
                Err(f) => fault::fails(symbol_of(self.data@, name@), f),
            },
    {
        match dynamic_symbols(self.data) {
            Err(cause) => return Err(Fault::Elf { part: ElfPart::Symbols, cause }),
            Ok(Some((entries, strings))) => {
                let found = look_up(&name_symbols(&entries, &strings), name);
                if found.is_some() {
                    return Ok(found);
                }
            },
            Ok(None) => {},
        }
        match symbols(self.data) {
            Err(cause) => Err(Fault::Elf { part: ElfPart::Symbols, cause }),
            Ok(Some((entries, strings))) => Ok(look_up(&name_symbols(&entries, &strings), name)),
            Ok(None) => Ok(None),
        }
    }

    /// Function entry points recovered from `.eh_frame_hdr`. A packed or
    /// stripped library exports almost nothing, but unwind tables survive
    /// both because C++ exceptions need them at runtime, so this is usually
    /// the only way to enumerate what is in a library at all.
    pub fn function_entries(&self) -> (r: Result<Vec<u64>, Fault>)
        ensures
            match unwind_of(self.data@) {
                Outcome::Got(found) => match table_refusal(found.0, found.1) {
                    Some(text) => r matches Err(f) && fault::told(f, Kind::InvalidData, text),
                    None => r matches Ok(entries) && lists_entries(entries@, found.0, found.1),
                },
                outcome => r matches Err(f) && fault::fails(outcome, f),
            },
            unwind_section(self.data@) matches Some(section) ==> readable(self.data@)
                && stored_plainly(section) ==> unwind_of(self.data@) == unwind_at(
                self.data@,
                section,
            ),
    {
        match self.eh_frame_hdr() {
            Ok((table, base)) => entries_in(table, base),
            Err(f) => Err(f),
        }
    }

    /// The build id from `.note.gnu.build-id`, found through `PT_NOTE` so it
    /// works on a memory dump too. It is what keys an artifact to one exact
    /// build, because every offset in that artifact is meaningless against a
    /// different one.
    pub fn build_id(&self) -> (r: Option<String>)
        ensures
            r is Some <==> build_id_of(self.data@) is Some,
            r matches Some(id) ==> build_id_of(self.data@) == Some(id@),
    {
        let headers = match program_headers(self.data) {
            Some(headers) => headers,
            None => return None,
        };
        build_id_among(self.data, &headers)
    }

    /// The unwind table and its address. A dump of a process's memory has no
    /// section table, because section headers are not inside any `PT_LOAD`, so
    /// the program header is the only way to find the unwind table in one.
    fn eh_frame_hdr(&self) -> (r: Result<(&'data [u8], u64), Fault>)
        ensures
            match r {
                Ok(found) => unwind_of(self.data@) == Outcome::Got((found.0@, found.1)),
                Err(f) => fault::fails(unwind_of(self.data@), f),
            },
            unwind_section(self.data@) matches Some(section) ==> readable(self.data@)
                && stored_plainly(section) ==> unwind_of(self.data@) == unwind_at(
                self.data@,
                section,
            ),
    {
        let named = match program_headers(self.data) {
            Some(headers) => headers_of_kind(&headers, PT_GNU_EH_FRAME),
            None => Vec::new(),
        };
        if named.len() > 0 {
            return unwind_segment(self.data, named[0]);
        }
        let section = match find_section(self.data, ".eh_frame_hdr") {
            Err(cause) => return Err(Fault::Elf { part: ElfPart::Sections, cause }),
            Ok(None) => return Err(
                tell(
                    Kind::InvalidData,
                    "no .eh_frame_hdr, so functions cannot be enumerated",
                ),
            ),
            Ok(Some(section)) => section,
        };
        match section_bytes(self.data, section) {
            Err(cause) => Err(Fault::Elf { part: ElfPart::Unwind, cause }),
            Ok(table) => Ok((table, section.addr)),
        }
    }

    /// The file offset to probe for a symbol.
    pub fn probe_offset(&self, symbol: &str) -> (r: Result<u64, Fault>)
        ensures
            match r {
                Ok(offset) => probe_offset_of(self.data@, symbol@) == Outcome::Got(offset),
                Err(f) => fault::fails(probe_offset_of(self.data@, symbol@), f),
            },
    {
        let (value, kind) = match self.symbol_value(symbol) {
            Err(f) => return Err(f),
            Ok(None) => return Err(tell(Kind::InvalidData, "symbol not found")),
            Ok(Some(found)) => found,
        };
        if kind == STT_GNU_IFUNC {
            return Err(tell(Kind::InvalidData, IFUNC_REFUSAL));
        }
        let segments = match self.segments() {
            Err(f) => return Err(f),
            Ok(segments) => segments,
        };
        place_probe(value, kind, &segments)
    }
}

/// The program headers of one kind are all of that kind, in their order, and no
/// others.
pub proof fn lemma_of_kind(headers: Seq<ProgramHeader>, kind: u32)
    ensures
        of_kind(headers, kind) == headers.filter(|header: ProgramHeader| header.kind == kind),
    decreases headers.len(),
{
    reveal(Seq::filter);
    if headers.len() > 0 {
        lemma_of_kind(headers.drop_last(), kind);
    }
}

proof fn lemma_kind_is_kept(headers: Seq<ProgramHeader>, kind: u32, i: int)
    requires
        0 <= i < headers.len(),
        headers[i].kind == kind,
    ensures
        of_kind(headers, kind).contains(headers[i]),
    decreases headers.len(),
{
    let rest = headers.drop_last();
    let all = of_kind(headers, kind);
    if i < rest.len() {
        lemma_kind_is_kept(rest, kind, i);
        let before = of_kind(rest, kind);
        let n = choose|n: int| 0 <= n < before.len() && before[n] == headers[i];
        assert(all[n] == headers[i]);
    } else {
        assert(all.last() == headers[i]);
    }
}

/// Every program header that is loaded gives a segment with its offset, address
/// and size, and every segment comes from one.
pub proof fn lemma_loaded_headers_are_segments(
    data: Seq<u8>,
    headers: Seq<ProgramHeader>,
    segments: Seq<Segment>,
)
    requires
        program_headers_of(data) == Some(headers),
        segments_of(data) == Outcome::Got(segments),
    ensures
        forall|i: int|
            0 <= i < headers.len() && (#[trigger] headers[i]).kind == PT_LOAD ==> segments.contains(
                Segment {
                    offset: headers[i].offset,
                    vaddr: headers[i].vaddr,
                    filesz: headers[i].filesz,
                },
            ),
        segments.len() == headers.filter(|header: ProgramHeader| header.kind == PT_LOAD).len(),
{
    lemma_of_kind(headers, PT_LOAD);
    let loads = of_kind(headers, PT_LOAD);
    assert forall|i: int|
        0 <= i < headers.len() && (#[trigger] headers[i]).kind == PT_LOAD implies segments.contains(
        Segment {
            offset: headers[i].offset,
            vaddr: headers[i].vaddr,
            filesz: headers[i].filesz,
        },
    ) by {
        lemma_kind_is_kept(headers, PT_LOAD, i);
        let n = choose|n: int| 0 <= n < loads.len() && loads[n] == headers[i];
        assert(segments[n] == (Segment {
            offset: headers[i].offset,
            vaddr: headers[i].vaddr,
            filesz: headers[i].filesz,
        }));
    }
}

/// The head of a file shows every loaded segment whose program header lies in
/// it, however large the entries of the table are.
pub proof fn lemma_head_shows_loaded_segments(data: Seq<u8>, n: int, i: int)
    requires
        data.len() >= 0x3A,
        data[0] == 0x7F,
        data[1] == 0x45,
        data[2] == 0x4C,
        data[3] == 0x46,
        data[4] == 2,
        data[5] == 1,
        bytes::le16(data, 0x36) >= 56,
        bytes::le64(data, 0x20) <= usize::MAX,
        n == bytes::le16(data, 0x38),
        bytes::le64(data, 0x20) + n * bytes::le16(data, 0x36) <= data.len(),
        0 <= i < n,
        bytes::le32(data, bytes::le64(data, 0x20) + i * bytes::le16(data, 0x36)) == 1,
    ensures
        head_segments(data) matches Some(segments) && segments.contains(
            Segment {
                offset: bytes::le64(
                    data,
                    bytes::le64(data, 0x20) + i * bytes::le16(data, 0x36) + 8,
                ) as u64,
                vaddr: bytes::le64(
                    data,
                    bytes::le64(data, 0x20) + i * bytes::le16(data, 0x36) + 16,
                ) as u64,
                filesz: bytes::le64(
                    data,
                    bytes::le64(data, 0x20) + i * bytes::le16(data, 0x36) + 32,
                ) as u64,
            },
        ),
{
    lemma_head_table(data, bytes::le64(data, 0x20), bytes::le16(data, 0x36), n, n, i);
}

proof fn lemma_head_table(data: Seq<u8>, phoff: int, entsize: int, total: int, n: int, i: int)
    requires
        0 <= phoff,
        56 <= entsize,
        0 <= n <= total,
        phoff + total * entsize <= data.len(),
        0 <= i < total,
        bytes::le32(data, phoff + i * entsize) == PT_LOAD,
    ensures
        load_segments(data, phoff, entsize, n) matches Some(segments) && (i < n
            ==> segments.contains(segment_at(data, phoff + i * entsize))),
    decreases n,
{
    if n > 0 {
        lemma_head_table(data, phoff, entsize, total, n - 1, i);
        let at = phoff + (n - 1) * entsize;
        assert((n - 1) * entsize + entsize <= total * entsize) by (nonlinear_arith)
            requires
                n <= total,
                entsize >= 56,
        ;
        assert((n - 1) * entsize >= 0) by (nonlinear_arith)
            requires
                n > 0,
                entsize >= 56,
        ;
        let before = load_segments(data, phoff, entsize, n - 1)->0;
        let after = load_segments(data, phoff, entsize, n)->0;
        if i == n - 1 {
            assert(after.last() == segment_at(data, at));
        } else if i < n - 1 {
            let k = choose|k: int|
                0 <= k < before.len() && before[k] == segment_at(data, phoff + i * entsize);
            assert(after[k] == before[k]);
        }
    }
}

/// The build id of a note payload is that of the first note in it which carries
/// one of 8 to 64 bytes, at whichever multiple of four the note begins.
pub proof fn lemma_build_id_is_found(notes: Seq<u8>, at: int, len: int)
    requires
        0 <= at,
        at % 4 == 0,
        8 <= len <= 64,
        at + 16 + len <= notes.len(),
        bytes::le32(notes, at) == 4,
        bytes::le32(notes, at + 4) == len,
        bytes::le32(notes, at + 8) == 3,
        notes[at + 12] == 0x47,
        notes[at + 13] == 0x4E,
        notes[at + 14] == 0x55,
        notes[at + 15] == 0,
        forall|p: int|
            0 <= p < at && p % 4 == 0 ==> !(#[trigger] bytes::le32(notes, p) == 4 && bytes::le32(
                notes,
                p + 8,
            ) == 3 && 8 <= bytes::le32(notes, p + 4) <= 64 && notes[p + 12] == 0x47 && notes[p + 13]
                == 0x4E && notes[p + 14] == 0x55 && notes[p + 15] == 0),
    ensures
        build_id_from(notes, 0) == Some(text::bytes_text(notes.subrange(at + 16, at + 16 + len))),
{
    lemma_build_id_from(notes, 0, at, len);
}

proof fn lemma_build_id_from(notes: Seq<u8>, p: int, at: int, len: int)
    requires
        0 <= p <= at,
        p % 4 == 0,
        at % 4 == 0,
        8 <= len <= 64,
        at + 16 + len <= notes.len(),
        bytes::le32(notes, at) == 4,
        bytes::le32(notes, at + 4) == len,
        bytes::le32(notes, at + 8) == 3,
        notes[at + 12] == 0x47,
        notes[at + 13] == 0x4E,
        notes[at + 14] == 0x55,
        notes[at + 15] == 0,
        forall|q: int|
            p <= q < at && q % 4 == 0 ==> !(#[trigger] bytes::le32(notes, q) == 4 && bytes::le32(
                notes,
                q + 8,
            ) == 3 && 8 <= bytes::le32(notes, q + 4) <= 64 && notes[q + 12] == 0x47 && notes[q + 13]
                == 0x4E && notes[q + 14] == 0x55 && notes[q + 15] == 0),
    ensures
        build_id_from(notes, p) == Some(text::bytes_text(notes.subrange(at + 16, at + 16 + len))),
    decreases at - p,
{
    let four = notes.subrange(p + 12, p + 16);
    if p == at {
        assert(four =~= seq![0x47u8, 0x4Eu8, 0x55u8, 0u8]);
    } else {
        assert(!build_id_note(notes, p)) by {
            assert(four[0] == notes[p + 12] && four[1] == notes[p + 13] && four[2] == notes[p + 14]
                && four[3] == notes[p + 15]);
            assert(bytes::le32(notes, p) == bytes::le32(notes, p));
        }
        lemma_build_id_from(notes, p + 4, at, len);
    }
}

/// The build id of a file is that of the first note segment which carries one.
pub proof fn lemma_first_note_with_a_build_id(data: Seq<u8>, notes: Seq<ProgramHeader>, i: int)
    requires
        data.len() <= usize::MAX,
        0 <= i < notes.len(),
        forall|j: int|
            0 <= j <= i ==> (#[trigger] notes[j]).offset + notes[j].filesz <= data.len(),
        forall|j: int|
            0 <= j < i ==> build_id_from(
                data.subrange(
                    (#[trigger] notes[j]).offset as int,
                    notes[j].offset + notes[j].filesz,
                ),
                0,
            ) is None,
        build_id_from(
            data.subrange(notes[i].offset as int, notes[i].offset + notes[i].filesz),
            0,
        ) is Some,
    ensures
        build_id_in(data, notes) == build_id_from(
            data.subrange(notes[i].offset as int, notes[i].offset + notes[i].filesz),
            0,
        ),
    decreases i,
{
    assert(notes[0].offset + notes[0].filesz <= data.len());
    if i > 0 {
        assert(build_id_from(
            data.subrange(notes[0].offset as int, notes[0].offset + notes[0].filesz),
            0,
        ) is None);
        let rest = notes.skip(1);
        assert forall|j: int| 0 <= j <= i - 1 implies (#[trigger] rest[j]).offset + rest[j].filesz
            <= data.len() by {
            assert(rest[j] == notes[j + 1]);
        }
        assert forall|j: int| 0 <= j < i - 1 implies build_id_from(
            data.subrange((#[trigger] rest[j]).offset as int, rest[j].offset + rest[j].filesz),
            0,
        ) is None by {
            assert(rest[j] == notes[j + 1]);
        }
        lemma_first_note_with_a_build_id(data, rest, i - 1);
    }
}

/// A table that is encoded as usual, is there as far as it says, and lists only
/// addresses that there are, is read.
pub proof fn lemma_usual_table_is_read(table: Seq<u8>, base: u64)
    requires
        table.len() >= 12,
        table.len() <= usize::MAX,
        table[1] == 0x1B,
        table[2] == 0x03,
        table[3] == 0x3B,
        12 + 8 * bytes::le32(table, 8) <= table.len(),
        forall|at: int|
            12 <= at < 12 + 8 * bytes::le32(table, 8) && at % 8 == 4 ==> 0 <= base
                + #[trigger] bytes::le32_signed(table, at) <= u64::MAX,
    ensures
        table_refusal(table, base) is None,
{
    assert forall|i: int| 0 <= i < bytes::le32(table, 8) implies 0 <= #[trigger] listed(
        table,
        base,
        i,
    ) <= u64::MAX by {
        assert((12 + 8 * i) % 8 == 4);
        assert(0 <= base + bytes::le32_signed(table, 12 + 8 * i) <= u64::MAX);
    }
}

/// The entries of a table are the addresses that it lists, each of them, once,
/// in ascending order: one for every eight bytes behind its header, as far from
/// where it is loaded as the first four of them say.
pub proof fn lemma_every_function_is_listed(
    table: Seq<u8>,
    base: u64,
    entries: Seq<u64>,
    i: int,
    m: int,
    n: int,
)
    requires
        lists_entries(entries, table, base),
    ensures
        0 <= i < bytes::le32(table, 8) && 0 <= base + bytes::le32_signed(table, 12 + 8 * i)
            <= u64::MAX ==> entries.contains(
            (base + bytes::le32_signed(table, 12 + 8 * i)) as u64,
        ),
        0 <= n < entries.len() ==> exists|at: int|
            12 <= at < 12 + 8 * bytes::le32(table, 8) && at % 8 == 4 && entries[n] == base
                + #[trigger] bytes::le32_signed(table, at),
        0 <= m < n < entries.len() ==> entries[m] < entries[n],
{
    if 0 <= i < bytes::le32(table, 8) && 0 <= base + bytes::le32_signed(table, 12 + 8 * i)
        <= u64::MAX {
        let a = (base + bytes::le32_signed(table, 12 + 8 * i)) as u64;
        assert(listed(table, base, i) == a);
    }
    if 0 <= n < entries.len() {
        assert(entries.contains(entries[n]));
        let k = choose|k: int|
            0 <= k < bytes::le32(table, 8) && #[trigger] listed(table, base, k) == entries[n];
        let at = 12 + 8 * k;
        assert(at % 8 == 4);
        assert(entries[n] == base + bytes::le32_signed(table, at));
        if 0 <= m < n {
            assert(lists::Ordered::before(entries[m], entries[n]));
        }
    }
}

/// The unwind table of a file is found through the first program header that
/// names it, as the bytes of the file that it spans, at the address that it
/// gives them.
pub proof fn lemma_unwind_table_is_found(data: Seq<u8>, headers: Seq<ProgramHeader>, i: int)
    requires
        data.len() <= usize::MAX,
        program_headers_of(data) == Some(headers),
        0 <= i < headers.len(),
        headers[i].kind == PT_GNU_EH_FRAME,
        forall|j: int| 0 <= j < i ==> (#[trigger] headers[j]).kind != PT_GNU_EH_FRAME,
        headers[i].offset + headers[i].filesz <= data.len(),
    ensures
        unwind_of(data) == Outcome::Got(
            (
                data.subrange(headers[i].offset as int, headers[i].offset + headers[i].filesz),
                headers[i].vaddr,
            ),
        ),
{
    lemma_first_of_kind(headers, PT_GNU_EH_FRAME, i);
}

proof fn lemma_first_of_kind(headers: Seq<ProgramHeader>, kind: u32, i: int)
    requires
        0 <= i < headers.len(),
        headers[i].kind == kind,
        forall|j: int| 0 <= j < i ==> (#[trigger] headers[j]).kind != kind,
    ensures
        of_kind(headers, kind).len() > 0,
        of_kind(headers, kind)[0] == headers[i],
    decreases headers.len(),
{
    let rest = headers.drop_last();
    if i < rest.len() {
        assert(forall|j: int| 0 <= j < rest.len() ==> rest[j] == headers[j]);
        lemma_first_of_kind(rest, kind, i);
    } else {
        lemma_none_of_kind(rest, kind);
    }
}

proof fn lemma_none_of_kind(headers: Seq<ProgramHeader>, kind: u32)
    requires
        forall|j: int| 0 <= j < headers.len() ==> (#[trigger] headers[j]).kind != kind,
    ensures
        of_kind(headers, kind).len() == 0,
    decreases headers.len(),
{
    if headers.len() > 0 {
        assert(headers[headers.len() - 1].kind != kind);
        let rest = headers.drop_last();
        assert(forall|j: int| 0 <= j < rest.len() ==> rest[j] == headers[j]);
        lemma_none_of_kind(rest, kind);
    }
}

/// A symbol is looked for in the dynamic table first, and in the full one where
/// that one does not define it.
pub proof fn lemma_dynamic_symbols_come_first(
    data: Seq<u8>,
    name: Seq<char>,
    entries: Seq<SymbolEntry>,
    strings: Seq<u8>,
)
    requires
        dynamic_symbols_of(data) == Ok::<Option<(Seq<SymbolEntry>, Seq<u8>)>, ()>(
            Some((entries, strings)),
        ),
    ensures
        symbol_in(named(entries, strings), name) matches Some(found) ==> symbol_of(data, name)
            == Outcome::Got(Some(found)),
        symbol_in(named(entries, strings), name) is None ==> match symbols_of(data) {
            Ok(Some(full)) => symbol_of(data, name) == Outcome::Got(
                symbol_in(named(full.0, full.1), name),
            ),
            Ok(None) => symbol_of(data, name) == Outcome::Got(None::<(u64, u8)>),
            Err(_) => symbol_of(data, name) == Outcome::<Option<(u64, u8)>>::Refused(
                ElfPart::Symbols,
            ),
        },
{
}

/// Without a dynamic table a symbol is looked for in the full one alone.
pub proof fn lemma_full_symbols_suffice(data: Seq<u8>, name: Seq<char>, full: (Seq<SymbolEntry>, Seq<u8>))
    requires
        dynamic_symbols_of(data) == Ok::<Option<(Seq<SymbolEntry>, Seq<u8>)>, ()>(None),
        symbols_of(data) == Ok::<Option<(Seq<SymbolEntry>, Seq<u8>)>, ()>(Some(full)),
    ensures
        symbol_of(data, name) == Outcome::Got(symbol_in(named(full.0, full.1), name)),
{
}

/// A symbol has the name whose text stands in the string table at its offset,
/// up to the NUL behind it, and its value, section and kind are the entry's.
pub proof fn lemma_symbol_is_named(
    entries: Seq<SymbolEntry>,
    before: Seq<u8>,
    name: Seq<char>,
    after: Seq<u8>,
    i: int,
)
    requires
        0 <= i < entries.len(),
        entries[i].name == before.len(),
        forall|k: int|
            0 <= k < vstd::utf8::encode_utf8(name).len() ==> #[trigger] vstd::utf8::encode_utf8(
                name,
            )[k] != 0,
    ensures
        named(entries, before + vstd::utf8::encode_utf8(name).push(0) + after)[i] == (SymbolView {
            name,
            value: entries[i].value,
            section: entries[i].section,
            info: entries[i].info,
        }),
        named(entries, before + vstd::utf8::encode_utf8(name).push(0) + after).len()
            == entries.len(),
{
    let raw = vstd::utf8::encode_utf8(name);
    lemma_raw_string(before, raw, after);
    vstd::utf8::encode_utf8_valid_utf8(name);
    vstd::utf8::encode_utf8_decode_utf8(name);
}

proof fn lemma_raw_string(before: Seq<u8>, raw: Seq<u8>, after: Seq<u8>)
    requires
        forall|k: int| 0 <= k < raw.len() ==> #[trigger] raw[k] != 0,
    ensures
        raw_string(before + raw.push(0) + after, before.len() as int) == Some(raw),
    decreases raw.len(),
{
    let strings = before + raw.push(0) + after;
    if raw.len() == 0 {
        assert(strings[before.len() as int] == 0);
        assert(raw =~= Seq::empty());
    } else {
        let rest = raw.skip(1);
        assert forall|k: int| 0 <= k < rest.len() implies #[trigger] rest[k] != 0 by {
            assert(rest[k] == raw[k + 1]);
        }
        lemma_raw_string(before.push(raw[0]), rest, after);
        assert(strings =~= before.push(raw[0]) + rest.push(0) + after);
        assert(seq![raw[0]] + rest =~= raw);
    }
}

/// A symbol that is found, is no ifunc and lies in a loaded segment is probed
/// as far into the file as the segment has it.
pub proof fn lemma_symbol_is_probed_in_its_segment(
    data: Seq<u8>,
    symbol: Seq<char>,
    value: u64,
    kind: u8,
    segments: Seq<Segment>,
    i: int,
)
    requires
        symbol_of(data, symbol) == Outcome::Got(Some((value, kind))),
        kind != STT_GNU_IFUNC,
        segments_of(data) == Outcome::Got(segments),
        0 <= i < segments.len(),
        segments[i].vaddr <= value < segments[i].vaddr + segments[i].filesz,
        segments[i].vaddr + segments[i].filesz <= u64::MAX,
        segments[i].offset + (value - segments[i].vaddr) <= u64::MAX,
        forall|j: int|
            0 <= j < i ==> !((#[trigger] segments[j]).vaddr <= value < segments[j].vaddr
                + segments[j].filesz),
    ensures
        probe_offset_of(data, symbol) == Outcome::Got(
            (segments[i].offset + (value - segments[i].vaddr)) as u64,
        ),
{
    lemma_address_is_found_in_its_segment(segments, value, i);
}

/// An ifunc is refused whatever it points at, and so is a symbol that is not
/// there or lies in no loaded segment.
pub proof fn lemma_unprobeable_symbols_are_refused(
    data: Seq<u8>,
    symbol: Seq<char>,
    found: Option<(u64, u8)>,
    segments: Seq<Segment>,
)
    requires
        symbol_of(data, symbol) == Outcome::Got(found),
        segments_of(data) == Outcome::Got(segments),
        found matches Some(at) ==> at.1 == STT_GNU_IFUNC || forall|j: int|
            0 <= j < segments.len() ==> !((#[trigger] segments[j]).vaddr <= at.0
                < segments[j].vaddr + segments[j].filesz),
    ensures
        probe_offset_of(data, symbol) is Told,
{
    if let Some(at) = found {
        if at.1 != STT_GNU_IFUNC {
            lemma_outside_every_segment(segments, at.0);
        }
    }
}

/// The segments of a file stand in the order of its program headers, one for
/// each that is loaded.
pub proof fn lemma_segments_keep_their_order(data: Seq<u8>, headers: Seq<ProgramHeader>)
    requires
        program_headers_of(data) == Some(headers),
    ensures
        segments_of(data) == Outcome::Got(
            headers.filter(|header: ProgramHeader| header.kind == PT_LOAD).map_values(
                |header: ProgramHeader|
                    Segment { offset: header.offset, vaddr: header.vaddr, filesz: header.filesz },
            ),
        ),
{
    lemma_of_kind(headers, PT_LOAD);
    assert(described(of_kind(headers, PT_LOAD)) =~= headers.filter(
        |header: ProgramHeader| header.kind == PT_LOAD,
    ).map_values(
        |header: ProgramHeader|
            Segment { offset: header.offset, vaddr: header.vaddr, filesz: header.filesz },
    ));
}

/// The build id of a file is looked for in each of its notes, in order. A file
/// without program headers has none.
pub proof fn lemma_notes_give_the_build_id(data: Seq<u8>, headers: Seq<ProgramHeader>)
    ensures
        program_headers_of(data) is None ==> build_id_of(data) is None,
        program_headers_of(data) == Some(headers) ==> build_id_of(data) == build_id_in(
            data,
            headers.filter(|header: ProgramHeader| header.kind == PT_NOTE),
        ),
{
    lemma_of_kind(headers, PT_NOTE);
}

/// Where no program header names the unwind table, it is what the section of
/// that name holds, at the address of the section.
pub proof fn lemma_unwind_section_is_found(
    data: Seq<u8>,
    headers: Seq<ProgramHeader>,
    section: Section,
    table: Seq<u8>,
)
    requires
        program_headers_of(data) == Some(headers),
        forall|j: int| 0 <= j < headers.len() ==> (#[trigger] headers[j]).kind != PT_GNU_EH_FRAME,
        section_named(data, ".eh_frame_hdr"@) == Ok::<Option<Section>, ()>(Some(section)),
        section_bytes_of(data, section) == Ok::<Seq<u8>, ()>(table),
    ensures
        unwind_of(data) == Outcome::Got((table, section.addr)),
{
    lemma_none_of_kind(headers, PT_GNU_EH_FRAME);
}

/// A file whose unwind table is named nowhere, or named by a program header
/// that reaches past the end of the file, has no functions to list.
pub proof fn lemma_unwind_table_is_missing(data: Seq<u8>, headers: Seq<ProgramHeader>, i: int)
    requires
        data.len() <= usize::MAX,
        program_headers_of(data) == Some(headers),
    ensures
        (forall|j: int|
            0 <= j < headers.len() ==> (#[trigger] headers[j]).kind != PT_GNU_EH_FRAME)
            && section_named(data, ".eh_frame_hdr"@) == Ok::<Option<Section>, ()>(None)
            ==> unwind_of(data) is Told,
        0 <= i < headers.len() && headers[i].kind == PT_GNU_EH_FRAME && (forall|j: int|
            0 <= j < i ==> (#[trigger] headers[j]).kind != PT_GNU_EH_FRAME) && headers[i].offset
            + headers[i].filesz > data.len() ==> unwind_of(data) is Told,
{
    if forall|j: int| 0 <= j < headers.len() ==> (#[trigger] headers[j]).kind != PT_GNU_EH_FRAME {
        lemma_none_of_kind(headers, PT_GNU_EH_FRAME);
    }
    if 0 <= i < headers.len() && headers[i].kind == PT_GNU_EH_FRAME && forall|j: int|
        0 <= j < i ==> (#[trigger] headers[j]).kind != PT_GNU_EH_FRAME {
        lemma_first_of_kind(headers, PT_GNU_EH_FRAME, i);
    }
}

/// A name that no NUL ends, or that is no text, is taken for an empty one.
pub proof fn lemma_unreadable_name_is_empty(before: Seq<u8>, raw: Seq<u8>, after: Seq<u8>)
    requires
        forall|k: int| 0 <= k < raw.len() ==> #[trigger] raw[k] != 0,
    ensures
        symbol_name(before + raw, before.len() as int).len() == 0,
        !valid_utf8(raw) ==> symbol_name(
            before + raw.push(0) + after,
            before.len() as int,
        ).len() == 0,
{
    lemma_raw_string(before, raw, after);
    lemma_string_without_end(before, raw);
}

proof fn lemma_string_without_end(before: Seq<u8>, raw: Seq<u8>)
    requires
        forall|k: int| 0 <= k < raw.len() ==> #[trigger] raw[k] != 0,
    ensures
        raw_string(before + raw, before.len() as int) is None,
    decreases raw.len(),
{
    if raw.len() > 0 {
        let rest = raw.skip(1);
        assert forall|k: int| 0 <= k < rest.len() implies #[trigger] rest[k] != 0 by {
            assert(rest[k] == raw[k + 1]);
        }
        lemma_string_without_end(before.push(raw[0]), rest);
        assert(before + raw =~= before.push(raw[0]) + rest);
        assert((before + raw)[before.len() as int] == raw[0]);
    }
}

/// A table that is cut off, or encoded in any other way than the usual one, or
/// lists an address that there is not, is refused.
pub proof fn lemma_other_tables_are_refused(table: Seq<u8>, base: u64, at: int)
    ensures
        table.len() < 12 ==> table_refusal(table, base) is Some,
        table.len() >= 4 && !(table[1] == 0x1B && table[2] == 0x03 && table[3] == 0x3B)
            ==> table_refusal(table, base) is Some,
        table.len() < 12 + 8 * bytes::le32(table, 8) ==> table_refusal(table, base) is Some,
        12 <= at < 12 + 8 * bytes::le32(table, 8) && at % 8 == 4 && !(0 <= base
            + bytes::le32_signed(table, at) <= u64::MAX) ==> table_refusal(table, base) is Some,
{
    if 12 <= at < 12 + 8 * bytes::le32(table, 8) && at % 8 == 4 && !(0 <= base
        + bytes::le32_signed(table, at) <= u64::MAX) {
        let i = (at - 12) / 8;
        assert(at == 12 + 8 * i);
        assert(!(0 <= listed(table, base, i) <= u64::MAX));
    }
}

proof fn lemma_cut_header(data: Seq<u8>, phoff: int, entsize: int, n: int, i: int)
    requires
        0 <= i < n,
        phoff + i * entsize + 4 > data.len() || (bytes::le32(data, phoff + i * entsize) == 1
            && phoff + i * entsize + 40 > data.len()),
    ensures
        load_segments(data, phoff, entsize, n) is None,
    decreases n,
{
    if i < n - 1 {
        lemma_cut_header(data, phoff, entsize, n - 1, i);
    }
}

/// Nothing but the head of a little-endian 64-bit object, with all of its
/// program headers in it, shows segments.
pub proof fn lemma_other_heads_show_nothing(data: Seq<u8>, i: int)
    ensures
        head_segments(data) is Some ==> data.len() >= 0x3A && data[0] == 0x7F && data[1] == 0x45
            && data[2] == 0x4C && data[3] == 0x46 && data[4] == 2 && data[5] == 1,
        head_segments(data) is Some ==> bytes::le16(data, 0x36) >= 56,
        0 <= i < bytes::le16(data, 0x38) && bytes::le64(data, 0x20) + i * bytes::le16(data, 0x36)
            + 4 > data.len() ==> head_segments(data) is None,
        0 <= i < bytes::le16(data, 0x38) && bytes::le32(
            data,
            bytes::le64(data, 0x20) + i * bytes::le16(data, 0x36),
        ) == 1 && bytes::le64(data, 0x20) + i * bytes::le16(data, 0x36) + 40 > data.len()
            ==> head_segments(data) is None,
{
    let (phoff, entsize, n) = (
        bytes::le64(data, 0x20),
        bytes::le16(data, 0x36),
        bytes::le16(data, 0x38),
    );
    if 0 <= i < n && (phoff + i * entsize + 4 > data.len() || (bytes::le32(
        data,
        phoff + i * entsize,
    ) == 1 && phoff + i * entsize + 40 > data.len())) {
        lemma_cut_header(data, phoff, entsize, n, i);
    }
}

proof fn lemma_loads_in_order(data: Seq<u8>, phoff: int, entsize: int, n: nat)
    ensures
        load_segments(data, phoff, entsize, n as int) matches Some(segments) ==> segments
            == Seq::new(n, |i: int| phoff + i * entsize).filter(
            |at: int| bytes::le32(data, at) == 1,
        ).map_values(|at: int| segment_at(data, at)),
    decreases n,
{
    reveal(Seq::filter);
    let places = Seq::new(n, |i: int| phoff + i * entsize);
    if n > 0 {
        let rest = Seq::new((n - 1) as nat, |i: int| phoff + i * entsize);
        lemma_loads_in_order(data, phoff, entsize, (n - 1) as nat);
        assert(places.drop_last() =~= rest);
        assert(places.last() == phoff + (n - 1) * entsize);
        let loads = rest.filter(|at: int| bytes::le32(data, at) == 1);
        let segments = loads.map_values(|at: int| segment_at(data, at));
        if bytes::le32(data, places.last()) == 1 {
            assert(places.filter(|at: int| bytes::le32(data, at) == 1) =~= loads.push(
                places.last(),
            ));
            assert(loads.push(places.last()).map_values(|at: int| segment_at(data, at))
                =~= segments.push(segment_at(data, places.last())));
        } else {
            assert(places.filter(|at: int| bytes::le32(data, at) == 1) =~= loads);
        }
    } else {
        assert(places =~= Seq::empty());
        assert(places.filter(|at: int| bytes::le32(data, at) == 1).map_values(
            |at: int| segment_at(data, at),
        ) =~= Seq::empty());
    }
}

/// The segments that a head shows stand in the order of its program headers,
/// one for each that is loaded and none besides.
pub proof fn lemma_head_keeps_the_order(data: Seq<u8>)
    ensures
        head_segments(data) matches Some(segments) ==> segments == Seq::new(
            bytes::le16(data, 0x38) as nat,
            |i: int| bytes::le64(data, 0x20) + i * bytes::le16(data, 0x36),
        ).filter(|at: int| bytes::le32(data, at) == 1).map_values(
            |at: int| segment_at(data, at),
        ),
{
    let phoff = bytes::le64(data, 0x20);
    let entsize = bytes::le16(data, 0x36);
    lemma_loads_in_order(data, phoff, entsize, bytes::le16(data, 0x38) as nat);
    assert(Seq::new(
        bytes::le16(data, 0x38) as nat,
        |i: int| bytes::le64(data, 0x20) + i * bytes::le16(data, 0x36),
    ) =~= Seq::new(bytes::le16(data, 0x38) as nat, |i: int| phoff + i * entsize));
}

} // verus!
