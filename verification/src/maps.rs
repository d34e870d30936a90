//! Resolving a file offset to the address it was mapped at in a live process.

use vstd::prelude::*;
use vstd::slice::slice_subrange;
use crate::text::{self, chars_of, cut_once, join_words, lines, read_unsigned, same, string_of, words};

verus! {

/// A range of addresses of a process and the file behind it, if any.
#[derive(Debug, Clone, PartialEq, Eq)]
pub struct Mapping {
    pub start: u64,
    pub end: u64,
    pub pgoff: u64,
    pub path: Option<String>,
    pub executable: bool,
}

pub struct MappingView {
    pub start: u64,
    pub end: u64,
    pub pgoff: u64,
    pub path: Option<Seq<char>>,
    pub executable: bool,
}

/// What a name holds, if there is one.
pub open spec fn name_view(name: Option<String>) -> Option<Seq<char>> {
    match name {
        Some(s) => Some(s@),
        None => None,
    }
}

impl View for Mapping {
    type V = MappingView;

    open spec fn view(&self) -> MappingView {
        MappingView {
            start: self.start,
            end: self.end,
            pgoff: self.pgoff,
            path: name_view(self.path),
            executable: self.executable,
        }
    }
}

/// The views of mappings.
pub open spec fn views(maps: Seq<Mapping>) -> Seq<MappingView> {
    Seq::new(maps.len(), |i: int| maps[i]@)
}

impl Mapping {
    /// Whether the mapping is of that file.
    pub fn is_of(&self, path: &str) -> (r: bool)
        ensures
            r == (self@.path == Some(path@)),
    {
        match &self.path {
            Some(mapped) => same(mapped.as_str(), path),
            None => false,
        }
    }

    /// A mapping of its own with the same contents.
    pub fn duplicate(&self) -> (r: Mapping)
        ensures
            r@ == self@,
    {
        Mapping {
            start: self.start,
            end: self.end,
            pgoff: self.pgoff,
            path: match &self.path {
                Some(path) => Some(path.as_str().to_owned()),
                None => None,
            },
            executable: self.executable,
        }
    }
}

/// Mappings of their own with the same contents.
pub fn duplicate_all(maps: &[Mapping]) -> (r: Vec<Mapping>)
    ensures
        views(r@) == views(maps@),
{
    let mut out: Vec<Mapping> = Vec::new();
    while out.len() < maps.len()
        invariant
            out@.len() <= maps@.len(),
            views(out@) =~= views(maps@).take(out@.len() as int),
        decreases maps@.len() - out@.len(),
    {
        let ghost before = out@;
        out.push(maps[out.len()].duplicate());
        assert(views(out@) =~= views(before).push(views(maps@)[before.len() as int]));
    }
    assert(views(maps@).take(out@.len() as int) =~= views(maps@));
    out
}

/// Where code stands: in a file, or in memory with no file behind it.
#[derive(Debug, PartialEq, Eq)]
pub enum CodeLocation<'maps> {
    File { path: &'maps str, offset: u64 },
    Anonymous,
}

pub enum LocationView {
    File { path: Seq<char>, offset: u64 },
    Anonymous,
}

impl<'maps> View for CodeLocation<'maps> {
    type V = LocationView;

    open spec fn view(&self) -> LocationView {
        match self {
            CodeLocation::File { path, offset } => LocationView::File {
                path: path@,
                offset: *offset,
            },
            CodeLocation::Anonymous => LocationView::Anonymous,
        }
    }
}

/// A hexadecimal number of 64 bits.
pub open spec fn hex_number(s: Seq<char>) -> Option<u64> {
    match text::unsigned_value(s, 16, u64::MAX as int) {
        Ok(n) => Some(n as u64),
        Err(_) => None,
    }
}

fn read_hex(s: &[char]) -> (r: Option<u64>)
    ensures
        r == hex_number(s@),
{
    match read_unsigned(s, 16, u64::MAX) {
        Ok(n) => Some(n),
        Err(_) => None,
    }
}

/// Whether the third byte of a permission field is an `x`.
pub open spec fn marks_executable(perms: Seq<char>) -> bool {
    let bytes = vstd::utf8::encode_utf8(perms);
    bytes.len() > 2 && bytes[2] == 0x78
}

/// What a line of a process's map says: the range, the permissions, the file
/// offset, two fields that nothing needs, and the path, whose words are joined
/// by single spaces.
pub open spec fn mapping_of(line: Seq<char>) -> Option<MappingView> {
    let fields = text::words_of(line);
    if fields.len() < 5 {
        None
    } else {
        match (hex_number(fields[2]), text::cut_at(fields[0], '-')) {
            (Some(pgoff), Some(range)) => match (hex_number(range.0), hex_number(range.1)) {
                (Some(start), Some(end)) => Some(
                    MappingView {
                        start,
                        end,
                        pgoff,
                        path: if fields.len() == 5 {
                            None
                        } else {
                            Some(text::joined(fields.skip(5), seq![' ']))
                        },
                        executable: marks_executable(fields[1]),
                    },
                ),
                _ => None,
            },
            _ => None,
        }
    }
}

/// Parses a line of a process's map. Malformed lines are skipped.
pub fn parse_line(line: &str) -> (r: Option<Mapping>)
    ensures
        r is Some <==> mapping_of(line@) is Some,
        r matches Some(mapping) ==> mapping_of(line@) == Some(mapping@),
{
    let chars = chars_of(line);
    parse_chars(&chars)
}

fn parse_chars(line: &[char]) -> (r: Option<Mapping>)
    ensures
        r is Some <==> mapping_of(line@) is Some,
        r matches Some(mapping) ==> mapping_of(line@) == Some(mapping@),
{
    let fields = words(line);
    let ghost all = text::words_of(line@);
    assert(all.len() == fields@.len());
    assert forall|i: int| 0 <= i < all.len() implies all[i] == (#[trigger] fields@[i])@ by {
        assert(all[i] == text::contents(fields@)[i]);
    }
    if fields.len() < 5 {
        return None;
    }
    let pgoff: u64 = match read_hex(fields[2]) {
        Some(pgoff) => pgoff,
        None => return None,
    };
    let (from, to) = match cut_once(fields[0], '-') {
        Some(range) => range,
        None => return None,
    };
    let (start, end) = match (read_hex(from), read_hex(to)) {
        (Some(start), Some(end)) => (start, end),
        _ => return None,
    };
    let path = if fields.len() == 5 {
        None
    } else {
        let rest = slice_subrange(fields.as_slice(), 5, fields.len());
        assert(text::contents(rest@) =~= all.skip(5));
        Some(string_of(&join_words(rest)))
    };
    let perms = string_of(fields[1]);
    let bytes = perms.as_str().as_bytes();
    let executable = bytes.len() > 2 && bytes[2] == 0x78;
    Some(Mapping { start, end, pgoff, path, executable })
}

/// The mappings of lines, without the lines that are malformed.
pub open spec fn mappings_in(lines: Seq<Seq<char>>) -> Seq<MappingView>
    decreases lines.len(),
{
    if lines.len() == 0 {
        Seq::empty()
    } else {
        let before = mappings_in(lines.drop_last());
        match mapping_of(lines.last()) {
            Some(mapping) => before.push(mapping),
            None => before,
        }
    }
}

/// Parses a process's map.
pub fn parse_maps(text: &str) -> (r: Vec<Mapping>)
    ensures
        views(r@) == mappings_in(text::lines_of(text@)),
{
    let chars = chars_of(text);
    let all = lines(&chars);
    let ghost held = text::contents(all@);
    let mut out: Vec<Mapping> = Vec::new();
    let mut i: usize = 0;
    assert(views(out@) =~= mappings_in(held.take(0)));
    while i < all.len()
        invariant
            i <= all@.len(),
            held == text::contents(all@),
            views(out@) == mappings_in(held.take(i as int)),
        decreases all@.len() - i,
    {
        assert(held.take(i + 1).drop_last() =~= held.take(i as int));
        let ghost before = out@;
        if let Some(mapping) = parse_chars(all[i]) {
            out.push(mapping);
            assert(views(out@) =~= views(before).push(mapping@));
        }
        i += 1;
    }
    assert(held.take(i as int) =~= held);
    out
}

/// The address that a file offset has inside one mapping.
pub open spec fn address_in(mapping: MappingView, file_offset: u64) -> Option<u64> {
    if mapping.start <= mapping.end && mapping.pgoff <= file_offset && file_offset - mapping.pgoff
        < mapping.end - mapping.start {
        Some((mapping.start + (file_offset - mapping.pgoff)) as u64)
    } else {
        None
    }
}

/// The address of a file offset, from the first mapping of the file that
/// holds it.
pub open spec fn address_of(maps: Seq<MappingView>, path: Seq<char>, file_offset: u64) -> Option<u64>
    decreases maps.len(),
{
    if maps.len() == 0 {
        None
    } else if maps[0].path == Some(path) && address_in(maps[0], file_offset) is Some {
        address_in(maps[0], file_offset)
    } else {
        address_of(maps.skip(1), path, file_offset)
    }
}

/// A shared library is mapped as several segments, each covering a different
/// slice of the file, so the offset has to be matched against the segment that
/// actually contains it rather than against the first mapping of the path.
pub fn runtime_address(maps: &[Mapping], path: &str, file_offset: u64) -> (r: Option<u64>)
    ensures
        r == address_of(views(maps@), path@, file_offset),
{
    let ghost all = views(maps@);
    let mut i: usize = 0;
    assert(all.skip(0) =~= all);
    while i < maps.len()
        invariant
            i <= maps@.len(),
            all == views(maps@),
            address_of(all, path@, file_offset) == address_of(
                all.skip(i as int),
                path@,
                file_offset,
            ),
        decreases maps@.len() - i,
    {
        assert(all.skip(i as int).skip(1) =~= all.skip(i + 1));
        let mapping = &maps[i];
        if mapping.is_of(path) && mapping.start <= mapping.end && mapping.pgoff <= file_offset
            && file_offset - mapping.pgoff < mapping.end - mapping.start {
            return Some(mapping.start + (file_offset - mapping.pgoff));
        }
        i += 1;
    }
    None
}

/// Whether code runs at an address of a mapping.
pub open spec fn runs_at(mapping: MappingView, addr: u64) -> bool {
    mapping.executable && mapping.start <= addr < mapping.end
}

/// What an address of a mapping is, unless its file offset is out of range.
pub open spec fn location_in(mapping: MappingView, addr: u64) -> Option<LocationView> {
    match mapping.path {
        None => Some(LocationView::Anonymous),
        Some(path) => if addr - mapping.start + mapping.pgoff > u64::MAX {
            None
        } else {
            Some(
                LocationView::File { path, offset: (addr - mapping.start + mapping.pgoff) as u64 },
            )
        },
    }
}

/// What the code at an address is, from the first mapping that runs there.
pub open spec fn location_of(maps: Seq<MappingView>, addr: u64) -> Option<LocationView>
    decreases maps.len(),
{
    if maps.len() == 0 {
        None
    } else if runs_at(maps[0], addr) {
        location_in(maps[0], addr)
    } else {
        location_of(maps.skip(1), addr)
    }
}

/// The inverse of `runtime_address`. Returns the full path rather than a
/// basename, because turning the offset into a virtual address needs the
/// file's own program headers.
#[must_use]
pub fn describe_code<'maps>(maps: &'maps [Mapping], addr: u64) -> (r: Option<CodeLocation<'maps>>)
    ensures
        r is Some <==> location_of(views(maps@), addr) is Some,
        r matches Some(location) ==> location_of(views(maps@), addr) == Some(location@),
{
    let ghost all = views(maps@);
    let mut i: usize = 0;
    assert(all.skip(0) =~= all);
    while i < maps.len()
        invariant
            i <= maps@.len(),
            all == views(maps@),
            location_of(all, addr) == location_of(all.skip(i as int), addr),
        decreases maps@.len() - i,
    {
        assert(all.skip(i as int).skip(1) =~= all.skip(i + 1));
        let mapping = &maps[i];
        if mapping.executable && mapping.start <= addr && addr < mapping.end {
            return match &mapping.path {
                None => Some(CodeLocation::Anonymous),
                Some(path) => match (addr - mapping.start).checked_add(mapping.pgoff) {
                    None => None,
                    Some(offset) => Some(CodeLocation::File { path: path.as_str(), offset }),
                },
            };
        }
        i += 1;
    }
    None
}

proof fn lemma_address_of(maps: Seq<MappingView>, path: Seq<char>, file_offset: u64, i: int)
    requires
        0 <= i < maps.len(),
        maps[i].path == Some(path),
        address_in(maps[i], file_offset) is Some,
        forall|j: int|
            0 <= j < i && (#[trigger] maps[j]).path == Some(path) ==> address_in(
                maps[j],
                file_offset,
            ) is None || address_in(maps[j], file_offset) == address_in(maps[i], file_offset),
    ensures
        address_of(maps, path, file_offset) == address_in(maps[i], file_offset),
    decreases i,
{
    if i > 0 {
        let rest = maps.skip(1);
        assert forall|j: int|
            0 <= j < i - 1 && (#[trigger] rest[j]).path == Some(path) implies address_in(
            rest[j],
            file_offset,
        ) is None || address_in(rest[j], file_offset) == address_in(rest[i - 1], file_offset) by {
            assert(maps[j + 1].path == Some(path));
        }
        lemma_address_of(rest, path, file_offset, i - 1);
    }
}

proof fn lemma_location_of(maps: Seq<MappingView>, addr: u64, i: int)
    requires
        0 <= i < maps.len(),
        runs_at(maps[i], addr),
        forall|j: int|
            0 <= j < i && runs_at(#[trigger] maps[j], addr) ==> location_in(maps[j], addr)
                == location_in(maps[i], addr),
    ensures
        location_of(maps, addr) == location_in(maps[i], addr),
    decreases i,
{
    if i > 0 {
        let rest = maps.skip(1);
        assert forall|j: int| 0 <= j < i - 1 && runs_at(#[trigger] rest[j], addr) implies
            location_in(rest[j], addr) == location_in(rest[i - 1], addr) by {
            assert(runs_at(maps[j + 1], addr));
        }
        lemma_location_of(rest, addr, i - 1);
    }
}

/// Code at an address is described by the first executable mapping around it:
/// as far into the file as the address is into the mapping, beyond where the
/// mapping begins in the file, or as memory with no file behind it.
pub proof fn lemma_code_is_described_by_its_mapping(maps: Seq<MappingView>, addr: u64, i: int)
    requires
        0 <= i < maps.len(),
        maps[i].executable,
        maps[i].start <= addr < maps[i].end,
        forall|j: int|
            0 <= j < i ==> !((#[trigger] maps[j]).executable && maps[j].start <= addr
                < maps[j].end),
    ensures
        maps[i].path is None ==> location_of(maps, addr) == Some(LocationView::Anonymous),
        maps[i].path matches Some(path) ==> location_of(maps, addr) == if addr - maps[i].start
            + maps[i].pgoff <= u64::MAX {
            Some(
                LocationView::File { path, offset: (addr - maps[i].start + maps[i].pgoff) as u64 },
            )
        } else {
            None
        },
{
    assert forall|j: int| 0 <= j < i && runs_at(#[trigger] maps[j], addr) implies location_in(
        maps[j],
        addr,
    ) == location_in(maps[i], addr) by {
        assert(!(maps[j].executable && maps[j].start <= addr < maps[j].end));
    }
    lemma_location_of(maps, addr, i);
}

/// An address that no executable mapping holds is no code.
pub proof fn lemma_no_code_outside_executable_mappings(maps: Seq<MappingView>, addr: u64)
    requires
        forall|j: int|
            0 <= j < maps.len() ==> !((#[trigger] maps[j]).executable && maps[j].start <= addr
                < maps[j].end),
    ensures
        location_of(maps, addr) is None,
    decreases maps.len(),
{
    if maps.len() > 0 {
        assert(!(maps[0].executable && maps[0].start <= addr < maps[0].end));
        let rest = maps.skip(1);
        assert forall|j: int| 0 <= j < rest.len() implies !((#[trigger] rest[j]).executable
            && rest[j].start <= addr < rest[j].end) by {
            assert(rest[j] == maps[j + 1]);
        }
        lemma_no_code_outside_executable_mappings(rest, addr);
    }
}

/// A file offset stands at the address that the first mapping of the file
/// around it gives it, whatever the mapping's permissions.
pub proof fn lemma_offset_stands_in_its_mapping(
    maps: Seq<MappingView>,
    path: Seq<char>,
    file_offset: u64,
    i: int,
)
    requires
        0 <= i < maps.len(),
        maps[i].path == Some(path),
        maps[i].pgoff <= file_offset,
        file_offset - maps[i].pgoff < maps[i].end - maps[i].start,
        forall|j: int|
            0 <= j < i ==> !((#[trigger] maps[j]).path == Some(path) && maps[j].pgoff <= file_offset
                && file_offset - maps[j].pgoff < maps[j].end - maps[j].start),
    ensures
        address_of(maps, path, file_offset) == Some(
            (maps[i].start + (file_offset - maps[i].pgoff)) as u64,
        ),
{
    assert forall|j: int| 0 <= j < i && (#[trigger] maps[j]).path == Some(path) implies address_in(
        maps[j],
        file_offset,
    ) is None || address_in(maps[j], file_offset) == address_in(maps[i], file_offset) by {
        assert(!(maps[j].path == Some(path) && maps[j].pgoff <= file_offset && file_offset
            - maps[j].pgoff < maps[j].end - maps[j].start));
    }
    lemma_address_of(maps, path, file_offset, i);
}

/// A file offset that no mapping of the file holds has no address.
pub proof fn lemma_unmapped_offset_has_no_address(
    maps: Seq<MappingView>,
    path: Seq<char>,
    file_offset: u64,
)
    requires
        forall|j: int|
            0 <= j < maps.len() ==> !((#[trigger] maps[j]).path == Some(path) && maps[j].pgoff
                <= file_offset && file_offset - maps[j].pgoff < maps[j].end - maps[j].start),
    ensures
        address_of(maps, path, file_offset) is None,
    decreases maps.len(),
{
    if maps.len() > 0 {
        assert(!(maps[0].path == Some(path) && maps[0].pgoff <= file_offset && file_offset
            - maps[0].pgoff < maps[0].end - maps[0].start));
        let rest = maps.skip(1);
        assert forall|j: int| 0 <= j < rest.len() implies !((#[trigger] rest[j]).path == Some(path)
            && rest[j].pgoff <= file_offset && file_offset - rest[j].pgoff < rest[j].end
            - rest[j].start) by {
            assert(rest[j] == maps[j + 1]);
        }
        lemma_unmapped_offset_has_no_address(rest, path, file_offset);
    }
}

/// A file offset leads to an address that is described as that offset of that
/// file, as long as the mapping that holds both is executable and is the one
/// that either search finds.
pub proof fn lemma_offset_and_code_round_trip(
    maps: Seq<MappingView>,
    path: Seq<char>,
    file_offset: u64,
    i: int,
)
    requires
        0 <= i < maps.len(),
        maps[i].path == Some(path),
        maps[i].executable,
        address_in(maps[i], file_offset) is Some,
        forall|j: int|
            0 <= j < i && (#[trigger] maps[j]).path == Some(path) ==> address_in(
                maps[j],
                file_offset,
            ) is None || address_in(maps[j], file_offset) == address_in(maps[i], file_offset),
        forall|j: int|
            0 <= j < i && runs_at(#[trigger] maps[j], address_in(maps[i], file_offset)->0)
                ==> location_in(maps[j], address_in(maps[i], file_offset)->0) == Some(
                LocationView::File { path, offset: file_offset },
            ),
    ensures
        address_of(maps, path, file_offset) is Some,
        location_of(maps, address_of(maps, path, file_offset)->0) == Some(
            LocationView::File { path, offset: file_offset },
        ),
{
    lemma_address_of(maps, path, file_offset, i);
    lemma_location_of(maps, address_in(maps[i], file_offset)->0, i);
}

/// Code that is described as an offset of a file is found at the address of
/// that offset, as long as the mapping that holds both is the one that either
/// search finds.
pub proof fn lemma_code_and_offset_round_trip(
    maps: Seq<MappingView>,
    path: Seq<char>,
    offset: u64,
    addr: u64,
    i: int,
)
    requires
        0 <= i < maps.len(),
        runs_at(maps[i], addr),
        location_in(maps[i], addr) == Some(LocationView::File { path, offset }),
        forall|j: int|
            0 <= j < i && runs_at(#[trigger] maps[j], addr) ==> location_in(maps[j], addr)
                == location_in(maps[i], addr),
        forall|j: int|
            0 <= j < i && (#[trigger] maps[j]).path == Some(path) ==> address_in(
                maps[j],
                offset,
            ) is None || address_in(maps[j], offset) == Some(addr),
    ensures
        location_of(maps, addr) == Some(LocationView::File { path, offset }),
        address_of(maps, path, offset) == Some(addr),
{
    lemma_location_of(maps, addr, i);
    lemma_address_of(maps, path, offset, i);
}

/// The mappings of lines are those of each line, in order.
pub proof fn lemma_every_line_is_read(a: Seq<Seq<char>>, b: Seq<Seq<char>>)
    ensures
        mappings_in(a + b) == mappings_in(a) + mappings_in(b),
        forall|line: Seq<char>|
            mappings_in(#[trigger] seq![line]) == match mapping_of(line) {
                Some(mapping) => seq![mapping],
                None => Seq::empty(),
            },
    decreases b.len(),
{
    assert forall|line: Seq<char>| mappings_in(#[trigger] seq![line]) == match mapping_of(line) {
        Some(mapping) => seq![mapping],
        None => Seq::empty(),
    } by {
        assert(seq![line].drop_last() =~= Seq::empty());
        assert(mappings_in(Seq::empty()) =~= Seq::empty());
        assert(mappings_in(seq![line]) =~= match mapping_of(line) {
            Some(mapping) => seq![mapping],
            None => Seq::empty(),
        });
    }
    if b.len() == 0 {
        assert(a + b =~= a);
    } else {
        lemma_every_line_is_read(a, b.drop_last());
        assert((a + b).drop_last() =~= a + b.drop_last());
    }
    assert(mappings_in(a + b) =~= mappings_in(a) + mappings_in(b));
}

/// A line of a map with a range, permissions, a file offset, a device, an inode
/// and perhaps a path is read as those say. The numbers are hexadecimal, of any
/// width, and the mapping is executable where the third permission is an `x`.
pub proof fn lemma_map_line_is_read(
    from: Seq<char>,
    to: Seq<char>,
    perms: Seq<char>,
    off: Seq<char>,
    device: Seq<char>,
    inode: Seq<char>,
    rest: Seq<char>,
    start: u64,
    end: u64,
    pgoff: u64,
)
    requires
        text::unsigned_value(from, 16, u64::MAX as int) == Ok::<int, text::IntFault>(start as int),
        text::unsigned_value(to, 16, u64::MAX as int) == Ok::<int, text::IntFault>(end as int),
        text::unsigned_value(off, 16, u64::MAX as int) == Ok::<int, text::IntFault>(pgoff as int),
        !from.contains('-'),
        forall|i: int| 0 <= i < from.len() ==> !text::space(#[trigger] from[i]),
        forall|i: int| 0 <= i < to.len() ==> !text::space(#[trigger] to[i]),
        forall|i: int| 0 <= i < off.len() ==> !text::space(#[trigger] off[i]),
        perms.len() > 2,
        vstd::utf8::is_ascii_chars(perms),
        forall|i: int| 0 <= i < perms.len() ==> !text::space(#[trigger] perms[i]),
        device.len() > 0,
        forall|i: int| 0 <= i < device.len() ==> !text::space(#[trigger] device[i]),
        inode.len() > 0,
        forall|i: int| 0 <= i < inode.len() ==> !text::space(#[trigger] inode[i]),
    ensures
        mapping_of(
            (from + seq!['-'] + to).push(' ') + (perms.push(' ') + (off.push(' ') + (device.push(
                ' ',
            ) + (inode.push(' ') + rest)))),
        ) == Some(
            MappingView {
                start,
                end,
                pgoff,
                path: if text::words_of(rest).len() == 0 {
                    None
                } else {
                    Some(text::joined(text::words_of(rest), seq![' ']))
                },
                executable: perms[2] == 'x',
            },
        ),
{
    let range = from + seq!['-'] + to;
    let five = inode.push(' ') + rest;
    let four = device.push(' ') + five;
    let three = off.push(' ') + four;
    let two = perms.push(' ') + three;
    let line = range.push(' ') + two;
    assert forall|i: int| 0 <= i < range.len() implies !text::space(#[trigger] range[i]) by {
        if i < from.len() {
            assert(range[i] == from[i]);
        } else if i > from.len() {
            assert(range[i] == to[i - from.len() - 1]);
        }
    }
    text::lemma_words_part_at_spaces(range, ' ', two);
    text::lemma_words_part_at_spaces(perms, ' ', three);
    text::lemma_words_part_at_spaces(off, ' ', four);
    text::lemma_words_part_at_spaces(device, ' ', five);
    text::lemma_words_part_at_spaces(inode, ' ', rest);
    text::lemma_word(range);
    text::lemma_word(perms);
    text::lemma_word(off);
    text::lemma_word(device);
    text::lemma_word(inode);
    let fields = text::words_of(line);
    assert(fields =~= seq![range, perms, off, device, inode] + text::words_of(rest));
    assert(fields.skip(5) =~= text::words_of(rest));
    assert forall|i: int| 0 <= i < from.len() implies range[i] != '-' by {
        assert(from.contains(from[i]));
    }
    text::lemma_first_at(range, '-', from.len() as int);
    assert(range.take(from.len() as int) =~= from);
    assert(range.skip(from.len() as int + 1) =~= to);
    vstd::utf8::is_ascii_chars_encode_utf8(perms);
    assert(marks_executable(perms) == (perms[2] == 'x'));
}

} // verus!
