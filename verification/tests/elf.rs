use benzened::artifact::{function_offsets, load_module, module_paths};
use benzened::command::Location;
use benzened::elf::{
    build_id_from_notes, entries_in, file_offset_to_vaddr, segments_from_head,
    vaddr_to_file_offset, Elf, Segment, IFUNC_REFUSAL, PN_XNUM, PT_GNU_EH_FRAME, PT_LOAD, PT_NOTE,
    SHF_COMPRESSED, SHN_UNDEF, SHT_NOBITS, STT_GNU_IFUNC,
};
use benzened::fault::{ElfPart, Fault, Kind};
use benzened::groups::Group;
use benzened::probes::ProbeSpec;
use benzened::symbolizer::{load_library, Warning};
use benzened::target::{place_address, probe_site, site_location, site_offset};

fn words(fault: &Fault) -> (Kind, &str) {
    match fault {
        Fault::Told { kind, text } => (*kind, text.as_str()),
        other => panic!("not in words: {other:?}"),
    }
}

fn part(fault: &Fault) -> ElfPart {
    match fault {
        Fault::Elf { part, .. } => *part,
        other => panic!("not the reader's: {other:?}"),
    }
}

struct Table<'a> {
    name: &'a str,
    kind: u32,
    addr: u64,
    link: u32,
    entsize: u64,
    data: Vec<u8>,
}

fn table(name: &str, kind: u32, addr: u64, link: u32, entsize: u64, data: Vec<u8>) -> Table<'_> {
    Table { name, kind, addr, link, entsize, data }
}

/// A little-endian 64-bit object with these program headers and sections, and
/// a table of section names at the end.
fn object(headers: &[(u32, u64, u64, u64)], sections: Vec<Table<'_>>) -> Vec<u8> {
    let mut image = vec![0_u8; 64];
    image[..4].copy_from_slice(b"\x7fELF");
    image[4] = 2;
    image[5] = 1;
    image[6] = 1;
    image[16..18].copy_from_slice(&3_u16.to_le_bytes());
    image[18..20].copy_from_slice(&183_u16.to_le_bytes());
    image[20..24].copy_from_slice(&1_u32.to_le_bytes());
    if !headers.is_empty() {
        image[32..40].copy_from_slice(&64_u64.to_le_bytes());
    }
    image[52..54].copy_from_slice(&64_u16.to_le_bytes());
    image[54..56].copy_from_slice(&56_u16.to_le_bytes());
    image[56..58].copy_from_slice(&(headers.len() as u16).to_le_bytes());
    for (kind, offset, vaddr, filesz) in headers {
        let mut header = vec![0_u8; 56];
        header[..4].copy_from_slice(&kind.to_le_bytes());
        header[8..16].copy_from_slice(&offset.to_le_bytes());
        header[16..24].copy_from_slice(&vaddr.to_le_bytes());
        header[32..40].copy_from_slice(&filesz.to_le_bytes());
        image.extend_from_slice(&header);
    }
    let mut names = vec![0_u8];
    let mut placed = Vec::new();
    for section in &sections {
        let name_at = names.len() as u32;
        names.extend_from_slice(section.name.as_bytes());
        names.push(0);
        let at = image.len() as u64;
        image.extend_from_slice(&section.data);
        placed.push((name_at, section.kind, section.addr, at, section.data.len() as u64, section.link, section.entsize));
    }
    let name_at = names.len() as u32;
    names.extend_from_slice(b".shstrtab\0");
    let at = image.len() as u64;
    image.extend_from_slice(&names);
    placed.push((name_at, 3, 0, at, names.len() as u64, 0, 0));
    let table_at = image.len() as u64;
    image[40..48].copy_from_slice(&table_at.to_le_bytes());
    image[58..60].copy_from_slice(&64_u16.to_le_bytes());
    image[60..62].copy_from_slice(&(placed.len() as u16 + 1).to_le_bytes());
    image[62..64].copy_from_slice(&(placed.len() as u16).to_le_bytes());
    image.extend_from_slice(&[0_u8; 64]);
    for (name, kind, addr, offset, size, link, entsize) in placed {
        let mut header = vec![0_u8; 64];
        header[..4].copy_from_slice(&name.to_le_bytes());
        header[4..8].copy_from_slice(&kind.to_le_bytes());
        header[16..24].copy_from_slice(&addr.to_le_bytes());
        header[24..32].copy_from_slice(&offset.to_le_bytes());
        header[32..40].copy_from_slice(&size.to_le_bytes());
        header[40..44].copy_from_slice(&link.to_le_bytes());
        header[48..56].copy_from_slice(&1_u64.to_le_bytes());
        header[56..64].copy_from_slice(&entsize.to_le_bytes());
        image.extend_from_slice(&header);
    }
    image
}

fn symbol(name: u32, info: u8, section: u16, value: u64) -> Vec<u8> {
    let mut out = Vec::new();
    out.extend_from_slice(&name.to_le_bytes());
    out.push(info);
    out.push(0);
    out.extend_from_slice(&section.to_le_bytes());
    out.extend_from_slice(&value.to_le_bytes());
    out.extend_from_slice(&0_u64.to_le_bytes());
    out
}

fn unwind(count: u32, entries: &[i32]) -> Vec<u8> {
    let mut out = vec![1, 0x1B, 0x03, 0x3B, 0, 0, 0, 0];
    out.extend_from_slice(&count.to_le_bytes());
    for entry in entries {
        out.extend_from_slice(&entry.to_le_bytes());
        out.extend_from_slice(&0_i32.to_le_bytes());
    }
    out
}

const LOADS: [(u32, u64, u64, u64); 2] =
    [(PT_LOAD, 0, 0x10_000, 0x1000), (PT_LOAD, 0x1000, 0x22_000, 0x800)];

fn library() -> Vec<u8> {
    // Names at 1 "hit", 5 "imported", 14 "resolver", 23 "far".
    let strings = b"\0hit\0imported\0resolver\0far\0only\0".to_vec();
    let mut dynamic = symbol(0, 0, 0, 0);
    dynamic.extend(symbol(5, 0x12, 0, 0x10_100));
    dynamic.extend(symbol(1, 0x12, 1, 0x10_400));
    dynamic.extend(symbol(14, 0x1A, 1, 0x10_500));
    dynamic.extend(symbol(23, 0x12, 1, 0x90_000));
    let mut full = symbol(0, 0, 0, 0);
    full.extend(symbol(1, 0x12, 1, 0x10_999));
    full.extend(symbol(27, 0x12, 1, 0x22_010));
    object(
        &LOADS,
        vec![
            table(".dynsym", 11, 0, 2, 24, dynamic),
            table(".dynstr", 3, 0, 0, 0, strings.clone()),
            table(".symtab", 2, 0, 4, 24, full),
            table(".strtab", 3, 0, 0, 0, strings),
            table(".eh_frame_hdr", 1, 0x10_800, 0, 0, unwind(3, &[0x100, -0x100, 0x100])),
        ],
    )
}

#[test]
fn program_headers_are_readable_without_the_section_table() {
    let mut head = vec![0_u8; 0x400];
    head[..4].copy_from_slice(b"\x7fELF");
    head[4] = 2; // ELFCLASS64
    head[5] = 1; // little endian
    head[0x20..0x28].copy_from_slice(&0x40_u64.to_le_bytes()); // e_phoff
    head[0x36..0x38].copy_from_slice(&56_u16.to_le_bytes()); // e_phentsize
    head[0x38..0x3A].copy_from_slice(&2_u16.to_le_bytes()); // e_phnum

    let mut put = |at: usize, kind: u32, off: u64, vaddr: u64, filesz: u64| {
        head[at..at + 4].copy_from_slice(&kind.to_le_bytes());
        head[at + 8..at + 16].copy_from_slice(&off.to_le_bytes());
        head[at + 16..at + 24].copy_from_slice(&vaddr.to_le_bytes());
        head[at + 32..at + 40].copy_from_slice(&filesz.to_le_bytes());
    };
    put(0x40, PT_LOAD, 0, 0, 0x7_BA78);
    put(0x78, PT_LOAD, 0x7_BA80, 0x7_FA80, 0x9_4028);

    let segments = segments_from_head(&head).unwrap();
    assert_eq!(segments.len(), 2);
    // The address a real caller landed at, which resolved to nothing before.
    assert_eq!(file_offset_to_vaddr(&segments, 0x10_D1E4), Some(0x11_11E4));
}

#[test]
fn a_build_id_is_found_past_zero_padding() {
    let mut notes = vec![0_u8; 152];
    notes.extend_from_slice(&[0x04, 0x00, 0x00, 0x00]); // namesz
    notes.extend_from_slice(&[0x14, 0x00, 0x00, 0x00]); // descsz
    notes.extend_from_slice(&[0x03, 0x00, 0x00, 0x00]); // NT_GNU_BUILD_ID
    notes.extend_from_slice(b"GNU\0");
    notes.extend_from_slice(&[
        0x1A, 0xE6, 0xB6, 0xD6, 0x03, 0xE8, 0x6A, 0xB8, 0x1F, 0xD2, 0xD7, 0x95, 0x9A, 0xBF, 0x34,
        0x46, 0x1E, 0x7D, 0xBA, 0x9B,
    ]);

    assert_eq!(
        build_id_from_notes(&notes).unwrap(),
        "1ae6b6d603e86ab81fd2d7959abf34461e7dba9b"
    );
    assert!(build_id_from_notes(&[0_u8; 188]).is_none());
}

#[test]
fn an_offset_and_a_virtual_address_round_trip_through_each_other() {
    let segments = [
        Segment { offset: 0x0, vaddr: 0x0, filesz: 0x1000 },
        Segment { offset: 0x1000, vaddr: 0x1_2000, filesz: 0x800 },
    ];

    let vaddr = 0x1_2400_u64;
    let offset = vaddr_to_file_offset(&segments, vaddr).unwrap();
    assert_eq!(offset, 0x1400_u64);
    assert_ne!(offset, vaddr, "the fixture must not let the two coincide");
    assert_eq!(file_offset_to_vaddr(&segments, offset), Some(vaddr));

    // Past every segment there is nothing to name, so a caller keeps the raw
    // offset rather than being reported as an address that does not exist.
    assert_eq!(file_offset_to_vaddr(&segments, 0x9000), None);
    assert_eq!(vaddr_to_file_offset(&segments, 0x9_0000), None);
}

#[test]
fn segments_at_the_end_of_the_range_are_skipped() {
    let over = Segment { offset: 0, vaddr: u64::MAX - 4, filesz: 8 };
    let good = Segment { offset: 0x10, vaddr: u64::MAX - 4, filesz: 4 };
    assert_eq!(vaddr_to_file_offset(&[over], u64::MAX - 3), None);
    assert_eq!(vaddr_to_file_offset(&[over, good], u64::MAX - 3), Some(0x11));
    let far = Segment { offset: u64::MAX, vaddr: 0, filesz: 8 };
    assert_eq!(vaddr_to_file_offset(&[far], 0), Some(u64::MAX));
    assert_eq!(vaddr_to_file_offset(&[far], 1), None);
    assert_eq!(file_offset_to_vaddr(&[far], u64::MAX), None);
}

#[test]
fn heads_that_cannot_be_read_show_no_segments() {
    let image = library();
    let segments = segments_from_head(&image).unwrap();
    assert_eq!(segments.len(), 2);
    assert_eq!(segments[1], Segment { offset: 0x1000, vaddr: 0x22_000, filesz: 0x800 });
    assert!(segments_from_head(&[]).is_none());
    assert!(segments_from_head(&image[..0x39]).is_none());
    assert!(segments_from_head(&image[..100]).is_none());
    let mut wide = image.clone();
    wide[5] = 2;
    assert!(segments_from_head(&wide).is_none());
    let mut small = image;
    small[0x36] = 55;
    assert!(segments_from_head(&small).is_none());
}

#[test]
fn a_symbol_is_placed_through_its_segment() {
    let image = library();
    let object = Elf::parse(&image).unwrap();
    assert_eq!(object.segments().unwrap().len(), 2);
    assert_eq!(object.symbol_value("hit").unwrap(), Some((0x10_400, 2)));
    assert_eq!(object.symbol_value("imported").unwrap(), None);
    assert_eq!(object.symbol_value("only").unwrap(), Some((0x22_010, 2)));
    assert_eq!(object.probe_offset("hit").unwrap(), 0x400);
    assert_eq!(object.probe_offset("only").unwrap(), 0x1010);
    assert_eq!(
        words(&object.probe_offset("missing").unwrap_err()),
        (Kind::InvalidData, "symbol not found")
    );
    assert_eq!(
        words(&object.probe_offset("resolver").unwrap_err()),
        (Kind::InvalidData, IFUNC_REFUSAL)
    );
    assert_eq!(
        words(&object.probe_offset("far").unwrap_err()),
        (Kind::InvalidData, "symbol is not inside any PT_LOAD segment")
    );
}

#[test]
fn what_is_no_object_is_refused() {
    assert_eq!(part(&Elf::parse(b"not an object").unwrap_err()), ElfPart::Object);
    let bare = object(&[], vec![]);
    let parsed = Elf::parse(&bare).unwrap();
    assert_eq!(
        words(&parsed.segments().unwrap_err()),
        (Kind::InvalidData, "no program headers")
    );
    assert_eq!(
        words(&parsed.function_entries().unwrap_err()),
        (Kind::InvalidData, "no .eh_frame_hdr, so functions cannot be enumerated")
    );
    assert_eq!(parsed.build_id(), None);
    assert_eq!(parsed.symbol_value("x").unwrap(), None);

    let mut broken = library();
    let at = u64::from_le_bytes(broken[40..48].try_into().unwrap()) as usize;
    // The symbol table's section claims an entry size that no symbol has.
    broken[at + 64 + 56..at + 64 + 64].copy_from_slice(&7_u64.to_le_bytes());
    let parsed = Elf::parse(&broken).unwrap();
    assert_eq!(part(&parsed.symbol_value("hit").unwrap_err()), ElfPart::Symbols);

    let mut lost = library();
    let at = u64::from_le_bytes(lost[40..48].try_into().unwrap()) as usize;
    // The unwind section lies past the end of the file.
    lost[at + 5 * 64 + 24..at + 5 * 64 + 32].copy_from_slice(&0x10_0000_u64.to_le_bytes());
    let parsed = Elf::parse(&lost).unwrap();
    assert_eq!(part(&parsed.function_entries().unwrap_err()), ElfPart::Unwind);

    let mut nameless = library();
    let at = u64::from_le_bytes(nameless[40..48].try_into().unwrap()) as usize;
    // The section names lie past the end of the file.
    nameless[at + 6 * 64 + 24..at + 6 * 64 + 32].copy_from_slice(&0x10_0000_u64.to_le_bytes());
    let parsed = Elf::parse(&nameless).unwrap();
    assert_eq!(part(&parsed.function_entries().unwrap_err()), ElfPart::Sections);
}

#[test]
fn function_entries_come_sorted_and_once() {
    let image = library();
    let object = Elf::parse(&image).unwrap();
    assert_eq!(object.function_entries().unwrap(), vec![0x10_700, 0x10_900]);
}

#[test]
fn the_constants_are_those_of_the_format() {
    assert_eq!(PT_LOAD, elf::abi::PT_LOAD);
    assert_eq!(PT_NOTE, elf::abi::PT_NOTE);
    assert_eq!(PT_GNU_EH_FRAME, elf::abi::PT_GNU_EH_FRAME);
    assert_eq!(SHN_UNDEF, elf::abi::SHN_UNDEF);
    assert_eq!(STT_GNU_IFUNC, elf::abi::STT_GNU_IFUNC);
    assert_eq!(SHT_NOBITS, elf::abi::SHT_NOBITS);
    assert_eq!(SHF_COMPRESSED, u64::from(elf::abi::SHF_COMPRESSED));
}

#[test]
fn a_symbol_whose_name_cannot_be_read_has_an_empty_one() {
    // Names at 1 "\u{e9}", 4 two bytes that are no text, 7 one without an end.
    let strings = b"\0\xC3\xA9\0\xFF\xFE\0tail".to_vec();
    let named = |at: u32| {
        let mut entries = symbol(0, 0, 0, 0);
        entries.extend(symbol(at, 0x12, 1, 0x10_400));
        object(
            &LOADS,
            vec![
                table(".dynsym", 11, 0, 2, 24, entries),
                table(".dynstr", 3, 0, 0, 0, strings.clone()),
            ],
        )
    };
    let found = |at: u32, name: &str| {
        let image = named(at);
        let value = Elf::parse(&image).unwrap().symbol_value(name).unwrap();
        value.is_some()
    };
    assert!(found(1, "\u{e9}"));
    assert!(!found(1, ""));
    assert!(found(3, ""));
    assert!(found(4, "") && !found(4, "\u{ff}"));
    assert!(found(7, "") && !found(7, "tail"));
    assert!(found(99, ""));
}

#[test]
fn both_readers_find_the_same_segments() {
    for image in [library(), object(&LOADS, vec![]), object(&[(PT_NOTE, 0, 0, 0)], vec![])] {
        let segments = Elf::parse(&image).unwrap().segments().unwrap();
        assert_eq!(segments_from_head(&image), Some(segments));
    }
    let mut mixed = LOADS.to_vec();
    mixed.insert(1, (PT_NOTE, 1, 2, 3));
    mixed.push((PT_LOAD, 7, 8, 9));
    let image = object(&mixed, vec![]);
    let segments = Elf::parse(&image).unwrap().segments().unwrap();
    assert_eq!(segments.len(), 3);
    assert_eq!(segments[2], Segment { offset: 7, vaddr: 8, filesz: 9 });
    assert_eq!(segments_from_head(&image), Some(segments));
    assert_eq!(PN_XNUM, elf::abi::PN_XNUM);
}

#[test]
fn an_unwind_section_is_cut_out_of_the_file() {
    let stored = |kind: u32| {
        object(&[], vec![table(".eh_frame_hdr", kind, 0x2000, 0, 0, unwind(1, &[0x10]))])
    };
    let image = stored(1);
    assert_eq!(Elf::parse(&image).unwrap().function_entries().unwrap(), vec![0x2010]);
    // A section without bytes in the file has nothing to read.
    let image = stored(SHT_NOBITS);
    assert_eq!(
        words(&Elf::parse(&image).unwrap().function_entries().unwrap_err()),
        (Kind::InvalidData, ".eh_frame_hdr too short")
    );
    // The section's size reaches past the end of the file.
    let mut image = stored(1);
    let at = u64::from_le_bytes(image[40..48].try_into().unwrap()) as usize;
    image[at + 64 + 32..at + 64 + 40].copy_from_slice(&0x10_0000_u64.to_le_bytes());
    assert_eq!(
        part(&Elf::parse(&image).unwrap().function_entries().unwrap_err()),
        ElfPart::Unwind
    );
}

#[test]
fn a_program_header_leads_to_the_unwind_table_first() {
    let data = unwind(2, &[8, 4]);
    let headers = [(PT_LOAD, 0, 0, 0x1000), (PT_GNU_EH_FRAME, 176, 0x5000, data.len() as u64)];
    let image = object(&headers, vec![table("unwind", 1, 0, 0, 0, data)]);
    assert_eq!(
        Elf::parse(&image).unwrap().function_entries().unwrap(),
        vec![0x5004, 0x5008]
    );
    let outside = [(PT_GNU_EH_FRAME, 0x10_0000, 0, 8)];
    let image = object(&outside, vec![]);
    assert_eq!(
        words(&Elf::parse(&image).unwrap().function_entries().unwrap_err()),
        (Kind::InvalidData, "PT_GNU_EH_FRAME lies outside the file")
    );
}

#[test]
fn unwind_tables_are_checked() {
    let text = |table: &[u8], base: u64| {
        words(&entries_in(table, base).unwrap_err()).1.to_owned()
    };
    assert_eq!(text(&[1, 0x1B, 3], 0), ".eh_frame_hdr too short");
    assert_eq!(text(&[1, 0x1B, 3, 0x3C], 0), "unsupported .eh_frame_hdr encoding");
    assert_eq!(text(&[1, 0x1B, 3, 0x3B, 0, 0, 0, 0, 0], 0), "truncated fde count");
    assert_eq!(text(&unwind(2, &[1]), 0), "truncated fde table");
    assert_eq!(text(&unwind(1, &[-1]), 0), "fde address is out of range");
    assert_eq!(text(&unwind(1, &[1]), u64::MAX), "fde address is out of range");
    assert_eq!(entries_in(&unwind(0, &[]), 9).unwrap(), Vec::<u64>::new());
    assert_eq!(entries_in(&unwind(3, &[5, 1, 5]), 9).unwrap(), vec![10, 14]);
}

fn noted() -> Vec<u8> {
    let mut notes = Vec::new();
    notes.extend_from_slice(&4_u32.to_le_bytes());
    notes.extend_from_slice(&8_u32.to_le_bytes());
    notes.extend_from_slice(&3_u32.to_le_bytes());
    notes.extend_from_slice(b"GNU\0");
    notes.extend_from_slice(&[0xAB, 0, 1, 2, 3, 4, 5, 0xFF]);
    notes
}

#[test]
fn a_build_id_is_found_through_its_segment() {
    let notes = noted();
    let headers = [(PT_NOTE, 120, 0, notes.len() as u64)];
    let image = object(&headers, vec![table("notes", 7, 0, 0, 0, notes.clone())]);
    assert_eq!(
        Elf::parse(&image).unwrap().build_id(),
        Some("ab000102030405ff".to_owned())
    );
    let outside = [(PT_NOTE, 0x10_0000, 0, 4), (PT_NOTE, 120, 0, notes.len() as u64)];
    let image = object(&outside, vec![table("notes", 7, 0, 0, 0, notes.clone())]);
    assert_eq!(Elf::parse(&image).unwrap().build_id(), None);

    let mut cut = notes.clone();
    cut.pop();
    assert_eq!(build_id_from_notes(&cut), None);
    let mut short = notes;
    short[4] = 7;
    assert_eq!(build_id_from_notes(&short), None);
}

#[test]
fn sites_are_placed_in_their_file() {
    let image = library();
    assert_eq!(site_offset("hit", &image).unwrap(), 0x400);
    assert_eq!(site_offset("0x22004", &image).unwrap(), 0x1004);
    assert_eq!(site_location("0X10"), Location::VirtualAddress(16));
    assert_eq!(site_location("16"), Location::Symbol("16".to_owned()));
    assert_eq!(site_location("0xzz"), Location::Symbol("0xzz".to_owned()));
    assert_eq!(probe_site(&Location::FileOffset(5), &[]).unwrap(), 5);
    assert_eq!(
        words(&site_offset("0x90000", &image).unwrap_err()),
        (Kind::InvalidInput, "0x90000 is not inside any PT_LOAD segment")
    );
    assert_eq!(
        part(&probe_site(&Location::Symbol("hit".to_owned()), b"").unwrap_err()),
        ElfPart::Object
    );
    assert_eq!(
        part(&probe_site(&Location::VirtualAddress(1), b"").unwrap_err()),
        ElfPart::Object
    );
    assert_eq!(
        place_address(7, &[Segment { offset: 1, vaddr: 7, filesz: 1 }]).unwrap(),
        1
    );
}

#[test]
fn libraries_are_recorded_by_what_could_be_read() {
    let image = library();
    let (whole, warning) = load_library("/lib/a.so", Some(&image), true);
    assert_eq!(whole.path, "/lib/a.so");
    assert_eq!(whole.segments.unwrap().len(), 2);
    assert_eq!(whole.entries, Some(vec![0x10_700, 0x10_900]));
    assert!(warning.is_none());

    let (head, warning) = load_library("/lib/a.so", Some(&image[..0x200]), false);
    assert_eq!(head.segments.unwrap().len(), 2);
    assert_eq!(head.entries, None);
    assert!(warning.is_none());

    let (none, warning) = load_library("/lib/a.so", None, true);
    assert!(none.segments.is_none() && none.entries.is_none() && warning.is_none());
    let (none, warning) = load_library("/lib/a.so", Some(b"x"), true);
    assert!(none.segments.is_none());
    assert!(matches!(warning, Some(Warning::Unparsed(_))));
    let (_, warning) = load_library("/lib/a.so", Some(b"x"), false);
    assert!(matches!(warning, Some(Warning::NoHead)));
    let (_, warning) = load_library("/lib/a.so", Some(&object(&[], vec![])), true);
    assert!(matches!(warning, Some(Warning::NoSegments(_))));
    let (bare, warning) = load_library("/lib/a.so", Some(&object(&LOADS, vec![])), true);
    assert!(bare.segments.is_some() && bare.entries.is_none());
    assert!(matches!(warning, Some(Warning::NoEntries(_))));
}

fn group(path: &str, offset: u64) -> Group<()> {
    let probe =
        ProbeSpec::TaskUprobe { path: path.to_owned(), offset, retprobe: false };
    Group::new(format!("at {offset}"), probe, 0)
}

#[test]
fn a_module_gathers_what_was_seen_in_its_file() {
    let mut groups = vec![group("/a", 0x400), group("/b", 1), group("/a", 0x410)];
    groups[0].record(1, 2, Some(("/c", 0x77)), Some("main\n"));
    assert_eq!(module_paths(&groups).unwrap(), vec!["/a", "/b"]);

    let image = library();
    let (module, missing) = load_module("/a", &image, &groups).unwrap();
    assert!(missing.is_none());
    assert_eq!(module.path, "/a");
    assert_eq!(module.build_id, None);
    assert_eq!(module.functions, vec![0x700, 0x900]);
    assert_eq!(module.sites.len(), 2);
    assert_eq!(module.sites[0].label, "at 1024");
    assert_eq!((module.sites[0].offset, module.sites[0].hits), (0x400, 1));
    assert_eq!(module.sites[0].callers.len(), 1);
    assert_eq!(
        (module.sites[0].callers[0].module, module.sites[0].callers[0].vaddr),
        ("/c", 0x77)
    );
    assert_eq!(module.sites[0].callers[0].count, 1);
    assert_eq!(module.sites[1].offset, 0x410);

    let (bare, missing) = load_module("/b", &object(&LOADS, vec![]), &groups).unwrap();
    assert!(bare.functions.is_empty());
    assert_eq!(
        words(&missing.unwrap()).1,
        "no .eh_frame_hdr, so functions cannot be enumerated"
    );
    assert_eq!(part(&load_module("/a", b"", &groups).unwrap_err()), ElfPart::Object);
}

#[test]
fn an_artifact_needs_files_and_groups() {
    let none: Vec<Group<()>> = Vec::new();
    assert_eq!(
        words(&module_paths(&none).unwrap_err()),
        (Kind::Other, "cannot write an artifact without a probe group")
    );
    let probe = ProbeSpec::Hardware {
        site: benzened::probes::ProbeSite::Runtime(8),
        kind: 3,
        len: 8,
    };
    let groups = vec![group("/a", 1), Group::new("x".to_owned(), probe, 0)];
    assert_eq!(
        words(&module_paths(&groups).unwrap_err()),
        (Kind::InvalidInput, "a runtime address has no ASLR-stable artifact location")
    );
    let segments = [Segment { offset: 0, vaddr: 0x10, filesz: 0x10 }];
    assert_eq!(function_offsets("/a", &[0x10, 0x1F], &segments).unwrap(), vec![0, 0xF]);
    assert_eq!(
        words(&function_offsets("/a", &[0x10, 0x20], &segments).unwrap_err()),
        (Kind::InvalidData, "function 0x20 in /a is outside every load segment")
    );
}
