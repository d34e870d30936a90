use benzened::fault::{Fault, Kind};
use benzened::maps::{
    describe_code, parse_line, parse_maps, runtime_address, CodeLocation, Mapping,
};
use benzened::elf::Segment;
use benzened::target::{
    dump_library, file_extents, list_functions, load_base, next_read, overlays, parse_address, pid_for_package,
    ppid_from_stat, resolve_library, runs_package, sidecar, task_group, task_tree, Candidate,
    Kin, Overlay, CHUNK,
};
use benzened::text::{self, IntFault};

const LIB: &str = "/apex/com.android.runtime/lib64/bionic/libc.so";

fn sample() -> Vec<Mapping> {
    [
        "77fbdda0d000-77fbdda65000 r--p 00000000 07:70 21    \
         /apex/com.android.runtime/lib64/bionic/libc.so",
        "77fbdda65000-77fbddb0d000 r-xp 00058000 07:70 21    \
         /apex/com.android.runtime/lib64/bionic/libc.so",
    ]
    .iter()
    .filter_map(|line| parse_line(line))
    .collect()
}

fn words(fault: &Fault) -> (Kind, &str) {
    match fault {
        Fault::Told { kind, text } => (*kind, text.as_str()),
        other => panic!("not in words: {other:?}"),
    }
}

fn mapping(start: u64, end: u64, pgoff: u64, path: Option<&str>, executable: bool) -> Mapping {
    Mapping { start, end, pgoff, path: path.map(str::to_owned), executable }
}

#[test]
fn offsets_and_addresses_use_the_mapping_that_actually_contains_them() {
    assert_eq!(runtime_address(&sample(), LIB, 0x5_8FC0), Some(0x77FB_DDA6_5FC0));
    assert_eq!(runtime_address(&sample(), LIB, 0x100), Some(0x77FB_DDA0_D100));
    assert_eq!(runtime_address(&sample(), LIB, 0xFFFF_FFFF), None);
    assert_eq!(
        describe_code(&sample(), 0x77FB_DDA6_5FC0),
        Some(CodeLocation::File { path: LIB, offset: 0x5_8FC0 })
    );
    assert!(describe_code(&sample(), 0x77FB_DDA0_D100).is_none());
    assert!(describe_code(&sample(), 0x1234).is_none());
    assert_eq!(runtime_address(&sample(), "/system/lib64/libfoo.so", 0x5_8FC0), None);
}

#[test]
fn lines_of_a_map_are_read_or_skipped() {
    assert_eq!(
        parse_line("10-2f r-xp 00000040 07:70 21 /data/a  b.so (deleted)"),
        Some(mapping(0x10, 0x2F, 0x40, Some("/data/a b.so (deleted)"), true))
    );
    assert_eq!(
        parse_line("10-2f rw-p 0 00:00 0"),
        Some(mapping(0x10, 0x2F, 0, None, false))
    );
    assert_eq!(parse_line("10-2f r-xp 0 00:00"), None);
    assert_eq!(parse_line("102f r-xp 0 00:00 0"), None);
    assert_eq!(parse_line("10-2g r-xp 0 00:00 0"), None);
    assert_eq!(parse_line("10-2f r-xp zz 00:00 0"), None);
    // The third byte is looked at, not the third character.
    assert!(parse_line("10-2f éx 0 00:00 0").unwrap().executable);
    let maps = parse_maps("10-20 r-xp 0 00:00 0\r\nbad\n20-30 r--p 0 00:00 0 /x");
    assert_eq!(maps.len(), 2);
    assert_eq!(maps[1].path.as_deref(), Some("/x"));
    assert_eq!(describe_code(&maps, 0x10), Some(CodeLocation::Anonymous));
    assert_eq!(describe_code(&maps, 0x20), None);
    let far = [mapping(0, 0x10, u64::MAX - 3, Some("/x"), true)];
    assert_eq!(
        describe_code(&far, 3),
        Some(CodeLocation::File { path: "/x", offset: u64::MAX })
    );
    assert_eq!(describe_code(&far, 4), None);
}

#[test]
fn a_process_name_cannot_shift_which_field_ppid_is_read_from() {
    assert_eq!(ppid_from_stat("7842 (sleep) S 7841 7841 0 0").unwrap(), 7841_i32);
    // A name holding spaces and its own parentheses is legal, and splitting the
    // whole line would read the name as a field and land on the wrong number.
    assert_eq!(ppid_from_stat("42 (evil ) 1 2 3) S 99 99 0").unwrap(), 99_i32);
    assert!(ppid_from_stat("no parens here").is_none());
    assert!(ppid_from_stat("42 (x) S").is_none());
}

#[test]
fn memory_overlays_are_clipped_to_file_backed_segment_bytes() {
    let segments = [
        Segment { offset: 0, vaddr: 0, filesz: 0x1500 },
        Segment { offset: 0x1500, vaddr: 0x2500, filesz: 0x300 },
    ];

    assert_eq!(
        file_extents(&segments, 0x1000, 0x1000, 0x1600),
        vec![0x1000..0x1500, 0x1500..0x1600]
    );
    assert!(file_extents(&segments, 0x1800, 0x1000, 0x4000).is_empty());
}

#[test]
fn a_dump_lays_memory_over_the_file() {
    let segments = [
        Segment { offset: 0, vaddr: 0, filesz: 0x18 },
        Segment { offset: 0x20, vaddr: 0x40, filesz: 0x100 },
    ];
    let maps = [
        mapping(0x5000, 0x5010, 0x10, Some("/x"), false),
        mapping(0x6000, 0x6010, 0x20, Some("/y"), false),
        mapping(0x7000, 0x7100, 0x20, Some("/x"), false),
        mapping(0x9000, 0x8000, 0x20, Some("/x"), false),
    ];
    assert_eq!(
        overlays(&maps, "/x", &segments, 0x28),
        vec![
            Overlay { at: 0x10, addr: 0x5000, len: 8 },
            Overlay { at: 0x20, addr: 0x7000, len: 8 },
        ]
    );
    let pieces = overlays(&maps, "/x", &segments, 0x28);
    let image = (0..40).collect::<Vec<u8>>();
    let nothing = [vec![], vec![]];
    assert_eq!(
        words(&dump_library(image.clone(), &pieces, &nothing, "x", 9).unwrap_err()),
        (Kind::NotFound, "nothing of x is mapped in pid 9")
    );
    // The first piece came back short and the second in full.
    let reads = [vec![0xA0, 0xA1], vec![0xB0; 8]];
    let dump = dump_library(image.clone(), &pieces, &reads, "x", 9).unwrap();
    assert_eq!(dump.recovered, 10);
    assert_eq!(dump.image.len(), 40);
    assert_eq!(dump.image[..0x10], image[..0x10]);
    assert_eq!(dump.image[0x10..0x14], [0xA0, 0xA1, 0x12, 0x13]);
    assert_eq!(dump.image[0x18..0x20], image[0x18..0x20]);
    assert_eq!(dump.image[0x20..], [0xB0; 8]);
    let missed = [vec![], vec![0xC0]];
    let dump = dump_library(image.clone(), &pieces, &missed, "x", 9).unwrap();
    assert_eq!(dump.recovered, 1);
    assert_eq!(dump.image[..0x20], image[..0x20]);
    let beyond = [Overlay { at: 39, addr: 0, len: 2 }];
    assert_eq!(
        words(&dump_library(image, &beyond, &[vec![1, 2]], "x", 9).unwrap_err()),
        (Kind::InvalidData, "segment overruns image")
    );
    assert_eq!(
        sidecar(4096, "/a/b.so", -3),
        "{\n  \"base\": 4096,\n  \"path\": \"/a/b.so\",\n  \"pid\": -3\n}\n"
    );
    assert_eq!(load_base(&maps, "/x"), Some(0x4FF0));
    assert_eq!(load_base(&maps, "/z"), None);
    assert_eq!(load_base(&[mapping(1, 2, 3, Some("/x"), false)], "/x"), None);
}

#[test]
fn long_reads_go_piece_by_piece() {
    assert_eq!(next_read(0x1000, 0, 10), Some((0x1000, 10)));
    assert_eq!(next_read(0x1000, 4, 10), Some((0x1004, 6)));
    assert_eq!(next_read(0x1000, 10, 10), None);
    assert_eq!(next_read(0, 0, CHUNK + 5), Some((0, CHUNK)));
    assert_eq!(next_read(0, CHUNK, CHUNK + 5), Some((CHUNK as u64, 5)));
    assert_eq!(list_functions(&[0x10, 0xABC]), "0x10\n0xabc\n");
    assert_eq!(list_functions(&[]), "");
}

#[test]
fn a_package_is_found_by_its_first_argument() {
    let entry = |name: &str, cmdline: &[u8]| Candidate {
        name: name.to_owned(),
        cmdline: cmdline.to_vec(),
    };
    let entries = [
        entry("self", b"com.x\0"),
        entry("12", b"com.xx\0com.x\0"),
        entry("13", b""),
        entry("14", b"com.x\0-v\0"),
        entry("15", b"com.x"),
    ];
    assert_eq!(pid_for_package("com.x", &entries).unwrap(), 14);
    assert_eq!(pid_for_package("", &entries).unwrap(), 13);
    assert_eq!(
        words(&pid_for_package("com.y", &entries).unwrap_err()),
        (Kind::NotFound, "no running process named com.y")
    );
    assert!(runs_package(b"a", "a"));
    assert!(!runs_package(b"ab", "a"));
    let names = ["1".to_owned(), "x".to_owned(), "22".to_owned()];
    let group = task_group(1, &names);
    assert_eq!((group.pid, group.tids), (1, vec![1, 22]));
}

#[test]
fn the_task_tree_holds_descendants_and_nothing_else() {
    let kin = |pid: i32, ppid: i32| Kin { pid, ppid };
    let all = [kin(1, 0), kin(5, 2), kin(2, 1), kin(3, 1), kin(4, 3), kin(9, 8), kin(1, 4)];
    assert_eq!(task_tree(1, &all), vec![1, 2, 3, 5, 4]);
    assert_eq!(task_tree(3, &all), vec![3, 4, 1, 2, 5]);
    assert_eq!(task_tree(2, &all), vec![2, 5]);
    assert_eq!(task_tree(77, &all), vec![77]);
    assert_eq!(task_tree(7, &[kin(7, 7)]), vec![7]);
}

#[test]
fn a_library_is_resolved_by_name() {
    let maps = [
        mapping(0, 1, 0, Some("/data/app/one/libg.so"), true),
        mapping(1, 2, 0, Some("/data/app/one/libg.so"), true),
        mapping(2, 3, 0, Some("/system/libh.so"), true),
        mapping(3, 4, 0, Some("/vendor/libh.so"), true),
        mapping(4, 5, 0, None, true),
    ];
    assert_eq!(resolve_library("/any/where", &maps).unwrap(), "/any/where");
    assert_eq!(resolve_library("libg.so", &maps).unwrap(), "/data/app/one/libg.so");
    assert_eq!(
        words(&resolve_library("libx.so", &maps).unwrap_err()),
        (Kind::NotFound, "the target has no mapped library named libx.so")
    );
    assert_eq!(
        words(&resolve_library("libh.so", &maps).unwrap_err()),
        (
            Kind::InvalidInput,
            "libh.so is ambiguous between /system/libh.so and /vendor/libh.so"
        )
    );
}

#[test]
fn addresses_are_read_as_they_are_shown() {
    assert_eq!(parse_address(" 0x1F \n"), Some(0x1F));
    assert_eq!(parse_address("0X1f"), Some(0x1F));
    assert_eq!(parse_address("31"), Some(31));
    assert_eq!(parse_address("0x+1"), Some(1));
    assert_eq!(parse_address("+7"), Some(7));
    assert_eq!(parse_address("0x"), None);
    assert_eq!(parse_address("1f"), None);
    assert_eq!(parse_address(""), None);
    assert_eq!(parse_address("-1"), None);
    assert_eq!(parse_address("18446744073709551615"), Some(u64::MAX));
    assert_eq!(parse_address("18446744073709551616"), None);
    for n in [0, 9, 10, 15, 16, 255, 0xDEAD_BEEF, u64::MAX] {
        assert_eq!(parse_address(&text::hex(n)), Some(n));
        assert_eq!(parse_address(&text::decimal(n)), Some(n));
        assert_eq!(text::hex(n), format!("{n:#x}"));
        assert_eq!(text::decimal(n), n.to_string());
    }
}

#[test]
fn white_space_is_that_of_unicode() {
    for code in 0..=0x10_FFFF_u32 {
        if let Some(c) = char::from_u32(code) {
            assert_eq!(text::is_space(c), c.is_whitespace(), "{code:#x}");
        }
    }
}

#[test]
fn text_is_cut_as_the_standard_library_cuts_it() {
    let samples = [
        "", " ", "a", " a  b\tc ", "a\nb\r\nc\r", "\n\n", "\r\n", "x\u{3000}y", "a:b::c:", ":", "é é",
    ];
    for sample in samples {
        let chars = text::chars_of(sample);
        let words = text::words(&chars).iter().map(|w| text::string_of(w)).collect::<Vec<_>>();
        assert_eq!(words, sample.split_whitespace().collect::<Vec<_>>());
        let lines = text::lines(&chars).iter().map(|l| text::string_of(l)).collect::<Vec<_>>();
        assert_eq!(lines, sample.lines().collect::<Vec<_>>());
        let pieces = text::split(&chars, ':').iter().map(|p| text::string_of(p)).collect::<Vec<_>>();
        assert_eq!(pieces, sample.split(':').collect::<Vec<_>>());
        assert_eq!(text::string_of(text::trim(&chars)), sample.trim());
        assert_eq!(text::string_of(text::trim_end(&chars)), sample.trim_end());
        assert_eq!(
            text::cut_once(&chars, ':').map(|(a, b)| (text::string_of(a), text::string_of(b))),
            sample.split_once(':').map(|(a, b)| (a.to_owned(), b.to_owned()))
        );
        assert_eq!(
            text::string_of(text::after_last_of(&chars, ':')),
            sample.rsplit(':').next().unwrap()
        );
        assert_eq!(text::align_right(sample, 5), format!("{sample:>5}"));
    }
}

#[test]
fn numbers_are_read_as_the_standard_library_reads_them() {
    let samples = [
        "", "+", "-", "0", "-0", "+0", "007", "-7", "+7", "1_0", "12a", "2147483647", "2147483648",
        "-2147483648", "-2147483649", "--1", "99999999999999999999", "१",
    ];
    for sample in samples {
        let chars = text::chars_of(sample);
        let expected = sample.parse::<i32>().map_err(|error| error.to_string());
        let read = text::read_signed(&chars).map_err(|fault| fault.text().to_owned());
        assert_eq!(read, expected, "{sample}");
        let expected = sample.parse::<u32>().map(u64::from).map_err(|error| error.to_string());
        let read = text::read_unsigned(&chars, 10, u64::from(u32::MAX))
            .map_err(|fault| fault.text().to_owned());
        assert_eq!(read, expected, "{sample}");
        let expected = u64::from_str_radix(sample, 16).map_err(|error| error.to_string());
        let read =
            text::read_unsigned(&chars, 16, u64::MAX).map_err(|fault| fault.text().to_owned());
        assert_eq!(read, expected, "{sample}");
    }
    assert_eq!(text::read_signed(&['-', '9', '9', '9', '9', '9', '9', '9', '9', '9', '9']), Err(IntFault::TooSmall));
    assert_eq!(text::signed(i32::MIN), i32::MIN.to_string());
    assert_eq!(text::signed(-5), "-5");
    assert_eq!(text::bytes_hex(&[0, 0xAB, 0xFF]), "00abff");
}
