use benzened::fault::{Fault, Kind};
use benzened::perf::{
    args_from_regs, breakpoint_attr, caller_slot, captured_stack, cpu_count, drain, frame_pointer,
    is_dumpable, map_len, page_size, ring_layout, sample_size, stack_pointer, state, uprobe_attr,
    uprobe_pmu_type, watch_len_is_valid, Arch, EventTarget,
};
use benzened::ring::{next_record, parse_sample, HEADER_SIZE, PERF_RECORD_LOST, PERF_RECORD_SAMPLE};
use benzened::sites::ring_pages;

const BOTH: [Arch; 2] = [Arch::Aarch64, Arch::X86_64];

fn record(kind: u32, body: &[u8]) -> Vec<u8> {
    let size = (HEADER_SIZE + body.len()) as u16;
    let mut bytes = Vec::new();
    bytes.extend_from_slice(&kind.to_le_bytes());
    bytes.extend_from_slice(&0_u16.to_le_bytes());
    bytes.extend_from_slice(&size.to_le_bytes());
    bytes.extend_from_slice(body);
    bytes
}

fn words(fault: &Fault) -> (Kind, &str) {
    match fault {
        Fault::Told { kind, text } => (*kind, text.as_str()),
        other => panic!("not in words: {other:?}"),
    }
}

#[test]
fn record_straddling_the_end_of_the_ring_is_reassembled() {
    let len = 32_usize;
    let mut data = vec![0_u8; len];
    let rec = record(PERF_RECORD_SAMPLE, &[1, 2, 3, 4, 5, 6, 7, 8]);
    assert_eq!(rec.len(), 16);
    let start = (len - 8) as u64;
    for (idx, byte) in rec.iter().enumerate() {
        data[(start as usize + idx) % len] = *byte;
    }
    let (got, next) = next_record(&data, start, start + rec.len() as u64)
        .unwrap()
        .unwrap();
    assert_eq!(got.kind, PERF_RECORD_SAMPLE);
    assert_eq!(got.body, vec![1, 2, 3, 4, 5, 6, 7, 8]);
    assert_eq!(next, start + 16);
}

#[test]
fn incomplete_and_overstated_records_are_rejected() {
    let partial = [0_u8; 32];
    assert_eq!(next_record(&partial, 10, 10), Ok(None));
    next_record(&partial, 10, 14).unwrap_err();

    let len = 64_usize;
    let mut data = vec![0_u8; len];
    let rec = record(PERF_RECORD_SAMPLE, &[0_u8; 40]);
    assert!(rec.len() <= len, "record must fit the ring under test");
    data[..rec.len()].copy_from_slice(&rec);
    next_record(&data, 0, 16).unwrap_err();
}

#[test]
fn a_stack_payload_is_bounded_by_what_the_kernel_actually_copied() {
    let mut body = Vec::new();
    body.extend_from_slice(&0xDEAD_BEEF_u64.to_le_bytes()); // ip
    body.extend_from_slice(&1_u32.to_le_bytes()); // pid
    body.extend_from_slice(&2_u32.to_le_bytes()); // tid
    body.extend_from_slice(&3_u64.to_le_bytes()); // time
    body.extend_from_slice(&1_u64.to_le_bytes()); // regs abi
    body.extend_from_slice(&0xAAA_u64.to_le_bytes()); // one register
    body.extend_from_slice(&24_u64.to_le_bytes()); // stack size requested
    body.extend_from_slice(&[0xEE; 24]); // stack bytes
    body.extend_from_slice(&16_u64.to_le_bytes()); // dyn_size, kernel copied less

    let sample = parse_sample(&body, 1).unwrap();
    assert_eq!(sample.regs, vec![0xAAA]);
    // Trusting the requested size instead of dyn_size would hand the walk eight
    // bytes of whatever followed in the record.
    assert_eq!(sample.stack.len(), 16);
    assert!(sample.stack.iter().all(|byte| *byte == 0xEE));

    let mut malformed = body;
    let size_at = 40;
    malformed[size_at..size_at + 8].copy_from_slice(&u64::MAX.to_le_bytes());
    assert!(parse_sample(&malformed, 1).is_some_and(|decoded| decoded.stack.is_empty()));
}

#[test]
fn sampled_register_slots_match_the_architecture_abi() {
    for arch in BOTH {
        let caller_reg = if arch == Arch::Aarch64 { 30_u32 } else { 7_u32 };
        assert!(
            arch.arg_regs() & (1_u64 << caller_reg) != 0,
            "the caller register is not in the sample mask"
        );
        let below = arch.arg_regs() & ((1_u64 << caller_reg) - 1);
        assert_eq!(arch.caller_slot(), below.count_ones() as usize);

        assert_eq!(arch.sampled_regs(), arch.arg_regs().count_ones() as usize);
        let order = (0..arch.arg_count()).map(|i| arch.arg_order(i)).collect::<Vec<_>>();
        assert!(
            order.iter().all(|slot| *slot < arch.sampled_regs()),
            "an argument maps to a slot the kernel never emits"
        );
        assert!(
            !order.contains(&arch.caller_slot()),
            "an argument aliases the caller slot"
        );
        if arch == Arch::X86_64 {
            assert_eq!(
                arch.arg_regs() & ((1_u64 << 16_u32) | (1_u64 << 17_u32)),
                (1_u64 << 16_u32) | (1_u64 << 17_u32),
                "r8 and r9 are not in the sample mask"
            );
        }
        let mut seen = order.to_vec();
        seen.sort_unstable();
        let mut unique = seen.clone();
        unique.dedup();
        assert_eq!(seen, unique, "two arguments share a slot");

        // Each slot holds its own index, so a misordered mapping is visible as a
        // value that does not match the slot the ABI says it came from.
        let regs = (0..arch.sampled_regs() as u64).collect::<Vec<u64>>();
        let args = args_from_regs(arch, &regs).unwrap();
        // Ascending index on x86_64 is cx, dx, si, di, bp, sp, r8, r9, while
        // argument order is di, si, dx, cx, r8, r9. aarch64 needs no reordering.
        let expected: &[u64] = if arch == Arch::X86_64 {
            &[3, 2, 1, 0, 6, 7]
        } else {
            &[0, 1, 2, 3, 4, 5, 6, 7, 8]
        };
        assert_eq!(args.as_slice(), expected);

        // One short of the full set still has to be refused, since the caller slot
        // sits at the end and a partial read would index past it.
        let short = (0..arch.sampled_regs() as u64 - 1).collect::<Vec<u64>>();
        assert!(args_from_regs(arch, &short).is_none());
    }
}

#[test]
fn a_ring_always_holds_at_least_one_sample() {
    for arch in BOTH {
        let big = sample_size(arch, 8192);
        let pages = ring_pages(156, big);
        assert!(
            pages * 4096 >= big,
            "{pages} pages cannot hold a {big} byte sample"
        );
        assert!(pages.is_power_of_two());
        // A plain probe keeps its generous ring.
        assert_eq!(ring_pages(1, sample_size(arch, 0)), 8);
    }
}

#[test]
fn ring_budgets_shrink_as_events_grow() {
    assert_eq!(ring_pages(64, 0), 8);
    assert_eq!(ring_pages(65, 0), 2);
    assert_eq!(ring_pages(512, 100), 2);
    assert_eq!(ring_pages(513, 0), 1);
    assert_eq!(ring_pages(513, 4096), 8);
    assert_eq!(ring_pages(513, 4097), 16);
    let most = ring_pages(1, usize::MAX);
    assert!(most.is_power_of_two());
}

#[test]
fn sample_sizes_count_every_field() {
    assert_eq!(sample_size(Arch::Aarch64, 0), 40 + 14 * 8);
    assert_eq!(sample_size(Arch::Aarch64, 64), 40 + 14 * 8 + 16 + 64);
    assert_eq!(sample_size(Arch::X86_64, 0), 40 + 8 * 8 + 16 + 8);
    assert_eq!(captured_stack(Arch::X86_64, 4), 8);
    assert_eq!(captured_stack(Arch::X86_64, 16), 16);
    assert_eq!(captured_stack(Arch::Aarch64, 0), 0);
}

#[test]
fn registers_are_read_from_their_slots() {
    let regs = (100..114_u64).collect::<Vec<_>>();
    assert_eq!(state(Arch::Aarch64, &regs), Some([108, 109, 110]));
    assert_eq!(state(Arch::X86_64, &regs), None);
    assert_eq!(state(Arch::Aarch64, &regs[..10]), None);
    assert_eq!(frame_pointer(Arch::Aarch64, &regs), Some(111));
    assert_eq!(caller_slot(Arch::Aarch64, &regs), Some(112));
    assert_eq!(stack_pointer(Arch::Aarch64, &regs), Some(113));
    assert_eq!(frame_pointer(Arch::X86_64, &regs), Some(104));
    assert_eq!(stack_pointer(Arch::X86_64, &regs), Some(105));
    assert_eq!(stack_pointer(Arch::X86_64, &regs[..5]), None);
    assert!(is_dumpable(Arch::Aarch64, 8));
    assert!(!is_dumpable(Arch::Aarch64, 9));
    assert!(is_dumpable(Arch::Aarch64, 13));
    assert!(is_dumpable(Arch::X86_64, 5));
    assert!(!is_dumpable(Arch::X86_64, 6));
    for len in 0..10 {
        assert_eq!(watch_len_is_valid(len), matches!(len, 1 | 2 | 4 | 8));
    }
}

#[test]
fn attributes_ask_for_what_a_sample_needs() {
    let attr = uprobe_attr(Arch::Aarch64, 9, 0x1234, 0x400, true, 16);
    assert_eq!((attr.type_, attr.size, attr.config), (9, 128, 1));
    assert_eq!((attr.config1, attr.config2), (0x1234, 0x400));
    assert_eq!((attr.sample_period, attr.wakeup_events), (1, 1));
    assert_eq!(attr.sample_type, 0x1 | 0x2 | 0x4 | 0x1000 | 0x2000);
    assert_eq!(attr.flags, 0x61);
    assert_eq!(attr.sample_regs_user, Arch::Aarch64.arg_regs());
    assert_eq!(attr.sample_stack_user, 16);

    let trap = breakpoint_attr(Arch::Aarch64, 0x8000, 3, 4, 0);
    assert_eq!((trap.type_, trap.bp_type, trap.config), (5, 3, 0));
    assert_eq!((trap.config1, trap.config2), (0x8000, 4));
    assert_eq!(trap.sample_type, 0x1007);
    assert_eq!(trap.sample_stack_user, 0);
}

#[test]
fn the_system_is_asked_carefully() {
    assert_eq!(uprobe_pmu_type(" 7\n").unwrap(), 7);
    assert_eq!(
        words(&uprobe_pmu_type("x").unwrap_err()),
        (Kind::InvalidData, "bad uprobe PMU type (invalid digit found in string)")
    );
    assert_eq!(
        words(&uprobe_pmu_type("").unwrap_err()).1,
        format!("bad uprobe PMU type ({})", "".parse::<u32>().unwrap_err())
    );
    assert_eq!(
        words(&uprobe_pmu_type("4294967296").unwrap_err()).1,
        format!("bad uprobe PMU type ({})", "4294967296".parse::<u32>().unwrap_err())
    );
    assert_eq!(cpu_count(-1), 1);
    assert_eq!(cpu_count(0), 1);
    assert_eq!(cpu_count(8), 8);
    assert_eq!(page_size(16384), 16384);
    assert_eq!(page_size(-1), 4096);
    assert_eq!(EventTarget::Task(5).syscall_args().unwrap(), (5, -1));
    assert_eq!(EventTarget::Cpu(3).syscall_args().unwrap(), (-1, 3));
    assert_eq!(
        words(&EventTarget::Cpu(1 << 31).syscall_args().unwrap_err()),
        (Kind::InvalidInput, "cpu index too large")
    );
    assert_eq!(map_len(8, 4096).unwrap(), 9 * 4096);
    assert_eq!(
        words(&map_len(usize::MAX, 4096).unwrap_err()),
        (Kind::InvalidInput, "perf ring is too large")
    );
    assert_eq!(ring_layout(4096, 9 * 4096, 4096, 8 * 4096).unwrap(), (4096, 8 * 4096));
    for (offset, size) in [(4096, 3 * 4096), (0, 4096), (4096, 16 * 4096), (u64::MAX, 4096)] {
        assert_eq!(
            words(&ring_layout(4096, 9 * 4096, offset, size).unwrap_err()),
            (Kind::InvalidData, "perf published an invalid ring layout")
        );
    }
}

#[test]
fn a_ring_is_drained_record_by_record() {
    let mut sample = Vec::new();
    sample.extend_from_slice(&7_u64.to_le_bytes());
    sample.extend_from_slice(&11_u32.to_le_bytes());
    sample.extend_from_slice(&12_u32.to_le_bytes());
    sample.extend_from_slice(&13_u64.to_le_bytes());
    sample.extend_from_slice(&1_u64.to_le_bytes());
    for reg in 0..14_u64 {
        sample.extend_from_slice(&reg.to_le_bytes());
    }
    let mut lost = vec![0_u8; 8];
    lost.extend_from_slice(&5_u64.to_le_bytes());

    let mut stream = record(PERF_RECORD_SAMPLE, &sample);
    stream.extend_from_slice(&record(PERF_RECORD_LOST, &lost));
    stream.extend_from_slice(&record(PERF_RECORD_LOST, &[1]));
    stream.extend_from_slice(&record(PERF_RECORD_SAMPLE, &[1]));
    stream.extend_from_slice(&record(99, &[1, 2]));
    let head = stream.len() as u64;
    let mut data = stream.clone();
    data.resize(512, 0);
    let (records, tail) = drain(Arch::Aarch64, &data, 0, head);
    assert_eq!(tail, head);
    assert_eq!(records.samples.len(), 1);
    assert_eq!((records.samples[0].pid, records.samples[0].tid), (11, 12));
    assert_eq!((records.samples[0].ip, records.samples[0].time), (7, 13));
    assert_eq!(records.lost, 5);
    assert_eq!(records.malformed, 2);

    let (torn, tail) = drain(Arch::Aarch64, &data, 0, head - 1);
    assert_eq!(tail, head - 1);
    assert_eq!(torn.malformed, 3);
}
