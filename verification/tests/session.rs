use benzened::command::{
    Capture, Command, Location, ProbeSet, Process, ProcessTrap, Report, SystemTrace, TraceRequest,
    WatchAccess, WatchLocation, WatchTrace,
};
use benzened::cli::{
    absolute_library, parse_deref_value, parse_dump_value, parse_stack, parse_tid_list,
    watch_length, Cli, FunctionSource, ProcessProbe, SystemLocation, WatchSite,
};
use benzened::cli;
use benzened::fault::{Fault, Kind};
use benzened::groups::{note_edge, ArmResult, Edge, Group};
use benzened::lists;
use benzened::maps::Mapping;
use benzened::output::{hexdump, registers};
use benzened::perf::{args_from_regs, Arch, Records};
use benzened::probes::{AddressSpace, Attachment, Opening, ProbeSite, ProbeSpec};
use benzened::report::{self, Memory};
use benzened::ring::Sample;
use benzened::session::{check_running, rescanned, Look, Looked, Session, Tally, Target, POLL_GONE, RESCAN_MS};
use benzened::setup::{
    build_process, build_system, build_watch, check_width, count_events, hardware_probe,
    location_label, place_site, refuse_if_text_differs, report_arming, ring_for, root_space,
    site_needs_image, watch_place, watch_refusal, watch_site, PlacedSite, WatchPlace,
};
use benzened::sites::{load, parse, Site, SiteLocation};
use benzened::symbolizer::{
    caller_address, frame_addresses, module_name, Caller, CodeSite, Library, Need, Symbolizer,
    INTERVAL,
};
use benzened::target::TaskGroup;
use benzened::trace::{
    notices, ranks_threads, record, shown_caller, Action, Await, Course, Event, AWAIT_LIMIT,
};
use benzened::session::{Batch, Drain};
use benzened::elf::Segment;
use std::io::{Error, ErrorKind};

fn words(fault: &Fault) -> (Kind, &str) {
    match fault {
        Fault::Told { kind, text } => (*kind, text.as_str()),
        other => panic!("not in words: {other:?}"),
    }
}

fn mapping(start: u64, end: u64, pgoff: u64, path: Option<&str>, executable: bool) -> Mapping {
    Mapping { start, end, pgoff, path: path.map(str::to_owned), executable }
}

fn space(pid: i32, tids: &[i32], mappings: Vec<Mapping>) -> AddressSpace {
    AddressSpace { pid, tids: tids.to_vec(), mappings }
}

fn uprobe(path: &str, offset: u64) -> ProbeSpec {
    ProbeSpec::TaskUprobe { path: path.to_owned(), offset, retprobe: true }
}

fn trap(address: u64) -> ProbeSpec {
    ProbeSpec::Hardware { site: ProbeSite::Runtime(address), kind: 4, len: 4 }
}

fn sample(pid: u32, tid: u32, regs: Vec<u64>, stack: Vec<u8>) -> Sample {
    Sample { ip: 0, pid, tid, time: 42, regs, stack }
}

fn records(samples: Vec<Sample>, lost: u64, malformed: u64) -> Records {
    Records { samples, lost, malformed }
}

#[test]
fn probe_files_are_read_line_by_line() {
    let sites = parse("# all\nlibg.so main # the start\n\n  libh.so\t0x40\n").unwrap();
    assert_eq!(sites.len(), 2);
    assert_eq!(
        sites[0],
        Site {
            library: "libg.so".to_owned(),
            location: SiteLocation::Named("main".to_owned()),
            label: Some("libg.so!main".to_owned()),
        }
    );
    assert_eq!(sites[1].label.as_deref(), Some("libh.so!0x40"));
    assert_eq!(
        words(&parse("a b\nlonely").unwrap_err()),
        (Kind::InvalidData, "probe line 2 needs a library and site")
    );
    assert_eq!(
        words(&parse("a b c").unwrap_err()),
        (Kind::InvalidData, "probe line 1 has unexpected fields")
    );
}

#[test]
fn probe_sets_are_bounded_by_their_trap() {
    let file = ProbeSet::File("f".to_owned());
    let uprobe = ProcessTrap::Uprobe { retprobe: false };
    assert_eq!(
        words(&load(&file, uprobe, "# nothing").unwrap_err()),
        (Kind::InvalidInput, "the probe set has no usable lines")
    );
    let five = "a b\na c\na d\na e\na f\n";
    assert_eq!(load(&file, uprobe, five).unwrap().len(), 5);
    assert_eq!(
        words(&load(&file, ProcessTrap::Breakpoint, five).unwrap_err()),
        (Kind::InvalidInput, "--hw allows at most 4 sites, and 5 were given")
    );
    let single = |location: Location| ProbeSet::Single { library: "l".to_owned(), location };
    let named = load(&single(Location::Symbol("s".to_owned())), uprobe, "").unwrap();
    assert_eq!(named[0].label.as_deref(), Some("s"));
    let plain = load(&single(Location::FileOffset(3)), ProcessTrap::Breakpoint, "").unwrap();
    assert_eq!(plain[0].label, None);
    assert_eq!(plain[0].location, SiteLocation::Selected(Location::FileOffset(3)));
}

#[test]
fn a_command_line_becomes_a_command() {
    let trace = Cli::Trace {
        process: Process::Pid(1),
        dump: Some((0, 16)),
        deref: None,
        regs: true,
        stack: Some(64),
        threads: false,
        retprobe: true,
        hw: false,
        emit: Some("out".to_owned()),
        tid: Some(vec![2, 3]),
        follow: true,
        wait: false,
        probe: ProcessProbe::Symbol { library: "a".to_owned(), symbol: "b".to_owned() },
    };
    let Command::Trace(request) = trace.into_command() else { panic!("not a trace") };
    assert_eq!(request.emit(), Some("out"));
    assert_eq!(request.report().stack(), 64);
    assert!(!ranks_threads(&request));
    let TraceRequest::Process(process) = request else { panic!("not a process") };
    assert_eq!(process.trap, ProcessTrap::Uprobe { retprobe: true });
    assert_eq!(process.tids, vec![2, 3]);
    assert!(process.follow && !process.wait);
    assert_eq!(
        process.report,
        Report::Samples(Capture { dump: Some((0, 16)), deref: None, stack: 64, all_regs: true })
    );
    assert_eq!(
        process.probes,
        ProbeSet::Single { library: "a".to_owned(), location: Location::Symbol("b".to_owned()) }
    );

    let watch = Cli::Watch {
        process: Process::Package("p".to_owned()),
        access: WatchAccess::Rw,
        length: 8,
        dump: None,
        deref: None,
        regs: false,
        stack: None,
        threads: true,
        emit: None,
        tid: None,
        follow: false,
        site: WatchSite::Offset { library: "l".to_owned(), address: 9 },
    };
    let Command::Trace(request) = watch.into_command() else { panic!("not a trace") };
    assert!(ranks_threads(&request));
    assert_eq!(request.report().stack(), 0);
    assert_eq!(request.emit(), None);
    let TraceRequest::Watch(watch) = request else { panic!("not a watch") };
    assert_eq!(
        watch.location,
        WatchLocation::FileOffset { library: "l".to_owned(), offset: 9 }
    );
    assert!(watch.tids.is_empty());

    let system = Cli::System {
        library: "/l".to_owned(),
        dump: None,
        deref: Some((1, 2, 3)),
        regs: false,
        stack: None,
        retprobe: false,
        emit: None,
        location: SystemLocation::Vaddr { address: 5 },
    };
    let Command::Trace(TraceRequest::System(system)) = system.into_command() else {
        panic!("not a system trace")
    };
    assert_eq!(system.location, Location::VirtualAddress(5));

    let list = Cli::ListFunctions {
        source: FunctionSource::Process { process: Process::Pid(4), library: "l".to_owned() },
    };
    let Command::ListFunctions(list) = list.into_command() else { panic!("not a list") };
    assert_eq!(list.process, Some(Process::Pid(4)));
    let list = Cli::ListFunctions { source: FunctionSource::File { library: "l".to_owned() } };
    let Command::ListFunctions(list) = list.into_command() else { panic!("not a list") };
    assert_eq!(list.process, None);
    let dump = Cli::DumpLibrary {
        process: Process::Pid(4),
        library: "l".to_owned(),
        output: "o".to_owned(),
    };
    let Command::DumpLibrary(dump) = dump.into_command() else { panic!("not a dump") };
    assert_eq!((dump.library.as_str(), dump.output.as_str()), ("l", "o"));
}

#[test]
fn process_arguments_are_numbers_or_names() {
    assert_eq!(Process::from_arg("12"), Ok(Process::Pid(12)));
    assert_eq!(Process::from_arg("com.x"), Ok(Process::Package("com.x".to_owned())));
    assert_eq!(Process::from_arg("0"), Err("PID must be positive"));
    assert_eq!(Process::from_arg("-3"), Err("PID must be positive"));
    assert_eq!(Process::from_arg(""), Err("package must not be empty"));
    assert_eq!(cli::parse_address("0x8"), Ok(8));
    assert_eq!(cli::parse_address("z"), Err("expected an address"));
    assert_eq!(absolute_library("/a"), Ok(()));
    assert_eq!(
        absolute_library("a"),
        Err("system and file lookups need an absolute library path")
    );
}

#[test]
fn option_values_are_checked() {
    let arch = Arch::Aarch64;
    assert_eq!(parse_dump_value(arch, "8:16"), Ok((8, 16)));
    assert_eq!(parse_dump_value(arch, "13:4194304"), Ok((13, 4_194_304)));
    assert_eq!(parse_dump_value(Arch::X86_64, "5:8"), Ok((5, 8)));
    assert_eq!(
        parse_dump_value(Arch::X86_64, "6:8"),
        Err("argument index or byte length is out of range")
    );
    assert_eq!(parse_dump_value(arch, "8"), Err("expected <arg>:<len>"));
    assert_eq!(parse_dump_value(arch, "x:1"), Err("invalid argument index"));
    assert_eq!(parse_dump_value(arch, "1:x"), Err("invalid byte length"));
    let out = Err("argument index or byte length is out of range");
    assert_eq!(parse_dump_value(arch, "9:1"), out);
    assert_eq!(parse_dump_value(arch, "1:0"), out);
    assert_eq!(parse_dump_value(arch, "1:4194305"), out);

    assert_eq!(parse_deref_value(arch, "1:0x10:8"), Ok((1, 16, 8)));
    assert_eq!(parse_deref_value(arch, "1:4096:8"), Ok((1, 4096, 8)));
    assert_eq!(parse_deref_value(arch, "x"), Err("invalid argument index"));
    assert_eq!(parse_deref_value(arch, "1"), Err("invalid pointer offset"));
    assert_eq!(parse_deref_value(arch, "1:z:1"), Err("invalid pointer offset"));
    assert_eq!(parse_deref_value(arch, "1:2"), Err("expected <arg>:<off>:<len>"));
    assert_eq!(parse_deref_value(arch, "1:2:z"), Err("invalid byte length"));
    let out = Err("argument index, pointer offset, or byte length is out of range");
    assert_eq!(parse_deref_value(arch, "1:4097:8"), out);
    assert_eq!(parse_deref_value(arch, "1:2:3:4"), out);

    assert_eq!(parse_stack("8"), Ok(8));
    assert_eq!(parse_stack("65536"), Ok(65536));
    assert_eq!(parse_stack("x"), Err("invalid stack size"));
    for bad in ["0", "12", "65544"] {
        assert_eq!(
            parse_stack(bad),
            Err("stack size must be aligned and between 8 and 65536")
        );
    }
    assert_eq!(parse_tid_list("3, 2,3"), Ok(vec![2, 3]));
    for bad in ["", "1,", "0", "-1", "1,x"] {
        assert_eq!(parse_tid_list(bad), Err("thread IDs must be positive integers"));
    }
    assert_eq!(watch_length(&8), Ok(()));
    assert_eq!(
        watch_length(&3),
        Err("watch length is not supported by the debug registers")
    );
}

#[test]
fn plans_name_every_event_once() {
    let spaces = [space(1, &[5, 3], vec![]), space(2, &[3, 4], vec![])];
    let plan = uprobe("/a", 1).plan(&spaces, 2);
    assert_eq!(
        plan.attachments,
        vec![Attachment::Task(3), Attachment::Task(4), Attachment::Task(5)]
    );
    assert!(plan.failure.is_none());

    let system =
        ProbeSpec::SystemUprobe { path: "/a".to_owned(), offset: 1, retprobe: false };
    assert_eq!(
        system.plan(&[], 2).attachments,
        vec![Attachment::Cpu(0), Attachment::Cpu(1)]
    );

    let file = ProbeSpec::Hardware {
        site: ProbeSite::File { path: "/a".to_owned(), offset: 4 },
        kind: 4,
        len: 4,
    };
    let mapped = [
        space(1, &[1], vec![mapping(0x2000, 0x3000, 0, Some("/a"), true)]),
        space(2, &[2], vec![]),
        space(3, &[3], vec![mapping(0x1000, 0x2000, 0, Some("/a"), true)]),
    ];
    let plan = file.plan(&mapped, 2);
    assert_eq!(
        plan.attachments,
        vec![
            Attachment::HardwareCpu { address: 0x1004, cpu: 0 },
            Attachment::HardwareCpu { address: 0x1004, cpu: 1 },
            Attachment::HardwareCpu { address: 0x2004, cpu: 0 },
            Attachment::HardwareCpu { address: 0x2004, cpu: 1 },
        ]
    );
    assert_eq!(
        words(&plan.failure.unwrap()),
        (Kind::NotFound, "the target has not mapped that part of the file")
    );
    assert_eq!(count_events(&[system.plan(&[], 2), file.plan(&mapped, 2)]), 6);
    assert_eq!(ring_for(Arch::Aarch64, &[system.plan(&[], 2)], 0), 8);

    assert!(matches!(
        system.opening(Attachment::Cpu(1)),
        Ok(Opening::System { path: "/a", offset: 1, cpu: 1, retprobe: false })
    ));
    assert!(matches!(
        uprobe("/a", 7).opening(Attachment::Task(9)),
        Ok(Opening::Task { path: "/a", offset: 7, tid: 9, retprobe: true })
    ));
    assert!(matches!(
        file.opening(Attachment::HardwareCpu { address: 8, cpu: 1 }),
        Ok(Opening::Hardware { address: 8, cpu: 1, kind: 4, len: 4 })
    ));
    assert_eq!(
        words(&file.opening(Attachment::Cpu(1)).unwrap_err()),
        (Kind::Other, "probe attachment does not match its specification")
    );
    assert_eq!(file.file(), Some(("/a", 4)));
    assert_eq!((trap(8).file(), trap(8).offset()), (None, 8));
    assert!(file.needs_target_filter() && !system.needs_target_filter());
}

#[test]
fn arming_adds_what_is_missing_and_keeps_the_first_failure() {
    let mut group: Group<u8> = Group::new("g".to_owned(), trap(8), 0);
    let plan = group.probe.plan(&[space(1, &[1], vec![])], 3);
    let (wanted, removed) = group.pending(&plan);
    assert_eq!(wanted.len(), 3);
    assert!(!removed);
    let opened = vec![Ok(10), Err(Fault::Os(1)), Ok(12)];
    let result = group.arm(plan, wanted, removed, opened);
    assert_eq!((result.added, result.attempted, result.removed), (2, 3, false));
    assert!(matches!(result.failure, Some(Fault::Os(1))));
    assert_eq!(group.probes.iter().map(|armed| armed.probe).collect::<Vec<_>>(), vec![10, 12]);

    // The address is gone, so its events go too.
    let plan = group.probe.plan(&[], 3);
    let (wanted, removed) = group.pending(&plan);
    assert!(wanted.is_empty() && removed && group.probes.is_empty());

    let mut tasks: Group<u8> = Group::new("t".to_owned(), uprobe("/a", 1), 0);
    let plan = tasks.probe.plan(&[space(1, &[4, 2], vec![])], 1);
    let (wanted, _) = tasks.pending(&plan);
    tasks.arm(plan, wanted, false, vec![Ok(2), Ok(4)]);
    let plan = tasks.probe.plan(&[space(1, &[3], vec![])], 1);
    let (wanted, removed) = tasks.pending(&plan);
    assert_eq!(wanted, vec![Attachment::Task(3)]);
    assert!(!removed);
    tasks.arm(plan, wanted, false, vec![Ok(3)]);
    assert_eq!(
        tasks.probes.iter().map(|armed| armed.probe).collect::<Vec<_>>(),
        vec![2, 3, 4]
    );

    let mut tally = Tally::new();
    tally.absorb(ArmResult { added: 0, attempted: 1, removed: true, failure: None });
    tally.absorb(ArmResult { added: 2, attempted: 2, removed: false, failure: Some(Fault::Os(1)) });
    tally.absorb(ArmResult { added: 0, attempted: 2, removed: false, failure: Some(Fault::Os(2)) });
    assert_eq!((tally.added, tally.changed), (2, true));
    assert!(matches!(tally.failure, Some(Fault::Os(1))));
    assert_eq!(report_arming(2, 3, None).unwrap().0, "  2/3 attachments");
    assert!(matches!(report_arming(0, 3, Some(Fault::Os(5))), Err(Fault::Os(5))));
    assert_eq!(
        words(&report_arming(0, 3, None).unwrap_err()),
        (Kind::NotFound, "the target has no live attachments")
    );
}

#[test]
fn hits_are_counted_by_thread_and_caller() {
    let mut group: Group<()> = Group::new("g".to_owned(), uprobe("/a", 1), 0);
    assert!(group.is_new_thread(1, 2));
    group.record(1, 2, Some(("/m", 0x10)), Some("main \n"));
    assert!(!group.is_new_thread(1, 2));
    group.record(1, 2, Some(("/m", 0x10)), Some("renamed"));
    group.record(1, 3, None, None);
    group.record(1, 3, Some(("/m", 0x20)), None);
    assert_eq!(group.hits(), 4);
    let threads = group.threads();
    assert_eq!(
        threads.iter().map(|t| (t.pid, t.tid, t.count, t.name.as_str())).collect::<Vec<_>>(),
        vec![(1, 2, 2, "main"), (1, 3, 2, "?")]
    );
    let callers = group.callers();
    assert_eq!(
        callers.iter().map(|e| (e.module.as_str(), e.vaddr, e.count)).collect::<Vec<_>>(),
        vec![("/m", 0x10, 2), ("/m", 0x20, 1)]
    );
    assert_eq!((group.label(), group.path(), group.offset()), ("g", Some("/a"), 1));
    let mut edges = vec![Edge { module: "/m".to_owned(), vaddr: 1, count: 5 }];
    note_edge(&mut edges, "/n", 1);
    note_edge(&mut edges, "/m", 1);
    assert_eq!(edges.iter().map(|e| e.count).collect::<Vec<_>>(), vec![6, 1]);
    // A count at its limit is no obstacle to another edge.
    edges[0].count = u64::MAX;
    note_edge(&mut edges, "/n", 1);
    note_edge(&mut edges, "/o", 1);
    assert_eq!(
        edges.iter().map(|e| (e.module.as_str(), e.vaddr, e.count)).collect::<Vec<_>>(),
        vec![("/m", 1, u64::MAX), ("/n", 1, 2), ("/o", 1, 1)]
    );
}

fn session() -> Session<u8> {
    let mut first: Group<u8> = Group::new("task".to_owned(), uprobe("/a", 1), 0);
    let plan = first.probe.plan(&[space(1, &[7, 8], vec![])], 1);
    let (wanted, _) = first.pending(&plan);
    first.arm(plan, wanted, false, vec![Ok(7), Ok(8)]);
    let mut second: Group<u8> = Group::new("trap".to_owned(), trap(8), 0);
    let plan = second.probe.plan(&[space(1, &[], vec![])], 1);
    let (wanted, _) = second.pending(&plan);
    second.arm(plan, wanted, false, vec![Ok(9)]);
    let mut target = Target::new(1, vec![5], true);
    target.rescan(vec![space(1, &[5], vec![mapping(0, 1, 0, None, true)])], false);
    Session::new(vec![first, second], 8, Some(target))
}

#[test]
fn events_are_drained_filtered_and_pruned() {
    let mut session = session();
    assert_eq!(session.timeout(), RESCAN_MS);
    assert_eq!(session.look(), Look::Rescan);
    let (drains, removed) = session.drain_and_prune(
        &[0, POLL_GONE & libc::POLLHUP, 0],
        vec![
            records(vec![sample(9, 9, vec![], vec![])], 0, 0),
            records(vec![], 0, 0),
            records(
                vec![sample(1, 5, vec![], vec![]), sample(1, 6, vec![], vec![]), sample(2, 5, vec![], vec![])],
                3,
                0,
            ),
        ],
    );
    assert!(removed);
    assert_eq!(drains.len(), 2);
    assert_eq!((drains[0].group, drains[0].samples.len()), (0, 1));
    assert_eq!((drains[1].group, drains[1].samples.len(), drains[1].lost), (1, 1, 3));
    assert_eq!(drains[1].samples[0].tid, 5);
    assert_eq!(session.groups()[0].probes.iter().map(|a| a.probe).collect::<Vec<_>>(), vec![7]);
    assert_eq!(session.groups()[1].probes.len(), 1);

    // What was not polled is over.
    let (drains, removed) =
        session.drain_and_prune(&[1], vec![records(vec![], 0, 0), records(vec![], 0, 1)]);
    assert!(removed);
    assert_eq!((drains.len(), drains[0].malformed), (1, 1));
    assert!(!session.no_probes());
    assert!(!session.wait(vec![], true).finished);

    let batch = session.finish(&[], vec![records(vec![], 2, 0)]);
    assert!(batch.finished && session.no_probes());
    assert_eq!(batch.drains[0].lost, 2);
    assert!(session.wait(vec![], true).finished);
    assert!(!session.wait(vec![], false).finished);
    session.record(1, 1, 5, None, Some("w"));
    assert_eq!(session.groups()[1].hits(), 1);
    assert_eq!(session.label(1), "trap");
    assert_eq!(session.mappings().len(), 1);
    assert_eq!(session.mappings()[0].0, 1);
}

#[test]
fn an_unfollowed_trace_ends_with_its_events() {
    let session: Session<u8> = Session::new(vec![], 1, Some(Target::new(1, vec![], false)));
    assert_eq!((session.timeout(), session.look()), (-1, Look::Exited));
    assert!(session.wait(vec![], false).finished);
    let system: Session<u8> = Session::new(vec![], 1, None);
    assert_eq!((system.timeout(), system.look()), (-1, Look::Nothing));
    assert!(system.mappings().is_empty());
    assert!(matches!(rescanned(Ok(true)), Ok((true, false))));
    assert!(matches!(rescanned(Err(Fault::Os(libc::ENOENT))), Ok((false, true))));
    assert!(matches!(rescanned(Err(Fault::Os(libc::EPERM))), Err(Fault::Os(_))));
}

#[test]
fn error_numbers_have_the_kind_that_the_system_gives_them() {
    for code in 0..140 {
        let expected = match Error::from_raw_os_error(code).kind() {
            ErrorKind::NotFound => Kind::NotFound,
            ErrorKind::Interrupted => Kind::Interrupted,
            ErrorKind::InvalidInput => Kind::InvalidInput,
            ErrorKind::BrokenPipe => Kind::BrokenPipe,
            ErrorKind::TimedOut => Kind::TimedOut,
            ErrorKind::InvalidData => Kind::InvalidData,
            ErrorKind::UnexpectedEof => Kind::UnexpectedEof,
            _ => Kind::Other,
        };
        assert_eq!(Fault::Os(code).kind(), expected, "{code}");
    }
}

#[test]
fn a_target_takes_the_tasks_that_are_selected() {
    let target = Target::new(1, vec![4], true);
    let group = |pid: i32, tids: &[i32]| TaskGroup { pid, tids: tids.to_vec() };
    assert_eq!(target.select(group(1, &[3, 4])).unwrap().tids, vec![4]);
    assert!(target.select(group(1, &[3])).unwrap().tids.is_empty());
    assert!(target.select(group(2, &[3])).is_none());
    let open = Target::new(1, vec![], true);
    assert_eq!(open.select(group(2, &[3, 5])).unwrap().tids, vec![3, 5]);
    assert!(open.select(group(2, &[])).is_none());

    let looked = |pid: i32, found: bool| Looked {
        group: group(pid, &[pid]),
        mappings: if found { Some(vec![]) } else { None },
    };
    let spaces = open.spaces_from(vec![looked(1, true), looked(2, false), looked(3, true)]).unwrap();
    assert_eq!(spaces.iter().map(|s| s.pid).collect::<Vec<_>>(), vec![1, 3]);
    assert!(open.spaces_from(vec![looked(1, false), looked(2, true)]).is_none());

    let mut active = Target::new(1, vec![4], true);
    assert!(!active.accepts(1, 4));
    assert!(active.rescan(vec![space(1, &[4], vec![])], true));
    assert!(!active.rescan(vec![space(1, &[4], vec![])], true));
    assert!(active.accepts(1, 4));
    assert!(!active.accepts(1, 5));
    assert!(!active.accepts(2, 4));
    assert!(!active.accepts(u32::MAX, 4));
    assert_eq!(root_space(&active.spaces, 1).unwrap().pid, 1);
    assert_eq!(
        words(&root_space(&active.spaces, 2).unwrap_err()),
        (Kind::NotFound, "target address space disappeared")
    );
    assert_eq!(lists::gather(vec![Some(1), None], &[true, false]), Some(vec![1]));
    assert_eq!(lists::gather(vec![Some(1), None], &[false, true]), None);
}

fn placed(address: u64) -> PlacedSite {
    PlacedSite { label: "l".to_owned(), path: "/a".to_owned(), offset: 4, address }
}

#[test]
fn sites_become_groups() {
    let maps = [mapping(0x2000, 0x3000, 0, Some("/a"), true)];
    let site = Site {
        library: "a".to_owned(),
        location: SiteLocation::Selected(Location::FileOffset(0x10)),
        label: None,
    };
    assert!(!site_needs_image(&site));
    let found = place_site(&site, "/a", &[], &maps).unwrap();
    assert_eq!((found.label.as_str(), found.offset, found.address), ("0x10", 0x10, 0x2010));
    assert_eq!(
        words(&place_site(&site, "/b", &[], &maps).unwrap_err()),
        (Kind::NotFound, "the target has not mapped that part of the file")
    );
    let uprobe = ProcessTrap::Uprobe { retprobe: true };
    let group: Group<()> = build_process(Arch::Aarch64, uprobe, placed(1), 16).unwrap();
    assert_eq!((group.stack, group.offset()), (16, 4));
    let trap: Group<()> =
        build_process(Arch::Aarch64, ProcessTrap::Breakpoint, placed(8), 0).unwrap();
    assert!(matches!(trap.probe, ProbeSpec::Hardware { kind: 4, len: 4, .. }));
    assert_eq!(
        words(
            &build_process::<()>(Arch::Aarch64, ProcessTrap::Breakpoint, placed(9), 0).unwrap_err()
        ),
        (
            Kind::InvalidInput,
            "a 4-byte hardware trap needs an address aligned to 4, and 0x9 is not"
        )
    );
    assert!(build_process::<()>(Arch::X86_64, ProcessTrap::Breakpoint, placed(9), 0).is_ok());
    assert!(hardware_probe(ProbeSite::Runtime(0), 0, 1, 0).is_ok());
    assert_eq!(location_label(&Location::Symbol("s".to_owned()), 9), "s");
    assert_eq!(location_label(&Location::VirtualAddress(1), 9), "0x9");
}

#[test]
fn text_that_differs_from_the_file_is_not_probed() {
    assert!(check_width(Arch::Aarch64, &[0; 4]).is_ok());
    assert_eq!(
        words(&check_width(Arch::Aarch64, &[0; 3]).unwrap_err()),
        (Kind::UnexpectedEof, "the target text could not be read completely")
    );
    assert!(refuse_if_text_differs("/a", 4, &[1, 2], &[1, 2]).is_ok());
    let refusal = refuse_if_text_differs("/a", 0x40, &[1, 0xAB], &[1, 2]).unwrap_err();
    assert_eq!(
        words(&refusal).1,
        "the text at /a+0x40 does not match the file, so this library rewrites its own \
         code.\n  in memory: 01 ab\n  on disk:   01 02\nA uprobe would execute the on-disk bytes \
         in place of the real instruction on every hit, and write them back when it is removed, \
         which corrupts the target. Use --hw for a hardware breakpoint, which modifies nothing."
    );
    assert_eq!(refusal.kind(), Kind::Other);
}

fn watch(location: WatchLocation, emit: Option<&str>, follow: bool) -> WatchTrace {
    WatchTrace {
        process: Process::Pid(1),
        location,
        access: WatchAccess::Write,
        length: 4,
        report: Report::Threads,
        emit: emit.map(str::to_owned),
        tids: vec![],
        follow,
    }
}

#[test]
fn watches_become_groups_or_are_refused() {
    assert_eq!(u32::from(WatchAccess::Read), 1);
    assert_eq!(u32::from(WatchAccess::Write), 2);
    assert_eq!(u32::from(WatchAccess::Rw), 3);
    assert!(watch_refusal(&watch(WatchLocation::Runtime(8), None, false)).is_none());
    assert_eq!(
        words(&watch_refusal(&watch(WatchLocation::Runtime(8), Some("x"), true)).unwrap()),
        (Kind::InvalidInput, "a runtime watch address has no ASLR-stable artifact location")
    );
    assert_eq!(
        words(&watch_refusal(&watch(WatchLocation::Runtime(8), None, true)).unwrap()),
        (Kind::InvalidInput, "a runtime address cannot be followed across new address spaces")
    );
    let file = WatchLocation::FileOffset { library: "a".to_owned(), offset: 8 };
    assert!(watch_refusal(&watch(file, Some("x"), true)).is_none());

    let request = watch(WatchLocation::Runtime(8), None, false);
    assert!(matches!(watch_place(&request.location), WatchPlace::Runtime(8)));
    let group: Group<()> = build_watch(&request, ProbeSite::Runtime(8), 8).unwrap();
    assert_eq!(group.label(), "0x8");
    assert!(matches!(group.probe, ProbeSpec::Hardware { kind: 2, len: 4, .. }));
    assert!(build_watch::<()>(&request, ProbeSite::Runtime(9), 9).is_err());

    let file = WatchLocation::FileOffset { library: "a".to_owned(), offset: 8 };
    let WatchPlace::Library { library, location } = watch_place(&file) else {
        panic!("not in a library")
    };
    assert_eq!((library, &location), ("a", &Location::FileOffset(8)));
    let maps = [mapping(0x2000, 0x3000, 0, Some("/a"), true)];
    let (site, addr) = watch_site(&location, "/a", &[], &maps).unwrap();
    assert_eq!((site.file(), addr), (Some(("/a", 8)), 0x2008));
    assert!(watch_site(&location, "/b", &[], &maps).is_err());

    let system = SystemTrace {
        library: "/l".to_owned(),
        location: Location::Symbol("s".to_owned()),
        retprobe: true,
        report: Report::Threads,
        emit: None,
    };
    let group: Group<()> = build_system(&system, 0x30);
    assert_eq!((group.label(), group.path(), group.offset()), ("s", Some("/l"), 0x30));
}

fn regs(pairs: &[(usize, u64)]) -> Vec<u64> {
    let mut out = vec![0_u64; 14];
    for (slot, value) in pairs {
        out[*slot] = *value;
    }
    out
}

#[test]
fn frames_are_walked_through_the_capture() {
    let mut stack = vec![0_u8; 64];
    let mut put = |at: usize, value: u64| stack[at..at + 8].copy_from_slice(&value.to_le_bytes());
    put(16, 0x1020);
    put(24, 0xAAA);
    put(32, 0x1010);
    put(40, 0xBBB);
    let taken = sample(1, 1, regs(&[(13, 0x1000), (11, 0x1010), (12, 0x77)]), stack.clone());
    assert_eq!(frame_addresses(Arch::Aarch64, &taken, 32), vec![0xAAA, 0xBBB]);
    assert_eq!(frame_addresses(Arch::Aarch64, &taken, 1), vec![0xAAA]);
    assert_eq!(caller_address(Arch::Aarch64, &taken), Some(0x77));
    let none = sample(1, 1, regs(&[(13, 0x1000), (11, 0x1000)]), stack.clone());
    assert!(frame_addresses(Arch::Aarch64, &none, 32).is_empty());
    assert_eq!(caller_address(Arch::Aarch64, &none), None);
    let past = sample(1, 1, regs(&[(13, 0x1000), (11, u64::MAX - 3)]), stack.clone());
    assert!(frame_addresses(Arch::Aarch64, &past, 32).is_empty());
    assert!(frame_addresses(Arch::Aarch64, &sample(1, 1, vec![], vec![]), 32).is_empty());
    let x86 = sample(1, 1, regs(&[(5, 0x1000)]), 0x1234_u64.to_le_bytes().to_vec());
    assert_eq!(caller_address(Arch::X86_64, &x86), Some(0x1234));
    let short = sample(1, 1, regs(&[(5, 0x1000)]), vec![1; 7]);
    assert_eq!(caller_address(Arch::X86_64, &short), None);
    assert_eq!(module_name("/a/b.so"), "b.so");
    assert_eq!(module_name("b.so"), "b.so");
}

#[test]
fn addresses_are_named_by_what_is_known() {
    let maps = vec![
        mapping(0x1000, 0x2000, 0, Some("/lib/a.so"), true),
        mapping(0x3000, 0x4000, 0, None, true),
    ];
    let mut names = Symbolizer::new(true);
    assert_eq!(names.need(1, 0x1010, 0), Need::Mappings);
    names.settle(1, 0, Some(maps));
    assert_eq!(names.need(1, 0x1010, 0), Need::Library("/lib/a.so".to_owned()));
    assert_eq!(names.name_code_address(1, 0x1010), "a.so+0x10");
    assert!(names.library("/lib/a.so", None).is_none());
    assert_eq!(names.need(1, 0x1010, INTERVAL - 1), Need::Nothing);
    assert_eq!(names.need(1, 0x1010, INTERVAL), Need::Mappings);
    assert_eq!(names.name_code_address(1, 0x1010), "a.so+0x10");
    assert_eq!(names.name_code_address(1, 0x3010), "0x3010");
    assert_eq!(names.name_code_address(1, 0x9), "0x9?");
    assert_eq!(names.name_code_address(2, 0x9), "0x9?");

    names.libraries[0] = Library {
        path: "/lib/a.so".to_owned(),
        segments: Some(vec![Segment { offset: 0, vaddr: 0x50_000, filesz: 0x100 }]),
        entries: Some(vec![0x50_020]),
    };
    assert_eq!(names.name_code_address(1, 0x1010), "a.so@0x50010?");
    assert_eq!(names.name_code_address(1, 0x1020), "a.so@0x50020");
    assert_eq!(names.name_code_address(1, 0x1200), "a.so+0x200?");
    let taken = sample(1, 1, regs(&[(12, 0x1024)]), vec![]);
    let caller = names.caller(Arch::Aarch64, &taken).unwrap();
    assert_eq!(caller.name(), "a.so@0x50024");
    assert_eq!(caller.site().unwrap().vaddr, 0x50_024);
    assert_eq!(caller.site().unwrap().module, "/lib/a.so");
    let lost = sample(1, 1, regs(&[(12, 0x9)]), vec![]);
    let caller = names.caller(Arch::Aarch64, &lost).unwrap();
    assert_eq!(caller.name(), "0x9");
    assert!(caller.site().is_none());
    assert!(names.caller(Arch::Aarch64, &sample(1, 1, vec![], vec![])).is_none());
    assert!(names.frames(Arch::Aarch64, &taken, 32).is_empty());
}

#[test]
fn a_snapshot_stays_and_a_failed_refresh_keeps_what_was_known() {
    let mut names = Symbolizer::new(false);
    let maps = [mapping(0x1000, 0x2000, 0, None, true)];
    names.remember_process(1, &maps, 5);
    assert_eq!(names.need(1, 0x1000, u64::MAX), Need::Nothing);
    names.remember_process(1, &[], 6);
    assert_eq!(names.name_code_address(1, 0x1000), "0x1000?");
    names.settle(2, 0, Some(maps.to_vec()));
    names.settle(2, INTERVAL, None);
    assert_eq!(names.need(2, 0x1000, INTERVAL), Need::Nothing);
    assert_eq!(names.name_code_address(2, 0x1000), "0x1000");
    names.settle(3, 0, None);
    assert_eq!(names.name_code_address(3, 0x1000), "0x1000?");
    assert_eq!(names.processes.len(), 3);
}

#[test]
fn registers_and_bytes_are_shown() {
    let values = [1, 2, 3, 0xFF, 5];
    assert_eq!(registers(Arch::Aarch64, &values, false), "args=[0x1, 0x2, 0x3, 0xff]");
    assert_eq!(
        registers(Arch::Aarch64, &values, true),
        "x0=0x1 x1=0x2 x2=0x3 x3=0xff x4=0x5"
    );
    assert_eq!(registers(Arch::X86_64, &values[..1], true), "arg0=0x1");
    assert_eq!(hexdump(&[]), "");
    let bytes = (0x38..0x49).collect::<Vec<u8>>();
    assert_eq!(
        hexdump(&bytes),
        "38 39 3a 3b 3c 3d 3e 3f 40 41 42 43 44 45 46 47  89:;<=>?@ABCDEFG\n\
         48                                               H\n"
    );
    assert_eq!(
        hexdump(&[0x00, 0x7F, 0x20, 0x7E]),
        format!("00 7f 20 7e {} .. ~\n", " ".repeat(36))
    );
}

#[test]
fn a_sample_is_shown_on_its_lines() {
    let capture = Capture { dump: None, deref: None, stack: 0, all_regs: false };
    let taken = sample(7, 8, regs(&[(0, 1), (8, 0x1_0000_0009), (9, 2)]), vec![]);
    assert_eq!(
        report::sample(Arch::Aarch64, "main", &capture, &taken, "?", &[], &None, &None).unwrap(),
        "              42 main pid=7 tid=8 from=? state=[0x9,0x2,0x0] args=[0x1, 0x0, 0x0, 0x0]\n"
    );
    let deep = Capture { stack: 64, ..capture };
    let shown = report::sample(
        Arch::X86_64,
        "m",
        &deep,
        &taken,
        "a@0x1",
        &["f".to_owned(), "g".to_owned()],
        &Some(Memory::Bytes(vec![0x41])),
        &Some(Memory::Unreadable("gone".to_owned())),
    )
    .unwrap();
    assert_eq!(
        shown,
        format!(
            "              42 m pid=7 tid=8 from=a@0x1 args=[0x0, 0x0, 0x0, 0x1]\n  f < g\n\
             41 {} A\n  <unreadable: gone>\n",
            " ".repeat(45)
        )
    );
    let empty =
        report::sample(Arch::X86_64, "m", &deep, &taken, "?", &[], &None, &None).unwrap();
    assert!(empty.ends_with("\n  <no frames recovered>\n"));
    let short = sample(7, 8, vec![0; 13], vec![]);
    assert_eq!(
        words(
            &report::sample(Arch::Aarch64, "m", &capture, &short, "?", &[], &None, &None)
                .unwrap_err()
        ),
        (Kind::InvalidData, "the sample does not contain the complete register set")
    );
    assert_eq!(report::slot(Arch::Aarch64, &taken.regs, 8), Some(0x1_0000_0009));
    assert_eq!(report::slot(Arch::Aarch64, &regs(&[(13, 5)]), 13), Some(5));
    assert_eq!(report::slot(Arch::Aarch64, &[], 0), None);
    for arch in [Arch::Aarch64, Arch::X86_64] {
        let sampled = (100..100 + arch.sampled_regs() as u64).collect::<Vec<_>>();
        let args = args_from_regs(arch, &sampled).unwrap();
        for (index, arg) in args.iter().enumerate() {
            assert_eq!(report::slot(arch, &sampled, index), Some(*arg));
        }
    }
    // The sixth argument is r9, not the stack pointer in the slot of its number.
    let sampled = (100..108).collect::<Vec<u64>>();
    assert_eq!(report::slot(Arch::X86_64, &sampled, 5), Some(107));
}

#[test]
fn pointers_are_followed_carefully() {
    assert_eq!(report::field_address(8, 8).unwrap(), 16);
    assert_eq!(
        words(&report::field_address(u64::MAX, 1).unwrap_err()),
        (Kind::InvalidInput, "dereference offset overflows the object address")
    );
    assert_eq!(report::pointer_in(&[0; 8]).unwrap(), None);
    assert_eq!(report::pointer_in(&0x1234_u64.to_le_bytes()).unwrap(), Some(0x1234));
    for bad in [0, 7, 9] {
        assert_eq!(
            words(&report::pointer_in(&vec![1; bad]).unwrap_err()),
            (Kind::UnexpectedEof, "pointer read was incomplete")
        );
    }
}

#[test]
fn threads_are_ranked_by_their_hits() {
    let mut group: Group<()> = Group::new("g".to_owned(), uprobe("/a", 1), 0);
    group.record(1, 2, None, Some("two"));
    group.record(1, 3, None, Some("three"));
    group.record(1, 4, None, Some("four"));
    group.record(1, 2, None, None);
    assert_eq!(
        report::threads(&group),
        "3 threads for g\n        2         2  two\n        4         1  four\n        3         1  three\n"
    );
}

#[test]
fn a_trace_runs_its_course() {
    let request = |report: Report, emit: Option<&str>| {
        TraceRequest::System(SystemTrace {
            library: "/l".to_owned(),
            location: Location::FileOffset(1),
            retprobe: false,
            report,
            emit: emit.map(str::to_owned),
        })
    };
    let batch = |finished: bool| Batch { drains: vec![], finished };
    let interrupted = || Err(Fault::Os(libc::EINTR));

    let mut course = Course::new(&request(Report::Threads, Some("/out")));
    assert!(matches!(course.advance(Event::Remembered { stop: false }), Action::Wait));
    assert!(matches!(
        course.advance(Event::Waited { result: interrupted(), stop: false }),
        Action::Remember
    ));
    assert!(matches!(course.advance(Event::Remembered { stop: false }), Action::Wait));
    assert!(matches!(
        course.advance(Event::Waited { result: Ok(batch(false)), stop: true }),
        Action::Show(_)
    ));
    assert!(matches!(course.advance(Event::Shown), Action::Remember));
    assert!(matches!(course.advance(Event::Remembered { stop: true }), Action::Close));
    assert!(matches!(course.advance(Event::Closed(batch(true))), Action::Show(_)));
    assert!(matches!(course.advance(Event::Shown), Action::Rank));
    assert!(matches!(course.advance(Event::Ranked), Action::Emit));
    assert!(matches!(course.advance(Event::Emitted), Action::Done));

    let samples =
        Report::Samples(Capture { stack: 0, dump: None, deref: None, all_regs: false });
    let mut course = Course::new(&request(samples, None));
    assert!(matches!(
        course.advance(Event::Waited { result: interrupted(), stop: true }),
        Action::Close
    ));
    assert!(matches!(
        course.advance(Event::Waited { result: Err(Fault::Os(libc::EPERM)), stop: false }),
        Action::Fail(Fault::Os(libc::EPERM))
    ));
    assert!(matches!(
        course.advance(Event::Waited { result: Ok(batch(true)), stop: false }),
        Action::Show(_)
    ));
    assert!(matches!(course.advance(Event::Shown), Action::Done));

    assert!(check_running(false).is_ok());
    assert_eq!(
        words(&check_running(true).unwrap_err()),
        (Kind::NotFound, "the followed process exited")
    );
    let drain = |lost: u64, malformed: u64| Drain { group: 0, samples: vec![], lost, malformed };
    assert_eq!(notices(&drain(0, 0)), "");
    assert_eq!(notices(&drain(3, 0)), "  <lost 3 samples>\n");
    assert_eq!(
        notices(&drain(3, 1)),
        "  <lost 3 samples>\n  <discarded 1 malformed perf records>\n"
    );
    let mut running = session();
    let caller = Some(Caller {
        name: "c@0x1".to_owned(),
        site: Some(CodeSite { module: "/c".to_owned(), vaddr: 1 }),
    });
    record(&mut running, 0, &sample(1, 5, vec![], vec![]), &caller, None);
    record(&mut running, 0, &sample(1, 5, vec![], vec![]), &None, None);
    assert_eq!(running.groups()[0].hits(), 2);
    assert_eq!(running.groups()[0].callers()[0].count, 1);
    assert_eq!(shown_caller(&caller), "c@0x1");
    assert_eq!(shown_caller(&None), "?");
}

#[test]
fn a_process_is_waited_for_until_it_is_late() {
    let mut wait = Await::new();
    assert!(wait.goes_on(false));
    assert!(!wait.goes_on(true));
    wait.failed(Fault::Os(1), AWAIT_LIMIT - 1);
    assert!(wait.goes_on(false));
    wait.failed(Fault::Os(2), AWAIT_LIMIT);
    assert!(!wait.goes_on(false));
    assert!(matches!(wait.give_up(), Fault::Os(2)));
    assert_eq!(
        words(&Await::new().give_up()),
        (Kind::TimedOut, "gave up waiting for the process")
    );
}
