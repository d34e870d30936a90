//! The command line, as it is understood.

use vstd::prelude::*;
use crate::command::{
    Capture, Command, DumpRequest, ListRequest, Location, ProbeSet, Process, ProcessTrace,
    ProcessTrap, Report, SystemTrace, TraceRequest, WatchAccess, WatchLocation, WatchTrace,
};
use crate::lists::{self, insert};
use crate::perf::{self, is_dumpable, watch_len_is_valid, Arch};
use crate::target::{self, read_address};
use crate::text::{self, chars_of, cut_once, read_signed, read_unsigned, split, trim};

verus! {

/// What to probe in a process.
#[derive(Debug)]
pub enum ProcessProbe {
    /// Probe an exported symbol in a mapped library.
    Symbol { library: String, symbol: String },
    /// Probe a virtual address shown by a disassembler.
    Vaddr { library: String, address: u64 },
    /// Probe a file offset in a mapped library.
    Offset { library: String, address: u64 },
    /// Probe every site named in a file, one per line.
    Probes { file: String },
}

impl ProcessProbe {
    pub open spec fn probe_set(self) -> ProbeSet {
        match self {
            ProcessProbe::Symbol { library, symbol } => ProbeSet::Single {
                library,
                location: Location::Symbol(symbol),
            },
            ProcessProbe::Vaddr { library, address } => ProbeSet::Single {
                library,
                location: Location::VirtualAddress(address),
            },
            ProcessProbe::Offset { library, address } => ProbeSet::Single {
                library,
                location: Location::FileOffset(address),
            },
            ProcessProbe::Probes { file } => ProbeSet::File(file),
        }
    }

    pub fn into_probe_set(self) -> (r: ProbeSet)
        ensures
            r == self.probe_set(),
    {
        match self {
            ProcessProbe::Symbol { library, symbol } => ProbeSet::Single {
                library,
                location: Location::Symbol(symbol),
            },
            ProcessProbe::Vaddr { library, address } => ProbeSet::Single {
                library,
                location: Location::VirtualAddress(address),
            },
            ProcessProbe::Offset { library, address } => ProbeSet::Single {
                library,
                location: Location::FileOffset(address),
            },
            ProcessProbe::Probes { file } => ProbeSet::File(file),
        }
    }
}

/// What to probe in every process.
#[derive(Debug)]
pub enum SystemLocation {
    /// Probe an exported symbol in a library.
    Symbol { symbol: String },
    /// Probe a virtual address shown by a disassembler.
    Vaddr { address: u64 },
    /// Probe a file offset in a library.
    Offset { address: u64 },
}

impl SystemLocation {
    pub open spec fn location(self) -> Location {
        match self {
            SystemLocation::Symbol { symbol } => Location::Symbol(symbol),
            SystemLocation::Vaddr { address } => Location::VirtualAddress(address),
            SystemLocation::Offset { address } => Location::FileOffset(address),
        }
    }

    pub fn into_location(self) -> (r: Location)
        ensures
            r == self.location(),
    {
        match self {
            SystemLocation::Symbol { symbol } => Location::Symbol(symbol),
            SystemLocation::Vaddr { address } => Location::VirtualAddress(address),
            SystemLocation::Offset { address } => Location::FileOffset(address),
        }
    }
}

/// What to watch in a process.
#[derive(Debug)]
pub enum WatchSite {
    /// Watch an address in the target process.
    Runtime { address: u64 },
    /// Watch a virtual address in a mapped library.
    Vaddr { library: String, address: u64 },
    /// Watch a file offset in a mapped library.
    Offset { library: String, address: u64 },
}

impl WatchSite {
    pub open spec fn location(self) -> WatchLocation {
        match self {
            WatchSite::Runtime { address } => WatchLocation::Runtime(address),
            WatchSite::Vaddr { library, address } => WatchLocation::VirtualAddress {
                library,
                address,
            },
            WatchSite::Offset { library, address } => WatchLocation::FileOffset {
                library,
                offset: address,
            },
        }
    }

    pub fn into_location(self) -> (r: WatchLocation)
        ensures
            r == self.location(),
    {
        match self {
            WatchSite::Runtime { address } => WatchLocation::Runtime(address),
            WatchSite::Vaddr { library, address } => WatchLocation::VirtualAddress {
                library,
                address,
            },
            WatchSite::Offset { library, address } => WatchLocation::FileOffset {
                library,
                offset: address,
            },
        }
    }
}

/// Where to list functions from.
#[derive(Debug)]
pub enum FunctionSource {
    /// Read unwind entries from an absolute library path.
    File { library: String },
    /// Read unwind entries from a library mapped into one process.
    Process { process: Process, library: String },
}

/// Trace code, watch data, or inspect one mapped library.
#[derive(Debug)]
pub enum Cli {
    /// Trace code in one process.
    Trace {
        process: Process,
        dump: Option<(usize, usize)>,
        deref: Option<(usize, u64, usize)>,
        regs: bool,
        stack: Option<u32>,
        threads: bool,
        retprobe: bool,
        hw: bool,
        emit: Option<String>,
        tid: Option<Vec<i32>>,
        follow: bool,
        wait: bool,
        probe: ProcessProbe,
    },
    /// Trace code system-wide.
    System {
        library: String,
        dump: Option<(usize, usize)>,
        deref: Option<(usize, u64, usize)>,
        regs: bool,
        stack: Option<u32>,
        retprobe: bool,
        emit: Option<String>,
        location: SystemLocation,
    },
    /// Watch memory through a process's debug registers.
    Watch {
        process: Process,
        access: WatchAccess,
        length: u64,
        dump: Option<(usize, usize)>,
        deref: Option<(usize, u64, usize)>,
        regs: bool,
        stack: Option<u32>,
        threads: bool,
        emit: Option<String>,
        tid: Option<Vec<i32>>,
        follow: bool,
        site: WatchSite,
    },
    /// Write a mapped library to disk as it exists in memory.
    DumpLibrary { process: Process, library: String, output: String },
    /// List function entry points recovered from unwind data.
    ListFunctions { source: FunctionSource },
}

/// What a report takes from every hit.
pub open spec fn report_of(
    threads: bool,
    dump: Option<(usize, usize)>,
    deref: Option<(usize, u64, usize)>,
    stack: Option<u32>,
    regs: bool,
) -> Report {
    if threads {
        Report::Threads
    } else {
        Report::Samples(
            Capture {
                dump,
                deref,
                stack: match stack {
                    Some(bytes) => bytes,
                    None => 0,
                },
                all_regs: regs,
            },
        )
    }
}

/// What to report: a ranking of threads, or every sample.
pub fn report(
    threads: bool,
    dump: Option<(usize, usize)>,
    deref: Option<(usize, u64, usize)>,
    stack: Option<u32>,
    regs: bool,
) -> (r: Report)
    ensures
        r == report_of(threads, dump, deref, stack, regs),
{
    if threads {
        Report::Threads
    } else {
        let stack: u32 = match stack {
            Some(bytes) => bytes,
            None => 0,
        };
        Report::Samples(Capture { dump, deref, stack, all_regs: regs })
    }
}

/// The threads that are named, or none.
pub open spec fn tids_of(tid: Option<Vec<i32>>) -> Seq<i32> {
    match tid {
        Some(tids) => tids@,
        None => Seq::empty(),
    }
}

fn tids_or_none(tid: Option<Vec<i32>>) -> (r: Vec<i32>)
    ensures
        r@ == tids_of(tid),
{
    match tid {
        Some(tids) => tids,
        None => Vec::new(),
    }
}

/// Whether a command is what a command line asks for.
pub open spec fn asks(cli: Cli, command: Command) -> bool {
    match cli {
        Cli::Trace {
            process,
            dump,
            deref,
            regs,
            stack,
            threads,
            retprobe,
            hw,
            emit,
            tid,
            follow,
            wait,
            probe,
        } => command matches Command::Trace(TraceRequest::Process(trace)) && trace.process
            == process && trace.probes == probe.probe_set() && trace.trap == (if hw {
            ProcessTrap::Breakpoint
        } else {
            ProcessTrap::Uprobe { retprobe }
        }) && trace.report == report_of(threads, dump, deref, stack, regs) && trace.emit == emit
            && trace.tids@ == tids_of(tid) && trace.follow == follow && trace.wait == wait,
        Cli::System { library, dump, deref, regs, stack, retprobe, emit, location } => command
            == Command::Trace(
            TraceRequest::System(
                SystemTrace {
                    library,
                    location: location.location(),
                    retprobe,
                    report: report_of(false, dump, deref, stack, regs),
                    emit,
                },
            ),
        ),
        Cli::Watch {
            process,
            access,
            length,
            dump,
            deref,
            regs,
            stack,
            threads,
            emit,
            tid,
            follow,
            site,
        } => command matches Command::Trace(TraceRequest::Watch(trace)) && trace.process == process
            && trace.location == site.location() && trace.access == access && trace.length
            == length && trace.report == report_of(threads, dump, deref, stack, regs) && trace.emit
            == emit && trace.tids@ == tids_of(tid) && trace.follow == follow,
        Cli::DumpLibrary { process, library, output } => command == Command::DumpLibrary(
            DumpRequest { library, output, process },
        ),
        Cli::ListFunctions { source } => command == Command::ListFunctions(
            match source {
                FunctionSource::File { library } => ListRequest { library, process: None },
                FunctionSource::Process { process, library } => ListRequest {
                    library,
                    process: Some(process),
                },
            },
        ),
    }
}

impl Cli {
    /// The command that a command line asks for.
    #[must_use]
    pub fn into_command(self) -> (r: Command)
        ensures
            asks(self, r),
    {
        match self {
            Cli::Trace {
                process,
                dump,
                deref,
                regs,
                stack,
                threads,
                retprobe,
                hw,
                emit,
                tid,
                follow,
                wait,
                probe,
            } => Command::Trace(
                TraceRequest::Process(
                    ProcessTrace {
                        process,
                        probes: probe.into_probe_set(),
                        trap: if hw {
                            ProcessTrap::Breakpoint
                        } else {
                            ProcessTrap::Uprobe { retprobe }
                        },
                        report: report(threads, dump, deref, stack, regs),
                        emit,
                        tids: tids_or_none(tid),
                        follow,
                        wait,
                    },
                ),
            ),
            Cli::System { library, dump, deref, regs, stack, retprobe, emit, location } =>
            Command::Trace(
                TraceRequest::System(
                    SystemTrace {
                        library,
                        location: location.into_location(),
                        retprobe,
                        report: report(false, dump, deref, stack, regs),
                        emit,
                    },
                ),
            ),
            Cli::Watch {
                process,
                access,
                length,
                dump,
                deref,
                regs,
                stack,
                threads,
                emit,
                tid,
                follow,
                site,
            } => Command::Trace(
                TraceRequest::Watch(
                    WatchTrace {
                        process,
                        location: site.into_location(),
                        access,
                        length,
                        report: report(threads, dump, deref, stack, regs),
                        emit,
                        tids: tids_or_none(tid),
                        follow,
                    },
                ),
            ),
            Cli::DumpLibrary { process, library, output } => Command::DumpLibrary(
                DumpRequest { library, output, process },
            ),
            Cli::ListFunctions { source } => {
                let (library, process) = match source {
                    FunctionSource::File { library } => (library, None),
                    FunctionSource::Process { process, library } => (library, Some(process)),
                };
                Command::ListFunctions(ListRequest { library, process })
            },
        }
    }
}

impl Process {
    /// Reads a process number, or else the name of a package.
    pub fn from_arg(s: &str) -> (r: Result<Process, &'static str>)
        ensures
            match text::signed_value(s@) {
                Ok(n) => if n > 0 {
                    r == Ok::<Process, &'static str>(Process::Pid(n as i32))
                } else {
                    r matches Err(why) && why@ == "PID must be positive"@
                },
                Err(_) => if s@.len() == 0 {
                    r matches Err(why) && why@ == "package must not be empty"@
                } else {
                    r matches Ok(Process::Package(package)) && package@ == s@
                },
            },
    {
        let chars = chars_of(s);
        match read_signed(&chars) {
            Ok(pid) => if pid > 0 {
                Ok(Process::Pid(pid))
            } else {
                Err("PID must be positive")
            },
            Err(_) => if chars.len() == 0 {
                Err("package must not be empty")
            } else {
                Ok(Process::Package(s.to_owned()))
            },
        }
    }
}

/// Reads an address.
pub fn parse_address(text: &str) -> (r: Result<u64, &'static str>)
    ensures
        match target::address_in(text@) {
            Some(address) => r == Ok::<u64, &'static str>(address),
            None => r matches Err(why) && why@ == "expected an address"@,
        },
{
    match target::parse_address(text) {
        Some(address) => Ok(address),
        None => Err("expected an address"),
    }
}

/// Whether a library is named by an absolute path.
pub fn absolute_library(library: &str) -> (r: Result<(), &'static str>)
    ensures
        if library@.len() > 0 && library@[0] == '/' {
            r is Ok
        } else {
            r matches Err(why) && why@
                == "system and file lookups need an absolute library path"@
        },
{
    let chars = chars_of(library);
    if chars.len() > 0 && chars[0] == '/' {
        Ok(())
    } else {
        Err("system and file lookups need an absolute library path")
    }
}

/// The most that is read on a hit.
pub const MOST: usize = 0x40_0000;

/// A decimal number of machine size.
pub open spec fn size_in(s: Seq<char>) -> Option<int> {
    match text::unsigned_value(s, 10, usize::MAX as int) {
        Ok(n) => Some(n),
        Err(_) => None,
    }
}

fn read_size(s: &[char]) -> (r: Option<usize>)
    ensures
        match r {
            Some(n) => size_in(s@) == Some(n as int),
            None => size_in(s@) is None,
        },
{
    match read_unsigned(s, 10, usize::MAX as u64) {
        Ok(n) => Some(n as usize),
        Err(_) => None,
    }
}

/// What `<arg>:<len>` says: which register to read through, and how much.
pub open spec fn dump_value(arch: Arch, spec: Seq<char>) -> Result<(int, int), Seq<char>> {
    match text::cut_at(spec, ':') {
        None => Err("expected <arg>:<len>"@),
        Some(parts) => match (size_in(parts.0), size_in(parts.1)) {
            (None, _) => Err("invalid argument index"@),
            (_, None) => Err("invalid byte length"@),
            (Some(arg), Some(len)) => if perf::dumpable(arch, arg) && 0 < len <= MOST {
                Ok((arg, len))
            } else {
                Err("argument index or byte length is out of range"@)
            },
        },
    }
}

/// Reads `<arg>:<len>`.
pub fn parse_dump_value(arch: Arch, spec: &str) -> (r: Result<(usize, usize), &'static str>)
    ensures
        match r {
            Ok(found) => dump_value(arch, spec@) == Ok::<(int, int), Seq<char>>(
                (found.0 as int, found.1 as int),
            ),
            Err(why) => dump_value(arch, spec@) == Err::<(int, int), Seq<char>>(why@),
        },
{
    let chars = chars_of(spec);
    let (which, size) = match cut_once(&chars, ':') {
        Some(parts) => parts,
        None => return Err("expected <arg>:<len>"),
    };
    let arg: usize = match read_size(which) {
        Some(arg) => arg,
        None => return Err("invalid argument index"),
    };
    let len: usize = match read_size(size) {
        Some(len) => len,
        None => return Err("invalid byte length"),
    };
    if is_dumpable(arch, arg) && len > 0 && len <= MOST {
        Ok((arg, len))
    } else {
        Err("argument index or byte length is out of range")
    }
}

/// What `<arg>:<off>:<len>` says: which register to read a pointer through, at
/// which offset, and how much to read there.
pub open spec fn deref_value(arch: Arch, spec: Seq<char>) -> Result<(int, u64, int), Seq<char>> {
    let parts = text::split_on(spec, ':');
    match size_in(parts[0]) {
        None => Err("invalid argument index"@),
        Some(arg) => if parts.len() < 2 {
            Err("invalid pointer offset"@)
        } else {
            match target::address_in(parts[1]) {
                None => Err("invalid pointer offset"@),
                Some(off) => if parts.len() < 3 {
                    Err("expected <arg>:<off>:<len>"@)
                } else {
                    match size_in(parts[2]) {
                        None => Err("invalid byte length"@),
                        Some(len) => if parts.len() == 3 && perf::dumpable(arch, arg) && 0 < len
                            <= MOST && off <= 4096 {
                            Ok((arg, off, len))
                        } else {
                            Err(
                                "argument index, pointer offset, or byte length is out of range"@,
                            )
                        },
                    }
                },
            }
        },
    }
}

/// Reads `<arg>:<off>:<len>`.
pub fn parse_deref_value(arch: Arch, spec: &str) -> (r: Result<(usize, u64, usize), &'static str>)
    ensures
        match r {
            Ok(found) => deref_value(arch, spec@) == Ok::<(int, u64, int), Seq<char>>(
                (found.0 as int, found.1, found.2 as int),
            ),
            Err(why) => deref_value(arch, spec@) == Err::<(int, u64, int), Seq<char>>(why@),
        },
{
    let chars = chars_of(spec);
    let parts = split(&chars, ':');
    let ghost all = text::split_on(spec@, ':');
    assert(all.len() == parts@.len());
    assert forall|i: int| 0 <= i < all.len() implies all[i] == (#[trigger] parts@[i])@ by {
        assert(all[i] == text::contents(parts@)[i]);
    }
    let arg: usize = match read_size(parts[0]) {
        Some(arg) => arg,
        None => return Err("invalid argument index"),
    };
    if parts.len() < 2 {
        return Err("invalid pointer offset");
    }
    let off: u64 = match read_address(parts[1]) {
        Some(off) => off,
        None => return Err("invalid pointer offset"),
    };
    if parts.len() < 3 {
        return Err("expected <arg>:<off>:<len>");
    }
    let len: usize = match read_size(parts[2]) {
        Some(len) => len,
        None => return Err("invalid byte length"),
    };
    if parts.len() == 3 && is_dumpable(arch, arg) && len > 0 && len <= MOST && off <= 4096 {
        Ok((arg, off, len))
    } else {
        Err("argument index, pointer offset, or byte length is out of range")
    }
}

/// Reads how much stack to capture.
pub fn parse_stack(text: &str) -> (r: Result<u32, &'static str>)
    ensures
        match text::unsigned_value(text@, 10, u32::MAX as int) {
            Err(_) => r matches Err(why) && why@ == "invalid stack size"@,
            Ok(n) => if n != 0 && n % 8 == 0 && n <= 65536 {
                r matches Ok(bytes) && bytes == n
            } else {
                r matches Err(why) && why@ == "stack size must be aligned and between 8 and 65536"@
            },
        },
{
    match read_unsigned(&chars_of(text), 10, 0xFFFF_FFFF) {
        Err(_) => Err("invalid stack size"),
        Ok(n) => if n != 0 && n % 8 == 0 && n <= 65536 {
            Ok(n as u32)
        } else {
            Err("stack size must be aligned and between 8 and 65536")
        },
    }
}

/// A thread number, which is positive, with white space around it.
pub open spec fn tid_in(s: Seq<char>) -> Option<i32> {
    match text::signed_value(text::trimmed(s)) {
        Ok(n) => if n > 0 {
            Some(n as i32)
        } else {
            None
        },
        Err(_) => None,
    }
}

/// Reads thread numbers between commas, each once and in ascending order.
pub fn parse_tid_list(list: &str) -> (r: Result<Vec<i32>, &'static str>)
    ensures
        ({
            let parts = text::split_on(list@, ',');
            if exists|i: int| 0 <= i < parts.len() && tid_in(#[trigger] parts[i]) is None {
                r matches Err(why) && why@ == "thread IDs must be positive integers"@
            } else {
                r matches Ok(tids) && lists::ascending(tids@) && forall|tid: i32| #[trigger]
                    tids@.contains(tid) <==> exists|i: int|
                        0 <= i < parts.len() && tid_in(#[trigger] parts[i]) == Some(tid)
            }
        }),
{
    let chars = chars_of(list);
    let parts = split(&chars, ',');
    let ghost all = text::split_on(list@, ',');
    assert(all.len() == parts@.len());
    let mut tids: Vec<i32> = Vec::new();
    let mut n: usize = 0;
    while n < parts.len()
        invariant
            n <= parts@.len(),
            all == text::split_on(list@, ','),
            all == text::contents(parts@),
            lists::ascending(tids@),
            forall|i: int| 0 <= i < n ==> tid_in(#[trigger] all[i]) is Some,
            forall|tid: i32| #[trigger]
                tids@.contains(tid) <==> exists|i: int|
                    0 <= i < n && tid_in(#[trigger] all[i]) == Some(tid),
        decreases parts@.len() - n,
    {
        assert(all[n as int] == parts@[n as int]@);
        let tid: i32 = match read_signed(trim(parts[n])) {
            Ok(tid) => tid,
            Err(_) => {
                assert(tid_in(all[n as int]) is None);
                return Err("thread IDs must be positive integers");
            },
        };
        if tid <= 0 {
            assert(tid_in(all[n as int]) is None);
            return Err("thread IDs must be positive integers");
        }
        let ghost before = tids@;
        insert(&mut tids, tid);
        assert forall|x: i32| #[trigger] tids@.contains(x) <==> exists|i: int|
            0 <= i < n + 1 && tid_in(#[trigger] all[i]) == Some(x) by {
            if before.contains(x) {
                let i = choose|i: int| 0 <= i < n && tid_in(#[trigger] all[i]) == Some(x);
                assert(0 <= i < n + 1 && tid_in(all[i]) == Some(x));
            }
            if x == tid {
                assert(0 <= n < n + 1 && tid_in(all[n as int]) == Some(x));
            }
        }
        n += 1;
    }
    Ok(tids)
}

/// Whether the debug registers can watch that many bytes.
pub fn watch_length(length: &u64) -> (r: Result<(), &'static str>)
    ensures
        if perf::watchable(*length) {
            r is Ok
        } else {
            r matches Err(why) && why@ == "watch length is not supported by the debug registers"@
        },
{
    if watch_len_is_valid(*length) {
        Ok(())
    } else {
        Err("watch length is not supported by the debug registers")
    }
}

/// The options of a trace reach the command that it asks for, each as it was
/// given.
pub proof fn lemma_trace_options_reach_the_command(cli: Cli, command: Command)
    requires
        asks(cli, command),
    ensures
        cli matches Cli::Trace {
            process,
            dump,
            deref,
            regs,
            stack,
            threads,
            retprobe,
            hw,
            emit,
            tid,
            follow,
            wait,
            probe,
        } ==> (command matches Command::Trace(TraceRequest::Process(trace)) && {
            &&& trace.process == process
            &&& hw ==> trace.trap == ProcessTrap::Breakpoint
            &&& !hw ==> trace.trap == (ProcessTrap::Uprobe { retprobe })
            &&& threads ==> trace.report == Report::Threads
            &&& !threads ==> (trace.report matches Report::Samples(capture) && capture.dump == dump
                && capture.deref == deref && capture.all_regs == regs && (stack matches Some(bytes)
                ==> capture.stack == bytes) && (stack is None ==> capture.stack == 0))
            &&& trace.emit == emit
            &&& tid matches Some(tids) ==> trace.tids@ == tids@
            &&& tid is None ==> trace.tids@.len() == 0
            &&& trace.follow == follow
            &&& trace.wait == wait
            &&& probe matches ProcessProbe::Symbol { library, symbol } ==> trace.probes == (
            ProbeSet::Single { library, location: Location::Symbol(symbol) })
            &&& probe matches ProcessProbe::Vaddr { library, address } ==> trace.probes == (
            ProbeSet::Single { library, location: Location::VirtualAddress(address) })
            &&& probe matches ProcessProbe::Offset { library, address } ==> trace.probes == (
            ProbeSet::Single { library, location: Location::FileOffset(address) })
            &&& probe matches ProcessProbe::Probes { file } ==> trace.probes == ProbeSet::File(file)
        }),
{
}

/// The options of a system trace reach the command that it asks for.
pub proof fn lemma_system_options_reach_the_command(cli: Cli, command: Command)
    requires
        asks(cli, command),
    ensures
        cli matches Cli::System {
            library,
            dump,
            deref,
            regs,
            stack,
            retprobe,
            emit,
            location,
        } ==> (command matches Command::Trace(TraceRequest::System(trace)) && {
            &&& trace.library == library
            &&& trace.retprobe == retprobe
            &&& trace.emit == emit
            &&& trace.report matches Report::Samples(capture) && capture.dump == dump
                && capture.deref == deref && capture.all_regs == regs && (stack matches Some(bytes)
                ==> capture.stack == bytes) && (stack is None ==> capture.stack == 0)
            &&& location matches SystemLocation::Symbol { symbol } ==> trace.location
                == Location::Symbol(symbol)
            &&& location matches SystemLocation::Vaddr { address } ==> trace.location
                == Location::VirtualAddress(address)
            &&& location matches SystemLocation::Offset { address } ==> trace.location
                == Location::FileOffset(address)
        }),
{
}

/// The options of a watch reach the command that it asks for.
pub proof fn lemma_watch_options_reach_the_command(cli: Cli, command: Command)
    requires
        asks(cli, command),
    ensures
        cli matches Cli::Watch {
            process,
            access,
            length,
            dump,
            deref,
            regs,
            stack,
            threads,
            emit,
            tid,
            follow,
            site,
        } ==> (command matches Command::Trace(TraceRequest::Watch(trace)) && {
            &&& trace.process == process
            &&& trace.access == access
            &&& trace.length == length
            &&& threads ==> trace.report == Report::Threads
            &&& !threads ==> (trace.report matches Report::Samples(capture) && capture.dump == dump
                && capture.deref == deref && capture.all_regs == regs && (stack matches Some(bytes)
                ==> capture.stack == bytes) && (stack is None ==> capture.stack == 0))
            &&& trace.emit == emit
            &&& tid matches Some(tids) ==> trace.tids@ == tids@
            &&& tid is None ==> trace.tids@.len() == 0
            &&& trace.follow == follow
            &&& site matches WatchSite::Runtime { address } ==> trace.location
                == WatchLocation::Runtime(address)
            &&& site matches WatchSite::Vaddr { library, address } ==> trace.location == (
            WatchLocation::VirtualAddress { library, address })
            &&& site matches WatchSite::Offset { library, address } ==> trace.location == (
            WatchLocation::FileOffset { library, offset: address })
        }),
{
}

/// A library is dumped or listed as it was asked for.
pub proof fn lemma_library_options_reach_the_command(cli: Cli, command: Command)
    requires
        asks(cli, command),
    ensures
        cli matches Cli::DumpLibrary { process, library, output } ==> (
        command matches Command::DumpLibrary(request) && request.process == process
            && request.library == library && request.output == output),
        cli matches Cli::ListFunctions { source: FunctionSource::File { library } } ==> (
        command matches Command::ListFunctions(request) && request.library == library
            && request.process is None),
        cli matches Cli::ListFunctions { source: FunctionSource::Process { process, library } } ==> (
        command matches Command::ListFunctions(request) && request.library == library
            && request.process == Some(process)),
{
}

/// Any argument, and any length from one byte to four megabytes, can be dumped.
pub proof fn lemma_dump_option_is_read(arch: Arch, arg: nat, len: nat)
    requires
        arg < arch.spec_arg_count() || arg == arch.spec_sp_slot(),
        0 < len <= 0x40_0000,
    ensures
        dump_value(arch, text::decimal_digits(arg).push(':') + text::decimal_digits(len)) == Ok::<
            (int, int),
            Seq<char>,
        >((arg as int, len as int)),
{
    let left = text::decimal_digits(arg);
    let right = text::decimal_digits(len);
    let spec = left.push(':') + right;
    text::lemma_decimal_reads_back(arg, usize::MAX as int);
    text::lemma_decimal_reads_back(len, usize::MAX as int);
    text::lemma_shown_numbers(arg);
    text::lemma_shown_numbers(len);
    assert forall|i: int| 0 <= i < left.len() implies spec[i] != ':' by {
        assert('0' <= left[i] <= '9');
    }
    text::lemma_first_at(spec, ':', left.len() as int);
    assert(spec.take(left.len() as int) =~= left);
    assert(spec.skip(left.len() as int + 1) =~= right);
}

/// Any argument can be read through, at any offset up to a page and for any
/// length that can be dumped.
pub proof fn lemma_deref_option_is_read(arch: Arch, arg: nat, off: u64, len: nat)
    requires
        arg < arch.spec_arg_count() || arg == arch.spec_sp_slot(),
        off <= 4096,
        0 < len <= 0x40_0000,
    ensures
        deref_value(
            arch,
            text::decimal_digits(arg).push(':') + (text::hex_text(off as nat).push(':')
                + text::decimal_digits(len)),
        ) == Ok::<(int, u64, int), Seq<char>>((arg as int, off, len as int)),
{
    let one = text::decimal_digits(arg);
    let two = text::hex_text(off as nat);
    let three = text::decimal_digits(len);
    text::lemma_decimal_reads_back(arg, usize::MAX as int);
    text::lemma_decimal_reads_back(len, usize::MAX as int);
    text::lemma_shown_numbers(arg);
    text::lemma_shown_numbers(len);
    text::lemma_shown_numbers(off as nat);
    target::lemma_shown_address_reads_back(off);
    assert forall|i: int| 0 <= i < one.len() implies one[i] != ':' by {
        assert('0' <= one[i] <= '9');
    }
    assert forall|i: int| 0 <= i < three.len() implies three[i] != ':' by {
        assert('0' <= three[i] <= '9');
    }
    assert forall|i: int| 0 <= i < two.len() implies two[i] != ':' by {
        if i >= 2 {
            let digit = text::hex_digits(off as nat)[i - 2];
            assert('0' <= digit <= '9' || 'a' <= digit <= 'f');
        }
    }
    text::lemma_part(one, ':');
    text::lemma_part(two, ':');
    text::lemma_part(three, ':');
    text::lemma_split_parts_at_separators(two, ':', three);
    text::lemma_split_parts_at_separators(one, ':', two.push(':') + three);
    let parts = text::split_on(one.push(':') + (two.push(':') + three), ':');
    assert(parts =~= seq![one, two, three]);
}

/// Any positive number is a thread, with or without spaces around it.
pub proof fn lemma_thread_option_is_read(tid: i32)
    requires
        tid > 0,
    ensures
        tid_in(text::decimal_digits(tid as nat)) == Some(tid),
        tid_in(seq![' '] + text::decimal_digits(tid as nat)) == Some(tid),
{
    let shown = text::decimal_digits(tid as nat);
    text::lemma_decimal_reads_back(tid as nat, i32::MAX as int);
    text::lemma_shown_numbers(tid as nat);
    assert('0' <= shown[0] <= '9');
    assert('0' <= shown[shown.len() - 1] <= '9');
    assert(text::trimmed(shown) == shown);
    let padded = seq![' '] + shown;
    assert(padded.skip(1) =~= shown);
    assert(text::trimmed_start(padded) == text::trimmed_start(shown));
}

/// What is taken of an option is in range: a register that can be dumped, a
/// length up to the most that is read, an offset up to a page, a thread above
/// nought. A part too many is not passed over.
pub proof fn lemma_options_out_of_range_are_refused(arch: Arch, spec: Seq<char>)
    ensures
        dump_value(arch, spec) matches Ok(found) ==> (found.0 < arch.spec_arg_count() || found.0
            == arch.spec_sp_slot()) && 0 < found.1 <= 0x40_0000,
        !spec.contains(':') ==> dump_value(arch, spec) is Err,
        deref_value(arch, spec) matches Ok(found) ==> (found.0 < arch.spec_arg_count() || found.0
            == arch.spec_sp_slot()) && found.1 <= 4096 && 0 < found.2 <= 0x40_0000,
        text::split_on(spec, ':').len() != 3 ==> deref_value(arch, spec) is Err,
        text::signed_value(text::trimmed(spec)) matches Ok(n) ==> (tid_in(spec) is Some <==> n > 0),
{
    if !spec.contains(':') {
        text::lemma_text_is_cut_once(spec, Seq::empty(), ':');
    }
}

} // verus!
