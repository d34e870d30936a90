//! What the tracer is asked to do.

use vstd::prelude::*;
use crate::maps;

verus! {

#[derive(Debug, PartialEq, Eq)]
pub enum Process {
    Pid(i32),
    Package(String),
}

#[derive(Debug, PartialEq, Eq)]
pub struct ListRequest {
    pub library: String,
    pub process: Option<Process>,
}

#[derive(Debug, PartialEq, Eq)]
pub struct DumpRequest {
    pub library: String,
    pub output: String,
    pub process: Process,
}

/// Where in a library to put a probe.
#[derive(Debug, Clone, PartialEq, Eq)]
pub enum Location {
    Symbol(String),
    VirtualAddress(u64),
    FileOffset(u64),
}

pub enum Place {
    Symbol(Seq<char>),
    VirtualAddress(u64),
    FileOffset(u64),
}

impl View for Location {
    type V = Place;

    open spec fn view(&self) -> Place {
        match self {
            Location::Symbol(symbol) => Place::Symbol(symbol@),
            Location::VirtualAddress(vaddr) => Place::VirtualAddress(*vaddr),
            Location::FileOffset(offset) => Place::FileOffset(*offset),
        }
    }
}

impl Location {
    /// A location of its own with the same contents.
    pub fn duplicate(&self) -> (r: Location)
        ensures
            r@ == self@,
    {
        match self {
            Location::Symbol(symbol) => Location::Symbol(symbol.as_str().to_owned()),
            Location::VirtualAddress(vaddr) => Location::VirtualAddress(*vaddr),
            Location::FileOffset(offset) => Location::FileOffset(*offset),
        }
    }
}

#[derive(Debug, PartialEq, Eq)]
pub enum ProbeSet {
    Single { library: String, location: Location },
    File(String),
}

#[derive(Debug, Clone, Copy, PartialEq, Eq, Structural)]
pub enum WatchAccess {
    Read,
    Write,
    Rw,
}

#[derive(Debug, PartialEq, Eq)]
pub enum WatchLocation {
    Runtime(u64),
    VirtualAddress { library: String, address: u64 },
    FileOffset { library: String, offset: u64 },
}

#[derive(Debug, Clone, Copy, PartialEq, Eq, Structural)]
pub enum ProcessTrap {
    Uprobe { retprobe: bool },
    Breakpoint,
}

/// What to take from every hit.
#[derive(Debug, Clone, Copy, PartialEq, Eq)]
pub struct Capture {
    pub dump: Option<(usize, usize)>,
    pub deref: Option<(usize, u64, usize)>,
    pub stack: u32,
    pub all_regs: bool,
}

#[derive(Debug, Clone, Copy, PartialEq, Eq)]
pub enum Report {
    Samples(Capture),
    Threads,
}

/// The bytes of stack that a report captures per hit.
pub open spec fn stack_of(report: Report) -> u32 {
    match report {
        Report::Samples(capture) => capture.stack,
        Report::Threads => 0,
    }
}

impl Report {
    /// The bytes of stack captured per hit.
    #[must_use]
    pub fn stack(&self) -> (r: u32)
        ensures
            r == stack_of(*self),
    {
        match self {
            Report::Samples(capture) => capture.stack,
            Report::Threads => 0,
        }
    }
}

#[derive(Debug, PartialEq, Eq)]
pub struct ProcessTrace {
    pub process: Process,
    pub probes: ProbeSet,
    pub trap: ProcessTrap,
    pub report: Report,
    pub emit: Option<String>,
    pub tids: Vec<i32>,
    pub follow: bool,
    pub wait: bool,
}

#[derive(Debug, PartialEq, Eq)]
pub struct SystemTrace {
    pub library: String,
    pub location: Location,
    pub retprobe: bool,
    pub report: Report,
    pub emit: Option<String>,
}

#[derive(Debug, PartialEq, Eq)]
pub struct WatchTrace {
    pub process: Process,
    pub location: WatchLocation,
    pub access: WatchAccess,
    pub length: u64,
    pub report: Report,
    pub emit: Option<String>,
    pub tids: Vec<i32>,
    pub follow: bool,
}

#[derive(Debug, PartialEq, Eq)]
pub enum TraceRequest {
    Process(ProcessTrace),
    System(SystemTrace),
    Watch(WatchTrace),
}

/// What a request reports.
pub open spec fn report_of(request: TraceRequest) -> Report {
    match request {
        TraceRequest::Process(request) => request.report,
        TraceRequest::System(request) => request.report,
        TraceRequest::Watch(request) => request.report,
    }
}

/// Where a request writes its artifact, if it does.
pub open spec fn emit_of(request: TraceRequest) -> Option<String> {
    match request {
        TraceRequest::Process(request) => request.emit,
        TraceRequest::System(request) => request.emit,
        TraceRequest::Watch(request) => request.emit,
    }
}

impl TraceRequest {
    #[must_use]
    pub fn report(&self) -> (r: &Report)
        ensures
            *r == report_of(*self),
    {
        match self {
            TraceRequest::Process(request) => &request.report,
            TraceRequest::System(request) => &request.report,
            TraceRequest::Watch(request) => &request.report,
        }
    }

    /// Where to write an artifact, if anywhere.
    #[must_use]
    pub fn emit(&self) -> (r: Option<&str>)
        ensures
            match r {
                Some(path) => maps::name_view(emit_of(*self)) == Some(path@),
                None => emit_of(*self) is None,
            },
    {
        let emit = match self {
            TraceRequest::Process(request) => &request.emit,
            TraceRequest::System(request) => &request.emit,
            TraceRequest::Watch(request) => &request.emit,
        };
        match emit {
            Some(path) => Some(path.as_str()),
            None => None,
        }
    }
}

#[derive(Debug, PartialEq, Eq)]
pub enum Command {
    Trace(TraceRequest),
    DumpLibrary(DumpRequest),
    ListFunctions(ListRequest),
}

/// A request is reported and emitted as its own kind says, and takes as much of
/// the stack as its samples show.
pub proof fn lemma_requests_are_reported(
    process: ProcessTrace,
    system: SystemTrace,
    watch: WatchTrace,
    capture: Capture,
)
    ensures
        report_of(TraceRequest::Process(process)) == process.report,
        report_of(TraceRequest::System(system)) == system.report,
        report_of(TraceRequest::Watch(watch)) == watch.report,
        emit_of(TraceRequest::Process(process)) == process.emit,
        emit_of(TraceRequest::System(system)) == system.emit,
        emit_of(TraceRequest::Watch(watch)) == watch.emit,
        stack_of(Report::Samples(capture)) == capture.stack,
        stack_of(Report::Threads) == 0,
{
}

} // verus!
