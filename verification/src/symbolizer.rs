//! Names the code that a sample came from.

use vstd::prelude::*;
use crate::bytes::{self, u64_at};
use crate::elf::{file_offset_to_vaddr, segments_from_head, Elf, Segment};
use crate::fault::{self, ElfPart, Fault, Kind, Outcome};
use crate::maps::{self, describe_code, duplicate_all, CodeLocation, LocationView, Mapping, MappingView};
use crate::perf::{self, Arch};
use crate::ring::Sample;
use crate::text::{self, after_last_of, chars_of, hex, same, string_of};

verus! {

/// How much of a library is read where only its segments matter.
pub const LIBRARY_HEAD: usize = 0x1_0000;

/// Nanoseconds for which the mappings of a process are taken to be current.
pub const INTERVAL: u64 = 200_000_000;

/// An address in a library, as a disassembler shows it.
#[derive(Debug)]
pub struct CodeSite {
    pub module: String,
    pub vaddr: u64,
}

/// Who a hit was called by.
#[derive(Debug)]
pub struct Caller {
    pub name: String,
    pub site: Option<CodeSite>,
}

/// The module and the address of a site.
pub open spec fn site_view(site: Option<CodeSite>) -> Option<(Seq<char>, u64)> {
    match site {
        Some(found) => Some((found.module@, found.vaddr)),
        None => None,
    }
}

impl Caller {
    #[must_use]
    pub fn name(&self) -> (r: &str)
        ensures
            r@ == self.name@,
    {
        self.name.as_str()
    }

    #[must_use]
    pub fn site(&self) -> (r: Option<&CodeSite>)
        ensures
            match r {
                Some(found) => self.site == Some(*found),
                None => self.site is None,
            },
    {
        match &self.site {
            Some(found) => Some(found),
            None => None,
        }
    }
}

/// The mappings of a process and when they were read. Those of a snapshot stay
/// until they are replaced.
#[derive(Debug)]
pub struct Process {
    pub pid: i32,
    pub mappings: Vec<Mapping>,
    pub last_refresh: u64,
    pub snapshot: bool,
}

/// What is known of a library: nothing, its segments, or its function entry
/// points too.
#[derive(Debug)]
pub struct Library {
    pub path: String,
    pub segments: Option<Vec<Segment>>,
    pub entries: Option<Vec<u64>>,
}

#[derive(Debug)]
pub struct Symbolizer {
    pub processes: Vec<Process>,
    pub libraries: Vec<Library>,
    pub with_entries: bool,
}

/// The index of the first record of a process, or the length.
pub open spec fn process_index(processes: Seq<Process>, pid: i32) -> int
    decreases processes.len(),
{
    if processes.len() == 0 || processes[0].pid == pid {
        0
    } else {
        1 + process_index(processes.skip(1), pid)
    }
}

/// The index of the first record of a library, or the length.
pub open spec fn library_index(libraries: Seq<Library>, path: Seq<char>) -> int
    decreases libraries.len(),
{
    if libraries.len() == 0 || libraries[0].path@ == path {
        0
    } else {
        1 + library_index(libraries.skip(1), path)
    }
}

proof fn lemma_process_index(processes: Seq<Process>, pid: i32, n: int)
    requires
        0 <= n <= processes.len(),
        forall|i: int| 0 <= i < n ==> (#[trigger] processes[i]).pid != pid,
        n < processes.len() ==> processes[n].pid == pid,
    ensures
        process_index(processes, pid) == n,
    decreases n,
{
    if n > 0 {
        assert(processes[0].pid != pid);
        assert forall|i: int| 0 <= i < n - 1 implies (#[trigger] processes.skip(1)[i]).pid
            != pid by {
            assert(processes[i + 1].pid != pid);
        }
        lemma_process_index(processes.skip(1), pid, n - 1);
    }
}

proof fn lemma_library_index(libraries: Seq<Library>, path: Seq<char>, n: int)
    requires
        0 <= n <= libraries.len(),
        forall|i: int| 0 <= i < n ==> (#[trigger] libraries[i]).path@ != path,
        n < libraries.len() ==> libraries[n].path@ == path,
    ensures
        library_index(libraries, path) == n,
    decreases n,
{
    if n > 0 {
        assert(libraries[0].path@ != path);
        assert forall|i: int| 0 <= i < n - 1 implies (#[trigger] libraries.skip(1)[i]).path@
            != path by {
            assert(libraries[i + 1].path@ != path);
        }
        lemma_library_index(libraries.skip(1), path, n - 1);
    }
}

fn find_process(processes: &[Process], pid: i32) -> (r: usize)
    ensures
        r == process_index(processes@, pid),
        r <= processes@.len(),
        r < processes@.len() ==> processes@[r as int].pid == pid,
        forall|i: int| 0 <= i < r ==> (#[trigger] processes@[i]).pid != pid,
{
    let mut n: usize = 0;
    while n < processes.len() && processes[n].pid != pid
        invariant
            n <= processes@.len(),
            forall|i: int| 0 <= i < n ==> (#[trigger] processes@[i]).pid != pid,
        decreases processes@.len() - n,
    {
        n += 1;
    }
    proof {
        lemma_process_index(processes@, pid, n as int);
    }
    n
}

fn find_library(libraries: &[Library], path: &str) -> (r: usize)
    ensures
        r == library_index(libraries@, path@),
        r <= libraries@.len(),
        r < libraries@.len() ==> libraries@[r as int].path@ == path@,
        forall|i: int| 0 <= i < r ==> (#[trigger] libraries@[i]).path@ != path@,
{
    let mut n: usize = 0;
    while n < libraries.len() && !same(libraries[n].path.as_str(), path)
        invariant
            n <= libraries@.len(),
            forall|i: int| 0 <= i < n ==> (#[trigger] libraries@[i]).path@ != path@,
        decreases libraries@.len() - n,
    {
        n += 1;
    }
    proof {
        lemma_library_index(libraries@, path@, n as int);
    }
    n
}

/// The last component of a path.
pub fn module_name(path: &str) -> (r: String)
    ensures
        r@ == text::after_last(path@, '/'),
{
    let chars = chars_of(path);
    string_of(after_last_of(&chars, '/'))
}

/// The address that a hit returns to, unless it is none: in the link register,
/// or at the top of the captured stack.
pub open spec fn return_address(arch: Arch, regs: Seq<u64>, stack: Seq<u8>) -> Option<u64> {
    match perf::slot_value(regs, arch.spec_caller_slot()) {
        None => None,
        Some(slot) => {
            let addr = if arch.spec_caller_is_link_register() {
                Some(slot)
            } else if stack.len() >= 8 {
                Some(bytes::le64(stack, 0) as u64)
            } else {
                None
            };
            match addr {
                Some(addr) => if addr == 0 {
                    None
                } else {
                    Some(addr)
                },
                None => None,
            }
        },
    }
}

/// The address that a hit returns to.
pub fn caller_address(arch: Arch, sample: &Sample) -> (r: Option<u64>)
    ensures
        r == return_address(arch, sample.regs@, sample.stack@),
{
    let slot: u64 = match perf::caller_slot(arch, &sample.regs) {
        Some(slot) => slot,
        None => return None,
    };
    let addr: u64 = if arch.caller_is_link_register() {
        slot
    } else {
        match u64_at(&sample.stack, 0) {
            Some(addr) => addr,
            None => return None,
        }
    };
    if addr == 0 {
        None
    } else {
        Some(addr)
    }
}

/// The captured word at an address, where the capture begins at `base`.
pub open spec fn word_at(stack: Seq<u8>, base: u64, addr: int) -> Option<u64> {
    if base <= addr && addr <= u64::MAX && addr - base + 8 <= stack.len() {
        Some(bytes::le64(stack, addr - base) as u64)
    } else {
        None
    }
}

/// The return addresses along a chain of frame pointers. The chain ends where
/// it leaves the capture, returns nowhere, or does not go up.
pub open spec fn frames_from(stack: Seq<u8>, base: u64, fp: u64, limit: nat) -> Seq<u64>
    decreases limit,
{
    if limit == 0 || fp <= base {
        Seq::empty()
    } else {
        match (word_at(stack, base, fp as int), word_at(stack, base, fp + 8)) {
            (Some(next), Some(ret)) => if ret == 0 {
                Seq::empty()
            } else if next <= fp {
                seq![ret]
            } else {
                seq![ret] + frames_from(stack, base, next, (limit - 1) as nat)
            },
            _ => Seq::empty(),
        }
    }
}

/// The return addresses of a sample.
pub open spec fn frames_of(arch: Arch, regs: Seq<u64>, stack: Seq<u8>, limit: nat) -> Seq<u64> {
    match perf::slot_value(regs, arch.spec_sp_slot()) {
        None => Seq::empty(),
        Some(base) => {
            let fp = match perf::slot_value(regs, arch.spec_fp_slot()) {
                Some(fp) => fp,
                None => 0,
            };
            frames_from(stack, base, fp, limit)
        },
    }
}

fn read_word(stack: &[u8], base: u64, addr: u64) -> (r: Option<u64>)
    ensures
        r == word_at(stack@, base, addr as int),
{
    if addr < base {
        return None;
    }
    assert(stack@.len() == stack.len());
    match usize::try_from(addr - base) {
        Ok(at) => u64_at(stack, at),
        Err(_) => None,
    }
}

/// Walks the frame pointers of a sample.
pub fn frame_addresses(arch: Arch, sample: &Sample, limit: usize) -> (r: Vec<u64>)
    ensures
        r@ == frames_of(arch, sample.regs@, sample.stack@, limit as nat),
{
    let mut frames: Vec<u64> = Vec::new();
    let base: u64 = match perf::stack_pointer(arch, &sample.regs) {
        Some(base) => base,
        None => return frames,
    };
    let start: u64 = match perf::frame_pointer(arch, &sample.regs) {
        Some(fp) => fp,
        None => 0,
    };
    let ghost stack = sample.stack@;
    let ghost whole = frames_from(stack, base, start, limit as nat);
    let mut fp: u64 = start;
    while frames.len() < limit && fp > base
        invariant
            stack == sample.stack@,
            whole == frames_of(arch, sample.regs@, sample.stack@, limit as nat),
            frames@.len() <= limit,
            frames@ + frames_from(stack, base, fp, (limit - frames@.len()) as nat) =~= whole,
        decreases limit - frames@.len(),
    {
        let next: u64 = match read_word(&sample.stack, base, fp) {
            Some(next) => next,
            None => return frames,
        };
        let ret_at: u64 = match fp.checked_add(8) {
            Some(ret_at) => ret_at,
            None => return frames,
        };
        let ret: u64 = match read_word(&sample.stack, base, ret_at) {
            Some(ret) => ret,
            None => return frames,
        };
        if ret == 0 {
            return frames;
        }
        let ghost before = frames@;
        frames.push(ret);
        if next <= fp {
            assert(frames@ =~= whole);
            return frames;
        }
        assert(frames@ + frames_from(stack, base, next, (limit - frames@.len()) as nat) =~= before
            + (seq![ret] + frames_from(stack, base, next, (limit - before.len() - 1) as nat)));
        fp = next;
    }
    frames
}

/// A walk yields at most as many frames as it is allowed, and never a null
/// address.
pub proof fn lemma_frames_are_bounded(stack: Seq<u8>, base: u64, fp: u64, limit: nat)
    ensures
        frames_from(stack, base, fp, limit).len() <= limit,
        forall|i: int|
            0 <= i < frames_from(stack, base, fp, limit).len() ==> #[trigger] frames_from(
                stack,
                base,
                fp,
                limit,
            )[i] != 0,
    decreases limit,
{
    if limit > 0 && fp > base {
        if let (Some(next), Some(ret)) = (
            word_at(stack, base, fp as int),
            word_at(stack, base, fp + 8),
        ) {
            if ret != 0 && next > fp {
                lemma_frames_are_bounded(stack, base, next, (limit - 1) as nat);
                let rest = frames_from(stack, base, next, (limit - 1) as nat);
                let all = frames_from(stack, base, fp, limit);
                assert forall|i: int| 0 <= i < all.len() implies #[trigger] all[i] != 0 by {
                    if i > 0 {
                        assert(all[i] == rest[i - 1]);
                    }
                }
            }
        }
    }
}

/// Whether `fps` are frame pointers that lead up the captured stack from one to
/// the next, each with its record in the capture, and `rets` are the return
/// addresses in those records, none of them null.
pub open spec fn is_chain(stack: Seq<u8>, base: u64, fps: Seq<u64>, rets: Seq<u64>) -> bool {
    &&& fps.len() == rets.len()
    &&& forall|i: int|
        0 <= i < fps.len() ==> {
            &&& base < #[trigger] fps[i]
            &&& fps[i] + 8 <= u64::MAX
            &&& fps[i] - base + 16 <= stack.len()
            &&& bytes::le64(stack, fps[i] - base + 8) == rets[i]
            &&& rets[i] != 0
        }
    &&& forall|i: int, j: int|
        0 <= i && j == i + 1 && j < fps.len() ==> (#[trigger] fps[i]) < (#[trigger] fps[j])
            && bytes::le64(stack, fps[i] - base) == fps[j]
}

/// A walk follows a chain of frames to its end, up to as many as it is allowed,
/// however far apart the frames are.
pub proof fn lemma_walk_follows_the_chain(
    stack: Seq<u8>,
    base: u64,
    fps: Seq<u64>,
    rets: Seq<u64>,
    limit: nat,
)
    requires
        is_chain(stack, base, fps, rets),
        0 < fps.len() <= limit,
    ensures
        frames_from(stack, base, fps[0], limit).len() >= rets.len(),
        frames_from(stack, base, fps[0], limit).take(rets.len() as int) == rets,
    decreases fps.len(),
{
    let all = frames_from(stack, base, fps[0], limit);
    let fp = fps[0];
    assert(word_at(stack, base, fp + 8) == Some(rets[0]));
    if fps.len() == 1 {
        assert(all.len() >= 1 && all[0] == rets[0]);
        assert(all.take(1) =~= rets);
    } else {
        let next = fps[1];
        assert(fps[0] < fps[1]);
        let above = fps.skip(1);
        assert forall|i: int, j: int| 0 <= i && j == i + 1 && j < above.len() implies (
        #[trigger] above[i]) < (#[trigger] above[j]) && bytes::le64(stack, above[i] - base)
            == above[j] by {
            assert(fps[i + 1] < fps[j + 1]);
        }
        assert forall|i: int| 0 <= i < above.len() implies {
            &&& base < #[trigger] above[i]
            &&& above[i] + 8 <= u64::MAX
            &&& above[i] - base + 16 <= stack.len()
            &&& bytes::le64(stack, above[i] - base + 8) == rets.skip(1)[i]
            &&& rets.skip(1)[i] != 0
        } by {
            assert(base < fps[i + 1]);
        }
        lemma_walk_follows_the_chain(stack, base, above, rets.skip(1), (limit - 1) as nat);
        let rest = frames_from(stack, base, next, (limit - 1) as nat);
        assert(all == seq![rets[0]] + rest);
        assert(all.take(rets.len() as int) =~= seq![rets[0]] + rest.take(rets.len() - 1));
        assert(rets =~= seq![rets[0]] + rets.skip(1));
    }
}

/// Whether a walk along a chain may stop where it does: at its limit, or where
/// the next frame does not lie above the last one, leaves the capture, or
/// returns nowhere.
pub open spec fn may_stop(stack: Seq<u8>, base: u64, fp: u64, fps: Seq<u64>, limit: nat) -> bool {
    let next = if fps.len() == 0 {
        fp as int
    } else {
        bytes::le64(stack, fps.last() - base)
    };
    ||| fps.len() >= limit
    ||| next <= base
    ||| next + 8 > u64::MAX
    ||| next - base + 16 > stack.len()
    ||| bytes::le64(stack, next - base + 8) == 0
    ||| fps.len() > 0 && next <= fps.last()
}

/// A walk yields the return addresses of a chain of frames, from the first
/// frame pointer on, and stops only where it may.
pub proof fn lemma_walk_stops_for_a_reason(stack: Seq<u8>, base: u64, fp: u64, limit: nat)
    ensures
        exists|fps: Seq<u64>| #[trigger]
            is_chain(stack, base, fps, frames_from(stack, base, fp, limit)) && (fps.len() > 0
                ==> fps[0] == fp) && may_stop(stack, base, fp, fps, limit),
    decreases limit,
{
    let rets = frames_from(stack, base, fp, limit);
    if rets.len() == 0 {
        let fps = Seq::<u64>::empty();
        assert(is_chain(stack, base, fps, rets));
    } else {
        let next = word_at(stack, base, fp as int)->0;
        let ret = word_at(stack, base, fp + 8)->0;
        if next <= fp {
            let fps = seq![fp];
            assert(is_chain(stack, base, fps, rets));
        } else {
            let rest = frames_from(stack, base, next, (limit - 1) as nat);
            lemma_walk_stops_for_a_reason(stack, base, next, (limit - 1) as nat);
            let above = choose|fps: Seq<u64>| #[trigger]
                is_chain(stack, base, fps, rest) && (fps.len() > 0 ==> fps[0] == next) && may_stop(
                    stack,
                    base,
                    next,
                    fps,
                    (limit - 1) as nat,
                );
            let fps = seq![fp] + above;
            assert(rets == seq![ret] + rest);
            assert forall|i: int| 0 <= i < fps.len() implies {
                &&& base < #[trigger] fps[i]
                &&& fps[i] + 8 <= u64::MAX
                &&& fps[i] - base + 16 <= stack.len()
                &&& bytes::le64(stack, fps[i] - base + 8) == rets[i]
                &&& rets[i] != 0
            } by {
                if i > 0 {
                    assert(base < above[i - 1]);
                    assert(rets[i] == rest[i - 1]);
                }
            }
            assert forall|i: int, j: int| 0 <= i && j == i + 1 && j < fps.len() implies (
            #[trigger] fps[i]) < (#[trigger] fps[j]) && bytes::le64(stack, fps[i] - base)
                == fps[j] by {
                if i > 0 {
                    assert(above[i - 1] < above[j - 1]);
                }
            }
            assert(is_chain(stack, base, fps, rets));
            if above.len() > 0 {
                assert(fps.last() == above.last());
            } else {
                assert(fps.last() == fp);
            }
            assert(may_stop(stack, base, fp, fps, limit));
        }
    }
}

/// The walk of a sample begins at the frame pointer, over a capture that begins
/// at the stack pointer. Without a stack pointer there is nothing to walk.
pub proof fn lemma_walk_begins_at_the_frame_pointer(
    arch: Arch,
    regs: Seq<u64>,
    stack: Seq<u8>,
    limit: nat,
)
    ensures
        arch == Arch::Aarch64 && regs.len() >= 14 ==> frames_of(arch, regs, stack, limit)
            == frames_from(stack, regs[13], regs[11], limit),
        arch == Arch::X86_64 && regs.len() >= 8 ==> frames_of(arch, regs, stack, limit)
            == frames_from(stack, regs[5], regs[4], limit),
        regs.len() == 0 ==> frames_of(arch, regs, stack, limit).len() == 0,
{
}

/// What is wrong with a library that was read.
#[derive(Debug)]
pub enum Warning {
    /// It could not be parsed.
    Unparsed(Fault),
    /// Its segments could not be read.
    NoSegments(Fault),
    /// Its head does not show its segments.
    NoHead,
    /// Its unwind entries are unavailable.
    NoEntries(Fault),
}

/// The segments that a record of a library holds.
pub open spec fn segments_known(library: Library) -> Option<Seq<Segment>> {
    match library.segments {
        Some(segments) => Some(segments@),
        None => None,
    }
}

/// Whether a record and a warning are what the segments and the entries of a
/// library come to. Without segments the entries do not matter.
pub open spec fn assembled(
    library: Library,
    warning: Option<Warning>,
    path: Seq<char>,
    segments: Result<Vec<Segment>, Fault>,
    entries: Result<Vec<u64>, Fault>,
) -> bool {
    &&& library.path@ == path
    &&& match (segments, entries) {
        (Err(f), _) => library.segments is None && library.entries is None && warning == Some(
            Warning::NoSegments(f),
        ),
        (Ok(found), Ok(list)) => library.segments == Some(found) && library.entries == Some(list)
            && warning is None,
        (Ok(found), Err(f)) => library.segments == Some(found) && library.entries is None
            && warning == Some(Warning::NoEntries(f)),
    }
}

/// Records a library by its segments and its entries.
pub fn assemble(
    path: &str,
    segments: Result<Vec<Segment>, Fault>,
    entries: Result<Vec<u64>, Fault>,
) -> (r: (Library, Option<Warning>))
    ensures
        assembled(r.0, r.1, path@, segments, entries),
{
    match (segments, entries) {
        (Err(f), _) => (
            Library { path: path.to_owned(), segments: None, entries: None },
            Some(Warning::NoSegments(f)),
        ),
        (Ok(found), Ok(list)) => (
            Library { path: path.to_owned(), segments: Some(found), entries: Some(list) },
            None,
        ),
        (Ok(found), Err(f)) => (
            Library { path: path.to_owned(), segments: Some(found), entries: None },
            Some(Warning::NoEntries(f)),
        ),
    }
}

/// Whether a record and a warning are what a whole file comes to.
pub open spec fn loaded_whole(library: Library, warning: Option<Warning>, image: Seq<u8>) -> bool {
    if !crate::elf::readable(image) {
        &&& library.segments is None
        &&& library.entries is None
        &&& warning matches Some(Warning::Unparsed(f)) && fault::refused(f, ElfPart::Object)
    } else {
        match crate::elf::segments_of(image) {
            Outcome::Got(segments) => {
                &&& segments_known(library) == Some(segments)
                &&& match crate::elf::unwind_of(image) {
                    Outcome::Got(found) => match crate::elf::table_refusal(found.0, found.1) {
                        Some(why) => library.entries is None && (warning matches Some(
                            Warning::NoEntries(f),
                        ) && fault::told(f, Kind::InvalidData, why)),
                        None => warning is None && (library.entries matches Some(entries)
                            && crate::elf::lists_entries(entries@, found.0, found.1)),
                    },
                    outcome => library.entries is None && (warning matches Some(
                        Warning::NoEntries(f),
                    ) && fault::fails(outcome, f)),
                }
            },
            outcome => library.segments is None && library.entries is None && (warning
                matches Some(Warning::NoSegments(f)) && fault::fails(outcome, f)),
        }
    }
}

/// Whether a record and a warning are what the head of a file comes to.
pub open spec fn loaded_head(library: Library, warning: Option<Warning>, head: Seq<u8>) -> bool {
    &&& library.entries is None
    &&& segments_known(library) == crate::elf::head_segments(head)
    &&& match crate::elf::head_segments(head) {
        Some(_) => warning is None,
        None => warning == Some(Warning::NoHead),
    }
}

/// Records a library by what could be read of its file: the whole of it where
/// function entry points matter, its head otherwise.
pub fn load_library(path: &str, image: Option<&[u8]>, with_entries: bool) -> (r: (
    Library,
    Option<Warning>,
))
    ensures
        r.0.path@ == path@,
        match image {
            None => r.0.segments is None && r.0.entries is None && r.1 is None,
            Some(image) => if with_entries {
                loaded_whole(r.0, r.1, image@)
            } else {
                loaded_head(r.0, r.1, image@)
            },
        },
{
    let image = match image {
        Some(image) => image,
        None => return (Library { path: path.to_owned(), segments: None, entries: None }, None),
    };
    if !with_entries {
        return match segments_from_head(image) {
            Some(segments) => (
                Library { path: path.to_owned(), segments: Some(segments), entries: None },
                None,
            ),
            None => (
                Library { path: path.to_owned(), segments: None, entries: None },
                Some(Warning::NoHead),
            ),
        };
    }
    let object = match Elf::parse(image) {
        Ok(object) => object,
        Err(f) => return (
            Library { path: path.to_owned(), segments: None, entries: None },
            Some(Warning::Unparsed(f)),
        ),
    };
    let segments = object.segments();
    let entries = object.function_entries();
    assemble(path, segments, entries)
}

/// What has to be read before an address can be named.
#[derive(Debug, PartialEq, Eq)]
pub enum Need {
    /// The mappings of the process.
    Mappings,
    /// The library that the address lies in.
    Library(String),
    Nothing,
}

/// Whether a name is told apart from a code address that no function entry
/// precedes.
pub open spec fn contradicted(entries: Option<Vec<u64>>, vaddr: u64) -> bool {
    match entries {
        Some(entries) => entries@.len() > 0 && vaddr < entries@[0],
        None => false,
    }
}

impl Symbolizer {
    /// Knows nothing yet.
    #[must_use]
    pub fn new(with_entries: bool) -> (r: Self)
        ensures
            r.processes@.len() == 0,
            r.libraries@.len() == 0,
            r.with_entries == with_entries,
    {
        Symbolizer { processes: Vec::new(), libraries: Vec::new(), with_entries }
    }

    /// Where a process is recorded, or how many are.
    pub open spec fn at(self, pid: i32) -> int {
        process_index(self.processes@, pid)
    }

    /// The mappings of a process, as far as they are known.
    pub open spec fn known_maps(self, pid: i32) -> Seq<MappingView> {
        if self.at(pid) < self.processes@.len() {
            maps::views(self.processes@[self.at(pid)].mappings@)
        } else {
            Seq::empty()
        }
    }

    /// The record of a library, if there is one.
    pub open spec fn known_library(self, path: Seq<char>) -> Option<Library> {
        let at = library_index(self.libraries@, path);
        if at < self.libraries@.len() {
            Some(self.libraries@[at])
        } else {
            None
        }
    }

    /// Whether the mappings of a process have to be read: it is not known, or
    /// what is known is no snapshot and has aged.
    pub open spec fn wants_maps(self, pid: i32, now: u64) -> bool {
        let at = self.at(pid);
        at >= self.processes@.len() || (!self.processes@[at].snapshot
            && self.processes@[at].last_refresh + INTERVAL <= now)
    }

    /// The library that an address lies in and that is not known yet.
    pub open spec fn wants_library(self, pid: i32, addr: u64) -> Option<Seq<char>> {
        match maps::location_of(self.known_maps(pid), addr) {
            Some(LocationView::File { path, .. }) => if self.known_library(path) is None {
                Some(path)
            } else {
                None
            },
            _ => None,
        }
    }

    /// The site of an address, by what is known.
    pub open spec fn site_of(self, pid: i32, addr: u64) -> Option<(Seq<char>, u64)> {
        match maps::location_of(self.known_maps(pid), addr) {
            Some(LocationView::File { path, offset }) => match self.known_library(path) {
                Some(library) => match segments_known(library) {
                    Some(segments) => match crate::elf::vaddr_of(segments, offset) {
                        Some(vaddr) => Some((path, vaddr)),
                        None => None,
                    },
                    None => None,
                },
                None => None,
            },
            _ => None,
        }
    }

    /// The name of an address, by what is known. A question mark stands behind
    /// a name that cannot be right.
    pub open spec fn name_of(self, pid: i32, addr: u64) -> Seq<char> {
        match maps::location_of(self.known_maps(pid), addr) {
            Some(LocationView::Anonymous) => text::hex_text(addr as nat),
            None => text::hex_text(addr as nat) + "?"@,
            Some(LocationView::File { path, offset }) => {
                let name = text::after_last(path, '/');
                match self.known_library(path) {
                    Some(library) => match segments_known(library) {
                        Some(segments) => match crate::elf::vaddr_of(segments, offset) {
                            Some(vaddr) => if contradicted(library.entries, vaddr) {
                                name + "@"@ + text::hex_text(vaddr as nat) + "?"@
                            } else {
                                name + "@"@ + text::hex_text(vaddr as nat)
                            },
                            None => name + "+"@ + text::hex_text(offset as nat) + "?"@,
                        },
                        None => name + "+"@ + text::hex_text(offset as nat),
                    },
                    None => name + "+"@ + text::hex_text(offset as nat),
                }
            },
        }
    }

    /// Takes the mappings of a process as a snapshot.
    pub fn remember_process(&mut self, pid: i32, mappings: &[Mapping], now: u64)
        ensures
            final(self).libraries@ == old(self).libraries@,
            final(self).with_entries == old(self).with_entries,
            old(self).at(pid) < old(self).processes@.len() ==> final(self).processes@.len()
                == old(self).processes@.len(),
            old(self).at(pid) >= old(self).processes@.len() ==> final(self).processes@.len()
                == old(self).processes@.len() + 1,
            forall|i: int|
                0 <= i < old(self).processes@.len() && i != old(self).at(pid)
                    ==> #[trigger] final(self).processes@[i] == old(self).processes@[i],
            0 <= old(self).at(pid) < final(self).processes@.len(),
            final(self).at(pid) == old(self).at(pid),
            ({
                let record = final(self).processes@[old(self).at(pid)];
                record.pid == pid && maps::views(record.mappings@) == maps::views(mappings@)
                    && record.last_refresh == now && record.snapshot
            }),
    {
        let at: usize = find_process(&self.processes, pid);
        let record = Process {
            pid,
            mappings: duplicate_all(mappings),
            last_refresh: now,
            snapshot: true,
        };
        if at < self.processes.len() {
            self.processes.set(at, record);
        } else {
            self.processes.push(record);
        }
        proof {
            lemma_process_index(self.processes@, pid, at as int);
        }
    }

    /// What has to be read before an address can be named.
    pub fn need(&self, pid: i32, addr: u64, now: u64) -> (r: Need)
        ensures
            match r {
                Need::Mappings => self.wants_maps(pid, now),
                Need::Library(path) => !self.wants_maps(pid, now) && self.wants_library(pid, addr)
                    == Some(path@),
                Need::Nothing => !self.wants_maps(pid, now) && self.wants_library(pid, addr)
                    is None,
            },
    {
        let at: usize = find_process(&self.processes, pid);
        if at >= self.processes.len() {
            return Need::Mappings;
        }
        let process = &self.processes[at];
        if !process.snapshot && now >= process.last_refresh && now - process.last_refresh
            >= INTERVAL {
            return Need::Mappings;
        }
        match describe_code(&process.mappings, addr) {
            Some(CodeLocation::File { path, .. }) => {
                let n: usize = find_library(&self.libraries, path);
                if n < self.libraries.len() {
                    Need::Nothing
                } else {
                    Need::Library(path.to_owned())
                }
            },
            _ => Need::Nothing,
        }
    }

    /// Takes in the mappings of a process that were asked for, or that they
    /// could not be read. A known process then keeps those it had.
    pub fn settle(&mut self, pid: i32, now: u64, read: Option<Vec<Mapping>>)
        ensures
            final(self).libraries@ == old(self).libraries@,
            final(self).with_entries == old(self).with_entries,
            forall|i: int|
                0 <= i < old(self).processes@.len() && i != old(self).at(pid)
                    ==> #[trigger] final(self).processes@[i] == old(self).processes@[i],
            0 <= old(self).at(pid) < final(self).processes@.len(),
            final(self).at(pid) == old(self).at(pid),
            ({
                let at = old(self).at(pid);
                let record = final(self).processes@[at];
                if at < old(self).processes@.len() {
                    &&& final(self).processes@.len() == old(self).processes@.len()
                    &&& record.snapshot == old(self).processes@[at].snapshot
                    &&& record.mappings@ == match read {
                        Some(mappings) => mappings@,
                        None => old(self).processes@[at].mappings@,
                    }
                } else {
                    &&& final(self).processes@.len() == old(self).processes@.len() + 1
                    &&& !record.snapshot
                    &&& record.mappings@ == match read {
                        Some(mappings) => mappings@,
                        None => Seq::empty(),
                    }
                }
            }),
            final(self).processes@[old(self).at(pid)].pid == pid,
            final(self).processes@[old(self).at(pid)].last_refresh == now,
    {
        let at: usize = find_process(&self.processes, pid);
        if at < self.processes.len() {
            let snapshot = self.processes[at].snapshot;
            let mappings = match read {
                Some(mappings) => mappings,
                None => {
                    let mut kept: Vec<Mapping> = Vec::new();
                    let mut record = Process { pid, mappings: Vec::new(), last_refresh: now, snapshot };
                    self.processes.set_and_swap(at, &mut record);
                    std::mem::swap(&mut kept, &mut record.mappings);
                    kept
                },
            };
            self.processes.set(at, Process { pid, mappings, last_refresh: now, snapshot });
        } else {
            let mappings = match read {
                Some(mappings) => mappings,
                None => Vec::new(),
            };
            self.processes.push(Process { pid, mappings, last_refresh: now, snapshot: false });
        }
        proof {
            lemma_process_index(self.processes@, pid, at as int);
        }
    }

    /// Takes in a library that was asked for, or that it could not be read.
    pub fn library(&mut self, path: &str, image: Option<&[u8]>) -> (r: Option<Warning>)
        ensures
            final(self).processes@ == old(self).processes@,
            final(self).with_entries == old(self).with_entries,
            match old(self).known_library(path@) {
                Some(_) => final(self).libraries@ == old(self).libraries@ && r is None,
                None => {
                    &&& final(self).libraries@.len() == old(self).libraries@.len() + 1
                    &&& final(self).libraries@.drop_last() == old(self).libraries@
                    &&& final(self).known_library(path@) == Some(final(self).libraries@.last())
                    &&& match image {
                        None => final(self).libraries@.last().segments is None
                            && final(self).libraries@.last().entries is None && r is None,
                        Some(image) => if old(self).with_entries {
                            loaded_whole(final(self).libraries@.last(), r, image@)
                        } else {
                            loaded_head(final(self).libraries@.last(), r, image@)
                        },
                    }
                },
            },
    {
        let at: usize = find_library(&self.libraries, path);
        if at < self.libraries.len() {
            return None;
        }
        let (library, warning) = load_library(path, image, self.with_entries);
        self.libraries.push(library);
        assert(self.libraries@.drop_last() =~= old(self).libraries@);
        proof {
            lemma_library_index(self.libraries@, path@, at as int);
        }
        warning
    }

    /// The site of an address, by what is known.
    pub fn code_site(&self, pid: i32, addr: u64) -> (r: Option<CodeSite>)
        ensures
            site_view(r) == self.site_of(pid, addr),
    {
        let at: usize = find_process(&self.processes, pid);
        if at >= self.processes.len() {
            return None;
        }
        let (path, offset) = match describe_code(&self.processes[at].mappings, addr) {
            Some(CodeLocation::File { path, offset }) => (path, offset),
            _ => return None,
        };
        let n: usize = find_library(&self.libraries, path);
        if n >= self.libraries.len() {
            return None;
        }
        match &self.libraries[n].segments {
            Some(segments) => match file_offset_to_vaddr(segments, offset) {
                Some(vaddr) => Some(CodeSite { module: path.to_owned(), vaddr }),
                None => None,
            },
            None => None,
        }
    }

    /// Who a hit was called by, by what is known.
    pub fn caller(&self, arch: Arch, sample: &Sample) -> (r: Option<Caller>)
        ensures
            match return_address(arch, sample.regs@, sample.stack@) {
                None => r is None,
                Some(addr) => r matches Some(caller) && site_view(caller.site) == self.site_of(
                    sample.pid as i32,
                    addr,
                ) && caller.name@ == match self.site_of(sample.pid as i32, addr) {
                    Some(site) => text::after_last(site.0, '/') + "@"@ + text::hex_text(
                        site.1 as nat,
                    ),
                    None => text::hex_text(addr as nat),
                },
            },
    {
        let addr: u64 = match caller_address(arch, sample) {
            Some(addr) => addr,
            None => return None,
        };
        let site = self.code_site(sample.pid as i32, addr);
        let name = match &site {
            Some(found) => {
                let mut name = module_name(found.module.as_str());
                name.append("@");
                name.append(hex(found.vaddr).as_str());
                name
            },
            None => hex(addr),
        };
        Some(Caller { name, site })
    }

    /// The name of an address, by what is known.
    pub fn name_code_address(&self, pid: i32, addr: u64) -> (r: String)
        ensures
            r@ == self.name_of(pid, addr),
    {
        let at: usize = find_process(&self.processes, pid);
        if at >= self.processes.len() {
            let mut name = hex(addr);
            name.append("?");
            return name;
        }
        let (path, offset) = match describe_code(&self.processes[at].mappings, addr) {
            Some(CodeLocation::File { path, offset }) => (path, offset),
            Some(CodeLocation::Anonymous) => return hex(addr),
            None => {
                let mut name = hex(addr);
                name.append("?");
                return name;
            },
        };
        let mut name = module_name(path);
        let n: usize = find_library(&self.libraries, path);
        if n < self.libraries.len() {
            let library = &self.libraries[n];
            if let Some(segments) = &library.segments {
                match file_offset_to_vaddr(segments, offset) {
                    Some(vaddr) => {
                        name.append("@");
                        name.append(hex(vaddr).as_str());
                        if let Some(entries) = &library.entries {
                            if entries.len() > 0 && vaddr < entries[0] {
                                name.append("?");
                            }
                        }
                    },
                    None => {
                        name.append("+");
                        name.append(hex(offset).as_str());
                        name.append("?");
                    },
                }
                return name;
            }
        }
        name.append("+");
        name.append(hex(offset).as_str());
        name
    }

    /// The names of the frames of a sample, by what is known.
    pub fn frames(&self, arch: Arch, sample: &Sample, limit: usize) -> (r: Vec<String>)
        ensures
            text::texts(r@) == Seq::new(
                frames_of(arch, sample.regs@, sample.stack@, limit as nat).len(),
                |i: int|
                    self.name_of(
                        sample.pid as i32,
                        frames_of(arch, sample.regs@, sample.stack@, limit as nat)[i],
                    ),
            ),
    {
        let addresses = frame_addresses(arch, sample, limit);
        let pid: i32 = sample.pid as i32;
        let ghost names = Seq::new(addresses@.len(), |i: int| self.name_of(pid, addresses@[i]));
        let mut out: Vec<String> = Vec::new();
        while out.len() < addresses.len()
            invariant
                out@.len() <= addresses@.len(),
                names == Seq::new(addresses@.len(), |i: int| self.name_of(pid, addresses@[i])),
                text::texts(out@) =~= names.take(out@.len() as int),
            decreases addresses@.len() - out@.len(),
        {
            let ghost before = out@;
            out.push(self.name_code_address(pid, addresses[out.len()]));
            assert(text::texts(out@) =~= text::texts(before).push(names[before.len() as int]));
        }
        assert(text::texts(out@) =~= names);
        out
    }
}

/// An address that runs in a mapping of a file whose segments are known, and
/// whose offset in the file any of those segments holds, is attributed to that
/// file and to the address that the first such segment gives the offset. A
/// frame there is named after both, with a question mark behind it only where
/// the address lies before every function that is known of the file.
pub proof fn lemma_code_is_attributed(
    known: Symbolizer,
    pid: i32,
    addr: u64,
    q: int,
    m: int,
    path: Seq<char>,
    n: int,
    k: int,
)
    requires
        0 <= q < known.processes@.len(),
        known.processes@[q].pid == pid,
        forall|i: int| 0 <= i < q ==> (#[trigger] known.processes@[i]).pid != pid,
        0 <= m < known.processes@[q].mappings@.len(),
        known.processes@[q].mappings@[m]@.path == Some(path),
        known.processes@[q].mappings@[m].executable,
        known.processes@[q].mappings@[m].start <= addr < known.processes@[q].mappings@[m].end,
        forall|i: int|
            0 <= i < m ==> !((#[trigger] known.processes@[q].mappings@[i]).executable
                && known.processes@[q].mappings@[i].start <= addr
                < known.processes@[q].mappings@[i].end),
        addr - known.processes@[q].mappings@[m].start + known.processes@[q].mappings@[m].pgoff
            <= u64::MAX,
        0 <= n < known.libraries@.len(),
        known.libraries@[n].path@ == path,
        forall|i: int| 0 <= i < n ==> (#[trigger] known.libraries@[i]).path@ != path,
        known.libraries@[n].segments is Some,
        0 <= k < known.libraries@[n].segments->0@.len(),
        ({
            let offset = addr - known.processes@[q].mappings@[m].start
                + known.processes@[q].mappings@[m].pgoff;
            let segments = known.libraries@[n].segments->0@;
            &&& segments[k].offset <= offset < segments[k].offset + segments[k].filesz
            &&& segments[k].offset + segments[k].filesz <= u64::MAX
            &&& segments[k].vaddr + (offset - segments[k].offset) <= u64::MAX
            &&& forall|i: int|
                0 <= i < k ==> !((#[trigger] segments[i]).offset <= offset < segments[i].offset
                    + segments[i].filesz)
        }),
    ensures
        ({
            let offset = addr - known.processes@[q].mappings@[m].start
                + known.processes@[q].mappings@[m].pgoff;
            let segments = known.libraries@[n].segments->0@;
            let vaddr = segments[k].vaddr + (offset - segments[k].offset);
            let shown = text::after_last(path, '/') + "@"@ + text::hex_text(vaddr as nat);
            let before_all = known.libraries@[n].entries matches Some(entries) && entries@.len() > 0
                && vaddr < entries@[0];
            &&& known.site_of(pid, addr) == Some((path, vaddr as u64))
            &&& !before_all ==> known.name_of(pid, addr) == shown
            &&& before_all ==> known.name_of(pid, addr) == shown + "?"@
        }),
{
    let process = known.processes@[q];
    let all = maps::views(process.mappings@);
    lemma_process_index(known.processes@, pid, q);
    assert forall|i: int| 0 <= i < m implies !((#[trigger] all[i]).executable && all[i].start
        <= addr < all[i].end) by {
        assert(all[i] == process.mappings@[i]@);
        assert(!(process.mappings@[i].executable && process.mappings@[i].start <= addr
            < process.mappings@[i].end));
    }
    assert(all[m] == process.mappings@[m]@);
    maps::lemma_code_is_described_by_its_mapping(all, addr, m);
    lemma_library_index(known.libraries@, path, n);
    let offset = (addr - all[m].start + all[m].pgoff) as u64;
    crate::elf::lemma_offset_is_found_in_its_segment(known.libraries@[n].segments->0@, offset, k);
}

/// An address is attributed to no file where no code is known to run at it, and
/// its name is the address with a question mark.
pub proof fn lemma_unmapped_code_is_unattributed(known: Symbolizer, pid: i32, addr: u64)
    requires
        forall|q: int, m: int|
            0 <= q < known.processes@.len() && known.processes@[q].pid == pid && 0 <= m
                < known.processes@[q].mappings@.len() ==> !((
            #[trigger] known.processes@[q].mappings@[m]).executable
                && known.processes@[q].mappings@[m].start <= addr
                < known.processes@[q].mappings@[m].end),
    ensures
        known.site_of(pid, addr) is None,
        known.name_of(pid, addr) == text::hex_text(addr as nat) + "?"@,
{
    let all = known.known_maps(pid);
    let q = known.at(pid);
    lemma_process_found(known.processes@, pid);
    assert forall|i: int| 0 <= i < all.len() implies !((#[trigger] all[i]).executable && all[i].start
        <= addr < all[i].end) by {
        assert(all[i] == known.processes@[q].mappings@[i]@);
        assert(!(known.processes@[q].mappings@[i].executable
            && known.processes@[q].mappings@[i].start <= addr
            < known.processes@[q].mappings@[i].end));
    }
    maps::lemma_no_code_outside_executable_mappings(all, addr);
}

proof fn lemma_process_found(processes: Seq<Process>, pid: i32)
    ensures
        0 <= process_index(processes, pid) <= processes.len(),
        process_index(processes, pid) < processes.len() ==> processes[process_index(
            processes,
            pid,
        )].pid == pid,
    decreases processes.len(),
{
    if processes.len() > 0 && processes[0].pid != pid {
        lemma_process_found(processes.skip(1), pid);
    }
}

/// Once the mappings of a process were taken in, they are not asked for again
/// at that time.
pub proof fn lemma_settled(before: Symbolizer, after: Symbolizer, pid: i32, now: u64)
    requires
        0 <= before.at(pid) < after.processes@.len(),
        after.at(pid) == before.at(pid),
        after.processes@[before.at(pid)].last_refresh == now,
    ensures
        !after.wants_maps(pid, now),
{
}

/// Once a library was taken in, it is not asked for again.
pub proof fn lemma_library_is_known(after: Symbolizer, path: Seq<char>, pid: i32, addr: u64)
    requires
        after.known_library(path) is Some,
    ensures
        after.wants_library(pid, addr) != Some(path),
{
}

/// A hit returns to the address in the link register, or to the one at the top
/// of the captured stack where there is no such register, unless it is null.
pub proof fn lemma_hit_returns_to_its_caller(arch: Arch, regs: Seq<u64>, stack: Seq<u8>)
    ensures
        arch == Arch::Aarch64 && regs.len() >= 14 ==> return_address(arch, regs, stack)
            == if regs[12] == 0 {
            None
        } else {
            Some(regs[12])
        },
        arch == Arch::X86_64 && regs.len() >= 8 && stack.len() >= 8 ==> return_address(
            arch,
            regs,
            stack,
        ) == if bytes::le64(stack, 0) == 0 {
            None
        } else {
            Some(bytes::le64(stack, 0) as u64)
        },
{
}

/// Code in memory with no file behind it is named by its address alone, and is
/// attributed to no file.
pub proof fn lemma_anonymous_code_is_named(
    known: Symbolizer,
    pid: i32,
    addr: u64,
    q: int,
    m: int,
)
    requires
        0 <= q < known.processes@.len(),
        known.processes@[q].pid == pid,
        forall|i: int| 0 <= i < q ==> (#[trigger] known.processes@[i]).pid != pid,
        0 <= m < known.processes@[q].mappings@.len(),
        known.processes@[q].mappings@[m].path is None,
        known.processes@[q].mappings@[m].executable,
        known.processes@[q].mappings@[m].start <= addr < known.processes@[q].mappings@[m].end,
        forall|i: int|
            0 <= i < m ==> !((#[trigger] known.processes@[q].mappings@[i]).executable
                && known.processes@[q].mappings@[i].start <= addr
                < known.processes@[q].mappings@[i].end),
    ensures
        known.site_of(pid, addr) is None,
        known.name_of(pid, addr) == text::hex_text(addr as nat),
{
    let process = known.processes@[q];
    let all = maps::views(process.mappings@);
    lemma_process_index(known.processes@, pid, q);
    assert forall|i: int| 0 <= i < m implies !((#[trigger] all[i]).executable && all[i].start
        <= addr < all[i].end) by {
        assert(all[i] == process.mappings@[i]@);
        assert(!(process.mappings@[i].executable && process.mappings@[i].start <= addr
            < process.mappings@[i].end));
    }
    assert(all[m] == process.mappings@[m]@);
    maps::lemma_code_is_described_by_its_mapping(all, addr, m);
}

proof fn lemma_code_of_a_file(
    known: Symbolizer,
    pid: i32,
    addr: u64,
    q: int,
    m: int,
    path: Seq<char>,
)
    requires
        0 <= q < known.processes@.len(),
        known.processes@[q].pid == pid,
        forall|i: int| 0 <= i < q ==> (#[trigger] known.processes@[i]).pid != pid,
        0 <= m < known.processes@[q].mappings@.len(),
        known.processes@[q].mappings@[m]@.path == Some(path),
        known.processes@[q].mappings@[m].executable,
        known.processes@[q].mappings@[m].start <= addr < known.processes@[q].mappings@[m].end,
        forall|i: int|
            0 <= i < m ==> !((#[trigger] known.processes@[q].mappings@[i]).executable
                && known.processes@[q].mappings@[i].start <= addr
                < known.processes@[q].mappings@[i].end),
        addr - known.processes@[q].mappings@[m].start + known.processes@[q].mappings@[m].pgoff
            <= u64::MAX,
    ensures
        maps::location_of(known.known_maps(pid), addr) == Some(
            LocationView::File {
                path,
                offset: (addr - known.processes@[q].mappings@[m].start
                    + known.processes@[q].mappings@[m].pgoff) as u64,
            },
        ),
{
    let process = known.processes@[q];
    let all = maps::views(process.mappings@);
    lemma_process_index(known.processes@, pid, q);
    assert forall|i: int| 0 <= i < m implies !((#[trigger] all[i]).executable && all[i].start
        <= addr < all[i].end) by {
        assert(all[i] == process.mappings@[i]@);
        assert(!(process.mappings@[i].executable && process.mappings@[i].start <= addr
            < process.mappings@[i].end));
    }
    assert(all[m] == process.mappings@[m]@);
    maps::lemma_code_is_described_by_its_mapping(all, addr, m);
}

/// Code of a file that nothing is known of is named by the file and the offset
/// in it. It is attributed to no file.
pub proof fn lemma_code_of_an_unread_file_is_named(
    known: Symbolizer,
    pid: i32,
    addr: u64,
    q: int,
    m: int,
    path: Seq<char>,
)
    requires
        0 <= q < known.processes@.len(),
        known.processes@[q].pid == pid,
        forall|i: int| 0 <= i < q ==> (#[trigger] known.processes@[i]).pid != pid,
        0 <= m < known.processes@[q].mappings@.len(),
        known.processes@[q].mappings@[m]@.path == Some(path),
        known.processes@[q].mappings@[m].executable,
        known.processes@[q].mappings@[m].start <= addr < known.processes@[q].mappings@[m].end,
        forall|i: int|
            0 <= i < m ==> !((#[trigger] known.processes@[q].mappings@[i]).executable
                && known.processes@[q].mappings@[i].start <= addr
                < known.processes@[q].mappings@[i].end),
        addr - known.processes@[q].mappings@[m].start + known.processes@[q].mappings@[m].pgoff
            <= u64::MAX,
        forall|n: int|
            0 <= n < known.libraries@.len() ==> (#[trigger] known.libraries@[n]).path@ != path,
    ensures
        known.name_of(pid, addr) == text::after_last(path, '/') + "+"@ + text::hex_text(
            (addr - known.processes@[q].mappings@[m].start
                + known.processes@[q].mappings@[m].pgoff) as nat,
        ),
        known.site_of(pid, addr) is None,
{
    lemma_code_of_a_file(known, pid, addr, q, m, path);
    lemma_library_found(known.libraries@, path);
}

/// Code of a file whose segments are not known is named by the file and the
/// offset in it. A question mark stands behind that where the segments are
/// known and none holds the offset. Either way it is attributed to no file.
pub proof fn lemma_code_without_a_segment_is_named(
    known: Symbolizer,
    pid: i32,
    addr: u64,
    q: int,
    m: int,
    path: Seq<char>,
    n: int,
)
    requires
        0 <= q < known.processes@.len(),
        known.processes@[q].pid == pid,
        forall|i: int| 0 <= i < q ==> (#[trigger] known.processes@[i]).pid != pid,
        0 <= m < known.processes@[q].mappings@.len(),
        known.processes@[q].mappings@[m]@.path == Some(path),
        known.processes@[q].mappings@[m].executable,
        known.processes@[q].mappings@[m].start <= addr < known.processes@[q].mappings@[m].end,
        forall|i: int|
            0 <= i < m ==> !((#[trigger] known.processes@[q].mappings@[i]).executable
                && known.processes@[q].mappings@[i].start <= addr
                < known.processes@[q].mappings@[i].end),
        addr - known.processes@[q].mappings@[m].start + known.processes@[q].mappings@[m].pgoff
            <= u64::MAX,
        0 <= n < known.libraries@.len(),
        known.libraries@[n].path@ == path,
        forall|i: int| 0 <= i < n ==> (#[trigger] known.libraries@[i]).path@ != path,
        known.libraries@[n].segments matches Some(segments) ==> forall|k: int|
            0 <= k < segments@.len() ==> !((#[trigger] segments@[k]).offset <= (addr - known.processes@[q].mappings@[m].start
                + known.processes@[q].mappings@[m].pgoff) < segments@[k].offset
                + segments@[k].filesz),
    ensures
        known.name_of(pid, addr) == text::after_last(path, '/') + "+"@ + text::hex_text(
            (addr - known.processes@[q].mappings@[m].start
                + known.processes@[q].mappings@[m].pgoff) as nat,
        ) + if known.libraries@[n].segments is Some {
            "?"@
        } else {
            ""@
        },
        known.site_of(pid, addr) is None,
{
    lemma_code_of_a_file(known, pid, addr, q, m, path);
    lemma_library_found(known.libraries@, path);
    assert(library_index(known.libraries@, path) == n);
    let offset = (addr - known.processes@[q].mappings@[m].start
                + known.processes@[q].mappings@[m].pgoff) as u64;
    match known.libraries@[n].segments {
        Some(segments) => {
            crate::elf::lemma_outside_every_segment(segments@, offset);
        },
        None => {
            reveal_strlit("");
            let name = text::after_last(path, '/') + "+"@ + text::hex_text(offset as nat);
            assert(name + ""@ =~= name);
        },
    }
}

/// A name that a function of the file must precede, where the file lists its
/// functions and none does, has a question mark behind it. The code is
/// attributed to the file all the same.
pub proof fn lemma_code_before_every_function_is_doubted(
    known: Symbolizer,
    pid: i32,
    addr: u64,
    q: int,
    m: int,
    path: Seq<char>,
    n: int,
    vaddr: u64,
)
    requires
        0 <= q < known.processes@.len(),
        known.processes@[q].pid == pid,
        forall|i: int| 0 <= i < q ==> (#[trigger] known.processes@[i]).pid != pid,
        0 <= m < known.processes@[q].mappings@.len(),
        known.processes@[q].mappings@[m]@.path == Some(path),
        known.processes@[q].mappings@[m].executable,
        known.processes@[q].mappings@[m].start <= addr < known.processes@[q].mappings@[m].end,
        forall|i: int|
            0 <= i < m ==> !((#[trigger] known.processes@[q].mappings@[i]).executable
                && known.processes@[q].mappings@[i].start <= addr
                < known.processes@[q].mappings@[i].end),
        addr - known.processes@[q].mappings@[m].start + known.processes@[q].mappings@[m].pgoff
            <= u64::MAX,
        0 <= n < known.libraries@.len(),
        known.libraries@[n].path@ == path,
        forall|i: int| 0 <= i < n ==> (#[trigger] known.libraries@[i]).path@ != path,
        known.libraries@[n].segments is Some,
        crate::elf::vaddr_of(
            known.libraries@[n].segments->0@,
            (addr - known.processes@[q].mappings@[m].start
                + known.processes@[q].mappings@[m].pgoff) as u64,
        ) == Some(vaddr),
    ensures
        known.site_of(pid, addr) == Some((path, vaddr)),
        ({
            let name = text::after_last(path, '/') + "@"@ + text::hex_text(vaddr as nat);
            match known.libraries@[n].entries {
                None => known.name_of(pid, addr) == name,
                Some(entries) => known.name_of(pid, addr) == if entries@.len() > 0 && vaddr
                    < entries@[0] {
                    name + "?"@
                } else {
                    name
                },
            }
        }),
{
    lemma_code_of_a_file(known, pid, addr, q, m, path);
    lemma_library_found(known.libraries@, path);
    assert(library_index(known.libraries@, path) == n);
}

proof fn lemma_library_found(libraries: Seq<Library>, path: Seq<char>)
    ensures
        0 <= library_index(libraries, path) <= libraries.len(),
        library_index(libraries, path) < libraries.len() ==> libraries[library_index(
            libraries,
            path,
        )].path@ == path,
        forall|n: int|
            0 <= n < libraries.len() && (#[trigger] libraries[n]).path@ == path ==> library_index(
                libraries,
                path,
            ) <= n,
    decreases libraries.len(),
{
    if libraries.len() > 0 && libraries[0].path@ != path {
        let rest = libraries.skip(1);
        lemma_library_found(rest, path);
        assert forall|n: int|
            0 <= n < libraries.len() && (#[trigger] libraries[n]).path@ == path implies
            library_index(libraries, path) <= n by {
            assert(rest[n - 1] == libraries[n]);
        }
    }
}

/// Mappings are read where nothing is known of the process, and again once what
/// is known has aged, unless it is a snapshot.
pub proof fn lemma_mappings_are_read_when_needed(known: Symbolizer, pid: i32, now: u64, q: int)
    ensures
        (forall|i: int| 0 <= i < known.processes@.len() ==> (#[trigger] known.processes@[i]).pid != pid)
            ==> known.wants_maps(pid, now),
        0 <= q < known.processes@.len() && known.processes@[q].pid == pid && (forall|i: int|
            0 <= i < q ==> (#[trigger] known.processes@[i]).pid != pid) ==> (known.wants_maps(
            pid,
            now,
        ) <==> !known.processes@[q].snapshot && now - known.processes@[q].last_refresh
            >= 200_000_000),
{
    lemma_process_found(known.processes@, pid);
    if 0 <= q < known.processes@.len() && known.processes@[q].pid == pid && (forall|i: int|
        0 <= i < q ==> (#[trigger] known.processes@[i]).pid != pid) {
        lemma_process_index(known.processes@, pid, q);
    }
}

/// The file that code runs in is read where nothing is known of it.
pub proof fn lemma_library_is_read_when_needed(
    known: Symbolizer,
    pid: i32,
    addr: u64,
    q: int,
    m: int,
    path: Seq<char>,
)
    requires
        0 <= q < known.processes@.len(),
        known.processes@[q].pid == pid,
        forall|i: int| 0 <= i < q ==> (#[trigger] known.processes@[i]).pid != pid,
        0 <= m < known.processes@[q].mappings@.len(),
        known.processes@[q].mappings@[m]@.path == Some(path),
        known.processes@[q].mappings@[m].executable,
        known.processes@[q].mappings@[m].start <= addr < known.processes@[q].mappings@[m].end,
        forall|i: int|
            0 <= i < m ==> !((#[trigger] known.processes@[q].mappings@[i]).executable
                && known.processes@[q].mappings@[i].start <= addr
                < known.processes@[q].mappings@[i].end),
        addr - known.processes@[q].mappings@[m].start + known.processes@[q].mappings@[m].pgoff
            <= u64::MAX,
        forall|n: int|
            0 <= n < known.libraries@.len() ==> (#[trigger] known.libraries@[n]).path@ != path,
    ensures
        known.wants_library(pid, addr) == Some(path),
{
    let process = known.processes@[q];
    let all = maps::views(process.mappings@);
    lemma_process_index(known.processes@, pid, q);
    assert forall|i: int| 0 <= i < m implies !((#[trigger] all[i]).executable && all[i].start
        <= addr < all[i].end) by {
        assert(all[i] == process.mappings@[i]@);
        assert(!(process.mappings@[i].executable && process.mappings@[i].start <= addr
            < process.mappings@[i].end));
    }
    assert(all[m] == process.mappings@[m]@);
    maps::lemma_code_is_described_by_its_mapping(all, addr, m);
    lemma_library_found(known.libraries@, path);
}

/// The head of a library shows its segments and never its functions. A head
/// that shows no segments is warned of, and no other.
pub proof fn lemma_what_a_head_shows(library: Library, warning: Option<Warning>, head: Seq<u8>)
    requires
        loaded_head(library, warning, head),
    ensures
        library.entries is None,
        crate::elf::head_segments(head) matches Some(segments) ==> warning is None && (
        library.segments matches Some(found) && found@ == segments),
        crate::elf::head_segments(head) is None ==> library.segments is None && warning == Some(
            Warning::NoHead,
        ),
{
}

/// A library that is read whole is known by the segments of its file, also
/// where its functions cannot be told. Its functions are those that its unwind
/// table lists. Whatever is missing is warned of, and nothing else.
pub proof fn lemma_what_a_file_shows(library: Library, warning: Option<Warning>, image: Seq<u8>)
    requires
        loaded_whole(library, warning, image),
    ensures
        warning is None <==> library.entries is Some,
        library.entries is Some ==> library.segments is Some,
        !crate::elf::readable(image) ==> library.segments is None && warning is Some,
        crate::elf::readable(image) && crate::elf::segments_of(image) is Got ==> (library.segments
            matches Some(found) && Outcome::Got(found@) == crate::elf::segments_of(image)),
        crate::elf::readable(image) && !(crate::elf::segments_of(image) is Got)
            ==> library.segments is None && (warning matches Some(Warning::NoSegments(f))
            && fault::fails(crate::elf::segments_of(image), f)),
        forall|table: Seq<u8>, at: u64|
            crate::elf::readable(image) && crate::elf::segments_of(image) is Got
                && crate::elf::unwind_of(image) == Outcome::Got((table, at)) ==> (
            #[trigger] crate::elf::table_refusal(table, at) is None <==> library.entries is Some),
        library.entries matches Some(entries) ==> exists|table: Seq<u8>, at: u64|
            crate::elf::unwind_of(image) == Outcome::Got((table, at))
                && #[trigger] crate::elf::lists_entries(entries@, table, at),
{
    if library.entries is Some {
        let found = crate::elf::unwind_of(image)->Got_0;
        assert(crate::elf::lists_entries(library.entries->Some_0@, found.0, found.1));
    }
}

/// What was read of a library is what is known of it: its path, its segments,
/// and its functions where both were read.
pub proof fn lemma_what_was_read_is_known(
    library: Library,
    warning: Option<Warning>,
    path: Seq<char>,
    segments: Result<Vec<Segment>, Fault>,
    entries: Result<Vec<u64>, Fault>,
)
    requires
        assembled(library, warning, path, segments, entries),
    ensures
        library.path@ == path,
        segments matches Ok(found) ==> library.segments == Some(found),
        segments is Err ==> library.segments is None,
        segments is Ok ==> (entries matches Ok(list) ==> library.entries == Some(list)),
        segments is Err || entries is Err <==> library.entries is None,
        segments is Err || entries is Err <==> warning is Some,
{
}

} // verus!
