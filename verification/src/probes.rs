//! What probes trap, and the events that they need for it.

use vstd::prelude::*;
use crate::fault::{self, tell, Fault, Kind, Outcome};
use crate::lists::{self, insert, Ordered};
use crate::maps::{self, runtime_address, Mapping, MappingView};

verus! {

/// What one event is attached to.
#[derive(Debug, Clone, Copy, PartialEq, Eq, Structural)]
pub enum Attachment {
    Task(i32),
    Cpu(usize),
    HardwareCpu { address: u64, cpu: usize },
}

/// Tasks sort before processors, and those before debug registers.
impl Ordered for Attachment {
    open spec fn before(self, other: Self) -> bool {
        match (self, other) {
            (Attachment::Task(a), Attachment::Task(b)) => a < b,
            (Attachment::Task(_), _) => true,
            (Attachment::Cpu(_), Attachment::Task(_)) => false,
            (Attachment::Cpu(a), Attachment::Cpu(b)) => a < b,
            (Attachment::Cpu(_), _) => true,
            (
                Attachment::HardwareCpu { address: a, cpu: m },
                Attachment::HardwareCpu { address: b, cpu: n },
            ) => a < b || (a == b && m < n),
            (Attachment::HardwareCpu { .. }, _) => false,
        }
    }

    fn is_before(&self, other: &Self) -> (r: bool) {
        match (*self, *other) {
            (Attachment::Task(a), Attachment::Task(b)) => a < b,
            (Attachment::Task(_), _) => true,
            (Attachment::Cpu(_), Attachment::Task(_)) => false,
            (Attachment::Cpu(a), Attachment::Cpu(b)) => a < b,
            (Attachment::Cpu(_), _) => true,
            (
                Attachment::HardwareCpu { address: a, cpu: m },
                Attachment::HardwareCpu { address: b, cpu: n },
            ) => a < b || (a == b && m < n),
            (Attachment::HardwareCpu { .. }, _) => false,
        }
    }

    proof fn lemma_order(a: Self, b: Self, c: Self) {
    }
}

/// Where a hardware trap stands.
#[derive(Debug)]
pub enum ProbeSite {
    File { path: String, offset: u64 },
    Runtime(u64),
}

/// What a group of probes traps.
#[derive(Debug)]
pub enum ProbeSpec {
    TaskUprobe { path: String, offset: u64, retprobe: bool },
    SystemUprobe { path: String, offset: u64, retprobe: bool },
    Hardware { site: ProbeSite, kind: u32, len: u64 },
}

/// A process, the threads of it that are traced, and its mappings.
#[derive(Debug)]
pub struct AddressSpace {
    pub pid: i32,
    pub tids: Vec<i32>,
    pub mappings: Vec<Mapping>,
}

/// The events that a group should have, and why some cannot be had.
#[derive(Debug)]
pub struct ArmPlan {
    pub attachments: Vec<Attachment>,
    pub failure: Option<Fault>,
}

/// The address of a file offset, where a process has it mapped.
pub open spec fn mapped(mappings: Seq<MappingView>, path: Seq<char>, offset: u64) -> Outcome<u64> {
    match maps::address_of(mappings, path, offset) {
        Some(address) => Outcome::Got(address),
        None => Outcome::Told(
            Kind::NotFound,
            "the target has not mapped that part of the file"@,
        ),
    }
}

/// The address of a file offset.
pub fn mapped_address(mappings: &[Mapping], path: &str, offset: u64) -> (r: Result<u64, Fault>)
    ensures
        match r {
            Ok(address) => mapped(maps::views(mappings@), path@, offset) == Outcome::Got(address),
            Err(f) => fault::fails(mapped(maps::views(mappings@), path@, offset), f),
        },
{
    match runtime_address(mappings, path, offset) {
        Some(address) => Ok(address),
        None => Err(tell(Kind::NotFound, "the target has not mapped that part of the file")),
    }
}

impl ProbeSite {
    /// The path of the file, if it stands in one.
    pub open spec fn path_of(self) -> Option<Seq<char>> {
        match self {
            ProbeSite::File { path, .. } => Some(path@),
            ProbeSite::Runtime(_) => None,
        }
    }

    /// The file offset, or the address where there is no file.
    pub open spec fn offset_of(self) -> u64 {
        match self {
            ProbeSite::File { offset, .. } => offset,
            ProbeSite::Runtime(address) => address,
        }
    }

    /// The address in a process.
    pub open spec fn address_of(self, space: AddressSpace) -> Outcome<u64> {
        match self {
            ProbeSite::File { path, offset } => mapped(
                maps::views(space.mappings@),
                path@,
                offset,
            ),
            ProbeSite::Runtime(address) => Outcome::Got(address),
        }
    }

    /// The file and the offset in it, if it stands in one.
    pub fn file(&self) -> (r: Option<(&str, u64)>)
        ensures
            match r {
                Some(found) => self.path_of() == Some(found.0@) && found.1 == self.offset_of(),
                None => self.path_of() is None,
            },
    {
        match self {
            ProbeSite::File { path, offset } => Some((path.as_str(), *offset)),
            ProbeSite::Runtime(_) => None,
        }
    }

    /// The file offset, or the address where there is no file.
    pub fn offset(&self) -> (r: u64)
        ensures
            r == self.offset_of(),
    {
        match self {
            ProbeSite::File { offset, .. } => *offset,
            ProbeSite::Runtime(address) => *address,
        }
    }

    /// The address in a process.
    pub fn address(&self, space: &AddressSpace) -> (r: Result<u64, Fault>)
        ensures
            match r {
                Ok(address) => self.address_of(*space) == Outcome::Got(address),
                Err(f) => fault::fails(self.address_of(*space), f),
            },
    {
        match self {
            ProbeSite::File { path, offset } => mapped_address(
                &space.mappings,
                path.as_str(),
                *offset,
            ),
            ProbeSite::Runtime(address) => Ok(*address),
        }
    }
}

/// What to open for one event.
#[derive(Debug)]
pub enum Opening<'probe> {
    Task { path: &'probe str, offset: u64, tid: i32, retprobe: bool },
    System { path: &'probe str, offset: u64, cpu: usize, retprobe: bool },
    Hardware { address: u64, cpu: usize, kind: u32, len: u64 },
}

impl ProbeSpec {
    /// The path of the file that is trapped, if any.
    pub open spec fn path_of(self) -> Option<Seq<char>> {
        match self {
            ProbeSpec::TaskUprobe { path, .. } => Some(path@),
            ProbeSpec::SystemUprobe { path, .. } => Some(path@),
            ProbeSpec::Hardware { site, .. } => site.path_of(),
        }
    }

    /// The file offset that is trapped, or the address.
    pub open spec fn offset_of(self) -> u64 {
        match self {
            ProbeSpec::TaskUprobe { offset, .. } => offset,
            ProbeSpec::SystemUprobe { offset, .. } => offset,
            ProbeSpec::Hardware { site, .. } => site.offset_of(),
        }
    }

    /// Whether an attachment is one that these probes should have.
    pub open spec fn wants(self, spaces: Seq<AddressSpace>, cpus: int, a: Attachment) -> bool {
        match self {
            ProbeSpec::TaskUprobe { .. } => a matches Attachment::Task(tid) && exists|i: int|
                0 <= i < spaces.len() && (#[trigger] spaces[i]).tids@.contains(tid),
            ProbeSpec::SystemUprobe { .. } => a matches Attachment::Cpu(cpu) && cpu < cpus,
            ProbeSpec::Hardware { site, .. } => a matches Attachment::HardwareCpu { address, cpu }
                && cpu < cpus && exists|i: int|
                0 <= i < spaces.len() && #[trigger] site.address_of(spaces[i]) == Outcome::Got(
                    address,
                ),
        }
    }

    /// Whether a process has no address for these probes.
    pub open spec fn misses(self, space: AddressSpace) -> bool {
        self matches ProbeSpec::Hardware { site, .. } && !(site.address_of(space) is Got)
    }

    /// Whether `plan` is what these probes should have.
    pub open spec fn planned(self, spaces: Seq<AddressSpace>, cpus: int, plan: ArmPlan) -> bool {
        &&& lists::ascending(plan.attachments@)
        &&& forall|a: Attachment| #[trigger]
            plan.attachments@.contains(a) <==> self.wants(spaces, cpus, a)
        &&& plan.failure is Some <==> exists|i: int|
            0 <= i < spaces.len() && #[trigger] self.misses(spaces[i])
        &&& plan.failure matches Some(f) ==> fault::told(
            f,
            Kind::NotFound,
            "the target has not mapped that part of the file"@,
        )
    }

    /// Plans the events of these probes: one per traced task, one per
    /// processor, or one per processor and address.
    pub fn plan(&self, spaces: &[AddressSpace], cpus: usize) -> (r: ArmPlan)
        ensures
            self.planned(spaces@, cpus as int, r),
    {
        match self {
            ProbeSpec::TaskUprobe { .. } => ArmPlan {
                attachments: task_attachments(spaces),
                failure: None,
            },
            ProbeSpec::SystemUprobe { .. } => ArmPlan {
                attachments: cpu_attachments(cpus),
                failure: None,
            },
            ProbeSpec::Hardware { site, .. } => {
                let (addresses, failure) = site_addresses(site, spaces);
                let attachments = hardware_attachments(&addresses, cpus);
                proof {
                    assert forall|i: int| 0 <= i < spaces@.len() implies #[trigger] self.misses(
                        spaces@[i],
                    ) == !(site.address_of(spaces@[i]) is Got) by {}
                    assert forall|a: Attachment| #[trigger]
                        attachments@.contains(a) <==> self.wants(spaces@, cpus as int, a) by {
                        if let Attachment::HardwareCpu { address, cpu } = a {
                            if addresses@.contains(address) {
                                let i = choose|i: int|
                                    0 <= i < spaces@.len() && #[trigger] site.address_of(spaces@[i])
                                        == Outcome::Got(address);
                                assert(site.address_of(spaces@[i]) == Outcome::Got(address));
                            }
                        }
                    }
                    if failure is Some {
                        let i = choose|i: int|
                            0 <= i < spaces@.len() && !(#[trigger] site.address_of(spaces@[i])
                                is Got);
                        assert(self.misses(spaces@[i]));
                    }
                    if exists|i: int| 0 <= i < spaces@.len() && #[trigger] self.misses(spaces@[i]) {
                        let i = choose|i: int|
                            0 <= i < spaces@.len() && #[trigger] self.misses(spaces@[i]);
                        assert(!(site.address_of(spaces@[i]) is Got));
                    }
                }
                ArmPlan { attachments, failure }
            },
        }
    }

    /// What to open for an attachment.
    pub fn opening(&self, attachment: Attachment) -> (r: Result<Opening, Fault>)
        ensures
            match (*self, attachment) {
                (ProbeSpec::TaskUprobe { path, offset, retprobe }, Attachment::Task(tid)) => r
                    matches Ok(Opening::Task { path: p, offset: o, tid: t, retprobe: x }) && p@
                    == path@ && o == offset && t == tid && x == retprobe,
                (ProbeSpec::SystemUprobe { path, offset, retprobe }, Attachment::Cpu(cpu)) => r
                    matches Ok(Opening::System { path: p, offset: o, cpu: c, retprobe: x }) && p@
                    == path@ && o == offset && c == cpu && x == retprobe,
                (
                    ProbeSpec::Hardware { kind, len, .. },
                    Attachment::HardwareCpu { address, cpu },
                ) => r matches Ok(Opening::Hardware { address: a, cpu: c, kind: k, len: l }) && a
                    == address && c == cpu && k == kind && l == len,
                _ => r matches Err(f) && fault::told(
                    f,
                    Kind::Other,
                    "probe attachment does not match its specification"@,
                ),
            },
    {
        match (self, attachment) {
            (ProbeSpec::TaskUprobe { path, offset, retprobe }, Attachment::Task(tid)) => Ok(
                Opening::Task { path: path.as_str(), offset: *offset, tid, retprobe: *retprobe },
            ),
            (ProbeSpec::SystemUprobe { path, offset, retprobe }, Attachment::Cpu(cpu)) => Ok(
                Opening::System { path: path.as_str(), offset: *offset, cpu, retprobe: *retprobe },
            ),
            (
                ProbeSpec::Hardware { kind, len, .. },
                Attachment::HardwareCpu { address, cpu },
            ) => Ok(Opening::Hardware { address, cpu, kind: *kind, len: *len }),
            _ => Err(tell(Kind::Other, "probe attachment does not match its specification")),
        }
    }

    /// Whether samples of other processes come in too.
    pub fn needs_target_filter(&self) -> (r: bool)
        ensures
            r == (self is Hardware),
    {
        matches!(self, ProbeSpec::Hardware { .. })
    }

    /// The file and the offset in it that are trapped, if any.
    pub fn file(&self) -> (r: Option<(&str, u64)>)
        ensures
            match r {
                Some(found) => self.path_of() == Some(found.0@) && found.1 == self.offset_of(),
                None => self.path_of() is None,
            },
    {
        match self {
            ProbeSpec::TaskUprobe { path, offset, .. } => Some((path.as_str(), *offset)),
            ProbeSpec::SystemUprobe { path, offset, .. } => Some((path.as_str(), *offset)),
            ProbeSpec::Hardware { site, .. } => site.file(),
        }
    }

    /// The file offset that is trapped, or the address.
    pub fn offset(&self) -> (r: u64)
        ensures
            r == self.offset_of(),
    {
        match self {
            ProbeSpec::TaskUprobe { offset, .. } => *offset,
            ProbeSpec::SystemUprobe { offset, .. } => *offset,
            ProbeSpec::Hardware { site, .. } => site.offset(),
        }
    }
}

/// What probes plan for, they can open.
pub proof fn lemma_planned_attachments_match(
    probe: ProbeSpec,
    spaces: Seq<AddressSpace>,
    cpus: int,
    plan: ArmPlan,
    a: Attachment,
)
    requires
        probe.planned(spaces, cpus, plan),
        plan.attachments@.contains(a),
    ensures
        probe is TaskUprobe ==> a is Task,
        probe is SystemUprobe ==> a is Cpu,
        probe is Hardware ==> a is HardwareCpu,
{
    assert(probe.wants(spaces, cpus, a));
}

fn task_attachments(spaces: &[AddressSpace]) -> (r: Vec<Attachment>)
    ensures
        lists::ascending(r@),
        forall|a: Attachment| #[trigger]
            r@.contains(a) <==> (a matches Attachment::Task(tid) && exists|i: int|
                0 <= i < spaces@.len() && (#[trigger] spaces@[i]).tids@.contains(tid)),
{
    let mut out: Vec<Attachment> = Vec::new();
    let mut n: usize = 0;
    while n < spaces.len()
        invariant
            n <= spaces@.len(),
            lists::ascending(out@),
            forall|a: Attachment| #[trigger]
                out@.contains(a) <==> (a matches Attachment::Task(tid) && exists|i: int|
                    0 <= i < n && (#[trigger] spaces@[i]).tids@.contains(tid)),
        decreases spaces@.len() - n,
    {
        let tids = &spaces[n].tids;
        let ghost before = out@;
        let mut k: usize = 0;
        while k < tids.len()
            invariant
                k <= tids@.len(),
                lists::ascending(out@),
                forall|a: Attachment| #[trigger]
                    out@.contains(a) <==> before.contains(a) || (a matches Attachment::Task(tid)
                        && exists|j: int| 0 <= j < k && #[trigger] tids@[j] == tid),
            decreases tids@.len() - k,
        {
            let ghost earlier = out@;
            insert(&mut out, Attachment::Task(tids[k]));
            assert forall|a: Attachment| #[trigger]
                out@.contains(a) <==> before.contains(a) || (a matches Attachment::Task(tid)
                    && exists|j: int| 0 <= j < k + 1 && #[trigger] tids@[j] == tid) by {
                if let Attachment::Task(tid) = a {
                    if earlier.contains(a) && !before.contains(a) {
                        let j = choose|j: int| 0 <= j < k && #[trigger] tids@[j] == tid;
                        assert(0 <= j < k + 1 && tids@[j] == tid);
                    }
                    if a == Attachment::Task(tids@[k as int]) {
                        assert(0 <= k < k + 1 && tids@[k as int] == tid);
                    }
                }
            }
            k += 1;
        }
        assert forall|a: Attachment| #[trigger]
            out@.contains(a) <==> (a matches Attachment::Task(tid) && exists|i: int|
                0 <= i < n + 1 && (#[trigger] spaces@[i]).tids@.contains(tid)) by {
            if let Attachment::Task(tid) = a {
                if before.contains(a) {
                    let i = choose|i: int|
                        0 <= i < n && (#[trigger] spaces@[i]).tids@.contains(tid);
                    assert(0 <= i < n + 1 && spaces@[i].tids@.contains(tid));
                }
                if spaces@[n as int].tids@.contains(tid) {
                    let j = choose|j: int|
                        0 <= j < spaces@[n as int].tids@.len() && spaces@[n as int].tids@[j] == tid;
                    assert(tids@[j] == tid);
                    assert(0 <= n < n + 1 && spaces@[n as int].tids@.contains(tid));
                }
            }
        }
        n += 1;
    }
    out
}

fn cpu_attachments(cpus: usize) -> (r: Vec<Attachment>)
    ensures
        lists::ascending(r@),
        forall|a: Attachment| #[trigger]
            r@.contains(a) <==> (a matches Attachment::Cpu(cpu) && cpu < cpus),
{
    let mut out: Vec<Attachment> = Vec::new();
    while out.len() < cpus
        invariant
            out@.len() <= cpus,
            forall|i: int| 0 <= i < out@.len() ==> #[trigger] out@[i] == Attachment::Cpu(i as usize),
        decreases cpus - out@.len(),
    {
        let cpu: usize = out.len();
        out.push(Attachment::Cpu(cpu));
    }
    assert forall|a: Attachment| #[trigger]
        out@.contains(a) <==> (a matches Attachment::Cpu(cpu) && cpu < cpus) by {
        if let Attachment::Cpu(cpu) = a {
            if cpu < cpus {
                assert(out@[cpu as int] == a);
            }
        }
    }
    out
}

fn site_addresses(site: &ProbeSite, spaces: &[AddressSpace]) -> (r: (Vec<u64>, Option<Fault>))
    ensures
        lists::ascending(r.0@),
        forall|address: u64| #[trigger]
            r.0@.contains(address) <==> exists|i: int|
                0 <= i < spaces@.len() && #[trigger] site.address_of(spaces@[i]) == Outcome::Got(
                    address,
                ),
        r.1 is Some <==> exists|i: int|
            0 <= i < spaces@.len() && !(#[trigger] site.address_of(spaces@[i]) is Got),
        r.1 matches Some(f) ==> fault::told(
            f,
            Kind::NotFound,
            "the target has not mapped that part of the file"@,
        ),
{
    let mut addresses: Vec<u64> = Vec::new();
    let mut failure: Option<Fault> = None;
    let mut n: usize = 0;
    while n < spaces.len()
        invariant
            n <= spaces@.len(),
            lists::ascending(addresses@),
            forall|address: u64| #[trigger]
                addresses@.contains(address) <==> exists|i: int|
                    0 <= i < n && #[trigger] site.address_of(spaces@[i]) == Outcome::Got(address),
            failure is Some <==> exists|i: int|
                0 <= i < n && !(#[trigger] site.address_of(spaces@[i]) is Got),
            failure matches Some(f) ==> fault::told(
                f,
                Kind::NotFound,
                "the target has not mapped that part of the file"@,
            ),
        decreases spaces@.len() - n,
    {
        let ghost before = addresses@;
        let ghost failed = failure is Some;
        match site.address(&spaces[n]) {
            Ok(address) => {
                insert(&mut addresses, address);
            },
            Err(f) => {
                if failure.is_none() {
                    failure = Some(f);
                }
            },
        }
        proof {
            let here = site.address_of(spaces@[n as int]);
            assert forall|address: u64| #[trigger]
                addresses@.contains(address) <==> exists|i: int|
                    0 <= i < n + 1 && #[trigger] site.address_of(spaces@[i]) == Outcome::Got(
                        address,
                    ) by {
                if before.contains(address) {
                    let i = choose|i: int|
                        0 <= i < n && #[trigger] site.address_of(spaces@[i]) == Outcome::Got(
                            address,
                        );
                    assert(0 <= i < n + 1 && site.address_of(spaces@[i]) == Outcome::Got(address));
                }
                if here == Outcome::Got(address) {
                    assert(0 <= n < n + 1 && site.address_of(spaces@[n as int]) == Outcome::Got(
                        address,
                    ));
                }
            }
            if failed {
                let i = choose|i: int|
                    0 <= i < n && !(#[trigger] site.address_of(spaces@[i]) is Got);
                assert(0 <= i < n + 1 && !(site.address_of(spaces@[i]) is Got));
            }
            if !(here is Got) {
                assert(0 <= n < n + 1 && !(site.address_of(spaces@[n as int]) is Got));
            }
        }
        n += 1;
    }
    (addresses, failure)
}

fn hardware_attachments(addresses: &[u64], cpus: usize) -> (r: Vec<Attachment>)
    requires
        lists::ascending(addresses@),
    ensures
        lists::ascending(r@),
        forall|a: Attachment| #[trigger]
            r@.contains(a) <==> (a matches Attachment::HardwareCpu { address, cpu } && cpu < cpus
                && addresses@.contains(address)),
{
    let mut out: Vec<Attachment> = Vec::new();
    let mut n: usize = 0;
    while n < addresses.len()
        invariant
            n <= addresses@.len(),
            lists::ascending(out@),
            forall|a: Attachment| #[trigger]
                out@.contains(a) <==> (a matches Attachment::HardwareCpu { address, cpu } && cpu
                    < cpus && addresses@.take(n as int).contains(address)),
        decreases addresses@.len() - n,
    {
        let here: u64 = addresses[n];
        let ghost before = out@;
        let mut cpu: usize = 0;
        while cpu < cpus
            invariant
                cpu <= cpus,
                lists::ascending(out@),
                forall|a: Attachment| #[trigger]
                    out@.contains(a) <==> before.contains(a) || (a
                        matches Attachment::HardwareCpu { address, cpu: c } && address == here && c
                        < cpu),
            decreases cpus - cpu,
        {
            insert(&mut out, Attachment::HardwareCpu { address: here, cpu });
            cpu += 1;
        }
        proof {
            let upto = addresses@.take(n + 1);
            assert forall|x: u64| #[trigger] upto.contains(x) <==> addresses@.take(
                n as int,
            ).contains(x) || x == here by {
                if addresses@.take(n as int).contains(x) {
                    let i = choose|i: int|
                        0 <= i < n && addresses@.take(n as int)[i] == x;
                    assert(upto[i] == x);
                }
                assert(upto[n as int] == here);
                if upto.contains(x) && x != here {
                    let i = choose|i: int| 0 <= i < n + 1 && upto[i] == x;
                    assert(addresses@.take(n as int)[i] == x);
                }
            }
        }
        n += 1;
    }
    assert(addresses@.take(n as int) =~= addresses@);
    out
}

/// A probe on tasks is attached to every thread of every address space.
pub proof fn lemma_every_thread_is_probed(
    probe: ProbeSpec,
    spaces: Seq<AddressSpace>,
    cpus: int,
    plan: ArmPlan,
    i: int,
    tid: i32,
)
    requires
        probe is TaskUprobe,
        probe.planned(spaces, cpus, plan),
        0 <= i < spaces.len(),
        spaces[i].tids@.contains(tid),
    ensures
        plan.attachments@.contains(Attachment::Task(tid)),
        plan.failure is None,
{
    assert(probe.wants(spaces, cpus, Attachment::Task(tid)));
    if plan.failure is Some {
        let k = choose|k: int| 0 <= k < spaces.len() && #[trigger] probe.misses(spaces[k]);
    }
}

/// A probe on the system is attached to every processor, and to nothing else.
pub proof fn lemma_every_processor_is_probed(
    probe: ProbeSpec,
    spaces: Seq<AddressSpace>,
    cpus: int,
    plan: ArmPlan,
    a: Attachment,
)
    requires
        probe is SystemUprobe,
        probe.planned(spaces, cpus, plan),
    ensures
        plan.attachments@.contains(a) <==> (a matches Attachment::Cpu(cpu) && cpu < cpus),
{
    assert(plan.attachments@.contains(a) <==> probe.wants(spaces, cpus, a));
}

/// A hardware trap at a runtime address is set there on every processor, as
/// long as there is anything to trace.
pub proof fn lemma_runtime_address_is_trapped(
    probe: ProbeSpec,
    spaces: Seq<AddressSpace>,
    cpus: int,
    plan: ArmPlan,
    address: u64,
    cpu: usize,
)
    requires
        probe matches ProbeSpec::Hardware { site: ProbeSite::Runtime(at), .. } && at == address,
        probe.planned(spaces, cpus, plan),
        spaces.len() > 0,
        cpu < cpus,
    ensures
        plan.attachments@.contains(Attachment::HardwareCpu { address, cpu }),
{
    let site = probe->site;
    assert(site.address_of(spaces[0]) == Outcome::Got(address));
    assert(probe.wants(spaces, cpus, Attachment::HardwareCpu { address, cpu }));
}

/// A hardware trap at a place in a file is set on every processor, in every
/// address space that maps that place, at the address that it has there.
pub proof fn lemma_mapped_offset_is_trapped(
    probe: ProbeSpec,
    spaces: Seq<AddressSpace>,
    cpus: int,
    plan: ArmPlan,
    path: Seq<char>,
    offset: u64,
    i: int,
    m: int,
    cpu: usize,
)
    requires
        probe matches ProbeSpec::Hardware { site: ProbeSite::File { path: file, offset: at }, .. }
            && file@ == path && at == offset,
        probe.planned(spaces, cpus, plan),
        0 <= i < spaces.len(),
        0 <= m < spaces[i].mappings@.len(),
        spaces[i].mappings@[m]@.path == Some(path),
        spaces[i].mappings@[m].pgoff <= offset,
        offset - spaces[i].mappings@[m].pgoff < spaces[i].mappings@[m].end
            - spaces[i].mappings@[m].start,
        forall|j: int|
            0 <= j < m ==> !((#[trigger] spaces[i].mappings@[j])@.path == Some(path)
                && spaces[i].mappings@[j].pgoff <= offset && offset - spaces[i].mappings@[j].pgoff
                < spaces[i].mappings@[j].end - spaces[i].mappings@[j].start),
        cpu < cpus,
    ensures
        plan.attachments@.contains(
            Attachment::HardwareCpu {
                address: (spaces[i].mappings@[m].start + (offset
                    - spaces[i].mappings@[m].pgoff)) as u64,
                cpu,
            },
        ),
{
    let all = maps::views(spaces[i].mappings@);
    assert(all[m] == spaces[i].mappings@[m]@);
    assert forall|j: int| 0 <= j < m implies !((#[trigger] all[j]).path == Some(path)
        && all[j].pgoff <= offset && offset - all[j].pgoff < all[j].end - all[j].start) by {
        assert(all[j] == spaces[i].mappings@[j]@);
    }
    maps::lemma_offset_stands_in_its_mapping(all, path, offset, m);
    let address = (all[m].start + (offset - all[m].pgoff)) as u64;
    let site = probe->site;
    assert(site.address_of(spaces[i]) == Outcome::Got(address));
    assert(probe.wants(spaces, cpus, Attachment::HardwareCpu { address, cpu }));
}

/// A plan for a place in a file fails exactly where some address space does not
/// map it.
pub proof fn lemma_unmapped_offset_fails_the_plan(
    probe: ProbeSpec,
    spaces: Seq<AddressSpace>,
    cpus: int,
    plan: ArmPlan,
    path: Seq<char>,
    offset: u64,
    i: int,
)
    requires
        probe matches ProbeSpec::Hardware { site: ProbeSite::File { path: file, offset: at }, .. }
            && file@ == path && at == offset,
        probe.planned(spaces, cpus, plan),
        0 <= i < spaces.len(),
        forall|j: int|
            0 <= j < spaces[i].mappings@.len() ==> !((
            #[trigger] spaces[i].mappings@[j])@.path == Some(path) && spaces[i].mappings@[j].pgoff
                <= offset && offset - spaces[i].mappings@[j].pgoff < spaces[i].mappings@[j].end
                - spaces[i].mappings@[j].start),
    ensures
        plan.failure is Some,
{
    let all = maps::views(spaces[i].mappings@);
    assert forall|j: int| 0 <= j < all.len() implies !((#[trigger] all[j]).path == Some(path)
        && all[j].pgoff <= offset && offset - all[j].pgoff < all[j].end - all[j].start) by {
        assert(all[j] == spaces[i].mappings@[j]@);
    }
    maps::lemma_unmapped_offset_has_no_address(all, path, offset);
    assert(probe.misses(spaces[i]));
}

/// Attachments stand by their kind, those of a kind by their number, and traps
/// by their address before their processor.
pub proof fn lemma_attachments_stand_in_order(a: Attachment, b: Attachment)
    ensures
        a is Task && !(b is Task) ==> a.before(b) && !b.before(a),
        a is Cpu && b is HardwareCpu ==> a.before(b) && !b.before(a),
        a is Task && b is Task ==> (a.before(b) <==> a->Task_0 < b->Task_0),
        a is Cpu && b is Cpu ==> (a.before(b) <==> a->Cpu_0 < b->Cpu_0),
        a is HardwareCpu && b is HardwareCpu && a->address < b->address ==> a.before(b)
            && !b.before(a),
        a is HardwareCpu && b is HardwareCpu && a->address == b->address ==> (a.before(b)
            <==> a->cpu < b->cpu),
{
}

/// A probe stands at the offset of its file that it was given, whatever it is
/// armed as. One at a bare address belongs to no file.
pub proof fn lemma_where_a_probe_stands(probe: ProbeSpec)
    ensures
        probe is TaskUprobe ==> probe.path_of() == Some(probe->TaskUprobe_path@)
            && probe.offset_of() == probe->TaskUprobe_offset,
        probe is SystemUprobe ==> probe.path_of() == Some(probe->SystemUprobe_path@)
            && probe.offset_of() == probe->SystemUprobe_offset,
        probe is Hardware && probe->site is File ==> probe.path_of() == Some(probe->site->path@)
            && probe.offset_of() == probe->site->offset,
        probe is Hardware && probe->site is Runtime ==> probe.path_of() is None
            && probe.offset_of() == probe->site->Runtime_0,
{
}

} // verus!
