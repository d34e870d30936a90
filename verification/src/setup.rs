//! Turning a request into groups of probes.

use vstd::prelude::*;
use crate::command::{
    self, Location, Place, ProcessTrap, SystemTrace, WatchAccess, WatchLocation, WatchTrace,
};
use crate::fault::{self, tell, tell_owned, Fault, Kind, Outcome};
use crate::groups::Group;
use crate::maps::{self, Mapping};
use crate::perf::{self, Arch};
use crate::probes::{self, mapped_address, AddressSpace, ArmPlan, ProbeSite, ProbeSpec};
use crate::sites::{self, ring_pages, Site, SiteLocation};
use crate::target::{self, probe_site, site_offset};
use crate::text::{self, decimal, hex};

verus! {

/// What is said of a group that was armed, unless nothing of it could be.
pub fn report_arming(added: usize, total: usize, first_err: Option<Fault>) -> (r: Result<
    (String, Option<Fault>),
    Fault,
>)
    ensures
        if added == 0 {
            match first_err {
                Some(f) => r == Err::<(String, Option<Fault>), Fault>(f),
                None => r matches Err(f) && fault::told(
                    f,
                    Kind::NotFound,
                    "the target has no live attachments"@,
                ),
            }
        } else {
            r matches Ok(said) && said.1 == first_err && said.0@ == "  "@ + text::decimal_digits(
                added as nat,
            ) + "/"@ + text::decimal_digits(total as nat) + " attachments"@
        },
{
    if added == 0 {
        return Err(
            match first_err {
                Some(f) => f,
                None => tell(Kind::NotFound, "the target has no live attachments"),
            },
        );
    }
    let mut said = "  ".to_owned();
    said.append(decimal(added as u64).as_str());
    said.append("/");
    said.append(decimal(total as u64).as_str());
    said.append(" attachments");
    Ok((said, first_err))
}

/// How many events plans ask for together.
pub open spec fn planned_events(plans: Seq<ArmPlan>) -> int
    decreases plans.len(),
{
    if plans.len() == 0 {
        0
    } else {
        planned_events(plans.drop_last()) + plans.last().attachments@.len()
    }
}

proof fn lemma_planned_events_grow(plans: Seq<ArmPlan>, n: int)
    requires
        0 <= n <= plans.len(),
    ensures
        0 <= planned_events(plans.take(n)) <= planned_events(plans),
    decreases plans.len(),
{
    if n == plans.len() {
        assert(plans.take(n) =~= plans);
        if n > 0 {
            lemma_planned_events_grow(plans.drop_last(), n - 1);
            assert(plans.drop_last().take(n - 1) =~= plans.drop_last());
        }
    } else {
        lemma_planned_events_grow(plans.drop_last(), n);
        assert(plans.drop_last().take(n) =~= plans.take(n));
    }
}

/// Counts the events that plans ask for.
pub fn count_events(plans: &[ArmPlan]) -> (r: usize)
    requires
        planned_events(plans@) <= usize::MAX,
    ensures
        r == planned_events(plans@),
{
    let mut events: usize = 0;
    let mut i: usize = 0;
    while i < plans.len()
        invariant
            i <= plans@.len(),
            planned_events(plans@) <= usize::MAX,
            events == planned_events(plans@.take(i as int)),
        decreases plans@.len() - i,
    {
        assert(plans@.take(i + 1).drop_last() =~= plans@.take(i as int));
        proof {
            lemma_planned_events_grow(plans@, i + 1);
        }
        events = events + plans[i].attachments.len();
        i += 1;
    }
    assert(plans@.take(i as int) =~= plans@);
    events
}

/// The pages of the ring for each event of these plans.
pub fn ring_for(arch: Arch, plans: &[ArmPlan], stack: u32) -> (r: usize)
    requires
        planned_events(plans@) <= usize::MAX,
        perf::sample_len(arch, stack) <= usize::MAX,
    ensures
        crate::numbers::power_of_two(r as int),
        r >= sites::page_budget(planned_events(plans@)),
        r >= sites::pages_filled(perf::sample_len(arch, stack)),
        r == sites::page_budget(planned_events(plans@)) || forall|p: int|
            crate::numbers::power_of_two(p) && sites::pages_filled(perf::sample_len(arch, stack))
                <= p ==> r <= p,
        r * sites::PAGE >= perf::sample_len(arch, stack),
{
    ring_pages(count_events(plans), perf::sample_size(arch, stack))
}

/// The label of a probe: its symbol, or its offset.
pub open spec fn label_of(place: Place, offset: u64) -> Seq<char> {
    match place {
        Place::Symbol(symbol) => symbol,
        _ => text::hex_text(offset as nat),
    }
}

/// The label of a probe.
pub fn location_label(location: &Location, offset: u64) -> (r: String)
    ensures
        r@ == label_of(location@, offset),
{
    match location {
        Location::Symbol(symbol) => symbol.as_str().to_owned(),
        _ => hex(offset),
    }
}

/// The first address space of a process.
pub fn root_space(spaces: &[AddressSpace], pid: i32) -> (r: Result<&AddressSpace, Fault>)
    ensures
        match r {
            Ok(space) => exists|i: int|
                0 <= i < spaces@.len() && spaces@[i] == *space && space.pid == pid && forall|k: int|
                    0 <= k < i ==> (#[trigger] spaces@[k]).pid != pid,
            Err(f) => fault::told(f, Kind::NotFound, "target address space disappeared"@)
                && forall|k: int| 0 <= k < spaces@.len() ==> (#[trigger] spaces@[k]).pid != pid,
        },
{
    let mut i: usize = 0;
    while i < spaces.len()
        invariant
            i <= spaces@.len(),
            forall|k: int| 0 <= k < i ==> (#[trigger] spaces@[k]).pid != pid,
        decreases spaces@.len() - i,
    {
        if spaces[i].pid == pid {
            assert(spaces@[i as int].pid == pid);
            return Ok(&spaces[i]);
        }
        i += 1;
    }
    Err(tell(Kind::NotFound, "target address space disappeared"))
}

/// Whether an address is a multiple of a length.
pub open spec fn aligned(addr: u64, len: u64) -> bool {
    if len == 0 {
        addr == 0
    } else {
        addr % len == 0
    }
}

/// A hardware trap, which needs its address aligned to its length.
pub fn hardware_probe(site: ProbeSite, addr: u64, kind: u32, len: u64) -> (r: Result<
    ProbeSpec,
    Fault,
>)
    ensures
        if aligned(addr, len) {
            r == Ok::<ProbeSpec, Fault>(ProbeSpec::Hardware { site, kind, len })
        } else {
            r matches Err(f) && fault::told(
                f,
                Kind::InvalidInput,
                "a "@ + text::decimal_digits(len as nat)
                    + "-byte hardware trap needs an address aligned to "@ + text::decimal_digits(
                    len as nat,
                ) + ", and "@ + text::hex_text(addr as nat) + " is not"@,
            )
        },
{
    let fits = if len == 0 {
        addr == 0
    } else {
        addr % len == 0
    };
    if !fits {
        let mut message = "a ".to_owned();
        message.append(decimal(len).as_str());
        message.append("-byte hardware trap needs an address aligned to ");
        message.append(decimal(len).as_str());
        message.append(", and ");
        message.append(hex(addr).as_str());
        message.append(" is not");
        return Err(tell_owned(Kind::InvalidInput, message));
    }
    Ok(ProbeSpec::Hardware { site, kind, len })
}

/// A site whose library, offset and address are known.
#[derive(Debug)]
pub struct PlacedSite {
    pub label: String,
    pub path: String,
    pub offset: u64,
    pub address: u64,
}

/// The place that a site stands for.
pub open spec fn place_of(location: sites::SitePlace) -> Place {
    match location {
        sites::SitePlace::Selected(place) => place,
        sites::SitePlace::Named(site) => target::site_place(site),
    }
}

/// The label of a site: its own, or that of its location.
pub open spec fn site_label(site: sites::SiteView, offset: u64) -> Seq<char> {
    match site.label {
        Some(label) => label,
        None => match site.location {
            sites::SitePlace::Selected(place) => label_of(place, offset),
            sites::SitePlace::Named(_) => text::hex_text(offset as nat),
        },
    }
}

/// Whether the library's file has to be read to place a site.
pub fn site_needs_image(site: &Site) -> (r: bool)
    ensures
        r == !(site@.location matches sites::SitePlace::Selected(Place::FileOffset(_))),
{
    match &site.location {
        SiteLocation::Selected(location) => target::needs_image(location),
        SiteLocation::Named(_) => true,
    }
}

/// Finds the file offset, the label and the address of a site, where `image`
/// is what the library's file holds.
pub fn place_site(site: &Site, path: &str, image: &[u8], mappings: &[Mapping]) -> (r: Result<
    PlacedSite,
    Fault,
>)
    ensures
        match target::offset_in(place_of(site@.location), image@) {
            Outcome::Got(offset) => match probes::mapped(maps::views(mappings@), path@, offset) {
                Outcome::Got(address) => r matches Ok(placed) && placed.label@ == site_label(
                    site@,
                    offset,
                ) && placed.path@ == path@ && placed.offset == offset && placed.address == address,
                outcome => r matches Err(f) && fault::fails(outcome, f),
            },
            outcome => r matches Err(f) && fault::fails(outcome, f),
        },
{
    let found = match &site.location {
        SiteLocation::Selected(location) => probe_site(location, image),
        SiteLocation::Named(name) => site_offset(name.as_str(), image),
    };
    let offset: u64 = match found {
        Ok(offset) => offset,
        Err(f) => return Err(f),
    };
    let label = match &site.label {
        Some(label) => label.as_str().to_owned(),
        None => match &site.location {
            SiteLocation::Selected(location) => location_label(location, offset),
            SiteLocation::Named(_) => hex(offset),
        },
    };
    match mapped_address(mappings, path, offset) {
        Ok(address) => Ok(PlacedSite { label, path: path.to_owned(), offset, address }),
        Err(f) => Err(f),
    }
}

/// Whether the text of a target could be read completely.
pub fn check_width(arch: Arch, memory: &[u8]) -> (r: Result<(), Fault>)
    ensures
        if memory@.len() == arch.spec_exec_len() {
            r is Ok
        } else {
            r matches Err(f) && fault::told(
                f,
                Kind::UnexpectedEof,
                "the target text could not be read completely"@,
            )
        },
{
    if memory.len() as u64 != arch.exec_len() {
        return Err(
            tell(Kind::UnexpectedEof, "the target text could not be read completely"),
        );
    }
    Ok(())
}

/// Bytes in hexadecimal, one by one.
pub open spec fn byte_texts(bytes: Seq<u8>) -> Seq<Seq<char>> {
    Seq::new(bytes.len(), |i: int| text::byte_text(bytes[i]))
}

fn show_bytes(bytes: &[u8]) -> (r: String)
    ensures
        r@ == text::joined(byte_texts(bytes@), " "@),
{
    let mut parts: Vec<String> = Vec::new();
    while parts.len() < bytes.len()
        invariant
            parts@.len() <= bytes@.len(),
            text::texts(parts@) =~= byte_texts(bytes@).take(parts@.len() as int),
        decreases bytes@.len() - parts@.len(),
    {
        let ghost before = parts@;
        let mut part = String::new();
        text::push_byte(&mut part, bytes[parts.len()]);
        assert(part@ =~= byte_texts(bytes@)[before.len() as int]);
        let ghost shown = part@;
        parts.push(part);
        assert(text::texts(parts@) =~= text::texts(before).push(shown));
    }
    assert(text::texts(parts@) =~= byte_texts(bytes@));
    text::join(&parts, " ")
}

/// Why a uprobe would harm a library that rewrites its own code.
pub const REWRITES: &'static str =
    " does not match the file, so this library rewrites its own code.\n  in memory: ";

pub const ON_DISK: &'static str = "\n  on disk:   ";

pub const CORRUPTS: &'static str =
    "\nA uprobe would execute the on-disk bytes in place of the real instruction on every hit, and write them back when it is removed, which corrupts the target. Use --hw for a hardware breakpoint, which modifies nothing.";

/// Refuses to probe text that differs from the file.
pub fn refuse_if_text_differs(path: &str, offset: u64, memory: &[u8], disk: &[u8]) -> (r: Result<
    (),
    Fault,
>)
    ensures
        if memory@ == disk@ {
            r is Ok
        } else {
            r matches Err(f) && fault::told(
                f,
                Kind::Other,
                "the text at "@ + path@ + "+"@ + text::hex_text(offset as nat) + REWRITES@
                    + text::joined(byte_texts(memory@), " "@) + ON_DISK@ + text::joined(
                    byte_texts(disk@),
                    " "@,
                ) + CORRUPTS@,
            )
        },
{
    let mut alike = memory.len() == disk.len();
    let mut i: usize = 0;
    while alike && i < memory.len()
        invariant
            i <= memory@.len(),
            alike ==> memory@.len() == disk@.len() && forall|k: int|
                0 <= k < i ==> memory@[k] == disk@[k],
            !alike ==> memory@ != disk@,
        decreases memory@.len() - i,
    {
        if memory[i] != disk[i] {
            alike = false;
        }
        i += 1;
    }
    if alike {
        assert(memory@ =~= disk@);
        return Ok(());
    }
    let mut message = "the text at ".to_owned();
    message.append(path);
    message.append("+");
    message.append(hex(offset).as_str());
    message.append(REWRITES);
    message.append(show_bytes(memory).as_str());
    message.append(ON_DISK);
    message.append(show_bytes(disk).as_str());
    message.append(CORRUPTS);
    Err(tell_owned(Kind::Other, message))
}

/// The group of a site that is trapped. A uprobe is placed only where the text
/// was found to match the file.
pub fn build_process<P>(arch: Arch, trap: ProcessTrap, placed: PlacedSite, stack: u32) -> (r: Result<
    Group<P>,
    Fault,
>)
    ensures
        match trap {
            ProcessTrap::Uprobe { retprobe } => r matches Ok(group) && group.is_new()
                && group.label == placed.label && group.stack == stack && group.probe == (
            ProbeSpec::TaskUprobe {
                path: placed.path,
                offset: placed.offset,
                retprobe,
            }),
            ProcessTrap::Breakpoint => if aligned(placed.address, arch.spec_exec_len()) {
                r matches Ok(group) && group.is_new() && group.label == placed.label && group.stack
                    == stack && group.probe == (ProbeSpec::Hardware {
                    site: ProbeSite::File { path: placed.path, offset: placed.offset },
                    kind: perf::HW_BREAKPOINT_X,
                    len: arch.spec_exec_len(),
                })
            } else {
                r matches Err(f) && fault::told(
                    f,
                    Kind::InvalidInput,
                    "a "@ + text::decimal_digits(arch.spec_exec_len() as nat)
                        + "-byte hardware trap needs an address aligned to "@
                        + text::decimal_digits(arch.spec_exec_len() as nat) + ", and "@
                        + text::hex_text(placed.address as nat) + " is not"@,
                )
            },
        },
{
    let probe = match trap {
        ProcessTrap::Uprobe { retprobe } => ProbeSpec::TaskUprobe {
            path: placed.path,
            offset: placed.offset,
            retprobe,
        },
        ProcessTrap::Breakpoint => match hardware_probe(
            ProbeSite::File { path: placed.path, offset: placed.offset },
            placed.address,
            perf::HW_BREAKPOINT_X,
            arch.exec_len(),
        ) {
            Ok(probe) => probe,
            Err(f) => return Err(f),
        },
    };
    Ok(Group::new(placed.label, probe, stack))
}

/// The group of a system-wide trace, whose offset is known.
pub fn build_system<P>(request: &SystemTrace, offset: u64) -> (r: Group<P>)
    ensures
        r.is_new(),
        r.label@ == label_of(request.location@, offset),
        r.stack == command::stack_of(request.report),
        r.probe matches ProbeSpec::SystemUprobe { path, offset: at, retprobe } && path@
            == request.library@ && at == offset && retprobe == request.retprobe,
{
    Group::new(
        location_label(&request.location, offset),
        ProbeSpec::SystemUprobe {
            path: request.library.as_str().to_owned(),
            offset,
            retprobe: request.retprobe,
        },
        request.report.stack(),
    )
}

/// The debug register's bits for an access.
pub open spec fn access_bits(access: WatchAccess) -> u32 {
    match access {
        WatchAccess::Read => perf::HW_BREAKPOINT_R,
        WatchAccess::Write => perf::HW_BREAKPOINT_W,
        WatchAccess::Rw => perf::HW_BREAKPOINT_RW,
    }
}

impl From<WatchAccess> for u32 {
    fn from(access: WatchAccess) -> (r: Self) {
        match access {
            WatchAccess::Read => perf::HW_BREAKPOINT_R,
            WatchAccess::Write => perf::HW_BREAKPOINT_W,
            WatchAccess::Rw => perf::HW_BREAKPOINT_RW,
        }
    }
}

impl vstd::std_specs::convert::FromSpecImpl<WatchAccess> for u32 {
    open spec fn obeys_from_spec() -> bool {
        true
    }

    open spec fn from_spec(access: WatchAccess) -> u32 {
        access_bits(access)
    }
}

/// Why a watch cannot be had, before the target is looked at. A runtime
/// address means nothing in another address space.
pub fn watch_refusal(request: &WatchTrace) -> (r: Option<Fault>)
    ensures
        if request.location is Runtime && request.emit is Some {
            r matches Some(f) && fault::told(
                f,
                Kind::InvalidInput,
                "a runtime watch address has no ASLR-stable artifact location"@,
            )
        } else if request.location is Runtime && request.follow {
            r matches Some(f) && fault::told(
                f,
                Kind::InvalidInput,
                "a runtime address cannot be followed across new address spaces"@,
            )
        } else {
            r is None
        },
{
    match &request.location {
        WatchLocation::Runtime(_) => {
            if request.emit.is_some() {
                return Some(
                    tell(
                        Kind::InvalidInput,
                        "a runtime watch address has no ASLR-stable artifact location",
                    ),
                );
            }
            if request.follow {
                return Some(
                    tell(
                        Kind::InvalidInput,
                        "a runtime address cannot be followed across new address spaces",
                    ),
                );
            }
            None
        },
        _ => None,
    }
}

/// Where a watch is to be placed: at an address of the process, or in a
/// library whose file has to place it.
#[derive(Debug)]
pub enum WatchPlace<'request> {
    Runtime(u64),
    Library { library: &'request str, location: Location },
}

/// Where a watch is to be placed.
pub fn watch_place(location: &WatchLocation) -> (r: WatchPlace)
    ensures
        match *location {
            WatchLocation::Runtime(address) => r == WatchPlace::Runtime(address),
            WatchLocation::VirtualAddress { library, address } => r matches WatchPlace::Library {
                library: found,
                location: place,
            } && found@ == library@ && place@ == Place::VirtualAddress(address),
            WatchLocation::FileOffset { library, offset } => r matches WatchPlace::Library {
                library: found,
                location: place,
            } && found@ == library@ && place@ == Place::FileOffset(offset),
        },
{
    match location {
        WatchLocation::Runtime(address) => WatchPlace::Runtime(*address),
        WatchLocation::VirtualAddress { library, address } => WatchPlace::Library {
            library: library.as_str(),
            location: Location::VirtualAddress(*address),
        },
        WatchLocation::FileOffset { library, offset } => WatchPlace::Library {
            library: library.as_str(),
            location: Location::FileOffset(*offset),
        },
    }
}

/// The site and the address of a watch in a file, where `image` is what the
/// file holds.
pub fn watch_site(location: &Location, path: &str, image: &[u8], mappings: &[Mapping]) -> (r:
    Result<(ProbeSite, u64), Fault>)
    ensures
        match target::offset_in(location@, image@) {
            Outcome::Got(offset) => match probes::mapped(maps::views(mappings@), path@, offset) {
                Outcome::Got(address) => r matches Ok(found) && found.0.path_of() == Some(path@)
                    && found.0.offset_of() == offset && found.1 == address,
                outcome => r matches Err(f) && fault::fails(outcome, f),
            },
            outcome => r matches Err(f) && fault::fails(outcome, f),
        },
{
    let offset: u64 = match probe_site(location, image) {
        Ok(offset) => offset,
        Err(f) => return Err(f),
    };
    match mapped_address(mappings, path, offset) {
        Ok(address) => Ok((ProbeSite::File { path: path.to_owned(), offset }, address)),
        Err(f) => Err(f),
    }
}

/// The group of a watch whose site and address are known.
pub fn build_watch<P>(request: &WatchTrace, site: ProbeSite, addr: u64) -> (r: Result<
    Group<P>,
    Fault,
>)
    ensures
        if aligned(addr, request.length) {
            r matches Ok(group) && group.is_new() && group.label@ == text::hex_text(
                site.offset_of() as nat,
            ) && group.stack == command::stack_of(request.report) && group.probe == (
            ProbeSpec::Hardware {
                site,
                kind: access_bits(request.access),
                len: request.length,
            })
        } else {
            r matches Err(f) && fault::told(
                f,
                Kind::InvalidInput,
                "a "@ + text::decimal_digits(request.length as nat)
                    + "-byte hardware trap needs an address aligned to "@ + text::decimal_digits(
                    request.length as nat,
                ) + ", and "@ + text::hex_text(addr as nat) + " is not"@,
            )
        },
{
    let label = hex(site.offset());
    let kind: u32 = u32::from(request.access);
    match hardware_probe(site, addr, kind, request.length) {
        Ok(probe) => Ok(Group::new(label, probe, request.report.stack())),
        Err(f) => Err(f),
    }
}

/// A hardware trap can stand at every multiple of its length, and nowhere else.
pub proof fn lemma_traps_stand_aligned(addr: u64, len: u64)
    requires
        len > 0,
    ensures
        aligned(addr, len) <==> addr % len == 0,
        aligned(addr, 1),
{
}

/// A site goes by its own label, else by its symbol, else by its offset.
pub proof fn lemma_site_goes_by_its_name(site: sites::SiteView, offset: u64)
    ensures
        site.label matches Some(label) ==> site_label(site, offset) == label,
        site.label is None && site.location is Named ==> site_label(site, offset) == text::hex_text(
            offset as nat,
        ),
        site.label is None ==> (site.location matches sites::SitePlace::Selected(place) ==> (
        place matches Place::Symbol(symbol) ==> site_label(site, offset) == symbol) && (!(
        place is Symbol) ==> site_label(site, offset) == text::hex_text(offset as nat))),
{
}

/// A named site is placed where it says: at an address where it is one, and
/// else at a symbol.
pub proof fn lemma_named_site_is_placed(site: Seq<char>, place: Place)
    ensures
        place_of(sites::SitePlace::Named(site)) == target::site_place(site),
        place_of(sites::SitePlace::Selected(place)) == place,
{
}

/// Every event of every plan counts.
pub proof fn lemma_every_event_counts(a: Seq<ArmPlan>, b: Seq<ArmPlan>)
    ensures
        planned_events(a + b) == planned_events(a) + planned_events(b),
        forall|plan: ArmPlan| planned_events(#[trigger] seq![plan]) == plan.attachments@.len(),
    decreases b.len(),
{
    assert forall|plan: ArmPlan| planned_events(#[trigger] seq![plan])
        == plan.attachments@.len() by {
        assert(seq![plan].drop_last() =~= Seq::empty());
        assert(planned_events(Seq::empty()) == 0);
    }
    if b.len() == 0 {
        assert(a + b =~= a);
    } else {
        lemma_every_event_counts(a, b.drop_last());
        assert((a + b).drop_last() =~= a + b.drop_last());
    }
}

/// A watch traps the accesses that it asks for.
pub proof fn lemma_watch_traps_its_accesses()
    ensures
        access_bits(WatchAccess::Read) == 1,
        access_bits(WatchAccess::Write) == 2,
        access_bits(WatchAccess::Rw) == 3,
{
}

/// Bytes are shown one by one, each by its own two digits, the high one first.
pub proof fn lemma_bytes_are_shown(bytes: Seq<u8>, i: int)
    requires
        0 <= i < bytes.len(),
    ensures
        byte_texts(bytes).len() == bytes.len(),
        byte_texts(bytes)[i].len() == 2,
        byte_texts(bytes)[i][0] == text::digit_char(bytes[i] as int / 16),
        byte_texts(bytes)[i][1] == text::digit_char(bytes[i] as int % 16),
{
}

} // verus!
