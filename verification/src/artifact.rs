//! Everything observed in one run, by the exact image that each file offset
//! belongs to.

use vstd::prelude::*;
use crate::elf::{vaddr_to_file_offset, Elf, Segment};
use crate::fault::{self, tell, tell_owned, ElfPart, Fault, Kind, Outcome};
use crate::groups::{self, EdgeView, Group};
use crate::text::{self, hex, same};

verus! {

#[derive(Debug)]
pub struct Artifact<'group> {
    pub pid: Option<i32>,
    pub modules: Vec<Module<'group>>,
}

#[derive(Debug)]
pub struct Module<'group> {
    pub path: &'group str,
    pub build_id: Option<String>,
    pub functions: Vec<u64>,
    pub sites: Vec<Site<'group>>,
}

#[derive(Debug)]
pub struct Site<'group> {
    pub label: &'group str,
    pub offset: u64,
    pub hits: u64,
    pub callers: Vec<Caller<'group>>,
}

#[derive(Debug)]
pub struct Caller<'group> {
    pub module: &'group str,
    pub vaddr: u64,
    pub count: u64,
}

/// What each string of a list holds.
pub open spec fn contents(paths: Seq<&str>) -> Seq<Seq<char>> {
    Seq::new(paths.len(), |i: int| paths[i]@)
}

/// The files of the groups, each once, in the order in which they first occur.
pub open spec fn files<P>(groups: Seq<Group<P>>) -> Seq<Seq<char>>
    decreases groups.len(),
{
    if groups.len() == 0 {
        Seq::empty()
    } else {
        let before = files(groups.drop_last());
        match groups.last().probe.path_of() {
            Some(path) => if before.contains(path) {
                before
            } else {
                before.push(path)
            },
            None => before,
        }
    }
}

/// The files of the groups. A group without one has no place in an artifact.
pub fn module_paths<'group, P>(groups: &'group [Group<P>]) -> (r: Result<Vec<&'group str>, Fault>)
    ensures
        if exists|g: int| 0 <= g < groups@.len() && (#[trigger] groups@[g]).probe.path_of() is None {
            r matches Err(f) && fault::told(
                f,
                Kind::InvalidInput,
                "a runtime address has no ASLR-stable artifact location"@,
            )
        } else if groups@.len() == 0 {
            r matches Err(f) && fault::told(
                f,
                Kind::Other,
                "cannot write an artifact without a probe group"@,
            )
        } else {
            r matches Ok(paths) && contents(paths@) == files(groups@)
        },
{
    let mut paths: Vec<&'group str> = Vec::new();
    let mut g: usize = 0;
    assert(contents(paths@) =~= Seq::empty());
    while g < groups.len()
        invariant
            g <= groups@.len(),
            forall|k: int| 0 <= k < g ==> (#[trigger] groups@[k]).probe.path_of() is Some,
            contents(paths@) == files(groups@.take(g as int)),
            g > 0 ==> paths@.len() > 0,
        decreases groups@.len() - g,
    {
        assert(groups@.take(g + 1).drop_last() =~= groups@.take(g as int));
        let path = match groups[g].path() {
            Some(path) => path,
            None => {
                assert(groups@[g as int].probe.path_of() is None);
                return Err(
                    tell(
                        Kind::InvalidInput,
                        "a runtime address has no ASLR-stable artifact location",
                    ),
                );
            },
        };
        let ghost seen = contents(paths@);
        let mut known = false;
        let mut i: usize = 0;
        while i < paths.len()
            invariant
                i <= paths@.len(),
                seen == contents(paths@),
                known == exists|k: int| 0 <= k < i && #[trigger] seen[k] == path@,
            decreases paths@.len() - i,
        {
            assert(seen[i as int] == paths@[i as int]@);
            let ghost had = known;
            if same(paths[i], path) {
                known = true;
            }
            proof {
                if had {
                    let k = choose|k: int| 0 <= k < i && #[trigger] seen[k] == path@;
                    assert(0 <= k < i + 1 && seen[k] == path@);
                }
            }
            i += 1;
        }
        if known {
            assert(seen.contains(path@));
        } else {
            assert(!seen.contains(path@));
            let ghost before = paths@;
            paths.push(path);
            assert(contents(paths@) =~= contents(before).push(path@));
        }
        g += 1;
    }
    assert(groups@.take(g as int) =~= groups@);
    if paths.len() == 0 {
        return Err(tell(Kind::Other, "cannot write an artifact without a probe group"));
    }
    Ok(paths)
}

/// Whether a record of a caller is that of an edge.
pub open spec fn tells(caller: Caller, edge: EdgeView) -> bool {
    caller.module@ == edge.module && caller.vaddr == edge.vaddr && caller.count == edge.count
}

/// Whether a record of a site is that of a group.
pub open spec fn shows<P>(site: Site, group: Group<P>) -> bool {
    &&& site.label@ == group.label@
    &&& site.offset == group.probe.offset_of()
    &&& site.hits == group.hits
    &&& site.callers@.len() == group.callers@.len()
    &&& forall|i: int|
        0 <= i < site.callers@.len() ==> tells(#[trigger] site.callers@[i], group.callers@[i]@)
}

/// The groups of a file, in order.
pub open spec fn groups_in<P>(groups: Seq<Group<P>>, path: Seq<char>) -> Seq<Group<P>>
    decreases groups.len(),
{
    if groups.len() == 0 {
        Seq::empty()
    } else {
        let before = groups_in(groups.drop_last(), path);
        if groups.last().probe.path_of() == Some(path) {
            before.push(groups.last())
        } else {
            before
        }
    }
}

/// Whether records of sites are those of groups, one for one.
pub open spec fn shows_all<P>(sites: Seq<Site>, groups: Seq<Group<P>>) -> bool {
    &&& sites.len() == groups.len()
    &&& forall|i: int| 0 <= i < sites.len() ==> shows(#[trigger] sites[i], groups[i])
}

fn site_of<'group, P>(group: &'group Group<P>) -> (r: Site<'group>)
    ensures
        shows(r, *group),
{
    let mut callers: Vec<Caller<'group>> = Vec::new();
    while callers.len() < group.callers.len()
        invariant
            callers@.len() <= group.callers@.len(),
            forall|i: int|
                0 <= i < callers@.len() ==> tells(#[trigger] callers@[i], group.callers@[i]@),
        decreases group.callers@.len() - callers@.len(),
    {
        let edge = &group.callers[callers.len()];
        callers.push(
            Caller { module: edge.module.as_str(), vaddr: edge.vaddr, count: edge.count },
        );
    }
    Site { label: group.label(), offset: group.offset(), hits: group.hits(), callers }
}

/// The sites that the groups of a file probe.
pub fn sites_in<'group, P>(groups: &'group [Group<P>], path: &str) -> (r: Vec<Site<'group>>)
    ensures
        shows_all(r@, groups_in(groups@, path@)),
{
    let mut sites: Vec<Site<'group>> = Vec::new();
    let mut g: usize = 0;
    while g < groups.len()
        invariant
            g <= groups@.len(),
            shows_all(sites@, groups_in(groups@.take(g as int), path@)),
        decreases groups@.len() - g,
    {
        assert(groups@.take(g + 1).drop_last() =~= groups@.take(g as int));
        let here = match groups[g].path() {
            Some(found) => same(found, path),
            None => false,
        };
        if here {
            sites.push(site_of(&groups[g]));
        }
        g += 1;
    }
    assert(groups@.take(g as int) =~= groups@);
    sites
}

/// The first of some addresses that no segment holds.
pub open spec fn first_outside(vaddrs: Seq<u64>, segments: Seq<Segment>) -> Option<u64>
    decreases vaddrs.len(),
{
    if vaddrs.len() == 0 {
        None
    } else if crate::elf::offset_of(segments, vaddrs[0]) is None {
        Some(vaddrs[0])
    } else {
        first_outside(vaddrs.skip(1), segments)
    }
}

/// The file offsets of function entry points, all of which a segment must
/// hold.
pub fn function_offsets(path: &str, vaddrs: &[u64], segments: &[Segment]) -> (r: Result<
    Vec<u64>,
    Fault,
>)
    ensures
        match first_outside(vaddrs@, segments@) {
            Some(vaddr) => r matches Err(f) && fault::told(
                f,
                Kind::InvalidData,
                "function "@ + text::hex_text(vaddr as nat) + " in "@ + path@
                    + " is outside every load segment"@,
            ),
            None => r matches Ok(offsets) && offsets@.len() == vaddrs@.len() && forall|i: int|
                0 <= i < vaddrs@.len() ==> crate::elf::offset_of(segments@, vaddrs@[i]) == Some(
                    #[trigger] offsets@[i],
                ),
        },
{
    let mut offsets: Vec<u64> = Vec::new();
    assert(vaddrs@.skip(0) =~= vaddrs@);
    while offsets.len() < vaddrs.len()
        invariant
            offsets@.len() <= vaddrs@.len(),
            first_outside(vaddrs@, segments@) == first_outside(
                vaddrs@.skip(offsets@.len() as int),
                segments@,
            ),
            forall|i: int|
                0 <= i < offsets@.len() ==> crate::elf::offset_of(segments@, vaddrs@[i]) == Some(
                    #[trigger] offsets@[i],
                ),
        decreases vaddrs@.len() - offsets@.len(),
    {
        let n: usize = offsets.len();
        assert(vaddrs@.skip(n as int).skip(1) =~= vaddrs@.skip(n + 1));
        match vaddr_to_file_offset(segments, vaddrs[n]) {
            Some(offset) => offsets.push(offset),
            None => {
                let mut message = "function ".to_owned();
                message.append(hex(vaddrs[n]).as_str());
                message.append(" in ");
                message.append(path);
                message.append(" is outside every load segment");
                return Err(tell_owned(Kind::InvalidData, message));
            },
        }
    }
    Ok(offsets)
}

/// Whether the functions of a module, and the reason why there are none, are
/// what the unwind table of its file comes to.
pub open spec fn functions_of(
    functions: Seq<u64>,
    missing: Option<Fault>,
    image: Seq<u8>,
    segments: Seq<Segment>,
) -> bool {
    match crate::elf::unwind_of(image) {
        Outcome::Got(found) => match crate::elf::table_refusal(found.0, found.1) {
            Some(why) => functions.len() == 0 && (missing matches Some(f) && fault::told(
                f,
                Kind::InvalidData,
                why,
            )),
            None => missing is None && exists|entries: Seq<u64>| #[trigger]
                crate::elf::lists_entries(entries, found.0, found.1) && functions.len()
                    == entries.len() && forall|i: int|
                    0 <= i < entries.len() ==> crate::elf::offset_of(segments, entries[i]) == Some(
                        #[trigger] functions[i],
                    ),
        },
        outcome => functions.len() == 0 && (missing matches Some(f) && fault::fails(outcome, f)),
    }
}

/// Whether a function of a file lies outside every segment of it.
pub open spec fn function_outside(f: Fault, path: Seq<char>, image: Seq<u8>, segments: Seq<Segment>) -> bool {
    crate::elf::unwind_of(image) matches Outcome::Got(found) && crate::elf::table_refusal(
        found.0,
        found.1,
    ) is None && exists|entries: Seq<u64>| #[trigger]
        crate::elf::lists_entries(entries, found.0, found.1) && (first_outside(entries, segments)
            matches Some(vaddr) && fault::told(
            f,
            Kind::InvalidData,
            "function "@ + text::hex_text(vaddr as nat) + " in "@ + path
                + " is outside every load segment"@,
        ))
}

/// Everything observed in one file, where `image` is what it holds, and why
/// its functions are unavailable, if they are.
pub fn load_module<'group, P>(
    path: &'group str,
    image: &[u8],
    groups: &'group [Group<P>],
) -> (r: Result<(Module<'group>, Option<Fault>), Fault>)
    ensures
        if !crate::elf::readable(image@) {
            r matches Err(f) && fault::refused(f, ElfPart::Object)
        } else {
            match crate::elf::segments_of(image@) {
                Outcome::Got(segments) => match r {
                    Ok(loaded) => {
                        &&& loaded.0.path@ == path@
                        &&& crate::maps::name_view(loaded.0.build_id) == crate::elf::build_id_of(
                            image@,
                        )
                        &&& functions_of(loaded.0.functions@, loaded.1, image@, segments)
                        &&& shows_all(loaded.0.sites@, groups_in(groups@, path@))
                    },
                    Err(f) => function_outside(f, path@, image@, segments),
                },
                outcome => r matches Err(f) && fault::fails(outcome, f),
            }
        },
{
    let object = match Elf::parse(image) {
        Ok(object) => object,
        Err(f) => return Err(f),
    };
    let segments = match object.segments() {
        Ok(segments) => segments,
        Err(f) => return Err(f),
    };
    let (functions, missing) = match object.function_entries() {
        Ok(entries) => {
            assert(crate::elf::lists_entries(
                entries@,
                (crate::elf::unwind_of(image@)->Got_0).0,
                (crate::elf::unwind_of(image@)->Got_0).1,
            ));
            match function_offsets(path, &entries, &segments) {
                Ok(offsets) => (offsets, None),
                Err(f) => return Err(f),
            }
        },
        Err(f) => (Vec::new(), Some(f)),
    };
    let build_id = object.build_id();
    let sites = sites_in(groups, path);
    Ok((Module { path, build_id, functions, sites }, missing))
}

/// The modules of an artifact are the files of the groups, each once.
pub proof fn lemma_files<P>(groups: Seq<Group<P>>)
    ensures
        files(groups).no_duplicates(),
        forall|path: Seq<char>| #[trigger]
            files(groups).contains(path) <==> exists|g: int|
                0 <= g < groups.len() && (#[trigger] groups[g]).probe.path_of() == Some(path),
    decreases groups.len(),
{
    if groups.len() > 0 {
        let rest = groups.drop_last();
        lemma_files(rest);
        let before = files(rest);
        let after = files(groups);
        if after.len() > before.len() {
            assert forall|i: int, j: int|
                0 <= i < after.len() && 0 <= j < after.len() && i != j implies after[i]
                != after[j] by {
                if i < before.len() {
                    assert(before.contains(before[i]));
                }
                if j < before.len() {
                    assert(before.contains(before[j]));
                }
            }
        }
        assert forall|path: Seq<char>| #[trigger]
            after.contains(path) <==> exists|g: int|
                0 <= g < groups.len() && (#[trigger] groups[g]).probe.path_of() == Some(path) by {
            if after.contains(path) {
                if before.contains(path) {
                    let g = choose|g: int|
                        0 <= g < rest.len() && (#[trigger] rest[g]).probe.path_of() == Some(path);
                    assert(groups[g].probe.path_of() == Some(path));
                } else {
                    assert(groups[groups.len() - 1].probe.path_of() == Some(path));
                }
            }
            if exists|g: int|
                0 <= g < groups.len() && (#[trigger] groups[g]).probe.path_of() == Some(path) {
                let g = choose|g: int|
                    0 <= g < groups.len() && (#[trigger] groups[g]).probe.path_of() == Some(path);
                if g < rest.len() {
                    assert(rest[g].probe.path_of() == Some(path));
                    assert(before.contains(path));
                }
                if before.contains(path) {
                    let i = choose|i: int| 0 <= i < before.len() && before[i] == path;
                    assert(after[i] == path);
                } else {
                    assert(after[before.len() as int] == path);
                }
            }
        }
    }
}

/// The sites of a file are those of every group that probes it, in order, and
/// of no other.
pub proof fn lemma_every_group_of_a_file_is_shown<P>(groups: Seq<Group<P>>, path: Seq<char>)
    ensures
        groups_in(groups, path) == groups.filter(
            |group: Group<P>| group.probe.path_of() == Some(path),
        ),
    decreases groups.len(),
{
    reveal(Seq::filter);
    if groups.len() > 0 {
        lemma_every_group_of_a_file_is_shown(groups.drop_last(), path);
    }
}

/// A site tells what its group has seen: where it is, how often it was hit, and
/// every caller with its count.
pub proof fn lemma_site_tells_its_group<P>(site: Site, group: Group<P>, i: int)
    requires
        shows(site, group),
    ensures
        site.label@ == group.label@,
        site.offset == group.probe.offset_of(),
        site.hits == group.hits,
        site.callers@.len() == group.callers@.len(),
        0 <= i < group.callers@.len() ==> site.callers@[i].module@ == group.callers@[i].module@
            && site.callers@[i].vaddr == group.callers@[i].vaddr && site.callers@[i].count
            == group.callers@[i].count,
{
    if 0 <= i < group.callers@.len() {
        assert(tells(site.callers@[i], group.callers@[i]@));
    }
}

/// A function is outside exactly where no loaded segment has it, and the first
/// such function is the one that is told.
pub proof fn lemma_function_outside_every_segment(vaddrs: Seq<u64>, segments: Seq<Segment>, i: int)
    ensures
        (forall|j: int|
            0 <= j < vaddrs.len() ==> crate::elf::offset_of(segments, #[trigger] vaddrs[j])
                is Some) ==> first_outside(vaddrs, segments) is None,
        0 <= i < vaddrs.len() && crate::elf::offset_of(segments, vaddrs[i]) is None && (forall|
            j: int,
        |
            0 <= j < i ==> crate::elf::offset_of(segments, #[trigger] vaddrs[j]) is Some)
            ==> first_outside(vaddrs, segments) == Some(vaddrs[i]),
    decreases vaddrs.len(),
{
    if vaddrs.len() > 0 {
        let rest = vaddrs.skip(1);
        lemma_function_outside_every_segment(rest, segments, i - 1);
        assert(forall|j: int| 0 <= j < rest.len() ==> rest[j] == vaddrs[j + 1]);
        if forall|j: int|
            0 <= j < vaddrs.len() ==> crate::elf::offset_of(segments, #[trigger] vaddrs[j])
                is Some {
            assert(crate::elf::offset_of(segments, vaddrs[0]) is Some);
        }
        if 0 < i < vaddrs.len() && (forall|j: int|
            0 <= j < i ==> crate::elf::offset_of(segments, #[trigger] vaddrs[j]) is Some) {
            assert(crate::elf::offset_of(segments, vaddrs[0]) is Some);
        }
    }
}

/// A module lists the functions of its file, each by its place in the file,
/// or tells why it lists none.
pub proof fn lemma_functions_or_the_reason(
    functions: Seq<u64>,
    missing: Option<Fault>,
    image: Seq<u8>,
    segments: Seq<Segment>,
)
    requires
        functions_of(functions, missing, image, segments),
    ensures
        missing is Some ==> functions.len() == 0,
        missing is None ==> exists|entries: Seq<u64>, table: Seq<u8>, at: u64|
            crate::elf::unwind_of(image) == Outcome::Got((table, at))
                && #[trigger] crate::elf::lists_entries(entries, table, at) && entries.len()
                == functions.len() && forall|i: int|
                0 <= i < entries.len() ==> crate::elf::offset_of(segments, entries[i]) == Some(
                    #[trigger] functions[i],
                ),
        !(crate::elf::unwind_of(image) is Got) ==> missing is Some,
        forall|table: Seq<u8>, at: u64|
            crate::elf::unwind_of(image) == Outcome::Got((table, at)) ==> (
            #[trigger] crate::elf::table_refusal(table, at) is None <==> missing is None),
{
    if missing is None {
        let found = crate::elf::unwind_of(image)->Got_0;
        let entries = choose|entries: Seq<u64>| #[trigger]
            crate::elf::lists_entries(entries, found.0, found.1) && functions.len()
                == entries.len() && forall|i: int|
                0 <= i < entries.len() ==> crate::elf::offset_of(segments, entries[i]) == Some(
                    #[trigger] functions[i],
                );
        assert(crate::elf::lists_entries(entries, found.0, found.1));
    }
}

/// A function outside every segment is told by its address and its file.
pub proof fn lemma_function_outside_is_told(
    f: Fault,
    path: Seq<char>,
    image: Seq<u8>,
    segments: Seq<Segment>,
)
    requires
        function_outside(f, path, image, segments),
    ensures
        exists|vaddr: u64|
            crate::elf::offset_of(segments, vaddr) is None && #[trigger] fault::told(
                f,
                Kind::InvalidData,
                "function "@ + text::hex_text(vaddr as nat) + " in "@ + path
                    + " is outside every load segment"@,
            ),
{
    let found = crate::elf::unwind_of(image)->Got_0;
    let entries = choose|entries: Seq<u64>| #[trigger]
        crate::elf::lists_entries(entries, found.0, found.1) && (first_outside(entries, segments)
            matches Some(vaddr) && fault::told(
            f,
            Kind::InvalidData,
            "function "@ + text::hex_text(vaddr as nat) + " in "@ + path
                + " is outside every load segment"@,
        ));
    lemma_first_is_outside(entries, segments);
}

proof fn lemma_first_is_outside(vaddrs: Seq<u64>, segments: Seq<Segment>)
    ensures
        first_outside(vaddrs, segments) matches Some(vaddr) ==> crate::elf::offset_of(
            segments,
            vaddr,
        ) is None,
    decreases vaddrs.len(),
{
    if vaddrs.len() > 0 {
        lemma_first_is_outside(vaddrs.skip(1), segments);
    }
}

} // verus!
