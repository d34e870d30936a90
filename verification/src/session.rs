//! A running trace: its target, its groups, and what they deliver.

use vstd::prelude::*;
use crate::fault::{self, tell, Fault, Kind};
use crate::groups::{self, ArmResult, Group};
use crate::lists::{self, gather, holds, keep};
use crate::maps::Mapping;
use crate::perf::Records;
use crate::probes::AddressSpace;
use crate::ring::Sample;
use crate::target::TaskGroup;

verus! {

/// Milliseconds between two looks at a followed process.
pub const RESCAN_MS: i32 = 200;

/// The process that is traced.
#[derive(Debug)]
pub struct Target {
    pub pid: i32,
    pub selected: Vec<i32>,
    pub follow: bool,
    pub reported_arm_failure: bool,
    pub spaces: Vec<AddressSpace>,
}

/// A group of tasks and its mappings, if they could be read.
#[derive(Debug)]
pub struct Looked {
    pub group: TaskGroup,
    pub mappings: Option<Vec<Mapping>>,
}

/// Marks the threads that are selected. Where none is named, all are.
pub open spec fn selection(tids: Seq<i32>, selected: Seq<i32>) -> Seq<bool> {
    Seq::new(tids.len(), |i: int| selected.len() == 0 || selected.contains(tids[i]))
}

/// The address space of a group of tasks whose mappings could be read.
pub open spec fn space_of(looked: Looked) -> Option<AddressSpace> {
    match looked.mappings {
        Some(mappings) => Some(
            AddressSpace { pid: looked.group.pid, tids: looked.group.tids, mappings },
        ),
        None => None,
    }
}

impl Target {
    /// A target of which nothing is known yet.
    pub fn new(pid: i32, selected: Vec<i32>, follow: bool) -> (r: Self)
        ensures
            r.pid == pid,
            r.selected == selected,
            r.follow == follow,
            !r.reported_arm_failure,
            r.spaces@.len() == 0,
    {
        Target { pid, selected, follow, reported_arm_failure: false, spaces: Vec::new() }
    }

    /// The selected threads of a group, unless it has none and is not the
    /// target's own.
    pub fn select(&self, group: TaskGroup) -> (r: Option<TaskGroup>)
        ensures
            ({
                let tids = lists::kept(group.tids@, selection(group.tids@, self.selected@));
                if tids.len() == 0 && group.pid != self.pid {
                    r is None
                } else {
                    r matches Some(found) && found.pid == group.pid && found.tids@ == tids
                }
            }),
    {
        let pid: i32 = group.pid;
        let tids = group.tids;
        let mut marks: Vec<bool> = Vec::new();
        while marks.len() < tids.len()
            invariant
                marks@.len() <= tids@.len(),
                marks@ =~= selection(tids@, self.selected@).take(marks@.len() as int),
            decreases tids@.len() - marks@.len(),
        {
            let here = self.selected.len() == 0 || holds(&self.selected, &tids[marks.len()]);
            marks.push(here);
        }
        assert(marks@ =~= selection(tids@, self.selected@));
        let tids = keep(tids, &marks);
        if tids.len() == 0 && pid != self.pid {
            None
        } else {
            Some(TaskGroup { pid, tids })
        }
    }

    /// The address spaces that could be read, unless the target's own could
    /// not.
    pub fn spaces_from(&self, looked: Vec<Looked>) -> (r: Option<Vec<AddressSpace>>)
        ensures
            r is None <==> exists|i: int|
                0 <= i < looked@.len() && (#[trigger] looked@[i]).group.pid == self.pid
                    && looked@[i].mappings is None,
            r matches Some(spaces) ==> spaces@ == lists::present(
                Seq::new(looked@.len(), |i: int| space_of(looked@[i])),
            ),
    {
        let ghost all = looked@;
        let total: usize = looked.len();
        let mut found: Vec<Option<AddressSpace>> = Vec::new();
        let mut must: Vec<bool> = Vec::new();
        for one in it: looked
            invariant
                it.seq() == all,
                all.len() == total,
                found@.len() == it.index(),
                must@.len() == it.index(),
                forall|k: int| 0 <= k < found@.len() ==> #[trigger] found@[k] == space_of(all[k]),
                forall|k: int|
                    0 <= k < must@.len() ==> #[trigger] must@[k] == (all[k].group.pid == self.pid),
        {
            must.push(one.group.pid == self.pid);
            found.push(
                match one.mappings {
                    Some(mappings) => Some(
                        AddressSpace { pid: one.group.pid, tids: one.group.tids, mappings },
                    ),
                    None => None,
                },
            );
        }
        assert(found@ =~= Seq::new(all.len(), |i: int| space_of(all[i])));
        proof {
            if exists|i: int| 0 <= i < found@.len() && #[trigger] must@[i] && found@[i] is None {
                let i = choose|i: int|
                    0 <= i < found@.len() && #[trigger] must@[i] && found@[i] is None;
                assert(all[i].group.pid == self.pid && all[i].mappings is None);
            }
            if exists|i: int|
                0 <= i < all.len() && (#[trigger] all[i]).group.pid == self.pid && all[i].mappings
                    is None {
                let i = choose|i: int|
                    0 <= i < all.len() && (#[trigger] all[i]).group.pid == self.pid
                        && all[i].mappings is None;
                assert(must@[i] && found@[i] is None);
            }
        }
        gather(found, &must)
    }

    /// Whether a sample is of a process that is traced and a thread that is
    /// selected.
    pub open spec fn admits(self, process: u32, thread: u32) -> bool {
        &&& process <= i32::MAX
        &&& thread <= i32::MAX
        &&& exists|i: int| 0 <= i < self.spaces@.len() && (#[trigger] self.spaces@[i]).pid == process
        &&& self.selected@.len() == 0 || self.selected@.contains(thread as i32)
    }

    /// Whether a sample is of a process that is traced and a thread that is
    /// selected.
    pub fn accepts(&self, process: u32, thread: u32) -> (r: bool)
        ensures
            r == self.admits(process, thread),
    {
        if process > 0x7FFF_FFFF || thread > 0x7FFF_FFFF {
            return false;
        }
        let pid: i32 = process as i32;
        let tid: i32 = thread as i32;
        if self.selected.len() > 0 && !holds(&self.selected, &tid) {
            return false;
        }
        let mut i: usize = 0;
        while i < self.spaces.len()
            invariant
                i <= self.spaces@.len(),
                pid == process,
                tid == thread,
                self.selected@.len() == 0 || self.selected@.contains(tid),
                forall|k: int| 0 <= k < i ==> (#[trigger] self.spaces@[k]).pid != pid,
            decreases self.spaces@.len() - i,
        {
            if self.spaces[i].pid == pid {
                return true;
            }
            i += 1;
        }
        false
    }
}

/// What one event has delivered.
#[derive(Debug)]
pub struct Drain {
    pub group: usize,
    pub samples: Vec<Sample>,
    pub lost: u64,
    pub malformed: u64,
}

/// What a look at all events has delivered, and whether it was the last.
#[derive(Debug)]
pub struct Batch {
    pub drains: Vec<Drain>,
    pub finished: bool,
}

pub struct DrainView {
    pub group: int,
    pub samples: Seq<Sample>,
    pub lost: u64,
    pub malformed: u64,
}

impl View for Drain {
    type V = DrainView;

    open spec fn view(&self) -> DrainView {
        DrainView {
            group: self.group as int,
            samples: self.samples@,
            lost: self.lost,
            malformed: self.malformed,
        }
    }
}

/// The views of drains.
pub open spec fn drain_views(drains: Seq<Drain>) -> Seq<DrainView> {
    Seq::new(drains.len(), |i: int| drains[i]@)
}

/// Whether a target admits a sample.
pub open spec fn admitted(target: Option<Target>, sample: Sample) -> bool {
    match target {
        Some(active) => active.admits(sample.pid, sample.tid),
        None => false,
    }
}

/// The samples of an event that count: all of them, or those that the target
/// admits.
pub open spec fn counted(filtered: bool, target: Option<Target>, samples: Seq<Sample>) -> Seq<
    Sample,
> {
    if filtered {
        lists::kept(samples, Seq::new(samples.len(), |i: int| admitted(target, samples[i])))
    } else {
        samples
    }
}

/// What an event has delivered, if anything.
pub open spec fn drained(
    group: int,
    filtered: bool,
    target: Option<Target>,
    records: Records,
) -> Option<DrainView> {
    let samples = counted(filtered, target, records.samples@);
    if records.lost > 0 || records.malformed > 0 || samples.len() > 0 {
        Some(DrainView { group, samples, lost: records.lost, malformed: records.malformed })
    } else {
        None
    }
}

/// Takes what an event has delivered.
pub fn drain_one(group: usize, filtered: bool, target: &Option<Target>, records: Records) -> (r:
    Option<Drain>)
    ensures
        match r {
            Some(drain) => drained(group as int, filtered, *target, records) == Some(drain@),
            None => drained(group as int, filtered, *target, records) is None,
        },
{
    let samples = records.samples;
    let ghost all = samples@;
    let samples = if filtered {
        let mut marks: Vec<bool> = Vec::new();
        while marks.len() < samples.len()
            invariant
                marks@.len() <= samples@.len(),
                forall|i: int|
                    0 <= i < marks@.len() ==> #[trigger] marks@[i] == admitted(
                        *target,
                        samples@[i],
                    ),
            decreases samples@.len() - marks@.len(),
        {
            let sample = &samples[marks.len()];
            let here = match target {
                Some(active) => active.accepts(sample.pid, sample.tid),
                None => false,
            };
            marks.push(here);
        }
        assert(marks@ =~= Seq::new(all.len(), |i: int| admitted(*target, all[i])));
        keep(samples, &marks)
    } else {
        samples
    };
    if records.lost > 0 || records.malformed > 0 || samples.len() > 0 {
        Some(Drain { group, samples, lost: records.lost, malformed: records.malformed })
    } else {
        None
    }
}

/// The poll results that end an event: an error, a hangup, or a descriptor
/// that is not open.
pub const POLL_GONE: i16 = 0x38;

/// Whether an event goes on. One that was not polled does not.
pub open spec fn goes_on(revents: Seq<i16>, at: int) -> bool {
    at < revents.len() && revents[at] & POLL_GONE == 0
}

/// How many events groups have together.
pub open spec fn event_count<P>(groups: Seq<Group<P>>) -> int
    decreases groups.len(),
{
    if groups.len() == 0 {
        0
    } else {
        event_count(groups.drop_last()) + groups.last().probes@.len()
    }
}

/// The group of each event, in order.
pub open spec fn owners<P>(groups: Seq<Group<P>>) -> Seq<int>
    decreases groups.len(),
{
    if groups.len() == 0 {
        Seq::empty()
    } else {
        owners(groups.drop_last()) + Seq::new(
            groups.last().probes@.len(),
            |i: int| groups.len() - 1,
        )
    }
}

/// What the first `n` events have delivered.
pub open spec fn deliveries<P>(
    groups: Seq<Group<P>>,
    target: Option<Target>,
    records: Seq<Records>,
    n: int,
) -> Seq<DrainView>
    decreases n,
{
    if n <= 0 {
        Seq::empty()
    } else {
        let before = deliveries(groups, target, records, n - 1);
        let group = owners(groups)[n - 1];
        match drained(group, groups[group].probe is Hardware, target, records[n - 1]) {
            Some(drain) => before.push(drain),
            None => before,
        }
    }
}

/// Marks the events of a group that go on, where those of the groups before it
/// are polled first.
pub open spec fn surviving<P>(groups: Seq<Group<P>>, revents: Seq<i16>, g: int) -> Seq<bool> {
    Seq::new(
        groups[g].probes@.len(),
        |i: int| goes_on(revents, event_count(groups.take(g)) + i),
    )
}

proof fn lemma_owners<P>(groups: Seq<Group<P>>)
    ensures
        owners(groups).len() == event_count(groups),
        forall|k: int| 0 <= k < owners(groups).len() ==> 0 <= #[trigger] owners(groups)[k] < groups.len(),
    decreases groups.len(),
{
    if groups.len() > 0 {
        lemma_owners(groups.drop_last());
        let before = owners(groups.drop_last());
        assert forall|k: int| 0 <= k < owners(groups).len() implies 0 <= #[trigger] owners(
            groups,
        )[k] < groups.len() by {
            if k < before.len() {
                assert(owners(groups)[k] == before[k]);
            }
        }
    }
}

proof fn lemma_event_count_grows<P>(groups: Seq<Group<P>>, g: int)
    requires
        0 <= g <= groups.len(),
    ensures
        0 <= event_count(groups.take(g)) <= event_count(groups),
        g < groups.len() ==> event_count(groups.take(g)) + groups[g].probes@.len() <= event_count(
            groups,
        ),
    decreases groups.len() - g,
{
    lemma_owners(groups.take(g));
    if g == groups.len() {
        assert(groups.take(g) =~= groups);
    } else {
        lemma_event_count_grows(groups, g + 1);
        assert(groups.take(g + 1).drop_last() =~= groups.take(g));
    }
}

/// A running trace.
#[derive(Debug)]
pub struct Session<P> {
    pub groups: Vec<Group<P>>,
    pub pages: usize,
    pub target: Option<Target>,
}

impl<P> Session<P> {
    /// Whether every group is in order.
    pub open spec fn wf(self) -> bool {
        forall|g: int| 0 <= g < self.groups@.len() ==> (#[trigger] self.groups@[g]).wf()
    }

    /// Whether the target's forks are followed.
    pub open spec fn follows(self) -> bool {
        match self.target {
            Some(target) => target.follow,
            None => false,
        }
    }

    /// Whether no event is left.
    pub open spec fn is_bare(self) -> bool {
        forall|g: int| 0 <= g < self.groups@.len() ==> (#[trigger] self.groups@[g]).probes@.len() == 0
    }

    pub fn new(groups: Vec<Group<P>>, pages: usize, target: Option<Target>) -> (r: Self)
        ensures
            r.groups == groups,
            r.pages == pages,
            r.target == target,
    {
        Session { groups, pages, target }
    }

    fn owner_list(&self) -> (r: Vec<usize>)
        ensures
            r@.len() == owners(self.groups@).len(),
            forall|k: int|
                0 <= k < r@.len() ==> #[trigger] r@[k] == owners(self.groups@)[k] && r@[k]
                    < self.groups@.len(),
    {
        let mut out: Vec<usize> = Vec::new();
        let mut g: usize = 0;
        while g < self.groups.len()
            invariant
                g <= self.groups@.len(),
                out@.len() == owners(self.groups@.take(g as int)).len(),
                forall|k: int|
                    0 <= k < out@.len() ==> #[trigger] out@[k] == owners(
                        self.groups@.take(g as int),
                    )[k] && out@[k] < self.groups@.len(),
            decreases self.groups@.len() - g,
        {
            let ghost upto = self.groups@.take(g + 1);
            assert(upto.drop_last() =~= self.groups@.take(g as int));
            let ghost before = owners(self.groups@.take(g as int));
            let ghost after = owners(upto);
            let count: usize = self.groups[g].probes.len();
            assert(after == before + Seq::new(count as nat, |i: int| g as int));
            let mut i: usize = 0;
            while i < count
                invariant
                    i <= count,
                    g < self.groups@.len(),
                    after == before + Seq::new(count as nat, |i: int| g as int),
                    out@.len() == before.len() + i,
                    forall|k: int|
                        0 <= k < out@.len() ==> #[trigger] out@[k] == after[k] && out@[k]
                            < self.groups@.len(),
                decreases count - i,
            {
                out.push(g);
                i += 1;
            }
            g += 1;
        }
        assert(self.groups@.take(g as int) =~= self.groups@);
        out
    }

    /// Takes what the events have delivered, in the order of the groups and of
    /// their events, and drops the events that are over. `revents` are what a
    /// poll said of the events in that order.
    pub fn drain_and_prune(&mut self, revents: &[i16], records: Vec<Records>) -> (r: (
        Vec<Drain>,
        bool,
    ))
        requires
            old(self).wf(),
            records@.len() == event_count(old(self).groups@),
        ensures
            final(self).wf(),
            final(self).pages == old(self).pages,
            final(self).target == old(self).target,
            final(self).groups@.len() == old(self).groups@.len(),
            forall|g: int|
                0 <= g < old(self).groups@.len() ==> (#[trigger] final(self).groups@[g]).same_but_probes(old(self).groups@[g]) && final(self).groups@[g].probes@ == lists::kept(
                    old(self).groups@[g].probes@,
                    surviving(old(self).groups@, revents@, g),
                ),
            drain_views(r.0@) == deliveries(
                old(self).groups@,
                old(self).target,
                records@,
                records@.len() as int,
            ),
            r.1 == exists|g: int|
                0 <= g < old(self).groups@.len() && (#[trigger] final(self).groups@[g]).probes@.len() != old(self).groups@[g].probes@.len(),
    {
        let ghost before = self.groups@;
        let ghost all = records@;
        let total: usize = records.len();
        let owner = self.owner_list();
        proof {
            lemma_owners(before);
        }
        let mut drains: Vec<Drain> = Vec::new();
        let mut n: usize = 0;
        assert(drain_views(drains@) =~= Seq::empty());
        for record in it: records
            invariant
                it.seq() == all,
                all.len() == total,
                n == it.index(),
                before == self.groups@,
                *self == *old(self),
                owner@.len() == total,
                owners(before).len() == total,
                forall|k: int|
                    0 <= k < owner@.len() ==> #[trigger] owner@[k] == owners(before)[k] && owner@[k]
                        < before.len(),
                drain_views(drains@) == deliveries(before, self.target, all, n as int),
        {
            let group: usize = owner[n];
            let filtered = self.groups[group].probe.needs_target_filter();
            let ghost earlier = drains@;
            assert(all[n as int] == record);
            if let Some(drain) = drain_one(group, filtered, &self.target, record) {
                let ghost seen = drain@;
                drains.push(drain);
                assert(drain_views(drains@) =~= drain_views(earlier).push(seen));
            }
            n += 1;
        }
        let mut removed = false;
        let mut at: usize = 0;
        let mut g: usize = 0;
        while g < self.groups.len()
            invariant
                g <= self.groups@.len(),
                before == old(self).groups@,
                self.groups@.len() == before.len(),
                self.pages == old(self).pages,
                self.target == old(self).target,
                self.wf(),
                total == event_count(before),
                at == event_count(before.take(g as int)),
                forall|k: int| g <= k < before.len() ==> #[trigger] self.groups@[k] == before[k],
                forall|k: int|
                    0 <= k < g ==> (#[trigger] self.groups@[k]).same_but_probes(before[k])
                        && self.groups@[k].probes@ == lists::kept(
                        before[k].probes@,
                        surviving(before, revents@, k),
                    ),
                removed == exists|k: int|
                    0 <= k < g && (#[trigger] self.groups@[k]).probes@.len()
                        != before[k].probes@.len(),
            decreases before.len() - g,
        {
            proof {
                lemma_event_count_grows(before, g as int);
                assert(before.take(g + 1).drop_last() =~= before.take(g as int));
            }
            let ghost earlier = self.groups@;
            assert(earlier[g as int] == before[g as int]);
            let count: usize = self.groups[g].probes.len();
            let mut marks: Vec<bool> = Vec::new();
            while marks.len() < count
                invariant
                    marks@.len() <= count,
                    g < before.len(),
                    count == before[g as int].probes@.len(),
                    at == event_count(before.take(g as int)),
                    at + count <= total,
                    marks@ =~= surviving(before, revents@, g as int).take(marks@.len() as int),
                decreases count - marks@.len(),
            {
                let k: usize = at + marks.len();
                let here = k < revents.len() && revents[k] & POLL_GONE == 0;
                marks.push(here);
            }
            assert(marks@ =~= surviving(before, revents@, g as int));
            let group = &mut self.groups[g];
            group.keep_marked(&marks);
            assert(forall|k: int|
                0 <= k < before.len() && k != g ==> #[trigger] self.groups@[k] == earlier[k]);
            let left: usize = self.groups[g].probes.len();
            let ghost had = removed;
            if left != count {
                removed = true;
            }
            proof {
                if had {
                    let k = choose|k: int|
                        0 <= k < g && (#[trigger] earlier[k]).probes@.len()
                            != before[k].probes@.len();
                    assert(self.groups@[k] == earlier[k]);
                }
                if left != count {
                    assert(self.groups@[g as int].probes@.len() != before[g as int].probes@.len());
                }
            }
            at = at + count;
            g += 1;
        }
        (drains, removed)
    }
}

/// What to look at once the events are drained.
#[derive(Debug, Clone, Copy, PartialEq, Eq, Structural)]
pub enum Look {
    /// The tasks of a followed process.
    Rescan,
    /// Whether the process is still there.
    Exited,
    Nothing,
}

/// Whether the tasks of a followed process can be looked at. It is asked
/// before and after they are, since what was found of a process that has
/// exited means nothing.
pub fn check_running(exited: bool) -> (r: Result<(), Fault>)
    ensures
        if exited {
            r matches Err(f) && fault::told(f, Kind::NotFound, "the followed process exited"@)
        } else {
            r is Ok
        },
{
    if exited {
        Err(tell(Kind::NotFound, "the followed process exited"))
    } else {
        Ok(())
    }
}

/// What a rescan comes to: whether the events changed and whether the target
/// is gone.
pub fn rescanned(result: Result<bool, Fault>) -> (r: Result<(bool, bool), Fault>)
    ensures
        match result {
            Ok(changed) => r == Ok::<(bool, bool), Fault>((changed, false)),
            Err(f) => if fault::kind_of(f) == Kind::NotFound {
                r == Ok::<(bool, bool), Fault>((false, true))
            } else {
                r == Err::<(bool, bool), Fault>(f)
            },
        },
{
    match result {
        Ok(changed) => Ok((changed, false)),
        Err(f) => if f.kind() == Kind::NotFound {
            Ok((false, true))
        } else {
            Err(f)
        },
    }
}

impl<P> Session<P> {
    /// How long to wait for an event, in milliseconds, or minus one for as
    /// long as it takes.
    pub fn timeout(&self) -> (r: i32)
        ensures
            r == if self.follows() {
                RESCAN_MS as int
            } else {
                -1
            },
    {
        if self.following() {
            RESCAN_MS
        } else {
            -1
        }
    }

    fn following(&self) -> (r: bool)
        ensures
            r == self.follows(),
    {
        match &self.target {
            Some(target) => target.follow,
            None => false,
        }
    }

    /// What to look at once the events are drained.
    pub fn look(&self) -> (r: Look)
        ensures
            r == match self.target {
                Some(target) => if target.follow {
                    Look::Rescan
                } else {
                    Look::Exited
                },
                None => Look::Nothing,
            },
    {
        match &self.target {
            Some(target) => if target.follow {
                Look::Rescan
            } else {
                Look::Exited
            },
            None => Look::Nothing,
        }
    }

    /// Whether no event is left.
    pub fn no_probes(&self) -> (r: bool)
        ensures
            r == self.is_bare(),
    {
        let mut g: usize = 0;
        while g < self.groups.len()
            invariant
                g <= self.groups@.len(),
                forall|k: int| 0 <= k < g ==> (#[trigger] self.groups@[k]).probes@.len() == 0,
            decreases self.groups@.len() - g,
        {
            if self.groups[g].probes.len() > 0 {
                assert(self.groups@[g as int].probes@.len() != 0);
                return false;
            }
            g += 1;
        }
        true
    }

    /// What a wait delivers. It is the last once no event is left and none can
    /// come.
    pub fn wait(&self, drains: Vec<Drain>, target_gone: bool) -> (r: Batch)
        ensures
            r.drains == drains,
            r.finished == (self.is_bare() && (target_gone || !self.follows())),
    {
        let finished = self.no_probes() && (target_gone || !self.following());
        Batch { drains, finished }
    }

    /// Takes what the events have delivered, and closes them all.
    pub fn finish(&mut self, revents: &[i16], records: Vec<Records>) -> (r: Batch)
        requires
            old(self).wf(),
            records@.len() == event_count(old(self).groups@),
        ensures
            final(self).wf(),
            final(self).is_bare(),
            final(self).pages == old(self).pages,
            final(self).target == old(self).target,
            final(self).groups@.len() == old(self).groups@.len(),
            forall|g: int|
                0 <= g < old(self).groups@.len() ==> (#[trigger] final(self).groups@[g]).same_but_probes(old(self).groups@[g]),
            r.finished,
            drain_views(r.drains@) == deliveries(
                old(self).groups@,
                old(self).target,
                records@,
                records@.len() as int,
            ),
    {
        let (drains, _) = self.drain_and_prune(revents, records);
        let ghost before = self.groups@;
        let mut g: usize = 0;
        while g < self.groups.len()
            invariant
                g <= self.groups@.len(),
                self.groups@.len() == before.len(),
                before.len() == old(self).groups@.len(),
                self.pages == old(self).pages,
                self.target == old(self).target,
                forall|k: int|
                    0 <= k < before.len() ==> (#[trigger] before[k]).same_but_probes(
                        old(self).groups@[k],
                    ),
                forall|k: int| 0 <= k < before.len() ==> (#[trigger] self.groups@[k]).wf(),
                forall|k: int|
                    0 <= k < before.len() ==> (#[trigger] self.groups@[k]).same_but_probes(
                        before[k],
                    ),
                forall|k: int| 0 <= k < g ==> (#[trigger] self.groups@[k]).probes@.len() == 0,
            decreases self.groups@.len() - g,
        {
            let group = &mut self.groups[g];
            group.probes.clear();
            g += 1;
        }
        Batch { drains, finished: true }
    }

    #[must_use]
    pub fn label(&self, group: usize) -> (r: &str)
        requires
            group < self.groups@.len(),
        ensures
            r@ == self.groups@[group as int].label@,
    {
        self.groups[group].label()
    }

    /// Counts a hit of a group.
    pub fn record(
        &mut self,
        group_index: usize,
        pid: u32,
        tid: u32,
        caller: Option<(&str, u64)>,
        comm: Option<&str>,
    )
        requires
            old(self).wf(),
            group_index < old(self).groups@.len(),
            old(self).groups@[group_index as int].hits < u64::MAX,
        ensures
            final(self).wf(),
            final(self).pages == old(self).pages,
            final(self).target == old(self).target,
            final(self).groups@.len() == old(self).groups@.len(),
            forall|g: int|
                0 <= g < old(self).groups@.len() && g != group_index ==> #[trigger] final(self).groups@[g] == old(self).groups@[g],
            ({
                let before = old(self).groups@[group_index as int];
                let after = final(self).groups@[group_index as int];
                &&& after.hits == before.hits + 1
                &&& groups::thread_views(after.threads@) == groups::hit(
                    groups::thread_views(before.threads@),
                    pid,
                    tid,
                    groups::shown_name(comm),
                )
                &&& groups::edge_views(after.callers@) == match caller {
                    Some(site) => groups::noted(groups::edge_views(before.callers@), site.0@, site.1),
                    None => groups::edge_views(before.callers@),
                }
                &&& after.label == before.label
                &&& after.probe == before.probe
                &&& after.stack == before.stack
                &&& after.probes == before.probes
            }),
    {
        let ghost earlier = self.groups@;
        let group = &mut self.groups[group_index];
        group.record(pid, tid, caller, comm);
        assert(forall|g: int|
            0 <= g < earlier.len() && g != group_index ==> #[trigger] self.groups@[g] == earlier[g]);
    }

    #[must_use]
    pub fn groups(&self) -> (r: &[Group<P>])
        ensures
            r@ == self.groups@,
    {
        self.groups.as_slice()
    }

    /// The mappings of every traced process.
    pub fn mappings(&self) -> (r: Vec<(i32, &[Mapping])>)
        ensures
            match self.target {
                Some(target) => {
                    &&& r@.len() == target.spaces@.len()
                    &&& forall|i: int|
                        0 <= i < r@.len() ==> (#[trigger] r@[i]).0 == target.spaces@[i].pid
                            && r@[i].1@ == target.spaces@[i].mappings@
                },
                None => r@.len() == 0,
            },
    {
        let mut out: Vec<(i32, &[Mapping])> = Vec::new();
        if let Some(target) = &self.target {
            while out.len() < target.spaces.len()
                invariant
                    out@.len() <= target.spaces@.len(),
                    forall|i: int|
                        0 <= i < out@.len() ==> (#[trigger] out@[i]).0 == target.spaces@[i].pid
                            && out@[i].1@ == target.spaces@[i].mappings@,
                decreases target.spaces@.len() - out@.len(),
            {
                let space = &target.spaces[out.len()];
                out.push((space.pid, space.mappings.as_slice()));
            }
        }
        out
    }
}

/// How arming all groups anew went.
#[derive(Debug)]
pub struct Tally {
    pub added: usize,
    pub changed: bool,
    pub failure: Option<Fault>,
}

impl Tally {
    pub fn new() -> (r: Self)
        ensures
            r.added == 0,
            !r.changed,
            r.failure is None,
    {
        Tally { added: 0, changed: false, failure: None }
    }

    /// Takes in how arming one group went.
    pub fn absorb(&mut self, result: ArmResult)
        requires
            old(self).added + result.added <= usize::MAX,
        ensures
            final(self).added == old(self).added + result.added,
            final(self).changed == (old(self).changed || result.added > 0 || result.removed),
            final(self).failure == match old(self).failure {
                Some(f) => Some(f),
                None => result.failure,
            },
    {
        self.added = self.added + result.added;
        if result.added > 0 || result.removed {
            self.changed = true;
        }
        if self.failure.is_none() {
            self.failure = result.failure;
        }
    }
}

impl Target {
    /// Takes in the address spaces of a rescan, and says whether a failure to
    /// arm is to be reported, which it is only once.
    pub fn rescan(&mut self, spaces: Vec<AddressSpace>, failed: bool) -> (r: bool)
        ensures
            r == (failed && !old(self).reported_arm_failure),
            final(self).reported_arm_failure == (old(self).reported_arm_failure || failed),
            final(self).spaces == spaces,
            final(self).pid == old(self).pid,
            final(self).selected == old(self).selected,
            final(self).follow == old(self).follow,
    {
        let report = failed && !self.reported_arm_failure;
        if failed {
            self.reported_arm_failure = true;
        }
        self.spaces = spaces;
        report
    }
}

/// Every sample that is delivered of a group that sees other processes too is
/// one that the target admits, and every drain is of a group there is.
pub proof fn lemma_deliveries_are_admitted<P>(
    groups: Seq<Group<P>>,
    target: Option<Target>,
    records: Seq<Records>,
    n: int,
    k: int,
    i: int,
)
    requires
        0 <= n <= records.len(),
        records.len() == event_count(groups),
        0 <= k < deliveries(groups, target, records, n).len(),
        0 <= i < deliveries(groups, target, records, n)[k].samples.len(),
    ensures
        0 <= deliveries(groups, target, records, n)[k].group < groups.len(),
        groups[deliveries(groups, target, records, n)[k].group].probe is Hardware ==> admitted(
            target,
            deliveries(groups, target, records, n)[k].samples[i],
        ),
    decreases n,
{
    let before = deliveries(groups, target, records, n - 1);
    if k < before.len() {
        lemma_deliveries_are_admitted(groups, target, records, n - 1, k, i);
    } else {
        lemma_owners(groups);
        let g = owners(groups)[n - 1];
        let samples = records[n - 1].samples@;
        if groups[g].probe is Hardware {
            let marks = Seq::new(samples.len(), |j: int| admitted(target, samples[j]));
            lists::lemma_kept(samples, marks);
            let kept = lists::kept(samples, marks);
            assert(kept.contains(kept[i]));
            let j = choose|j: int| 0 <= j < samples.len() && marks[j] && samples[j] == kept[i];
            assert(admitted(target, samples[j]));
        }
    }
}

/// What an event of a group that sees only its own tasks has delivered is
/// passed on as it is.
pub proof fn lemma_deliveries_are_complete<P>(
    groups: Seq<Group<P>>,
    target: Option<Target>,
    records: Seq<Records>,
    n: int,
    k: int,
)
    requires
        0 <= k < n <= records.len(),
        records.len() == event_count(groups),
        !(groups[owners(groups)[k]].probe is Hardware),
        records[k].lost > 0 || records[k].malformed > 0 || records[k].samples@.len() > 0,
    ensures
        deliveries(groups, target, records, n).contains(
            DrainView {
                group: owners(groups)[k],
                samples: records[k].samples@,
                lost: records[k].lost,
                malformed: records[k].malformed,
            },
        ),
    decreases n,
{
    let drain = DrainView {
        group: owners(groups)[k],
        samples: records[k].samples@,
        lost: records[k].lost,
        malformed: records[k].malformed,
    };
    let before = deliveries(groups, target, records, n - 1);
    let after = deliveries(groups, target, records, n);
    if k < n - 1 {
        lemma_deliveries_are_complete(groups, target, records, n - 1, k);
        let i = choose|i: int| 0 <= i < before.len() && before[i] == drain;
        assert(after[i] == drain);
    } else {
        assert(after[before.len() as int] == drain);
    }
}

/// A sample is admitted exactly where it comes from a process whose address
/// space is traced and from a thread that is selected, or from any thread where
/// none is.
pub proof fn lemma_traced_threads_are_admitted(target: Target, process: u32, thread: u32)
    requires
        process <= i32::MAX,
        thread <= i32::MAX,
    ensures
        target.admits(process, thread) <==> (exists|i: int|
            0 <= i < target.spaces@.len() && (#[trigger] target.spaces@[i]).pid == process) && (
        target.selected@.len() == 0 || target.selected@.contains(thread as i32)),
{
}

/// Threads are left out of a trace exactly where others were selected.
pub proof fn lemma_selected_threads_are_traced(tids: Seq<i32>, selected: Seq<i32>, tid: i32)
    ensures
        lists::kept(tids, selection(tids, selected)).contains(tid) <==> tids.contains(tid) && (
        selected.len() == 0 || selected.contains(tid)),
        selected.len() == 0 ==> lists::kept(tids, selection(tids, selected)) == tids,
{
    let marks = selection(tids, selected);
    lists::lemma_kept(tids, marks);
    if tids.contains(tid) && (selected.len() == 0 || selected.contains(tid)) {
        let i = choose|i: int| 0 <= i < tids.len() && tids[i] == tid;
        assert(marks[i]);
    }
    if selected.len() == 0 {
        lemma_all_kept(tids, marks);
    }
}

proof fn lemma_all_kept<T>(s: Seq<T>, marks: Seq<bool>)
    requires
        s.len() == marks.len(),
        forall|i: int| 0 <= i < marks.len() ==> #[trigger] marks[i],
    ensures
        lists::kept(s, marks) == s,
    decreases s.len(),
{
    if s.len() > 0 {
        let rest = marks.drop_last();
        assert forall|i: int| 0 <= i < rest.len() implies #[trigger] rest[i] by {
            assert(marks[i]);
        }
        lemma_all_kept(s.drop_last(), rest);
        assert(marks[marks.len() - 1]);
        assert(s.drop_last().push(s.last()) =~= s);
    } else {
        assert(lists::kept(s, marks) =~= s);
    }
}

/// What an event brings is delivered whole, with what it lost, where it belongs
/// to a task or to the whole system. Of a hardware trap, which every process
/// can hit, exactly the samples of the target are. Nothing is delivered only
/// where there is nothing to tell.
pub proof fn lemma_drain_keeps_what_counts(
    group: int,
    target: Option<Target>,
    records: Records,
    sample: Sample,
)
    ensures
        drained(group, false, target, records) matches Some(drain) ==> drain == (DrainView {
            group,
            samples: records.samples@,
            lost: records.lost,
            malformed: records.malformed,
        }),
        drained(group, false, target, records) is None <==> records.samples@.len() == 0
            && records.lost == 0 && records.malformed == 0,
        drained(group, true, target, records) matches Some(drain) ==> drain.group == group
            && drain.lost == records.lost && drain.malformed == records.malformed && (
        drain.samples.contains(sample) <==> records.samples@.contains(sample) && (target matches Some(
            active,
        ) && active.admits(sample.pid, sample.tid))),
        drained(group, true, target, records) is None ==> records.lost == 0 && records.malformed
            == 0 && !(records.samples@.contains(sample) && (target matches Some(active)
            && active.admits(sample.pid, sample.tid))),
{
    let samples = records.samples@;
    let marks = Seq::new(samples.len(), |i: int| admitted(target, samples[i]));
    lists::lemma_kept(samples, marks);
    if samples.contains(sample) {
        let i = choose|i: int| 0 <= i < samples.len() && samples[i] == sample;
        assert(marks[i] == admitted(target, sample));
        if admitted(target, sample) {
            assert(lists::kept(samples, marks).contains(sample));
        }
    }
}

/// Every sample that a hardware trap takes of the target is delivered for the
/// group of the trap.
pub proof fn lemma_trapped_samples_are_delivered<P>(
    groups: Seq<Group<P>>,
    target: Target,
    records: Seq<Records>,
    n: int,
    k: int,
    sample: Sample,
)
    requires
        0 <= k < n <= records.len(),
        records.len() == event_count(groups),
        records[k].samples@.contains(sample),
        groups[owners(groups)[k]].probe is Hardware ==> target.admits(sample.pid, sample.tid),
    ensures
        exists|d: int|
            0 <= d < deliveries(groups, Some(target), records, n).len() && (#[trigger] deliveries(
                groups,
                Some(target),
                records,
                n,
            )[d]).group == owners(groups)[k] && deliveries(
                groups,
                Some(target),
                records,
                n,
            )[d].samples.contains(sample),
    decreases n,
{
    let group = owners(groups)[n - 1];
    let filtered = groups[group].probe is Hardware;
    let before = deliveries(groups, Some(target), records, n - 1);
    let all = deliveries(groups, Some(target), records, n);
    if k < n - 1 {
        lemma_trapped_samples_are_delivered(groups, target, records, n - 1, k, sample);
        let d = choose|d: int|
            0 <= d < before.len() && (#[trigger] before[d]).group == owners(groups)[k]
                && before[d].samples.contains(sample);
        assert(all[d] == before[d]);
    } else {
        lemma_drain_keeps_what_counts(group, Some(target), records[k], sample);
        let drain = drained(group, filtered, Some(target), records[k])->0;
        assert(all.last() == drain);
    }
}

/// Events belong to their groups in order, as many to each as it has open.
pub proof fn lemma_events_belong_to_their_groups<P>(groups: Seq<Group<P>>, g: int)
    requires
        0 <= g < groups.len(),
    ensures
        owners(groups).len() == event_count(groups),
        owners(groups).filter(|owner: int| owner == g).len() == groups[g].probes@.len(),
        forall|i: int, j: int|
            0 <= i < j < owners(groups).len() ==> #[trigger] owners(groups)[i]
                <= #[trigger] owners(groups)[j] < groups.len(),
    decreases groups.len(),
{
    let rest = groups.drop_last();
    let tail = Seq::new(groups.last().probes@.len(), |i: int| groups.len() - 1);
    let is_owner = |owner: int| owner == g;
    lemma_owner_bounds(rest);
    lemma_owner_bounds(groups);
    Seq::filter_distributes_over_add(owners(rest), tail, is_owner);
    if g < rest.len() {
        lemma_events_belong_to_their_groups(rest, g);
        lemma_filter_none(tail, is_owner);
    } else {
        lemma_filter_all(tail, is_owner);
        lemma_filter_none(owners(rest), is_owner);
    }
    assert(owners(groups) == owners(rest) + tail);
    if rest.len() > 0 {
        lemma_events_belong_to_their_groups(rest, 0);
    } else {
        assert(owners(rest).len() == 0);
    }
    assert forall|i: int, j: int| 0 <= i < j < owners(groups).len() implies #[trigger] owners(
        groups,
    )[i] <= #[trigger] owners(groups)[j] < groups.len() by {
        if j < owners(rest).len() {
            assert(owners(groups)[i] == owners(rest)[i]);
            assert(owners(groups)[j] == owners(rest)[j]);
        } else {
            assert(owners(groups)[j] == groups.len() - 1);
            assert(0 <= owners(groups)[i] < groups.len());
        }
    }
}

proof fn lemma_owner_bounds<P>(groups: Seq<Group<P>>)
    ensures
        owners(groups).len() == event_count(groups),
        forall|i: int|
            0 <= i < owners(groups).len() ==> 0 <= #[trigger] owners(groups)[i] < groups.len(),
    decreases groups.len(),
{
    if groups.len() > 0 {
        lemma_owner_bounds(groups.drop_last());
    }
}

proof fn lemma_filter_none(s: Seq<int>, keep: spec_fn(int) -> bool)
    requires
        forall|i: int| 0 <= i < s.len() ==> !keep(#[trigger] s[i]),
    ensures
        s.filter(keep).len() == 0,
    decreases s.len(),
{
    reveal(Seq::filter);
    if s.len() > 0 {
        assert(!keep(s[s.len() - 1]));
        let rest = s.drop_last();
        assert forall|i: int| 0 <= i < rest.len() implies !keep(#[trigger] rest[i]) by {
            assert(rest[i] == s[i]);
        }
        lemma_filter_none(rest, keep);
    }
}

proof fn lemma_filter_all(s: Seq<int>, keep: spec_fn(int) -> bool)
    requires
        forall|i: int| 0 <= i < s.len() ==> keep(#[trigger] s[i]),
    ensures
        s.filter(keep).len() == s.len(),
    decreases s.len(),
{
    reveal(Seq::filter);
    if s.len() > 0 {
        assert(keep(s[s.len() - 1]));
        let rest = s.drop_last();
        assert forall|i: int| 0 <= i < rest.len() implies keep(#[trigger] rest[i]) by {
            assert(rest[i] == s[i]);
        }
        lemma_filter_all(rest, keep);
    }
}

/// An event is closed exactly where the poll says that it hung up, failed or is
/// not valid.
pub proof fn lemma_event_survives<P>(groups: Seq<Group<P>>, revents: Seq<i16>, g: int, i: int)
    requires
        0 <= g < groups.len(),
        0 <= i < groups[g].probes@.len(),
        event_count(groups.take(g)) + i < revents.len(),
    ensures
        surviving(groups, revents, g)[i] <==> revents[event_count(groups.take(g)) + i] & 0x38i16
            == 0,
{
}

/// An event that was not polled is dropped.
pub proof fn lemma_unpolled_event_is_dropped<P>(
    groups: Seq<Group<P>>,
    revents: Seq<i16>,
    g: int,
    i: int,
)
    requires
        0 <= g < groups.len(),
        0 <= i < groups[g].probes@.len(),
        revents.len() <= event_count(groups.take(g)) + i,
    ensures
        !surviving(groups, revents, g)[i],
{
}

/// A process whose mappings could be read, be they none, is a space to probe
/// with all its threads. Another is none.
pub proof fn lemma_which_processes_are_spaces(looked: Looked)
    ensures
        looked.mappings is None <==> space_of(looked) is None,
        looked.mappings matches Some(mappings) ==> (space_of(looked) matches Some(space)
            && space.pid == looked.group.pid && space.tids == looked.group.tids && space.mappings
            == mappings),
{
}

} // verus!
