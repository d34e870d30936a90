//! Tracks spawned root shells so a revoked tier can be enforced on sessions
//! that are already running.

use vstd::prelude::*;
use crate::fault::{self, tell, Fault, Kind};
use crate::grant::{self, interpret, Decision, Source, Tier};
use crate::lists::{self, holds, insert, keep, Ordered};

verus! {

/// A running shell: who asked for it, what it was granted, the process that
/// leads it, and what keeps that process number from being used again.
pub struct Entry<C> {
    pub uid: u32,
    pub tier: Tier,
    pub pid: i32,
    pub child: C,
}

pub struct Registry<C> {
    pub entries: Vec<Entry<C>>,
}

/// The caller and the tier of an entry.
pub open spec fn holder<C>(entry: Entry<C>) -> (u32, Tier) {
    (entry.uid, entry.tier)
}

/// Holders sort by caller, then by tier.
impl Ordered for (u32, Tier) {
    open spec fn before(self, other: Self) -> bool {
        self.0 < other.0 || (self.0 == other.0 && self.1.rank() < other.1.rank())
    }

    fn is_before(&self, other: &Self) -> (r: bool) {
        self.0 < other.0 || (self.0 == other.0 && self.1.below(other.1))
    }

    proof fn lemma_order(a: Self, b: Self, c: Self) {
    }
}

/// Whether an answer takes away what was granted. A drop to a lower tier
/// revokes too, since a Standard shell must not keep running with the
/// descriptors an Unrestricted grant handed it.
pub open spec fn revokes(answer: Option<i32>, granted: Tier) -> bool {
    match grant::meaning(answer) {
        Decision::Allow(current) => current.rank() < granted.rank(),
        _ => true,
    }
}

/// Whether an answer takes away what was granted.
pub fn revoked_by(answer: Option<i32>, granted: Tier) -> (r: bool)
    ensures
        r == revokes(answer, granted),
{
    match interpret(answer) {
        Decision::Allow(current) => current.below(granted),
        _ => true,
    }
}

/// Asks `source` whether a caller still holds what it was granted.
pub fn revoked<S>(source: &S, uid: u32, granted: Tier) -> (r: bool) where S: Source
    ensures
        exists|answer: Option<i32>| #[trigger]
            call_ensures(S::tier, (source, uid), answer) && r == revokes(answer, granted),
{
    let answer = source.tier(uid);
    revoked_by(answer, granted)
}

/// The holders whose answers take away what they were granted, in order.
pub open spec fn losers(holders: Seq<(u32, Tier)>, answers: Seq<Option<i32>>) -> Seq<(u32, Tier)> {
    lists::kept(holders, Seq::new(holders.len(), |i: int| revokes(answers[i], holders[i].1)))
}

/// Picks the holders whose answers take away what they were granted.
pub fn doomed_by(holders: Vec<(u32, Tier)>, answers: &[Option<i32>]) -> (r: Vec<(u32, Tier)>)
    requires
        holders@.len() == answers@.len(),
    ensures
        r@ == losers(holders@, answers@),
{
    let mut marks: Vec<bool> = Vec::new();
    while marks.len() < holders.len()
        invariant
            marks@.len() <= holders@.len(),
            holders@.len() == answers@.len(),
            marks@ =~= Seq::new(
                marks@.len(),
                |i: int| revokes(answers@[i], holders@[i].1),
            ),
        decreases holders@.len() - marks@.len(),
    {
        let i: usize = marks.len();
        marks.push(revoked_by(answers[i], holders[i].1));
    }
    assert(marks@ =~= Seq::new(holders@.len(), |i: int| revokes(answers@[i], holders@[i].1)));
    keep(holders, &marks)
}

/// Asks `source` about every holder and picks those that lost their grant.
pub fn doomed<S>(source: &S, holders: Vec<(u32, Tier)>) -> (r: Vec<(u32, Tier)>) where S: Source
    ensures
        exists|answers: Seq<Option<i32>>|
            {
                &&& answers.len() == holders@.len()
                &&& forall|i: int|
                    0 <= i < answers.len() ==> call_ensures(
                        S::tier,
                        (source, holders@[i].0),
                        #[trigger] answers[i],
                    )
                &&& r@ == #[trigger] losers(holders@, answers)
            },
{
    let mut answers: Vec<Option<i32>> = Vec::new();
    while answers.len() < holders.len()
        invariant
            answers@.len() <= holders@.len(),
            forall|i: int|
                0 <= i < answers@.len() ==> call_ensures(
                    S::tier,
                    (source, holders@[i].0),
                    #[trigger] answers@[i],
                ),
        decreases holders@.len() - answers@.len(),
    {
        let answer = source.tier(holders[answers.len()].0);
        answers.push(answer);
    }
    doomed_by(holders, &answers)
}

/// Marks the entries that belong to one of `doomed`.
pub open spec fn condemned_marks<C>(
    entries: Seq<Entry<C>>,
    doomed: Seq<(u32, Tier)>,
) -> Seq<bool> {
    Seq::new(entries.len(), |i: int| doomed.contains(holder(entries[i])))
}

/// Marks the entries that stay once the condemned ones were signalled: those
/// that are not condemned, and those that the signal did not reach.
pub open spec fn staying<C>(
    entries: Seq<Entry<C>>,
    doomed: Seq<(u32, Tier)>,
    killed: Seq<bool>,
) -> Seq<bool> {
    Seq::new(entries.len(), |i: int| !doomed.contains(holder(entries[i])) || !killed[i])
}

impl<C> Registry<C> {
    /// A registry of no shells.
    pub fn new() -> (r: Self)
        ensures
            r.entries@.len() == 0,
    {
        Registry { entries: Vec::new() }
    }

    /// Remembers a shell. One whose exit nobody watches is handed back.
    pub fn track(&mut self, uid: u32, pid: i32, child: C, tier: Tier, watched: bool) -> (r: Result<
        (),
        (C, Fault),
    >)
        ensures
            if watched {
                r is Ok && final(self).entries@ == old(self).entries@.push(
                    Entry { uid, tier, pid, child },
                )
            } else {
                r matches Err(back) && back.0 == child && fault::told(
                    back.1,
                    Kind::BrokenPipe,
                    "the child reaper stopped"@,
                ) && final(self).entries@ == old(self).entries@
            },
    {
        if !watched {
            return Err((child, tell(Kind::BrokenPipe, "the child reaper stopped")));
        }
        self.entries.push(Entry { uid, tier, pid, child });
        Ok(())
    }

    /// The processes that lead the shells, in order.
    pub fn pids(&self) -> (r: Vec<i32>)
        ensures
            r@ == Seq::new(self.entries@.len(), |i: int| self.entries@[i].pid),
    {
        let mut out: Vec<i32> = Vec::new();
        while out.len() < self.entries.len()
            invariant
                out@.len() <= self.entries@.len(),
                out@ =~= Seq::new(out@.len(), |i: int| self.entries@[i].pid),
            decreases self.entries@.len() - out@.len(),
        {
            out.push(self.entries[out.len()].pid);
        }
        out
    }

    fn keep_marked(&mut self, marks: &[bool])
        requires
            old(self).entries@.len() == marks@.len(),
        ensures
            final(self).entries@ == lists::kept(old(self).entries@, marks@),
    {
        let mut entries: Vec<Entry<C>> = Vec::new();
        std::mem::swap(&mut entries, &mut self.entries);
        self.entries = keep(entries, marks);
    }

    /// Forgets the shells whose process group is gone.
    pub fn retain_alive(&mut self, alive: &[bool])
        requires
            old(self).entries@.len() == alive@.len(),
        ensures
            final(self).entries@ == lists::kept(old(self).entries@, alive@),
    {
        self.keep_marked(alive);
    }

    /// Who holds which tier, each once, in ascending order.
    pub fn holders(&self) -> (r: Vec<(u32, Tier)>)
        ensures
            lists::ascending(r@),
            forall|h: (u32, Tier)| #[trigger]
                r@.contains(h) <==> exists|i: int|
                    0 <= i < self.entries@.len() && holder(#[trigger] self.entries@[i]) == h,
    {
        let mut out: Vec<(u32, Tier)> = Vec::new();
        let mut n: usize = 0;
        while n < self.entries.len()
            invariant
                n <= self.entries@.len(),
                lists::ascending(out@),
                forall|h: (u32, Tier)| #[trigger]
                    out@.contains(h) <==> exists|i: int|
                        0 <= i < n && holder(#[trigger] self.entries@[i]) == h,
            decreases self.entries@.len() - n,
        {
            let ghost before = out@;
            insert(&mut out, (self.entries[n].uid, self.entries[n].tier));
            assert forall|h: (u32, Tier)| #[trigger] out@.contains(h) <==> exists|i: int|
                0 <= i < n + 1 && holder(#[trigger] self.entries@[i]) == h by {
                if before.contains(h) {
                    let i = choose|i: int| 0 <= i < n && holder(#[trigger] self.entries@[i]) == h;
                    assert(0 <= i < n + 1 && holder(self.entries@[i]) == h);
                }
                if h == holder(self.entries@[n as int]) {
                    assert(0 <= n < n + 1 && holder(self.entries@[n as int]) == h);
                }
            }
            n += 1;
        }
        out
    }

    /// Marks the shells to kill.
    pub fn condemned(&self, doomed: &[(u32, Tier)]) -> (r: Vec<bool>)
        ensures
            r@ == condemned_marks(self.entries@, doomed@),
    {
        let mut out: Vec<bool> = Vec::new();
        while out.len() < self.entries.len()
            invariant
                out@.len() <= self.entries@.len(),
                out@ =~= condemned_marks(self.entries@, doomed@).take(out@.len() as int),
            decreases self.entries@.len() - out@.len(),
        {
            let i: usize = out.len();
            out.push(holds(doomed, &(self.entries[i].uid, self.entries[i].tier)));
        }
        out
    }

    /// Forgets the shells that were killed. One that could not be killed is
    /// kept so the next sweep tries again rather than forgetting a session
    /// that is still running with a revoked grant.
    pub fn release(&mut self, doomed: &[(u32, Tier)], killed: &[bool])
        requires
            old(self).entries@.len() == killed@.len(),
        ensures
            final(self).entries@ == lists::kept(
                old(self).entries@,
                staying(old(self).entries@, doomed@, killed@),
            ),
    {
        let mut marks: Vec<bool> = Vec::new();
        while marks.len() < self.entries.len()
            invariant
                marks@.len() <= self.entries@.len(),
                self.entries@.len() == killed@.len(),
                self.entries@ == old(self).entries@,
                marks@ =~= staying(self.entries@, doomed@, killed@).take(marks@.len() as int),
            decreases self.entries@.len() - marks@.len(),
        {
            let i: usize = marks.len();
            let stays = !holds(doomed, &(self.entries[i].uid, self.entries[i].tier)) || !killed[i];
            marks.push(stays);
        }
        assert(marks@ =~= staying(self.entries@, doomed@, killed@));
        self.keep_marked(&marks);
    }
}

/// After a sweep, a shell whose caller lost its grant is gone unless the
/// signal did not reach it, and every other shell is still there.
pub proof fn lemma_sweep<C>(
    entries: Seq<Entry<C>>,
    doomed: Seq<(u32, Tier)>,
    killed: Seq<bool>,
    i: int,
)
    requires
        entries.len() == killed.len(),
        0 <= i < entries.len(),
    ensures
        !doomed.contains(holder(entries[i])) ==> lists::kept(
            entries,
            staying(entries, doomed, killed),
        ).contains(entries[i]),
        forall|e: Entry<C>| #[trigger]
            lists::kept(entries, staying(entries, doomed, killed)).contains(e) && doomed.contains(
                holder(e),
            ) ==> exists|k: int| 0 <= k < entries.len() && entries[k] == e && !killed[k],
{
    let marks = staying(entries, doomed, killed);
    lists::lemma_kept(entries, marks);
    if !doomed.contains(holder(entries[i])) {
        assert(marks[i] && entries[i] == entries[i]);
    }
    assert forall|e: Entry<C>| #[trigger]
        lists::kept(entries, marks).contains(e) && doomed.contains(holder(e)) implies exists|k: int|
        0 <= k < entries.len() && entries[k] == e && !killed[k] by {
        let k = choose|k: int| 0 <= k < entries.len() && marks[k] && entries[k] == e;
        assert(entries[k] == e && !killed[k]);
    }
}

/// `libc::WIFEXITED`: a process that exited has zero in the low seven bits of
/// its status.
#[verifier::external_body]
fn exited(status: i32) -> (r: bool)
    ensures
        r == (status & 0x7F == 0),
{
    libc::WIFEXITED(status)
}

/// `libc::WEXITSTATUS`: the exit code is the second byte of the status.
#[verifier::external_body]
fn exit_status(status: i32) -> (r: i32)
    ensures
        r == ((status >> 8) & 0xFF),
{
    libc::WEXITSTATUS(status)
}

/// `libc::WIFSIGNALED`: a process that a signal ended has the signal in the
/// low seven bits of its status, where neither none nor all of them are set.
#[verifier::external_body]
fn signaled(status: i32) -> (r: bool)
    ensures
        r == (1 <= status & 0x7F && status & 0x7F <= 126),
{
    libc::WIFSIGNALED(status)
}

/// `libc::WTERMSIG`: the signal is the low seven bits of the status.
#[verifier::external_body]
fn ending_signal(status: i32) -> (r: i32)
    ensures
        r == (status & 0x7F),
{
    libc::WTERMSIG(status)
}

/// The code that a shell reports for a wait status: its exit code, or 128 and
/// the signal that ended it. A process that is merely stopped has none.
pub open spec fn reported(status: i32) -> Option<int> {
    let low = status & 0x7F;
    if low == 0 {
        Some(((status >> 8) & 0xFF) as int)
    } else if low <= 126 {
        Some(128 + low)
    } else {
        None
    }
}

/// The code that a shell reports for a wait status.
pub fn exit_code(status: i32) -> (r: Option<u8>)
    ensures
        r is Some <==> reported(status) is Some,
        r matches Some(code) ==> reported(status) == Some(code as int),
{
    assert(0 <= (status >> 8) & 0xFF && (status >> 8) & 0xFF <= 255) by (bit_vector);
    assert(0 <= status & 0x7F && status & 0x7F <= 127) by (bit_vector);
    if exited(status) {
        Some(exit_status(status) as u8)
    } else if signaled(status) {
        Some((128 + ending_signal(status)) as u8)
    } else {
        None
    }
}

/// Whether a process group still runs, from a probing signal. Asks about the
/// whole group, not the leader: a leader that forks and exits leaves
/// privileged children behind. A group that is out of reach is not gone, and
/// dropping it would silently give up on revoking it.
pub fn group_alive(sent: bool, out_of_reach: bool) -> (r: bool)
    ensures
        r == (sent || out_of_reach),
{
    sent || out_of_reach
}

/// Whether a process group is dealt with, from a killing signal. One that was
/// not there to receive it is already gone, and anything else means it is
/// still out there.
pub fn group_killed(sent: bool, no_such_group: bool) -> (r: bool)
    ensures
        r == (sent || no_such_group),
{
    sent || no_such_group
}

/// A shell whose exit is awaited.
#[derive(Debug, Clone, Copy, PartialEq, Eq, Structural)]
pub struct ExitWatch {
    pub pid: i32,
    pub client_gone: bool,
    pub leader_reaped: bool,
}

/// What is found out, or has been done, about a watched shell.
#[derive(Debug, Clone, Copy, PartialEq, Eq, Structural)]
pub enum Finding {
    /// A new pass begins.
    Pass,
    /// Whether the client closed its end.
    Lease { closed: bool },
    /// The client's end could not be inspected.
    LeaseUnknown,
    /// The process group was signalled.
    Killed,
    /// What a wait without blocking returned, the status it filled in, and
    /// whether it was interrupted.
    Waited { pid: i32, status: i32, interrupted: bool },
    /// The exit code was handed to the client.
    Reported,
    /// Whether the process group still runs.
    Group { alive: bool },
}

/// What to do next about a watched shell.
#[derive(Debug, Clone, Copy, PartialEq, Eq, Structural)]
pub enum Errand {
    InspectLease,
    KillGroup,
    Wait,
    Report(u8),
    ProbeGroup,
    /// This pass is over, and another will follow.
    Keep,
    /// The shell needs no more watching.
    Forget,
}

/// Where a pass goes once the client's end is dealt with.
pub open spec fn past_lease(watch: ExitWatch) -> Errand {
    if watch.leader_reaped {
        Errand::ProbeGroup
    } else {
        Errand::Wait
    }
}

/// The watch after a finding.
pub open spec fn learned(watch: ExitWatch, finding: Finding) -> ExitWatch {
    match finding {
        Finding::Lease { closed } => ExitWatch {
            client_gone: watch.client_gone || closed,
            ..watch
        },
        Finding::Waited { pid, .. } => ExitWatch {
            leader_reaped: watch.leader_reaped || (pid != 0 && pid == watch.pid),
            ..watch
        },
        _ => watch,
    }
}

/// What a finding calls for.
pub open spec fn called_for(watch: ExitWatch, finding: Finding) -> Errand {
    match finding {
        Finding::Pass => if watch.client_gone {
            Errand::KillGroup
        } else {
            Errand::InspectLease
        },
        Finding::Lease { closed } => if watch.client_gone || closed {
            Errand::KillGroup
        } else {
            past_lease(watch)
        },
        Finding::LeaseUnknown => Errand::Keep,
        Finding::Killed => past_lease(watch),
        Finding::Waited { pid, status, interrupted } => if pid == 0 {
            Errand::Keep
        } else if pid == watch.pid {
            match reported(status) {
                Some(code) => Errand::Report(code as u8),
                None => Errand::ProbeGroup,
            }
        } else if interrupted {
            Errand::Keep
        } else {
            Errand::Forget
        },
        Finding::Reported => Errand::ProbeGroup,
        Finding::Group { alive } => if alive {
            Errand::Keep
        } else {
            Errand::Forget
        },
    }
}

/// One step of watching a shell: takes in a finding and says what to do next.
pub fn reap(watch: &mut ExitWatch, finding: Finding) -> (r: Errand)
    ensures
        *final(watch) == learned(*old(watch), finding),
        r == called_for(*old(watch), finding),
{
    match finding {
        Finding::Pass => if watch.client_gone {
            Errand::KillGroup
        } else {
            Errand::InspectLease
        },
        Finding::Lease { closed } => {
            if closed {
                watch.client_gone = true;
            }
            if watch.client_gone {
                Errand::KillGroup
            } else if watch.leader_reaped {
                Errand::ProbeGroup
            } else {
                Errand::Wait
            }
        },
        Finding::LeaseUnknown => Errand::Keep,
        Finding::Killed => if watch.leader_reaped {
            Errand::ProbeGroup
        } else {
            Errand::Wait
        },
        Finding::Waited { pid, status, interrupted } => {
            if pid == 0 {
                return Errand::Keep;
            }
            if pid == watch.pid {
                watch.leader_reaped = true;
                return match exit_code(status) {
                    Some(code) => Errand::Report(code),
                    None => Errand::ProbeGroup,
                };
            }
            if interrupted {
                Errand::Keep
            } else {
                Errand::Forget
            }
        },
        Finding::Reported => Errand::ProbeGroup,
        Finding::Group { alive } => if alive {
            Errand::Keep
        } else {
            Errand::Forget
        },
    }
}

/// A watch never unlearns that its client left or that its leader was reaped.
pub proof fn lemma_watch_never_unlearns(watch: ExitWatch, finding: Finding)
    ensures
        learned(watch, finding).pid == watch.pid,
        watch.client_gone ==> learned(watch, finding).client_gone,
        watch.leader_reaped ==> learned(watch, finding).leader_reaped,
{
}

/// A shell is forgotten only once its process group is gone, or its leader is
/// no child to wait for.
pub proof fn lemma_forgotten_only_when_gone(watch: ExitWatch, finding: Finding)
    requires
        called_for(watch, finding) == Errand::Forget,
    ensures
        finding == (Finding::Group { alive: false }) || (finding matches Finding::Waited {
            pid,
            interrupted,
            ..
        } && pid != 0 && pid != watch.pid && !interrupted),
{
}

/// A shell whose client left is killed again in every pass.
pub proof fn lemma_abandoned_shell_is_killed(watch: ExitWatch)
    ensures
        watch.client_gone ==> called_for(watch, Finding::Pass) == Errand::KillGroup,
        !watch.client_gone ==> called_for(watch, Finding::Pass) == Errand::InspectLease
            && called_for(watch, Finding::Lease { closed: true }) == Errand::KillGroup,
{
}

/// How the reaper waits for the next shell to watch.
#[derive(Debug, Clone, Copy, PartialEq, Eq, Structural)]
pub enum Pause {
    /// Nothing is watched and nothing can come.
    Stop,
    /// Nothing is watched, so only a new shell can wake it.
    Receive,
    /// A new shell, or the next pass, whichever comes first.
    ReceiveBriefly,
    /// Nothing can come, so only the next pass matters.
    Sleep,
}

/// How the reaper waits, given whether new shells can come and whether any is
/// watched.
pub fn pause(connected: bool, idle: bool) -> (r: Pause)
    ensures
        r == match (connected, idle) {
            (false, true) => Pause::Stop,
            (true, true) => Pause::Receive,
            (true, false) => Pause::ReceiveBriefly,
            (false, false) => Pause::Sleep,
        },
{
    match (connected, idle) {
        (false, true) => Pause::Stop,
        (true, true) => Pause::Receive,
        (true, false) => Pause::ReceiveBriefly,
        (false, false) => Pause::Sleep,
    }
}

/// A shell is condemned exactly when the answer for its caller takes away what
/// the shell was granted.
pub proof fn lemma_revoked_shells_are_condemned<C>(
    entries: Seq<Entry<C>>,
    holders: Seq<(u32, Tier)>,
    answers: Seq<Option<i32>>,
    i: int,
    k: int,
)
    requires
        0 <= i < entries.len(),
        0 <= k < holders.len(),
        holders[k] == holder(entries[i]),
        lists::ascending(holders),
    ensures
        condemned_marks(entries, losers(holders, answers))[i] <==> revokes(
            answers[k],
            entries[i].tier,
        ),
{
    let marks = Seq::new(holders.len(), |j: int| revokes(answers[j], holders[j].1));
    lists::lemma_kept(holders, marks);
    let lost = losers(holders, answers);
    if lost.contains(holders[k]) {
        let j = choose|j: int| 0 <= j < holders.len() && marks[j] && holders[j] == holders[k];
        if j < k {
            assert(holders[j].before(holders[k]));
        } else if k < j {
            assert(holders[k].before(holders[j]));
        }
        assert(j == k);
    }
    if revokes(answers[k], holders[k].1) {
        assert(marks[k] && holders[k] == holders[k]);
    }
}

/// A grant covers a shell where it is of the shell's tier or of a higher one.
/// Any other answer revokes the shell, and so does none.
pub proof fn lemma_what_revokes_a_shell(answer: Option<i32>)
    ensures
        revokes(answer, Tier::Standard) <==> !(answer == Some(grant::TIER_STANDARD) || answer
            == Some(grant::TIER_UNRESTRICTED)),
        revokes(answer, Tier::Unrestricted) <==> answer != Some(grant::TIER_UNRESTRICTED),
{
}

/// A shell that exited reports its exit code, and one that a signal ended
/// reports the signal above 128.
pub proof fn lemma_endings_are_reported(code: i32, signal: i32, core: bool)
    requires
        0 <= code <= 255,
        1 <= signal <= 126,
    ensures
        reported((code * 256) as i32) == Some(code as int),
        reported(
            (signal + if core {
                128int
            } else {
                0
            }) as i32,
        ) == Some(128 + signal),
{
    let exited = (code * 256) as i32;
    assert(exited & 0x7F == 0 && (exited >> 8) & 0xFF == code) by (bit_vector)
        requires
            0 <= code <= 255,
            exited == code * 256,
    ;
    let ended = (signal + if core {
        128int
    } else {
        0
    }) as i32;
    assert(ended & 0x7F == signal) by (bit_vector)
        requires
            1 <= signal <= 126,
            ended == signal || ended == signal + 128,
    ;
}

/// A pass over a shell goes from its client to its leader and on to its group:
/// it kills the group where the client is gone, waits for the leader until it
/// was reaped, tells how it ended, and looks whether any of the group is left.
pub proof fn lemma_pass_over_a_shell(watch: ExitWatch)
    ensures
        !watch.client_gone && !watch.leader_reaped ==> called_for(
            watch,
            Finding::Lease { closed: false },
        ) == Errand::Wait,
        !watch.client_gone && watch.leader_reaped ==> called_for(
            watch,
            Finding::Lease { closed: false },
        ) == Errand::ProbeGroup,
        called_for(watch, Finding::Lease { closed: true }) == Errand::KillGroup,
        learned(watch, Finding::Lease { closed: true }).client_gone,
        learned(watch, Finding::Lease { closed: false }).client_gone == watch.client_gone,
        called_for(watch, Finding::LeaseUnknown) == Errand::Keep,
        !watch.leader_reaped ==> called_for(watch, Finding::Killed) == Errand::Wait,
        watch.leader_reaped ==> called_for(watch, Finding::Killed) == Errand::ProbeGroup,
        called_for(watch, Finding::Reported) == Errand::ProbeGroup,
        called_for(watch, Finding::Group { alive: true }) == Errand::Keep,
        called_for(watch, Finding::Group { alive: false }) == Errand::Forget,
{
}

/// A leader that was reaped is never waited for again, and its ending is told
/// once, where it has one to tell. A wait that found nothing is repeated, and
/// so is one that was interrupted.
pub proof fn lemma_wait_for_a_leader(watch: ExitWatch, other: i32, status: i32, interrupted: bool)
    requires
        watch.pid != 0,
        other != 0,
        other != watch.pid,
    ensures
        learned(watch, Finding::Waited { pid: watch.pid, status, interrupted }).leader_reaped,
        reported(status) matches Some(code) ==> called_for(
            watch,
            Finding::Waited { pid: watch.pid, status, interrupted },
        ) == Errand::Report(code as u8),
        reported(status) is None ==> called_for(
            watch,
            Finding::Waited { pid: watch.pid, status, interrupted },
        ) == Errand::ProbeGroup,
        called_for(watch, Finding::Waited { pid: 0, status, interrupted }) == Errand::Keep,
        learned(watch, Finding::Waited { pid: 0, status, interrupted }) == watch,
        called_for(watch, Finding::Waited { pid: other, status, interrupted: true })
            == Errand::Keep,
        called_for(watch, Finding::Waited { pid: other, status, interrupted: false })
            == Errand::Forget,
        learned(watch, Finding::Waited { pid: other, status, interrupted }) == watch,
{
}

/// A shell is condemned exactly where its caller lost the tier that it holds.
pub proof fn lemma_who_is_condemned<C>(entries: Seq<Entry<C>>, doomed: Seq<(u32, Tier)>, i: int)
    requires
        0 <= i < entries.len(),
    ensures
        condemned_marks(entries, doomed).len() == entries.len(),
        condemned_marks(entries, doomed)[i] <==> doomed.contains(
            (entries[i].uid, entries[i].tier),
        ),
        forall|killed: Seq<bool>| #[trigger]
            staying(entries, doomed, killed)[i] <==> !(doomed.contains(
                (entries[i].uid, entries[i].tier),
            ) && killed[i]),
{
}

/// Two holders stand in the order of their callers, whatever their tiers. Of
/// one caller the lower tier comes first.
pub proof fn lemma_holders_stand_by_caller(a: (u32, Tier), b: (u32, Tier))
    ensures
        a.0 < b.0 ==> a.before(b) && !b.before(a),
        a.0 == b.0 ==> (a.before(b) <==> a.1 is Standard && b.1 is Unrestricted),
{
}

} // verus!
