//! The course of a trace.

use vstd::prelude::*;
use crate::command::{Report, TraceRequest};
use crate::fault::{self, tell, Fault, Kind};
use crate::groups;
use crate::ring::Sample;
use crate::session::{self, Batch, Drain, Session};
use crate::symbolizer::{self, Caller};
use crate::text::{self, decimal};

verus! {

/// Nanoseconds after which a process is no longer waited for.
pub const AWAIT_LIMIT: u64 = 180_000_000_000;

/// Nanoseconds between two looks for a process.
pub const AWAIT_POLL: u64 = 2_000_000;

/// A wait for a process to start and map its library. Startup-only code has
/// already run by the time a process is nameable, so it is tried again and
/// again until both exist, and armed on the first success.
#[derive(Debug)]
pub struct Await {
    pub last: Option<Fault>,
    pub over: bool,
}

impl Await {
    pub fn new() -> (r: Self)
        ensures
            r.last is None,
            !r.over,
    {
        Await { last: None, over: false }
    }

    /// Whether to try once more.
    pub fn goes_on(&self, stop: bool) -> (r: bool)
        ensures
            r == (!stop && !self.over),
    {
        !stop && !self.over
    }

    /// Takes in that a try failed, and how many nanoseconds the wait has
    /// lasted.
    pub fn failed(&mut self, f: Fault, elapsed: u64)
        ensures
            final(self).last == Some(f),
            final(self).over == (elapsed >= AWAIT_LIMIT),
    {
        self.last = Some(f);
        self.over = elapsed >= AWAIT_LIMIT;
    }

    /// Why the wait came to nothing: why the last try failed, if there was
    /// one.
    pub fn give_up(self) -> (r: Fault)
        ensures
            match self.last {
                Some(f) => r == f,
                None => fault::told(r, Kind::TimedOut, "gave up waiting for the process"@),
            },
    {
        match self.last {
            Some(f) => f,
            None => tell(Kind::TimedOut, "gave up waiting for the process"),
        }
    }
}

/// What has happened in a trace. `stop` says whether it was asked to stop.
#[derive(Debug)]
pub enum Event {
    /// The mappings of the traced processes were remembered.
    Remembered { stop: bool },
    /// A wait for the events ended.
    Waited { result: Result<Batch, Fault>, stop: bool },
    /// What the events had delivered was taken, and they were closed.
    Closed(Batch),
    /// A batch was counted and shown.
    Shown,
    /// The threads were ranked.
    Ranked,
    /// The artifact was written.
    Emitted,
}

/// What a trace does next.
#[derive(Debug)]
pub enum Action {
    /// Remember the mappings of the traced processes.
    Remember,
    /// Wait for the events.
    Wait,
    /// Take what the events have delivered, and close them.
    Close,
    /// Count a batch, and show it where hits are shown one by one.
    Show(Batch),
    /// Rank the threads.
    Rank,
    /// Write the artifact.
    Emit,
    Done,
    Fail(Fault),
}

/// How far a trace is: whether the batch that is shown is the last, and what
/// is left to do behind it.
#[derive(Debug, Clone, Copy, PartialEq, Eq, Structural)]
pub struct Course {
    pub last: bool,
    pub ranks: bool,
    pub emits: bool,
}

impl Course {
    /// A trace that begins by remembering the mappings.
    pub fn new(request: &TraceRequest) -> (r: Self)
        ensures
            !r.last,
            r.ranks == (crate::command::report_of(*request) is Threads),
            r.emits == (crate::command::emit_of(*request) is Some),
    {
        Course { last: false, ranks: ranks_threads(request), emits: request.emit().is_some() }
    }

    /// What follows the ranking.
    pub open spec fn past_ranking(self) -> Action {
        if self.emits {
            Action::Emit
        } else {
            Action::Done
        }
    }

    /// What an event leads to. A wait that was interrupted is over where the
    /// trace was asked to stop, and is tried again otherwise.
    pub open spec fn next(self, event: Event) -> (Course, Action) {
        match event {
            Event::Remembered { stop } => if stop {
                (self, Action::Close)
            } else {
                (self, Action::Wait)
            },
            Event::Waited { result, stop } => match result {
                Ok(batch) => (Course { last: batch.finished, ..self }, Action::Show(batch)),
                Err(f) => if fault::kind_of(f) != Kind::Interrupted {
                    (self, Action::Fail(f))
                } else if stop {
                    (self, Action::Close)
                } else {
                    (self, Action::Remember)
                },
            },
            Event::Closed(batch) => (Course { last: batch.finished, ..self }, Action::Show(batch)),
            Event::Shown => if !self.last {
                (self, Action::Remember)
            } else if self.ranks {
                (self, Action::Rank)
            } else {
                (self, self.past_ranking())
            },
            Event::Ranked => (self, self.past_ranking()),
            Event::Emitted => (self, Action::Done),
        }
    }

    fn after_ranking(&self) -> (r: Action)
        ensures
            r == self.past_ranking(),
    {
        if self.emits {
            Action::Emit
        } else {
            Action::Done
        }
    }

    /// Takes in an event and says what to do next.
    pub fn advance(&mut self, event: Event) -> (r: Action)
        ensures
            (*final(self), r) == old(self).next(event),
    {
        match event {
            Event::Remembered { stop } => if stop {
                Action::Close
            } else {
                Action::Wait
            },
            Event::Waited { result, stop } => match result {
                Ok(batch) => {
                    self.last = batch.finished;
                    Action::Show(batch)
                },
                Err(f) => if f.kind() != Kind::Interrupted {
                    Action::Fail(f)
                } else if stop {
                    Action::Close
                } else {
                    Action::Remember
                },
            },
            Event::Closed(batch) => {
                self.last = batch.finished;
                Action::Show(batch)
            },
            Event::Shown => if !self.last {
                Action::Remember
            } else if self.ranks {
                Action::Rank
            } else {
                self.after_ranking()
            },
            Event::Ranked => self.after_ranking(),
            Event::Emitted => Action::Done,
        }
    }
}

/// Whether an event is one that an action can lead to.
pub open spec fn answers(action: Action, event: Event) -> bool {
    match action {
        Action::Remember => event is Remembered,
        Action::Wait => event is Waited,
        Action::Close => event is Closed,
        Action::Show(_) => event is Shown,
        Action::Rank => event is Ranked,
        Action::Emit => event is Emitted,
        Action::Done => false,
        Action::Fail(_) => false,
    }
}

/// The course and the action after a run of events.
pub open spec fn after(course: Course, events: Seq<Event>) -> (Course, Action)
    decreases events.len(),
{
    if events.len() == 0 {
        (course, Action::Remember)
    } else {
        after(course, events.drop_last()).0.next(events.last())
    }
}

/// Whether every event of a run answers the action before it.
pub open spec fn is_run(course: Course, events: Seq<Event>) -> bool {
    forall|i: int|
        0 <= i < events.len() ==> answers(after(course, events.take(i)).1, #[trigger] events[i])
}

/// The batches that a run of events brought.
pub open spec fn brought(events: Seq<Event>) -> Seq<Batch>
    decreases events.len(),
{
    if events.len() == 0 {
        Seq::empty()
    } else {
        let before = brought(events.drop_last());
        match events.last() {
            Event::Waited { result: Ok(batch), .. } => before.push(batch),
            Event::Closed(batch) => before.push(batch),
            _ => before,
        }
    }
}

/// The batches that a run of events led to being shown.
pub open spec fn shown(course: Course, events: Seq<Event>) -> Seq<Batch>
    decreases events.len(),
{
    if events.len() == 0 {
        Seq::empty()
    } else {
        let before = shown(course, events.drop_last());
        match after(course, events).1 {
            Action::Show(batch) => before.push(batch),
            _ => before,
        }
    }
}

/// Every batch that comes is shown, once and in order.
pub proof fn lemma_every_batch_is_shown(course: Course, events: Seq<Event>)
    ensures
        shown(course, events) == brought(events),
    decreases events.len(),
{
    if events.len() > 0 {
        lemma_every_batch_is_shown(course, events.drop_last());
    }
}

/// A trace is done only once its last batch was shown, the threads were ranked
/// where they are to be, and the artifact was written where one is asked for.
pub proof fn lemma_trace_ends_complete(course: Course, events: Seq<Event>)
    requires
        is_run(course, events),
        !course.last,
        after(course, events).1 is Done,
    ensures
        brought(events).len() > 0,
        brought(events).last().finished,
        course.ranks ==> exists|i: int| 0 <= i < events.len() && (#[trigger] events[i]) is Ranked,
        course.emits ==> exists|i: int| 0 <= i < events.len() && (#[trigger] events[i]) is Emitted,
{
    lemma_last_batch(course, events);
    lemma_last_steps(course, events);
    if course.ranks {
        lemma_has_ranked(events);
    }
    if course.emits {
        lemma_has_emitted(events);
    }
}

/// A run without its last event is a run, and the last event answers it.
proof fn lemma_shorter_run(course: Course, events: Seq<Event>)
    requires
        is_run(course, events),
        events.len() > 0,
    ensures
        is_run(course, events.drop_last()),
        answers(after(course, events.drop_last()).1, events.last()),
{
    let prior = events.drop_last();
    assert forall|i: int| 0 <= i < prior.len() implies answers(
        after(course, prior.take(i)).1,
        #[trigger] prior[i],
    ) by {
        assert(prior[i] == events[i]);
        assert(prior.take(i) =~= events.take(i));
    }
    let n = events.len() - 1;
    assert(events.take(n) =~= prior);
    assert(events[n] == events.last());
}

/// A course knows at every point of a run whether the last batch came, and
/// goes on to the end only after it.
proof fn lemma_last_batch(course: Course, events: Seq<Event>)
    requires
        is_run(course, events),
        !course.last,
    ensures
        ({
            let (now, action) = after(course, events);
            let batches = brought(events);
            &&& now.last ==> batches.len() > 0
            &&& batches.len() > 0 ==> now.last == batches.last().finished
            &&& action is Rank || action is Emit || action is Done ==> now.last
        }),
    decreases events.len(),
{
    if events.len() > 0 {
        lemma_shorter_run(course, events);
        lemma_last_batch(course, events.drop_last());
    }
}

/// Whether the threads were ranked in a run of events.
spec fn has_ranked(events: Seq<Event>) -> bool
    decreases events.len(),
{
    events.len() > 0 && (events.last() is Ranked || has_ranked(events.drop_last()))
}

/// Whether the artifact was written in a run of events.
spec fn has_emitted(events: Seq<Event>) -> bool
    decreases events.len(),
{
    events.len() > 0 && (events.last() is Emitted || has_emitted(events.drop_last()))
}

proof fn lemma_has_ranked(events: Seq<Event>)
    requires
        has_ranked(events),
    ensures
        exists|i: int| 0 <= i < events.len() && (#[trigger] events[i]) is Ranked,
    decreases events.len(),
{
    let n = events.len() - 1;
    if events[n] is Ranked {
    } else {
        let prior = events.drop_last();
        lemma_has_ranked(prior);
        let i = choose|i: int| 0 <= i < prior.len() && (#[trigger] prior[i]) is Ranked;
        assert(events[i] is Ranked);
    }
}

proof fn lemma_has_emitted(events: Seq<Event>)
    requires
        has_emitted(events),
    ensures
        exists|i: int| 0 <= i < events.len() && (#[trigger] events[i]) is Emitted,
    decreases events.len(),
{
    let n = events.len() - 1;
    if events[n] is Emitted {
    } else {
        let prior = events.drop_last();
        lemma_has_emitted(prior);
        let i = choose|i: int| 0 <= i < prior.len() && (#[trigger] prior[i]) is Emitted;
        assert(events[i] is Emitted);
    }
}

/// At the end of a run the ranking and the artifact lie behind it, where they
/// are asked for.
proof fn lemma_last_steps(course: Course, events: Seq<Event>)
    requires
        is_run(course, events),
    ensures
        ({
            let (now, action) = after(course, events);
            &&& now.ranks == course.ranks
            &&& now.emits == course.emits
            &&& action is Rank ==> now.ranks
            &&& action is Emit ==> now.emits
            &&& (action is Emit || action is Done) && now.ranks ==> has_ranked(events)
            &&& action is Done && now.emits ==> has_emitted(events)
        }),
    decreases events.len(),
{
    if events.len() > 0 {
        lemma_shorter_run(course, events);
        lemma_last_steps(course, events.drop_last());
    }
}

/// A trace that is asked to stop waits no more: it takes what is there, shows
/// it, and is over.
pub proof fn lemma_stop_ends_the_trace(course: Course, batch: Batch)
    requires
        batch.finished,
    ensures
        course.next(Event::Remembered { stop: true }).1 is Close,
        course.next(Event::Closed(batch)).0.last,
        !(course.next(Event::Closed(batch)).0.next(Event::Shown).1 is Remember),
{
}

/// What is printed of records that did not become samples.
pub open spec fn notices_text(lost: u64, malformed: u64) -> Seq<char> {
    (if lost > 0 {
        "  <lost "@ + text::decimal_digits(lost as nat) + " samples>\n"@
    } else {
        ""@
    }) + if malformed > 0 {
        "  <discarded "@ + text::decimal_digits(malformed as nat) + " malformed perf records>\n"@
    } else {
        ""@
    }
}

/// Shows what was lost or could not be read of a drain.
pub fn notices(drain: &Drain) -> (r: String)
    ensures
        r@ == notices_text(drain.lost, drain.malformed),
{
    proof {
        reveal_strlit("");
    }
    let mut out = "".to_owned();
    if drain.lost > 0 {
        out.append("  <lost ");
        out.append(decimal(drain.lost).as_str());
        out.append(" samples>\n");
        assert(out@ =~= "  <lost "@ + text::decimal_digits(drain.lost as nat) + " samples>\n"@);
    }
    if drain.malformed > 0 {
        out.append("  <discarded ");
        out.append(decimal(drain.malformed).as_str());
        out.append(" malformed perf records>\n");
    }
    assert(out@ =~= notices_text(drain.lost, drain.malformed));
    out
}

/// The module and the address that a hit was called from, if known.
pub open spec fn called_from(caller: Option<Caller>) -> Option<(Seq<char>, u64)> {
    match caller {
        Some(found) => symbolizer::site_view(found.site),
        None => None,
    }
}

/// Counts a sample of a group.
pub fn record<P>(
    session: &mut Session<P>,
    group: usize,
    sample: &Sample,
    caller: &Option<Caller>,
    comm: Option<&str>,
)
    requires
        old(session).wf(),
        group < old(session).groups@.len(),
        old(session).groups@[group as int].hits < u64::MAX,
    ensures
        final(session).wf(),
        final(session).pages == old(session).pages,
        final(session).target == old(session).target,
        final(session).groups@.len() == old(session).groups@.len(),
        forall|g: int|
            0 <= g < old(session).groups@.len() && g != group ==> #[trigger] final(session).groups@[g] == old(session).groups@[g],
        ({
            let before = old(session).groups@[group as int];
            let after = final(session).groups@[group as int];
            &&& after.hits == before.hits + 1
            &&& groups::thread_views(after.threads@) == groups::hit(
                groups::thread_views(before.threads@),
                sample.pid,
                sample.tid,
                groups::shown_name(comm),
            )
            &&& groups::edge_views(after.callers@) == match called_from(*caller) {
                Some(site) => groups::noted(groups::edge_views(before.callers@), site.0, site.1),
                None => groups::edge_views(before.callers@),
            }
            &&& after.label == before.label
            &&& after.probe == before.probe
            &&& after.stack == before.stack
            &&& after.probes == before.probes
        }),
{
    let site = match caller {
        Some(found) => match found.site() {
            Some(at) => Some((at.module.as_str(), at.vaddr)),
            None => None,
        },
        None => None,
    };
    session.record(group, sample.pid, sample.tid, site, comm);
}

/// Who a hit is shown to come from.
pub fn shown_caller(caller: &Option<Caller>) -> (r: &str)
    ensures
        r@ == match *caller {
            Some(found) => found.name@,
            None => "?"@,
        },
{
    match caller {
        Some(found) => found.name(),
        None => "?",
    }
}

/// Whether a trace ends with a ranking of threads.
pub fn ranks_threads(request: &TraceRequest) -> (r: bool)
    ensures
        r == (crate::command::report_of(*request) is Threads),
{
    match request.report() {
        Report::Threads => true,
        Report::Samples(_) => false,
    }
}

/// A trace goes on until it is asked to stop or nothing is left to trace. A
/// wait that failed ends it with that failure, unless it was interrupted, which
/// only looks whether the trace was asked to stop.
pub proof fn lemma_trace_goes_on(course: Course, f: Fault, batch: Batch, stop: bool)
    ensures
        course.next(Event::Remembered { stop: false }) == (course, Action::Wait),
        course.next(Event::Waited { result: Ok(batch), stop }).1 == Action::Show(batch),
        course.next(Event::Waited { result: Ok(batch), stop }).0.last == batch.finished,
        fault::kind_of(f) != Kind::Interrupted ==> course.next(
            Event::Waited { result: Err(f), stop },
        ).1 == Action::Fail(f),
        fault::kind_of(f) == Kind::Interrupted ==> course.next(
            Event::Waited { result: Err(f), stop: true },
        ).1 == Action::Close,
        fault::kind_of(f) == Kind::Interrupted ==> course.next(
            Event::Waited { result: Err(f), stop: false },
        ).1 == Action::Remember,
        course.next(Event::Closed(batch)).1 == Action::Show(batch),
        course.next(Event::Closed(batch)).0.last == batch.finished,
        !course.last ==> course.next(Event::Shown) == (course, Action::Remember),
        course.last && course.ranks ==> course.next(Event::Shown) == (course, Action::Rank),
        course.last && !course.ranks && course.emits ==> course.next(Event::Shown) == (
            course,
            Action::Emit,
        ),
        course.last && !course.ranks && !course.emits ==> course.next(Event::Shown) == (
            course,
            Action::Done,
        ),
        course.emits ==> course.next(Event::Ranked) == (course, Action::Emit),
        !course.emits ==> course.next(Event::Ranked) == (course, Action::Done),
        course.next(Event::Emitted) == (course, Action::Done),
{
}

/// What was lost and what was discarded is told, each where there was any, and
/// with its number.
pub proof fn lemma_losses_are_told(lost: u64, malformed: u64)
    ensures
        lost > 0 && malformed == 0 ==> notices_text(lost, malformed) == "  <lost "@
            + text::decimal_digits(lost as nat) + " samples>\n"@,
        lost == 0 && malformed > 0 ==> notices_text(lost, malformed) == "  <discarded "@
            + text::decimal_digits(malformed as nat) + " malformed perf records>\n"@,
        lost > 0 && malformed > 0 ==> notices_text(lost, malformed) == notices_text(lost, 0)
            + notices_text(0, malformed),
        notices_text(0, 0).len() == 0,
{
    reveal_strlit("");
    let first = "  <lost "@ + text::decimal_digits(lost as nat) + " samples>\n"@;
    let second = "  <discarded "@ + text::decimal_digits(malformed as nat)
        + " malformed perf records>\n"@;
    assert(first + ""@ =~= first);
    assert(""@ + second =~= second);
    assert(""@ + ""@ =~= ""@);
}

/// A hit is told to come from where its caller stands, and from nowhere where
/// no caller was found or none of its code is known.
pub proof fn lemma_where_a_hit_comes_from(caller: Option<Caller>)
    ensures
        caller is None ==> called_from(caller) is None,
        caller matches Some(found) ==> (found.site is None <==> called_from(caller) is None),
        caller matches Some(found) ==> (found.site matches Some(site) ==> called_from(caller)
            == Some((site.module@, site.vaddr))),
{
}

} // verus!
