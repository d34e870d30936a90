//! The probes of one site, and what they have seen.

use vstd::prelude::*;
use crate::fault::Fault;
use crate::lists::{self, holds, insert, keep, Ordered};
use crate::probes::{ArmPlan, Attachment, ProbeSpec};
use crate::text::{self, chars_of, same, string_of, trim_end};

verus! {

/// A caller of a probed site and how often it called.
#[derive(Debug)]
pub struct Edge {
    pub module: String,
    pub vaddr: u64,
    pub count: u64,
}

/// A thread and how often it hit.
#[derive(Debug)]
pub struct ThreadHits {
    pub pid: u32,
    pub tid: u32,
    pub count: u64,
    pub name: String,
}

pub struct EdgeView {
    pub module: Seq<char>,
    pub vaddr: u64,
    pub count: int,
}

pub struct ThreadView {
    pub pid: u32,
    pub tid: u32,
    pub count: int,
    pub name: Seq<char>,
}

impl View for Edge {
    type V = EdgeView;

    open spec fn view(&self) -> EdgeView {
        EdgeView { module: self.module@, vaddr: self.vaddr, count: self.count as int }
    }
}

impl View for ThreadHits {
    type V = ThreadView;

    open spec fn view(&self) -> ThreadView {
        ThreadView { pid: self.pid, tid: self.tid, count: self.count as int, name: self.name@ }
    }
}

/// The views of edges.
pub open spec fn edge_views(edges: Seq<Edge>) -> Seq<EdgeView> {
    Seq::new(edges.len(), |i: int| edges[i]@)
}

/// The views of threads.
pub open spec fn thread_views(threads: Seq<ThreadHits>) -> Seq<ThreadView> {
    Seq::new(threads.len(), |i: int| threads[i]@)
}

/// The index of the first edge from an address of a module, or the length.
pub open spec fn edge_index(edges: Seq<EdgeView>, module: Seq<char>, vaddr: u64) -> int
    decreases edges.len(),
{
    if edges.len() == 0 || (edges[0].module == module && edges[0].vaddr == vaddr) {
        0
    } else {
        1 + edge_index(edges.skip(1), module, vaddr)
    }
}

/// The index of the first record of a thread, or the length.
pub open spec fn thread_index(threads: Seq<ThreadView>, pid: u32, tid: u32) -> int
    decreases threads.len(),
{
    if threads.len() == 0 || (threads[0].pid == pid && threads[0].tid == tid) {
        0
    } else {
        1 + thread_index(threads.skip(1), pid, tid)
    }
}

proof fn lemma_edge_index(edges: Seq<EdgeView>, module: Seq<char>, vaddr: u64, n: int)
    requires
        0 <= n <= edges.len(),
        forall|i: int|
            0 <= i < n ==> !((#[trigger] edges[i]).module == module && edges[i].vaddr == vaddr),
        n < edges.len() ==> edges[n].module == module && edges[n].vaddr == vaddr,
    ensures
        edge_index(edges, module, vaddr) == n,
    decreases n,
{
    if n > 0 {
        assert(!(edges[0].module == module && edges[0].vaddr == vaddr));
        assert forall|i: int| 0 <= i < n - 1 implies !((#[trigger] edges.skip(1)[i]).module
            == module && edges.skip(1)[i].vaddr == vaddr) by {
            assert(edges[i + 1] == edges.skip(1)[i]);
        }
        lemma_edge_index(edges.skip(1), module, vaddr, n - 1);
    }
}

proof fn lemma_thread_index(threads: Seq<ThreadView>, pid: u32, tid: u32, n: int)
    requires
        0 <= n <= threads.len(),
        forall|i: int|
            0 <= i < n ==> !((#[trigger] threads[i]).pid == pid && threads[i].tid == tid),
        n < threads.len() ==> threads[n].pid == pid && threads[n].tid == tid,
    ensures
        thread_index(threads, pid, tid) == n,
    decreases n,
{
    if n > 0 {
        assert(!(threads[0].pid == pid && threads[0].tid == tid));
        assert forall|i: int| 0 <= i < n - 1 implies !((#[trigger] threads.skip(1)[i]).pid == pid
            && threads.skip(1)[i].tid == tid) by {
            assert(threads[i + 1] == threads.skip(1)[i]);
        }
        lemma_thread_index(threads.skip(1), pid, tid, n - 1);
    }
}

/// The calls that edges count together.
pub open spec fn edge_total(edges: Seq<EdgeView>) -> int
    decreases edges.len(),
{
    if edges.len() == 0 {
        0
    } else {
        edge_total(edges.drop_last()) + edges.last().count
    }
}

/// The hits that threads count together.
pub open spec fn thread_total(threads: Seq<ThreadView>) -> int
    decreases threads.len(),
{
    if threads.len() == 0 {
        0
    } else {
        thread_total(threads.drop_last()) + threads.last().count
    }
}

/// The edges after one more call.
pub open spec fn noted(edges: Seq<EdgeView>, module: Seq<char>, vaddr: u64) -> Seq<EdgeView> {
    let at = edge_index(edges, module, vaddr);
    if at < edges.len() {
        edges.update(at, EdgeView { count: edges[at].count + 1, ..edges[at] })
    } else {
        edges.push(EdgeView { module, vaddr, count: 1 })
    }
}

/// The threads after one more hit. A new one goes by the name that it has.
pub open spec fn hit(threads: Seq<ThreadView>, pid: u32, tid: u32, name: Seq<char>) -> Seq<
    ThreadView,
> {
    let at = thread_index(threads, pid, tid);
    if at < threads.len() {
        threads.update(at, ThreadView { count: threads[at].count + 1, ..threads[at] })
    } else {
        threads.push(ThreadView { pid, tid, count: 1, name })
    }
}

proof fn lemma_edge_update(edges: Seq<EdgeView>, at: int, edge: EdgeView)
    requires
        0 <= at < edges.len(),
    ensures
        edge_total(edges.update(at, edge)) == edge_total(edges) - edges[at].count + edge.count,
    decreases edges.len(),
{
    let after = edges.update(at, edge);
    if at == edges.len() - 1 {
        assert(after.drop_last() =~= edges.drop_last());
    } else {
        lemma_edge_update(edges.drop_last(), at, edge);
        assert(after.drop_last() =~= edges.drop_last().update(at, edge));
    }
}

proof fn lemma_thread_update(threads: Seq<ThreadView>, at: int, thread: ThreadView)
    requires
        0 <= at < threads.len(),
    ensures
        thread_total(threads.update(at, thread)) == thread_total(threads) - threads[at].count
            + thread.count,
    decreases threads.len(),
{
    let after = threads.update(at, thread);
    if at == threads.len() - 1 {
        assert(after.drop_last() =~= threads.drop_last());
    } else {
        lemma_thread_update(threads.drop_last(), at, thread);
        assert(after.drop_last() =~= threads.drop_last().update(at, thread));
    }
}

proof fn lemma_edge_part(edges: Seq<EdgeView>, at: int)
    requires
        0 <= at < edges.len(),
        forall|i: int| 0 <= i < edges.len() ==> (#[trigger] edges[i]).count >= 0,
    ensures
        0 <= edges[at].count <= edge_total(edges),
        edge_total(edges) >= 0,
    decreases edges.len(),
{
    if edges.len() > 1 {
        let rest = edges.drop_last();
        lemma_edge_part(rest, if at < rest.len() { at } else { 0 });
    } else {
        assert(edges.drop_last().len() == 0);
        assert(edge_total(edges.drop_last()) == 0);
    }
}

proof fn lemma_thread_part(threads: Seq<ThreadView>, at: int)
    requires
        0 <= at < threads.len(),
        forall|i: int| 0 <= i < threads.len() ==> (#[trigger] threads[i]).count >= 0,
    ensures
        0 <= threads[at].count <= thread_total(threads),
        thread_total(threads) >= 0,
    decreases threads.len(),
{
    if threads.len() > 1 {
        let rest = threads.drop_last();
        lemma_thread_part(rest, if at < rest.len() { at } else { 0 });
    } else {
        assert(threads.drop_last().len() == 0);
        assert(thread_total(threads.drop_last()) == 0);
    }
}

/// Whether no caller occurs twice.
pub open spec fn distinct_edges(edges: Seq<EdgeView>) -> bool {
    forall|i: int, j: int|
        0 <= i < j < edges.len() ==> !((#[trigger] edges[i]).module == (#[trigger] edges[j]).module
            && edges[i].vaddr == edges[j].vaddr)
}

/// How often an address of a module called, by the first edge from there.
pub open spec fn calls_from(edges: Seq<EdgeView>, module: Seq<char>, vaddr: u64) -> int {
    let at = edge_index(edges, module, vaddr);
    if at < edges.len() {
        edges[at].count
    } else {
        0
    }
}

/// The edge that is found is the first one from there, and where none is
/// found there is none.
proof fn lemma_edge_found(edges: Seq<EdgeView>, module: Seq<char>, vaddr: u64)
    ensures
        0 <= edge_index(edges, module, vaddr) <= edges.len(),
        forall|i: int|
            0 <= i < edge_index(edges, module, vaddr) ==> !((#[trigger] edges[i]).module == module
                && edges[i].vaddr == vaddr),
        edge_index(edges, module, vaddr) < edges.len() ==> edges[edge_index(
            edges,
            module,
            vaddr,
        )].module == module && edges[edge_index(edges, module, vaddr)].vaddr == vaddr,
    decreases edges.len(),
{
    if edges.len() > 0 && !(edges[0].module == module && edges[0].vaddr == vaddr) {
        let rest = edges.skip(1);
        lemma_edge_found(rest, module, vaddr);
        let at = edge_index(edges, module, vaddr);
        assert forall|i: int| 0 <= i < at implies !((#[trigger] edges[i]).module == module
            && edges[i].vaddr == vaddr) by {
            if i > 0 {
                assert(rest[i - 1] == edges[i]);
            }
        }
    }
}

/// Noting a call adds one to the count of its edge and to what the edges count
/// together. It leaves every other edge and their order alone, puts a new edge
/// last, and lets no caller occur twice.
pub proof fn lemma_noted(edges: Seq<EdgeView>, module: Seq<char>, vaddr: u64)
    ensures
        distinct_edges(edges) ==> distinct_edges(noted(edges, module, vaddr)),
        calls_from(noted(edges, module, vaddr), module, vaddr) == calls_from(edges, module, vaddr)
            + 1,
        edge_total(noted(edges, module, vaddr)) == edge_total(edges) + 1,
        forall|i: int|
            0 <= i < edges.len() ==> {
                &&& (#[trigger] noted(edges, module, vaddr)[i]).module == edges[i].module
                &&& noted(edges, module, vaddr)[i].vaddr == edges[i].vaddr
                &&& i != edge_index(edges, module, vaddr) ==> noted(edges, module, vaddr)[i]
                    == edges[i]
            },
        noted(edges, module, vaddr).len() == if edge_index(edges, module, vaddr) < edges.len() {
            edges.len()
        } else {
            edges.len() + 1
        },
        edge_index(edges, module, vaddr) == edges.len() ==> noted(edges, module, vaddr).last() == (
        EdgeView { module, vaddr, count: 1 }),
{
    let at = edge_index(edges, module, vaddr);
    let after = noted(edges, module, vaddr);
    lemma_edge_found(edges, module, vaddr);
    lemma_noted_total(edges, module, vaddr);
    assert forall|i: int| 0 <= i < at implies !((#[trigger] after[i]).module == module
        && after[i].vaddr == vaddr) by {
        assert(after[i] == edges[i]);
    }
    lemma_edge_index(after, module, vaddr, at);
    if distinct_edges(edges) {
        assert forall|i: int, j: int| 0 <= i < j < after.len() implies !((#[trigger] after[i]).module
            == (#[trigger] after[j]).module && after[i].vaddr == after[j].vaddr) by {
            assert(after[i].module == edges[i].module && after[i].vaddr == edges[i].vaddr);
            if j < edges.len() {
                assert(after[j].module == edges[j].module && after[j].vaddr == edges[j].vaddr);
            }
        }
    }
}

/// One more call adds one to what the edges count together.
proof fn lemma_noted_total(edges: Seq<EdgeView>, module: Seq<char>, vaddr: u64)
    requires
        0 <= edge_index(edges, module, vaddr),
    ensures
        edge_total(noted(edges, module, vaddr)) == edge_total(edges) + 1,
{
    let at = edge_index(edges, module, vaddr);
    if at < edges.len() {
        lemma_edge_update(edges, at, EdgeView { count: edges[at].count + 1, ..edges[at] });
    } else {
        assert(noted(edges, module, vaddr).drop_last() =~= edges);
    }
}

/// One more hit adds one to what the threads count together.
proof fn lemma_hit_total(threads: Seq<ThreadView>, pid: u32, tid: u32, name: Seq<char>)
    requires
        0 <= thread_index(threads, pid, tid),
    ensures
        thread_total(hit(threads, pid, tid, name)) == thread_total(threads) + 1,
{
    let at = thread_index(threads, pid, tid);
    if at < threads.len() {
        lemma_thread_update(threads, at, ThreadView { count: threads[at].count + 1, ..threads[at] });
    } else {
        assert(hit(threads, pid, tid, name).drop_last() =~= threads);
    }
}

/// Counts a call, from an edge that is known or a new one.
pub fn note_edge(callers: &mut Vec<Edge>, module: &str, vaddr: u64)
    requires
        calls_from(edge_views(old(callers)@), module@, vaddr) < u64::MAX,
    ensures
        edge_views(final(callers)@) == noted(edge_views(old(callers)@), module@, vaddr),
        edge_total(edge_views(final(callers)@)) == edge_total(edge_views(old(callers)@)) + 1,
        distinct_edges(edge_views(old(callers)@)) ==> distinct_edges(edge_views(final(callers)@)),
{
    let ghost before = edge_views(callers@);
    let mut at: usize = 0;
    while at < callers.len() && !(callers[at].vaddr == vaddr && same(
        callers[at].module.as_str(),
        module,
    ))
        invariant
            at <= callers@.len(),
            callers@ == old(callers)@,
            before == edge_views(callers@),
            forall|i: int|
                0 <= i < at ==> !((#[trigger] before[i]).module == module@ && before[i].vaddr
                    == vaddr),
        decreases callers@.len() - at,
    {
        assert(before[at as int] == callers@[at as int]@);
        at += 1;
    }
    proof {
        if at < callers.len() {
            assert(before[at as int] == callers@[at as int]@);
        }
        lemma_edge_index(before, module@, vaddr, at as int);
        lemma_noted(before, module@, vaddr);
    }
    if at < callers.len() {
        proof {
            assert(before[at as int] == callers@[at as int]@);
        }
        let edge = &mut callers[at];
        edge.count = edge.count + 1;
    } else {
        callers.push(Edge { module: module.to_owned(), vaddr, count: 1 });
    }
    assert(edge_views(callers@) =~= noted(before, module@, vaddr));
}

/// One event that is open.
#[derive(Debug)]
pub struct Armed<P> {
    pub attachment: Attachment,
    pub probe: P,
}

/// What events are attached to, in order.
pub open spec fn attachments_of<P>(probes: Seq<Armed<P>>) -> Seq<Attachment> {
    Seq::new(probes.len(), |i: int| probes[i].attachment)
}

/// The probes of one site, and what they have seen.
#[derive(Debug)]
pub struct Group<P> {
    pub label: String,
    pub probe: ProbeSpec,
    pub hits: u64,
    pub callers: Vec<Edge>,
    pub threads: Vec<ThreadHits>,
    pub stack: u32,
    pub probes: Vec<Armed<P>>,
}

/// Whether no thread occurs twice.
pub open spec fn distinct_threads(threads: Seq<ThreadView>) -> bool {
    forall|i: int, j: int|
        0 <= i < j < threads.len() ==> !((#[trigger] threads[i]).pid == (#[trigger] threads[j]).pid
            && threads[i].tid == threads[j].tid)
}

/// A thread's name as it is shown.
pub open spec fn shown_name(comm: Option<&str>) -> Seq<char> {
    match comm {
        Some(name) => text::trimmed_end(name@),
        None => "?"@,
    }
}

impl<P> Group<P> {
    /// What the group was attached to, in order, without repeats, and its
    /// counts: every hit belongs to a thread, no more calls are known than
    /// hits, and no thread and no caller occurs twice.
    pub open spec fn wf(self) -> bool {
        &&& lists::ascending(attachments_of(self.probes@))
        &&& thread_total(thread_views(self.threads@)) == self.hits
        &&& 0 <= edge_total(edge_views(self.callers@)) <= self.hits
        &&& distinct_threads(thread_views(self.threads@))
        &&& distinct_edges(edge_views(self.callers@))
    }

    /// Whether the group has seen nothing and has no event yet.
    pub open spec fn is_new(self) -> bool {
        &&& self.wf()
        &&& self.hits == 0
        &&& self.callers@.len() == 0
        &&& self.threads@.len() == 0
        &&& self.probes@.len() == 0
    }

    /// A group that has seen nothing yet.
    pub fn new(label: String, probe: ProbeSpec, stack: u32) -> (r: Self)
        ensures
            r.is_new(),
            r.label == label,
            r.probe == probe,
            r.stack == stack,
    {
        let r = Group {
            label,
            probe,
            hits: 0,
            callers: Vec::new(),
            threads: Vec::new(),
            stack,
            probes: Vec::new(),
        };
        assert(thread_total(thread_views(r.threads@)) == 0);
        assert(edge_total(edge_views(r.callers@)) == 0);
        r
    }

    #[must_use]
    pub fn label(&self) -> (r: &str)
        ensures
            r@ == self.label@,
    {
        self.label.as_str()
    }

    /// The path of the file that is trapped, if any.
    #[must_use]
    pub fn path(&self) -> (r: Option<&str>)
        ensures
            match r {
                Some(path) => self.probe.path_of() == Some(path@),
                None => self.probe.path_of() is None,
            },
    {
        match self.probe.file() {
            Some((path, _)) => Some(path),
            None => None,
        }
    }

    /// The file offset that is trapped, or the address.
    #[must_use]
    pub fn offset(&self) -> (r: u64)
        ensures
            r == self.probe.offset_of(),
    {
        self.probe.offset()
    }

    #[must_use]
    pub fn hits(&self) -> (r: u64)
        ensures
            r == self.hits,
    {
        self.hits
    }

    #[must_use]
    pub fn callers(&self) -> (r: &[Edge])
        ensures
            r@ == self.callers@,
    {
        self.callers.as_slice()
    }

    #[must_use]
    pub fn threads(&self) -> (r: &[ThreadHits])
        ensures
            r@ == self.threads@,
    {
        self.threads.as_slice()
    }

    fn find_thread(&self, pid: u32, tid: u32) -> (r: usize)
        ensures
            r == thread_index(thread_views(self.threads@), pid, tid),
            r <= self.threads@.len(),
            forall|i: int|
                0 <= i < r ==> !((#[trigger] thread_views(self.threads@)[i]).pid == pid
                    && thread_views(self.threads@)[i].tid == tid),
    {
        let ghost views = thread_views(self.threads@);
        let mut at: usize = 0;
        while at < self.threads.len() && !(self.threads[at].pid == pid && self.threads[at].tid
            == tid)
            invariant
                at <= self.threads@.len(),
                views == thread_views(self.threads@),
                forall|i: int|
                    0 <= i < at ==> !((#[trigger] views[i]).pid == pid && views[i].tid == tid),
            decreases self.threads@.len() - at,
        {
            at += 1;
        }
        proof {
            lemma_thread_index(views, pid, tid, at as int);
        }
        at
    }

    /// Whether a thread has not hit yet.
    pub fn is_new_thread(&self, pid: u32, tid: u32) -> (r: bool)
        ensures
            r == (thread_index(thread_views(self.threads@), pid, tid) >= self.threads@.len()),
    {
        self.find_thread(pid, tid) >= self.threads.len()
    }

    /// Counts a hit, for its thread and for its caller. A new thread goes by
    /// the name that `comm` gives, if it could be read.
    pub fn record(&mut self, pid: u32, tid: u32, caller: Option<(&str, u64)>, comm: Option<&str>)
        requires
            old(self).wf(),
            old(self).hits < u64::MAX,
        ensures
            final(self).wf(),
            final(self).hits == old(self).hits + 1,
            thread_views(final(self).threads@) == hit(
                thread_views(old(self).threads@),
                pid,
                tid,
                shown_name(comm),
            ),
            edge_views(final(self).callers@) == match caller {
                Some(site) => noted(edge_views(old(self).callers@), site.0@, site.1),
                None => edge_views(old(self).callers@),
            },
            final(self).label == old(self).label,
            final(self).probe == old(self).probe,
            final(self).stack == old(self).stack,
            final(self).probes == old(self).probes,
    {
        let ghost before = thread_views(self.threads@);
        let at: usize = self.find_thread(pid, tid);
        proof {
            lemma_hit_total(before, pid, tid, shown_name(comm));
        }
        self.hits = self.hits + 1;
        if at < self.threads.len() {
            proof {
                lemma_thread_part(before, at as int);
                assert(before[at as int] == self.threads@[at as int]@);
            }
            let thread = &mut self.threads[at];
            thread.count = thread.count + 1;
        } else {
            let name = match comm {
                Some(name) => string_of(trim_end(&chars_of(name))),
                None => "?".to_owned(),
            };
            self.threads.push(ThreadHits { pid, tid, count: 1, name });
        }
        assert(thread_views(self.threads@) =~= hit(before, pid, tid, shown_name(comm)));
        if let Some((module, vaddr)) = caller {
            proof {
                let edges = edge_views(self.callers@);
                let from = edge_index(edges, module@, vaddr);
                lemma_edge_found(edges, module@, vaddr);
                if from < edges.len() {
                    lemma_edge_part(edges, from);
                }
            }
            note_edge(&mut self.callers, module, vaddr);
        }
    }
}

/// How arming a group went.
#[derive(Debug)]
pub struct ArmResult {
    pub added: usize,
    pub attempted: usize,
    pub removed: bool,
    pub failure: Option<Fault>,
}

/// How many events could be opened.
pub open spec fn opened_count<P>(opened: Seq<Result<P, Fault>>) -> int
    decreases opened.len(),
{
    if opened.len() == 0 {
        0
    } else {
        opened_count(opened.drop_last()) + if opened.last() is Ok {
            1int
        } else {
            0
        }
    }
}

/// The first failure to open an event, unless there was one already.
pub open spec fn first_failure<P>(failure: Option<Fault>, opened: Seq<Result<P, Fault>>) -> Option<
    Fault,
>
    decreases opened.len(),
{
    if opened.len() == 0 {
        failure
    } else {
        match (first_failure(failure, opened.drop_last()), opened.last()) {
            (None, Err(f)) => Some(f),
            (earlier, _) => earlier,
        }
    }
}

proof fn lemma_opened_is_bounded<P>(opened: Seq<Result<P, Fault>>)
    ensures
        0 <= opened_count(opened) <= opened.len(),
    decreases opened.len(),
{
    if opened.len() > 0 {
        lemma_opened_is_bounded(opened.drop_last());
    }
}

fn insert_armed<P>(probes: &mut Vec<Armed<P>>, armed: Armed<P>)
    requires
        lists::ascending(attachments_of(old(probes)@)),
        !attachments_of(old(probes)@).contains(armed.attachment),
    ensures
        lists::ascending(attachments_of(final(probes)@)),
        forall|a: Armed<P>| #[trigger]
            final(probes)@.contains(a) <==> old(probes)@.contains(a) || a == armed,
        forall|a: Attachment| #[trigger]
            attachments_of(final(probes)@).contains(a) <==> attachments_of(
                old(probes)@,
            ).contains(a) || a == armed.attachment,
{
    let ghost before = probes@;
    let ghost keys = attachments_of(before);
    let key = armed.attachment;
    let mut at: usize = probes.len();
    while at > 0 && key.is_before(&probes[at - 1].attachment)
        invariant
            at <= probes@.len(),
            probes@ == before,
            keys == attachments_of(before),
            lists::ascending(keys),
            forall|k: int| at <= k < keys.len() ==> key.before(#[trigger] keys[k]),
        decreases at,
    {
        assert(keys[at - 1] == before[at - 1].attachment);
        at -= 1;
    }
    proof {
        if at > 0 {
            assert(keys[at - 1] == before[at - 1].attachment);
            assert(keys.contains(keys[at - 1]));
            Attachment::lemma_order(keys[at - 1], key, key);
        }
    }
    probes.insert(at, armed);
    let ghost after = attachments_of(probes@);
    assert(probes@ =~= before.insert(at as int, armed));
    assert(after =~= keys.insert(at as int, key));
    assert forall|i: int, j: int| 0 <= i < j < after.len() implies (#[trigger] after[i]).before(
        #[trigger] after[j],
    ) by {
        if i < at {
            if i < at - 1 {
                assert(keys[i].before(keys[at - 1]));
            }
            if j < at {
                assert(keys[i].before(keys[j]));
            }
        } else if i > at {
            assert(keys[i - 1].before(keys[j - 1]));
        }
    }
    assert forall|a: Armed<P>| #[trigger] probes@.contains(a) <==> before.contains(a) || a
        == armed by {
        if before.contains(a) {
            let k = choose|k: int| 0 <= k < before.len() && before[k] == a;
            if k < at {
                assert(probes@[k] == a);
            } else {
                assert(probes@[k + 1] == a);
            }
        }
        assert(probes@[at as int] == armed);
        if probes@.contains(a) && a != armed {
            let k = choose|k: int| 0 <= k < probes@.len() && probes@[k] == a;
            if k < at {
                assert(before[k] == a);
            } else {
                assert(before[k - 1] == a);
            }
        }
    }
    assert forall|a: Attachment| #[trigger] after.contains(a) <==> keys.contains(a) || a == key by {
        if keys.contains(a) {
            let k = choose|k: int| 0 <= k < keys.len() && keys[k] == a;
            if k < at {
                assert(after[k] == a);
            } else {
                assert(after[k + 1] == a);
            }
        }
        assert(after[at as int] == key);
        if after.contains(a) && a != key {
            let k = choose|k: int| 0 <= k < after.len() && after[k] == a;
            if k < at {
                assert(keys[k] == a);
            } else {
                assert(keys[k - 1] == a);
            }
        }
    }
}

/// Marks the events that are in a plan.
pub open spec fn in_plan<P>(probes: Seq<Armed<P>>, attachments: Seq<Attachment>) -> Seq<bool> {
    Seq::new(probes.len(), |i: int| attachments.contains(probes[i].attachment))
}

/// The events of a group that stay under a plan. Only those that see other
/// processes too are dropped when the plan does.
pub open spec fn staying<P>(group: Group<P>, attachments: Seq<Attachment>) -> Seq<Armed<P>> {
    if group.probe is Hardware {
        lists::kept(group.probes@, in_plan(group.probes@, attachments))
    } else {
        group.probes@
    }
}

proof fn lemma_kept_ascends<P>(probes: Seq<Armed<P>>, marks: Seq<bool>)
    requires
        probes.len() == marks.len(),
        lists::ascending(attachments_of(probes)),
    ensures
        lists::ascending(attachments_of(lists::kept(probes, marks))),
    decreases probes.len(),
{
    if probes.len() > 0 {
        let rest = probes.drop_last();
        let keys = attachments_of(probes);
        assert forall|i: int, j: int| 0 <= i < j < rest.len() implies (#[trigger] attachments_of(
            rest,
        )[i]).before(#[trigger] attachments_of(rest)[j]) by {
            assert(keys[i].before(keys[j]));
        }
        lemma_kept_ascends(rest, marks.drop_last());
        lists::lemma_kept(rest, marks.drop_last());
        let before = lists::kept(rest, marks.drop_last());
        let after = lists::kept(probes, marks);
        assert forall|i: int, j: int| 0 <= i < j < after.len() implies (#[trigger] attachments_of(
            after,
        )[i]).before(#[trigger] attachments_of(after)[j]) by {
            if j < before.len() {
                assert(attachments_of(before)[i].before(attachments_of(before)[j]));
            } else {
                assert(before.contains(before[i]));
                let k = choose|k: int|
                    0 <= k < rest.len() && marks.drop_last()[k] && rest[k] == before[i];
                assert(keys[k].before(keys[probes.len() - 1]));
            }
        }
    }
}

impl<P> Group<P> {
    /// Whether nothing but the events differs between two states of a group.
    pub open spec fn same_but_probes(self, other: Self) -> bool {
        self.label == other.label && self.probe == other.probe && self.hits == other.hits
            && self.callers == other.callers && self.threads == other.threads && self.stack
            == other.stack
    }

    /// Keeps the events whose mark is set.
    pub fn keep_marked(&mut self, marks: &[bool])
        requires
            old(self).wf(),
            old(self).probes@.len() == marks@.len(),
        ensures
            final(self).wf(),
            final(self).probes@ == lists::kept(old(self).probes@, marks@),
            final(self).same_but_probes(*old(self)),
    {
        proof {
            lemma_kept_ascends(self.probes@, marks@);
        }
        let mut probes: Vec<Armed<P>> = Vec::new();
        std::mem::swap(&mut probes, &mut self.probes);
        self.probes = keep(probes, marks);
    }

    /// Drops the events that a plan no longer wants, and says which ones are
    /// still to be opened and whether any was dropped.
    pub fn pending(&mut self, plan: &ArmPlan) -> (r: (Vec<Attachment>, bool))
        requires
            old(self).wf(),
            lists::ascending(plan.attachments@),
        ensures
            final(self).wf(),
            final(self).same_but_probes(*old(self)),
            final(self).probes@ == staying(*old(self), plan.attachments@),
            r.1 == (final(self).probes@.len() != old(self).probes@.len()),
            lists::ascending(r.0@),
            forall|a: Attachment| #[trigger]
                r.0@.contains(a) <==> plan.attachments@.contains(a) && !attachments_of(
                    final(self).probes@,
                ).contains(a),
    {
        let before: usize = self.probes.len();
        if self.probe.needs_target_filter() {
            let mut marks: Vec<bool> = Vec::new();
            while marks.len() < self.probes.len()
                invariant
                    marks@.len() <= self.probes@.len(),
                    *self == *old(self),
                    marks@ =~= in_plan(self.probes@, plan.attachments@).take(marks@.len() as int),
                decreases self.probes@.len() - marks@.len(),
            {
                let here = holds(&plan.attachments, &self.probes[marks.len()].attachment);
                marks.push(here);
            }
            assert(marks@ =~= in_plan(self.probes@, plan.attachments@));
            self.keep_marked(&marks);
        }
        let removed = self.probes.len() != before;
        let mut wanted: Vec<Attachment> = Vec::new();
        let mut n: usize = 0;
        while n < plan.attachments.len()
            invariant
                n <= plan.attachments@.len(),
                lists::ascending(plan.attachments@),
                lists::ascending(wanted@),
                forall|a: Attachment| #[trigger]
                    wanted@.contains(a) <==> (exists|i: int|
                        0 <= i < n && #[trigger] plan.attachments@[i] == a) && !attachments_of(
                        self.probes@,
                    ).contains(a),
            decreases plan.attachments@.len() - n,
        {
            let a = plan.attachments[n];
            let ghost earlier = wanted@;
            if !self.has(a) {
                insert(&mut wanted, a);
            }
            assert forall|x: Attachment| #[trigger]
                wanted@.contains(x) <==> (exists|i: int|
                    0 <= i < n + 1 && #[trigger] plan.attachments@[i] == x) && !attachments_of(
                    self.probes@,
                ).contains(x) by {
                if earlier.contains(x) {
                    let i = choose|i: int| 0 <= i < n && #[trigger] plan.attachments@[i] == x;
                    assert(0 <= i < n + 1 && plan.attachments@[i] == x);
                }
                assert(0 <= n < n + 1 && plan.attachments@[n as int] == a);
            }
            n += 1;
        }
        assert forall|a: Attachment| #[trigger]
            wanted@.contains(a) <==> plan.attachments@.contains(a) && !attachments_of(
                self.probes@,
            ).contains(a) by {
            if plan.attachments@.contains(a) {
                let i = choose|i: int| 0 <= i < plan.attachments@.len() && plan.attachments@[i] == a;
                assert(plan.attachments@[i] == a);
            }
        }
        (wanted, removed)
    }

    fn has(&self, attachment: Attachment) -> (r: bool)
        ensures
            r == attachments_of(self.probes@).contains(attachment),
    {
        let ghost keys = attachments_of(self.probes@);
        let mut i: usize = 0;
        while i < self.probes.len()
            invariant
                i <= self.probes@.len(),
                keys == attachments_of(self.probes@),
                forall|k: int| 0 <= k < i ==> keys[k] != attachment,
            decreases self.probes@.len() - i,
        {
            assert(keys[i as int] == self.probes@[i as int].attachment);
            if self.probes[i].attachment == attachment {
                return true;
            }
            i += 1;
        }
        false
    }

    /// Takes in the events that were opened for `wanted`, which are those that
    /// a plan still lacked, and says how it went.
    pub fn arm(
        &mut self,
        plan: ArmPlan,
        wanted: Vec<Attachment>,
        removed: bool,
        opened: Vec<Result<P, Fault>>,
    ) -> (r: ArmResult)
        requires
            old(self).wf(),
            lists::ascending(wanted@),
            opened@.len() == wanted@.len(),
            forall|a: Attachment| #[trigger]
                wanted@.contains(a) ==> !attachments_of(old(self).probes@).contains(a),
        ensures
            final(self).wf(),
            final(self).same_but_probes(*old(self)),
            forall|armed: Armed<P>| #[trigger]
                final(self).probes@.contains(armed) <==> old(self).probes@.contains(armed)
                    || exists|i: int|
                    0 <= i < wanted@.len() && #[trigger] wanted@[i] == armed.attachment
                        && opened@[i] == Ok::<P, Fault>(armed.probe),
            r.attempted == plan.attachments@.len(),
            r.added == opened_count(opened@),
            r.removed == removed,
            r.failure == first_failure(plan.failure, opened@),
    {
        let attempted: usize = plan.attachments.len();
        let mut failure = plan.failure;
        let mut added: usize = 0;
        let mut n: usize = 0;
        let total: usize = opened.len();
        let ghost all = opened@;
        let ghost first = plan.failure;
        let ghost start = self.probes@;
        assert(all.take(0) =~= Seq::empty());
        assert forall|k: int| 0 <= k < wanted@.len() implies !attachments_of(
            self.probes@,
        ).contains(#[trigger] wanted@[k]) by {
            assert(wanted@.contains(wanted@[k]));
        }
        for result in it: opened
            invariant
                it.seq() == all,
                all.len() == total,
                n == it.index(),
                all.len() == wanted@.len(),
                start == old(self).probes@,
                self.wf(),
                self.same_but_probes(*old(self)),
                lists::ascending(wanted@),
                added == opened_count(all.take(n as int)),
                added <= n,
                failure == first_failure(first, all.take(n as int)),
                forall|k: int|
                    n <= k < wanted@.len() ==> !attachments_of(self.probes@).contains(
                        #[trigger] wanted@[k],
                    ),
                forall|armed: Armed<P>| #[trigger]
                    self.probes@.contains(armed) <==> start.contains(armed) || exists|i: int|
                        0 <= i < n && #[trigger] wanted@[i] == armed.attachment && all[i] == Ok::<
                            P,
                            Fault,
                        >(armed.probe),
        {
            assert(all.take(n + 1).drop_last() =~= all.take(n as int));
            assert(all.take(n + 1).last() == all[n as int]);
            let ghost earlier = self.probes@;
            let ghost key = wanted@[n as int];
            match result {
                Ok(probe) => {
                    let armed = Armed { attachment: wanted[n], probe };
                    let ghost new = armed;
                    insert_armed(&mut self.probes, armed);
                    added += 1;
                    assert forall|a: Armed<P>| #[trigger]
                        self.probes@.contains(a) <==> start.contains(a) || exists|i: int|
                            0 <= i < n + 1 && #[trigger] wanted@[i] == a.attachment && all[i]
                                == Ok::<P, Fault>(a.probe) by {
                        if earlier.contains(a) && !start.contains(a) {
                            let i = choose|i: int|
                                0 <= i < n && #[trigger] wanted@[i] == a.attachment && all[i]
                                    == Ok::<P, Fault>(a.probe);
                            assert(0 <= i < n + 1 && wanted@[i] == a.attachment && all[i] == Ok::<
                                P,
                                Fault,
                            >(a.probe));
                        }
                        if a == new {
                            assert(0 <= n < n + 1 && wanted@[n as int] == a.attachment
                                && all[n as int] == Ok::<P, Fault>(a.probe));
                        }
                    }
                    assert forall|k: int| n + 1 <= k < wanted@.len() implies !attachments_of(
                        self.probes@,
                    ).contains(#[trigger] wanted@[k]) by {
                        assert(wanted@[n as int].before(wanted@[k]));
                        Attachment::lemma_order(wanted@[n as int], wanted@[k], key);
                    }
                },
                Err(f) => {
                    if failure.is_none() {
                        failure = Some(f);
                    }
                    assert forall|a: Armed<P>| #[trigger]
                        self.probes@.contains(a) <==> start.contains(a) || exists|i: int|
                            0 <= i < n + 1 && #[trigger] wanted@[i] == a.attachment && all[i]
                                == Ok::<P, Fault>(a.probe) by {
                        if earlier.contains(a) && !start.contains(a) {
                            let i = choose|i: int|
                                0 <= i < n && #[trigger] wanted@[i] == a.attachment && all[i]
                                    == Ok::<P, Fault>(a.probe);
                            assert(0 <= i < n + 1 && wanted@[i] == a.attachment && all[i] == Ok::<
                                P,
                                Fault,
                            >(a.probe));
                        }
                    }
                },
            }
            n += 1;
        }
        assert(all.take(n as int) =~= all);
        ArmResult { added, attempted, removed, failure }
    }
}

/// A group whose missing events could all be opened has every event that its
/// plan wants, and, where its events see other processes too, no other.
pub proof fn lemma_plan_is_met<P>(
    before: Group<P>,
    plan: Seq<Attachment>,
    wanted: Seq<Attachment>,
    opened: Seq<Result<P, Fault>>,
    after: Seq<Armed<P>>,
)
    requires
        forall|a: Attachment| #[trigger]
            wanted.contains(a) <==> plan.contains(a) && !attachments_of(
                staying(before, plan),
            ).contains(a),
        opened.len() == wanted.len(),
        forall|i: int| 0 <= i < opened.len() ==> #[trigger] opened[i] is Ok,
        forall|armed: Armed<P>| #[trigger]
            after.contains(armed) <==> staying(before, plan).contains(armed) || exists|i: int|
                0 <= i < wanted.len() && #[trigger] wanted[i] == armed.attachment && opened[i]
                    == Ok::<P, Fault>(armed.probe),
    ensures
        forall|a: Attachment| #[trigger] plan.contains(a) ==> attachments_of(after).contains(a),
        before.probe is Hardware ==> forall|a: Attachment| #[trigger]
            attachments_of(after).contains(a) ==> plan.contains(a),
{
    let held = staying(before, plan);
    assert forall|a: Attachment| #[trigger] plan.contains(a) implies attachments_of(
        after,
    ).contains(a) by {
        if attachments_of(held).contains(a) {
            let k = choose|k: int|
                0 <= k < attachments_of(held).len() && attachments_of(held)[k] == a;
            assert(held.contains(held[k]));
            assert(after.contains(held[k]));
            let m = choose|m: int| 0 <= m < after.len() && after[m] == held[k];
            assert(attachments_of(after)[m] == a);
        } else {
            assert(wanted.contains(a));
            let i = choose|i: int| 0 <= i < wanted.len() && wanted[i] == a;
            assert(opened[i] is Ok);
            let armed = Armed { attachment: a, probe: opened[i]->Ok_0 };
            assert(wanted[i] == armed.attachment && opened[i] == Ok::<P, Fault>(armed.probe));
            assert(after.contains(armed));
            let m = choose|m: int| 0 <= m < after.len() && after[m] == armed;
            assert(attachments_of(after)[m] == a);
        }
    }
    if before.probe is Hardware {
        let marks = in_plan(before.probes@, plan);
        lists::lemma_kept(before.probes@, marks);
        assert forall|a: Attachment| #[trigger] attachments_of(after).contains(a) implies
            plan.contains(a) by {
            let m = choose|m: int|
                0 <= m < attachments_of(after).len() && attachments_of(after)[m] == a;
            let armed = after[m];
            assert(after.contains(armed));
            if held.contains(armed) {
                let k = choose|k: int|
                    0 <= k < before.probes@.len() && marks[k] && before.probes@[k] == armed;
                assert(plan.contains(before.probes@[k].attachment));
            } else {
                let i = choose|i: int|
                    0 <= i < wanted.len() && #[trigger] wanted[i] == armed.attachment && opened[i]
                        == Ok::<P, Fault>(armed.probe);
                assert(wanted.contains(wanted[i]));
            }
        }
    }
}

/// A hit of a thread that is known adds one to its count, and leaves its name
/// and every other thread as they are.
pub proof fn lemma_known_thread_is_counted(
    threads: Seq<ThreadView>,
    pid: u32,
    tid: u32,
    name: Seq<char>,
    i: int,
)
    requires
        0 <= i < threads.len(),
        threads[i].pid == pid,
        threads[i].tid == tid,
        forall|j: int|
            0 <= j < i ==> (#[trigger] threads[j]).pid != pid || threads[j].tid != tid,
    ensures
        hit(threads, pid, tid, name) == threads.update(
            i,
            ThreadView { pid, tid, count: threads[i].count + 1, name: threads[i].name },
        ),
{
    lemma_thread_index(threads, pid, tid, i);
}

/// A hit of a thread that is not known puts it last, with its name and a count
/// of one. Threads of two processes are two threads.
pub proof fn lemma_new_thread_is_added(
    threads: Seq<ThreadView>,
    pid: u32,
    tid: u32,
    name: Seq<char>,
)
    requires
        forall|j: int|
            0 <= j < threads.len() ==> (#[trigger] threads[j]).pid != pid || threads[j].tid != tid,
    ensures
        hit(threads, pid, tid, name) == threads.push(ThreadView { pid, tid, count: 1, name }),
{
    lemma_thread_index(threads, pid, tid, threads.len() as int);
}

/// A call from a site that is known adds one to its count, and leaves every
/// other site as it is.
pub proof fn lemma_known_caller_is_counted(
    edges: Seq<EdgeView>,
    module: Seq<char>,
    vaddr: u64,
    i: int,
)
    requires
        0 <= i < edges.len(),
        edges[i].module == module,
        edges[i].vaddr == vaddr,
        forall|j: int|
            0 <= j < i ==> (#[trigger] edges[j]).module != module || edges[j].vaddr != vaddr,
    ensures
        noted(edges, module, vaddr) == edges.update(
            i,
            EdgeView { module, vaddr, count: edges[i].count + 1 },
        ),
{
    lemma_edge_index(edges, module, vaddr, i);
}

/// A call from a site that is not known puts it last, with a count of one.
pub proof fn lemma_new_caller_is_added(edges: Seq<EdgeView>, module: Seq<char>, vaddr: u64)
    requires
        forall|j: int|
            0 <= j < edges.len() ==> (#[trigger] edges[j]).module != module || edges[j].vaddr
                != vaddr,
    ensures
        noted(edges, module, vaddr) == edges.push(EdgeView { module, vaddr, count: 1 }),
{
    lemma_edge_index(edges, module, vaddr, edges.len() as int);
}

/// A thread is shown by its name without the spaces behind it, or by a question
/// mark where it has none.
pub proof fn lemma_thread_names_are_shown(name: &str)
    ensures
        shown_name(Some(name)) == text::trimmed_end(name@),
        shown_name(None) == "?"@,
{
}

/// Events on tasks and processors stay open whatever a new plan says. Hardware
/// traps stay exactly where the plan still has them.
pub proof fn lemma_events_stay<P>(group: Group<P>, plan: Seq<Attachment>, armed: Armed<P>)
    ensures
        !(group.probe is Hardware) ==> staying(group, plan) == group.probes@,
        group.probe is Hardware ==> (staying(group, plan).contains(armed) <==> exists|i: int|
            0 <= i < group.probes@.len() && #[trigger] group.probes@[i] == armed && plan.contains(
                armed.attachment,
            )),
{
    if group.probe is Hardware {
        let marks = in_plan(group.probes@, plan);
        lists::lemma_kept(group.probes@, marks);
        if staying(group, plan).contains(armed) {
            let i = choose|i: int|
                0 <= i < group.probes@.len() && marks[i] && group.probes@[i] == armed;
            assert(group.probes@[i] == armed);
        }
        if exists|i: int|
            0 <= i < group.probes@.len() && #[trigger] group.probes@[i] == armed && plan.contains(
                armed.attachment,
            ) {
            let i = choose|i: int|
                0 <= i < group.probes@.len() && #[trigger] group.probes@[i] == armed
                    && plan.contains(armed.attachment);
            assert(marks[i]);
        }
    }
}

/// As many events are counted as could be opened.
pub proof fn lemma_opened_events_are_counted<P>(opened: Seq<Result<P, Fault>>)
    ensures
        opened_count(opened) == opened.filter(|one: Result<P, Fault>| one is Ok).len(),
    decreases opened.len(),
{
    reveal(Seq::filter);
    if opened.len() > 0 {
        lemma_opened_events_are_counted(opened.drop_last());
    }
}

/// The failure that is told is the plan's own, or else the first that opening
/// an event met.
pub proof fn lemma_first_failure_is_told<P>(
    failure: Option<Fault>,
    opened: Seq<Result<P, Fault>>,
    i: int,
)
    ensures
        failure is Some ==> first_failure(failure, opened) == failure,
        failure is None && 0 <= i < opened.len() && opened[i] is Err && (forall|j: int|
            0 <= j < i ==> (#[trigger] opened[j]) is Ok) ==> first_failure(failure, opened) == Some(
            opened[i]->Err_0,
        ),
        failure is None && (forall|j: int|
            0 <= j < opened.len() ==> (#[trigger] opened[j]) is Ok) ==> first_failure(
            failure,
            opened,
        ) is None,
    decreases opened.len(),
{
    if opened.len() > 0 {
        let rest = opened.drop_last();
        lemma_first_failure_is_told(failure, rest, i);
        assert(forall|j: int| 0 <= j < rest.len() ==> rest[j] == opened[j]);
        assert(opened[opened.len() - 1] == opened.last());
    }
}

/// Two groups that differ in their probes alone agree in everything that was
/// counted of them.
pub proof fn lemma_counts_outlive_probes<P>(group: Group<P>, other: Group<P>)
    requires
        group.same_but_probes(other),
    ensures
        group.label == other.label,
        group.probe == other.probe,
        group.hits == other.hits,
        group.callers == other.callers,
        group.threads == other.threads,
        group.stack == other.stack,
{
}

/// A new group has seen nothing and holds nothing. Of any group, no thread is
/// counted twice and no caller is.
pub proof fn lemma_what_a_group_holds<P>(group: Group<P>)
    ensures
        group.is_new() ==> group.hits == 0 && group.callers@.len() == 0 && group.threads@.len() == 0
            && group.probes@.len() == 0,
        group.wf() ==> forall|i: int, j: int|
            0 <= i < j < group.threads@.len() ==> (#[trigger] group.threads@[i]).pid != (
            #[trigger] group.threads@[j]).pid || group.threads@[i].tid != group.threads@[j].tid,
        group.wf() ==> forall|i: int, j: int|
            0 <= i < j < group.callers@.len() ==> (#[trigger] group.callers@[i]).module@ != (
            #[trigger] group.callers@[j]).module@ || group.callers@[i].vaddr
                != group.callers@[j].vaddr,
{
    if group.wf() {
        let threads = thread_views(group.threads@);
        let edges = edge_views(group.callers@);
        assert forall|i: int, j: int| 0 <= i < j < group.threads@.len() implies (
        #[trigger] group.threads@[i]).pid != (#[trigger] group.threads@[j]).pid
            || group.threads@[i].tid != group.threads@[j].tid by {
            assert(threads[i] == group.threads@[i]@ && threads[j] == group.threads@[j]@);
        }
        assert forall|i: int, j: int| 0 <= i < j < group.callers@.len() implies (
        #[trigger] group.callers@[i]).module@ != (#[trigger] group.callers@[j]).module@
            || group.callers@[i].vaddr != group.callers@[j].vaddr by {
            assert(edges[i] == group.callers@[i]@ && edges[j] == group.callers@[j]@);
        }
    }
}

} // verus!
