//! What is known of a traced process: its tasks, its libraries and its memory.

use core::ops::Range;
use vstd::prelude::*;
use crate::command::{Location, Place};
use crate::elf::{vaddr_to_file_offset, Elf, Segment};
use crate::fault::{self, tell, tell_owned, ElfPart, Fault, Kind, Outcome};
use crate::lists::holds;
use crate::maps::{self, Mapping, MappingView};
use crate::text::{
    self, after_last_of, chars_of, decimal, find, hex, read_signed, read_unsigned, same, signed,
    string_of, trim, words,
};

verus! {

/// A process number in decimal.
pub open spec fn number_in(name: Seq<char>) -> Option<i32> {
    match text::signed_value(name) {
        Ok(n) => Some(n as i32),
        Err(_) => None,
    }
}

fn read_number(name: &[char]) -> (r: Option<i32>)
    ensures
        r == number_in(name@),
{
    match read_signed(name) {
        Ok(n) => Some(n),
        Err(_) => None,
    }
}

/// Reads the name of a process directory as the process's number.
pub fn process_number(name: &str) -> (r: Option<i32>)
    ensures
        r == number_in(name@),
{
    read_number(&chars_of(name))
}

/// The bytes up to the first zero.
pub open spec fn up_to_nul(bytes: Seq<u8>) -> Seq<u8>
    decreases bytes.len(),
{
    if bytes.len() == 0 || bytes[0] == 0 {
        Seq::empty()
    } else {
        seq![bytes[0]] + up_to_nul(bytes.skip(1))
    }
}

proof fn lemma_up_to_nul(bytes: Seq<u8>, n: int)
    requires
        0 <= n <= bytes.len(),
        forall|i: int| 0 <= i < n ==> bytes[i] != 0,
        n < bytes.len() ==> bytes[n] == 0,
    ensures
        up_to_nul(bytes) == bytes.take(n),
    decreases n,
{
    if n == 0 {
        assert(bytes.take(0) =~= Seq::empty());
    } else {
        assert forall|i: int| 0 <= i < n - 1 implies bytes.skip(1)[i] != 0 by {
            assert(bytes[i + 1] != 0);
        }
        lemma_up_to_nul(bytes.skip(1), n - 1);
        assert(seq![bytes[0]] + bytes.skip(1).take(n - 1) =~= bytes.take(n));
    }
}

/// Whether a command line is that of a package: its first argument is the
/// package's name.
pub fn runs_package(cmdline: &[u8], package: &str) -> (r: bool)
    ensures
        r == (up_to_nul(cmdline@) == vstd::utf8::encode_utf8(package@)),
{
    let name = package.as_bytes();
    let mut end: usize = 0;
    while end < cmdline.len() && cmdline[end] != 0
        invariant
            end <= cmdline@.len(),
            forall|i: int| 0 <= i < end ==> cmdline@[i] != 0,
        decreases cmdline@.len() - end,
    {
        end += 1;
    }
    proof {
        lemma_up_to_nul(cmdline@, end as int);
    }
    if end != name.len() {
        return false;
    }
    let mut i: usize = 0;
    while i < end
        invariant
            i <= end,
            end <= cmdline@.len(),
            end == name@.len(),
            name@ == vstd::utf8::encode_utf8(package@),
            up_to_nul(cmdline@) == cmdline@.take(end as int),
            forall|k: int| 0 <= k < i ==> cmdline@[k] == name@[k],
        decreases end - i,
    {
        if cmdline[i] != name[i] {
            assert(cmdline@.take(end as int)[i as int] != name@[i as int]);
            return false;
        }
        i += 1;
    }
    assert(cmdline@.take(end as int) =~= name@);
    true
}

/// An entry of the process directory: its name and its command line.
#[derive(Debug)]
pub struct Candidate {
    pub name: String,
    pub cmdline: Vec<u8>,
}

/// The number of an entry, if it is a process that runs the package.
pub open spec fn package_pid(entry: Candidate, package: Seq<char>) -> Option<i32> {
    if up_to_nul(entry.cmdline@) == vstd::utf8::encode_utf8(package) {
        number_in(entry.name@)
    } else {
        None
    }
}

/// The first process that runs the package.
pub open spec fn found_pid(entries: Seq<Candidate>, package: Seq<char>) -> Option<i32>
    decreases entries.len(),
{
    if entries.len() == 0 {
        None
    } else {
        match package_pid(entries[0], package) {
            Some(pid) => Some(pid),
            None => found_pid(entries.skip(1), package),
        }
    }
}

/// Finds a process by name, so a caller can name the app instead of hunting
/// the pid.
pub fn pid_for_package(package: &str, entries: &[Candidate]) -> (r: Result<i32, Fault>)
    ensures
        match found_pid(entries@, package@) {
            Some(pid) => r == Ok::<i32, Fault>(pid),
            None => r matches Err(f) && fault::told(
                f,
                Kind::NotFound,
                "no running process named "@ + package@,
            ),
        },
{
    let mut i: usize = 0;
    assert(entries@.skip(0) =~= entries@);
    while i < entries.len()
        invariant
            i <= entries@.len(),
            found_pid(entries@, package@) == found_pid(entries@.skip(i as int), package@),
        decreases entries@.len() - i,
    {
        assert(entries@.skip(i as int).skip(1) =~= entries@.skip(i + 1));
        if let Some(pid) = process_number(entries[i].name.as_str()) {
            if runs_package(entries[i].cmdline.as_slice(), package) {
                return Ok(pid);
            }
        }
        i += 1;
    }
    let mut message = "no running process named ".to_owned();
    message.append(package);
    Err(tell_owned(Kind::NotFound, message))
}

/// A process and its threads.
#[derive(Debug)]
pub struct TaskGroup {
    pub pid: i32,
    pub tids: Vec<i32>,
}

/// The numbers among names.
pub open spec fn numbers_in(names: Seq<Seq<char>>) -> Seq<i32>
    decreases names.len(),
{
    if names.len() == 0 {
        Seq::empty()
    } else {
        let before = numbers_in(names.drop_last());
        match number_in(names.last()) {
            Some(n) => before.push(n),
            None => before,
        }
    }
}

/// The threads of a process, from the names in its task directory.
pub fn task_group(pid: i32, names: &[String]) -> (r: TaskGroup)
    ensures
        r.pid == pid,
        r.tids@ == numbers_in(text::texts(names@)),
{
    let ghost all = text::texts(names@);
    let mut tids: Vec<i32> = Vec::new();
    let mut i: usize = 0;
    while i < names.len()
        invariant
            i <= names@.len(),
            all == text::texts(names@),
            tids@ == numbers_in(all.take(i as int)),
        decreases names@.len() - i,
    {
        assert(all.take(i + 1).drop_last() =~= all.take(i as int));
        if let Some(tid) = process_number(names[i].as_str()) {
            tids.push(tid);
        }
        i += 1;
    }
    assert(all.take(i as int) =~= all);
    TaskGroup { pid, tids }
}

/// The parent's number in a process's status line: the second word after the
/// last closing parenthesis.
pub open spec fn ppid_in(stat: Seq<char>) -> Option<i32> {
    let fields = text::words_of(text::after_last(stat, ')'));
    if stat.contains(')') && fields.len() > 1 {
        number_in(fields[1])
    } else {
        None
    }
}

/// A process's status line names the process in a field that can hold spaces
/// and parentheses, so the parent is taken from after the last `)` rather than
/// by splitting the whole line.
#[must_use]
pub fn ppid_from_stat(stat: &str) -> (r: Option<i32>)
    ensures
        r == ppid_in(stat@),
{
    let chars = chars_of(stat);
    let at: usize = find(&chars, ')');
    if at >= chars.len() {
        assert(!stat@.contains(')'));
        return None;
    }
    assert(stat@[at as int] == ')');
    let fields = words(after_last_of(&chars, ')'));
    if fields.len() > 1 {
        assert(text::contents(fields@)[1] == fields@[1]@);
        read_number(fields[1])
    } else {
        None
    }
}

/// A name before the last parenthesis cannot shift which field the parent is
/// read from.
pub proof fn lemma_name_cannot_shift_the_parent(name: Seq<char>, other: Seq<char>, tail: Seq<char>)
    requires
        !tail.contains(')'),
    ensures
        ppid_in(name.push(')') + tail) == ppid_in(other.push(')') + tail),
    decreases tail.len(),
{
    lemma_tail_is_after_last(name, tail);
    lemma_tail_is_after_last(other, tail);
    assert((name.push(')') + tail)[name.len() as int] == ')');
    assert((other.push(')') + tail)[other.len() as int] == ')');
}

proof fn lemma_tail_is_after_last(name: Seq<char>, tail: Seq<char>)
    requires
        !tail.contains(')'),
    ensures
        text::after_last(name.push(')') + tail, ')') == tail,
    decreases tail.len(),
{
    let s = name.push(')') + tail;
    if tail.len() > 0 {
        assert(tail.contains(tail.last()));
        assert forall|c: char| tail.drop_last().contains(c) implies tail.contains(c) by {
            let i = choose|i: int| 0 <= i < tail.drop_last().len() && tail.drop_last()[i] == c;
            assert(tail[i] == c);
        }
        lemma_tail_is_after_last(name, tail.drop_last());
        assert(s.drop_last() =~= name.push(')') + tail.drop_last());
        assert(s.last() == tail.last());
        assert(tail.drop_last().push(tail.last()) =~= tail);
    } else {
        assert(s.last() == ')');
        assert(tail =~= Seq::empty());
    }
}

/// A process and its parent.
#[derive(Debug, Clone, Copy, PartialEq, Eq, Structural)]
pub struct Kin {
    pub pid: i32,
    pub ppid: i32,
}

/// `pids` with the children of `parent` among the first `n` of `kin` that it
/// does not hold yet.
pub open spec fn with_children(pids: Seq<i32>, kin: Seq<Kin>, parent: i32, n: int) -> Seq<i32>
    decreases n,
{
    if n <= 0 {
        pids
    } else {
        let before = with_children(pids, kin, parent, n - 1);
        if kin[n - 1].ppid == parent && !before.contains(kin[n - 1].pid) {
            before.push(kin[n - 1].pid)
        } else {
            before
        }
    }
}

/// A breadth-first walk from where the first `done` of `pids` have had their
/// children added.
pub open spec fn walked(pids: Seq<i32>, kin: Seq<Kin>, done: int) -> Seq<i32>
    decreases kin.len() + 1 - done,
{
    if done >= pids.len() || done > kin.len() {
        pids
    } else {
        walked(with_children(pids, kin, pids[done], kin.len() as int), kin, done + 1)
    }
}

/// The processes under `pid`, itself first, in the order of a breadth-first
/// walk.
pub open spec fn tree_of(pid: i32, kin: Seq<Kin>) -> Seq<i32> {
    walked(seq![pid], kin, 0)
}

/// Whether a parent and a child are among `kin`.
pub open spec fn is_child(kin: Seq<Kin>, parent: i32, child: i32) -> bool {
    kin.contains(Kin { pid: child, ppid: parent })
}

/// Whether one of `pids` is a child of one before it.
pub open spec fn has_parent_before(pids: Seq<i32>, kin: Seq<Kin>, i: int) -> bool {
    exists|k: int| 0 <= k < i && #[trigger] is_child(kin, pids[k], pids[i])
}

/// What holds of a list of processes throughout a walk from `pid`: it begins
/// with `pid`, holds nothing twice, and each of the others is a child of one
/// before it.
pub open spec fn grown_from(pids: Seq<i32>, pid: i32, kin: Seq<Kin>) -> bool {
    &&& pids.len() > 0
    &&& pids[0] == pid
    &&& pids.no_duplicates()
    &&& forall|i: int| 0 < i < pids.len() ==> #[trigger] has_parent_before(pids, kin, i)
}

proof fn lemma_grown_is_bounded(pids: Seq<i32>, pid: i32, kin: Seq<Kin>)
    requires
        grown_from(pids, pid, kin),
    ensures
        pids.len() <= kin.len() + 1,
{
    let rest = pids.skip(1);
    let children = kin.map_values(|k: Kin| k.pid);
    assert(rest.no_duplicates());
    assert forall|x: i32| rest.to_set().contains(x) implies children.to_set().contains(x) by {
        let i = choose|i: int| 0 <= i < rest.len() && rest[i] == x;
        assert(pids[i + 1] == x);
        assert(has_parent_before(pids, kin, i + 1));
        let k = choose|k: int| 0 <= k < i + 1 && #[trigger] is_child(kin, pids[k], pids[i + 1]);
        let j = choose|j: int|
            0 <= j < kin.len() && kin[j] == (Kin { pid: pids[i + 1], ppid: pids[k] });
        assert(children[j] == x);
    }
    rest.unique_seq_to_set();
    children.lemma_cardinality_of_set();
    vstd::set_lib::lemma_len_subset(rest.to_set(), children.to_set());
}

/// The walk adds to what it is given, and what it adds keeps it grown.
proof fn lemma_children_keep_grown(
    pids: Seq<i32>,
    pid: i32,
    kin: Seq<Kin>,
    at: int,
    n: int,
)
    requires
        grown_from(pids, pid, kin),
        0 <= at < pids.len(),
        0 <= n <= kin.len(),
    ensures
        grown_from(with_children(pids, kin, pids[at], n), pid, kin),
        with_children(pids, kin, pids[at], n).len() >= pids.len(),
        with_children(pids, kin, pids[at], n).take(pids.len() as int) == pids,
        forall|j: int|
            0 <= j < n && (#[trigger] kin[j]).ppid == pids[at] ==> with_children(
                pids,
                kin,
                pids[at],
                n,
            ).contains(kin[j].pid),
    decreases n,
{
    if n == 0 {
        assert(pids.take(pids.len() as int) =~= pids);
    } else {
        lemma_children_keep_grown(pids, pid, kin, at, n - 1);
        let before = with_children(pids, kin, pids[at], n - 1);
        let after = with_children(pids, kin, pids[at], n);
        assert(after.take(pids.len() as int) =~= before.take(pids.len() as int));
        if after.len() > before.len() {
            assert(after =~= before.push(kin[n - 1].pid));
            assert(after[0] == before[0]);
            assert(before[at] == before.take(pids.len() as int)[at]);
            assert(is_child(kin, after[at], after[before.len() as int])) by {
                assert(kin[n - 1] == (Kin { pid: kin[n - 1].pid, ppid: pids[at] }));
            }
            assert forall|i: int| 0 < i < after.len() implies #[trigger] has_parent_before(
                after,
                kin,
                i,
            ) by {
                if i < before.len() {
                    assert(has_parent_before(before, kin, i));
                    let k = choose|k: int| 0 <= k < i && #[trigger] is_child(kin, before[k], before[i]);
                    assert(0 <= k < i && is_child(kin, after[k], after[i]));
                } else {
                    assert(0 <= at < i && is_child(kin, after[at], after[i]));
                }
            }
            assert forall|i: int, j: int|
                0 <= i < after.len() && 0 <= j < after.len() && i != j implies after[i]
                != after[j] by {
                if i == before.len() {
                    assert(before.contains(before[j]));
                } else if j == before.len() {
                    assert(before.contains(before[i]));
                }
            }
            assert(after.no_duplicates());
        } else {
            assert(after == before);
        }
        assert forall|j: int| 0 <= j < n && (#[trigger] kin[j]).ppid == pids[at] implies
            after.contains(kin[j].pid) by {
            if j < n - 1 {
                let k = choose|k: int| 0 <= k < before.len() && before[k] == kin[j].pid;
                assert(after[k] == kin[j].pid);
            } else if after.len() > before.len() {
                assert(after[before.len() as int] == kin[j].pid);
            }
        }
    }
}

/// Whether the children of the first `done` of `pids` are all among `pids`.
pub open spec fn closed_up_to(pids: Seq<i32>, kin: Seq<Kin>, done: int) -> bool {
    forall|j: int, k: int|
        0 <= j < done && 0 <= k < kin.len() && (#[trigger] kin[k]).ppid == #[trigger] pids[j]
            ==> pids.contains(kin[k].pid)
}

proof fn lemma_walk(pids: Seq<i32>, pid: i32, kin: Seq<Kin>, done: int)
    requires
        grown_from(pids, pid, kin),
        0 <= done <= pids.len(),
        closed_up_to(pids, kin, done),
    ensures
        grown_from(walked(pids, kin, done), pid, kin),
        closed_up_to(walked(pids, kin, done), kin, walked(pids, kin, done).len() as int),
    decreases kin.len() + 1 - done,
{
    lemma_grown_is_bounded(pids, pid, kin);
    if done < pids.len() && done <= kin.len() {
        lemma_step(pids, pid, kin, done);
        lemma_walk(
            with_children(pids, kin, pids[done], kin.len() as int),
            pid,
            kin,
            done + 1,
        );
    }
}

proof fn lemma_step(pids: Seq<i32>, pid: i32, kin: Seq<Kin>, done: int)
    requires
        grown_from(pids, pid, kin),
        0 <= done < pids.len(),
        closed_up_to(pids, kin, done),
    ensures
        grown_from(with_children(pids, kin, pids[done], kin.len() as int), pid, kin),
        closed_up_to(with_children(pids, kin, pids[done], kin.len() as int), kin, done + 1),
        with_children(pids, kin, pids[done], kin.len() as int).len() >= pids.len(),
        with_children(pids, kin, pids[done], kin.len() as int)[done] == pids[done],
{
    lemma_children_keep_grown(pids, pid, kin, done, kin.len() as int);
    let after = with_children(pids, kin, pids[done], kin.len() as int);
    assert(after.take(pids.len() as int)[done] == after[done]);
    assert forall|j: int, k: int|
        0 <= j < done + 1 && 0 <= k < kin.len() && (#[trigger] kin[k]).ppid
            == #[trigger] after[j] implies after.contains(kin[k].pid) by {
        assert(after[j] == after.take(pids.len() as int)[j]);
        assert(after[j] == pids[j]);
        if j < done {
            assert(pids.contains(kin[k].pid));
            let i = choose|i: int| 0 <= i < pids.len() && pids[i] == kin[k].pid;
            assert(after.take(pids.len() as int)[i] == after[i]);
            assert(after[i] == kin[k].pid);
        }
    }
}

/// The tree of a process begins with it, holds nothing twice, holds every
/// child of what it holds, and holds nothing else: each of the others is a
/// child of one before it.
pub proof fn lemma_tree(pid: i32, kin: Seq<Kin>)
    ensures
        grown_from(tree_of(pid, kin), pid, kin),
        forall|k: int|
            0 <= k < kin.len() && tree_of(pid, kin).contains((#[trigger] kin[k]).ppid) ==> tree_of(
                pid,
                kin,
            ).contains(kin[k].pid),
{
    lemma_walk(seq![pid], pid, kin, 0);
    let tree = tree_of(pid, kin);
    assert forall|k: int|
        0 <= k < kin.len() && tree.contains((#[trigger] kin[k]).ppid) implies tree.contains(
        kin[k].pid,
    ) by {
        let j = choose|j: int| 0 <= j < tree.len() && tree[j] == kin[k].ppid;
        assert(kin[k].ppid == tree[j]);
    }
}

/// Every process under `pid`, walking forked children as well. There is no
/// kernel mechanism that carries a uprobe event into a child for this PMU, so
/// following a fork means finding the child and arming it separately.
pub fn task_tree(pid: i32, kin: &[Kin]) -> (r: Vec<i32>)
    ensures
        r@ == tree_of(pid, kin@),
{
    let mut pids: Vec<i32> = Vec::new();
    pids.push(pid);
    assert(pids@ =~= seq![pid]);
    let total: usize = kin.len();
    let mut done: usize = 0;
    while done < pids.len()
        invariant
            total == kin@.len(),
            done <= pids@.len(),
            grown_from(pids@, pid, kin@),
            closed_up_to(pids@, kin@, done as int),
            tree_of(pid, kin@) == walked(pids@, kin@, done as int),
        decreases total + 1 - done,
    {
        proof {
            lemma_grown_is_bounded(pids@, pid, kin@);
            lemma_step(pids@, pid, kin@, done as int);
        }
        let ghost before = pids@;
        let parent: i32 = pids[done];
        let mut n: usize = 0;
        while n < total
            invariant
                n <= total,
                total == kin@.len(),
                pids@ == with_children(before, kin@, parent, n as int),
            decreases total - n,
        {
            if kin[n].ppid == parent && !holds(&pids, &kin[n].pid) {
                pids.push(kin[n].pid);
            }
            n += 1;
        }
        done += 1;
    }
    proof {
        lemma_grown_is_bounded(pids@, pid, kin@);
    }
    pids
}

/// Whether a mapped path is that of a library of that name.
pub open spec fn is_named(mapping: MappingView, name: Seq<char>) -> bool {
    match mapping.path {
        Some(path) => text::after_last(path, '/') == name,
        None => false,
    }
}

/// The mapped paths of libraries of that name.
pub open spec fn paths_named(mappings: Seq<MappingView>, name: Seq<char>) -> Seq<Seq<char>>
    decreases mappings.len(),
{
    if mappings.len() == 0 {
        Seq::empty()
    } else {
        let before = paths_named(mappings.drop_last(), name);
        if is_named(mappings.last(), name) {
            before.push(mappings.last().path->0)
        } else {
            before
        }
    }
}

/// The first of `paths` that is not `first`.
pub open spec fn other_than(paths: Seq<Seq<char>>, first: Seq<char>) -> Option<Seq<char>>
    decreases paths.len(),
{
    if paths.len() == 0 {
        None
    } else if paths[0] != first {
        Some(paths[0])
    } else {
        other_than(paths.skip(1), first)
    }
}

/// The path of a library: as it is given where it is absolute, else the one
/// path that the target has mapped under that name.
pub open spec fn library_of(path: Seq<char>, mappings: Seq<MappingView>) -> Outcome<Seq<char>> {
    let named = paths_named(mappings, path);
    if path.len() > 0 && path[0] == '/' {
        Outcome::Got(path)
    } else if named.len() == 0 {
        Outcome::Told(Kind::NotFound, "the target has no mapped library named "@ + path)
    } else {
        match other_than(named, named[0]) {
            Some(other) => Outcome::Told(
                Kind::InvalidInput,
                path + " is ambiguous between "@ + named[0] + " and "@ + other,
            ),
            None => Outcome::Got(named[0]),
        }
    }
}

/// An app library's path is unguessable, so a bare basename is matched against
/// what the target actually has mapped.
pub fn resolve_library(path: &str, mappings: &[Mapping]) -> (r: Result<String, Fault>)
    ensures
        match r {
            Ok(found) => library_of(path@, maps::views(mappings@)) == Outcome::Got(found@),
            Err(f) => fault::fails(library_of(path@, maps::views(mappings@)), f),
        },
{
    let chars = chars_of(path);
    if chars.len() > 0 && chars[0] == '/' {
        return Ok(path.to_owned());
    }
    let ghost all = maps::views(mappings@);
    let mut named: Vec<String> = Vec::new();
    let mut i: usize = 0;
    assert(text::texts(named@) =~= Seq::empty());
    while i < mappings.len()
        invariant
            i <= mappings@.len(),
            all == maps::views(mappings@),
            text::texts(named@) == paths_named(all.take(i as int), path@),
        decreases mappings@.len() - i,
    {
        assert(all.take(i + 1).drop_last() =~= all.take(i as int));
        assert(all[i as int] == mappings@[i as int]@);
        if let Some(mapped) = &mappings[i].path {
            let letters = chars_of(mapped.as_str());
            let base = string_of(after_last_of(&letters, '/'));
            if same(base.as_str(), path) {
                let ghost before = named@;
                named.push(mapped.as_str().to_owned());
                assert(text::texts(named@) =~= text::texts(before).push(mapped@));
            }
        }
        i += 1;
    }
    assert(all.take(i as int) =~= all);
    let ghost found = paths_named(all, path@);
    if named.len() == 0 {
        let mut message = "the target has no mapped library named ".to_owned();
        message.append(path);
        return Err(tell_owned(Kind::NotFound, message));
    }
    let mut k: usize = 0;
    assert(found.skip(0) =~= found);
    while k < named.len()
        invariant
            k <= named@.len(),
            named@.len() > 0,
            found == text::texts(named@),
            found == paths_named(maps::views(mappings@), path@),
            !(path@.len() > 0 && path@[0] == '/'),
            other_than(found, found[0]) == other_than(found.skip(k as int), found[0]),
        decreases named@.len() - k,
    {
        assert(found.skip(k as int).skip(1) =~= found.skip(k + 1));
        if !same(named[k].as_str(), named[0].as_str()) {
            let mut message = path.to_owned();
            message.append(" is ambiguous between ");
            message.append(named[0].as_str());
            message.append(" and ");
            message.append(named[k].as_str());
            return Err(tell_owned(Kind::InvalidInput, message));
        }
        k += 1;
    }
    Ok(named[0].as_str().to_owned())
}

/// A prefix that marks a hexadecimal number.
pub open spec fn marked_hex(s: Seq<char>) -> bool {
    s.len() >= 2 && s[0] == '0' && (s[1] == 'x' || s[1] == 'X')
}

/// An address: hexadecimal behind its mark, decimal otherwise, with white
/// space around it.
pub open spec fn address_in(s: Seq<char>) -> Option<u64> {
    let inner = text::trimmed(s);
    let value = if marked_hex(inner) {
        text::unsigned_value(inner.skip(2), 16, u64::MAX as int)
    } else {
        text::unsigned_value(inner, 10, u64::MAX as int)
    };
    match value {
        Ok(n) => Some(n as u64),
        Err(_) => None,
    }
}

/// Accepts 0x-prefixed hex, since that is how a disassembler shows an address.
pub fn parse_address(text: &str) -> (r: Option<u64>)
    ensures
        r == address_in(text@),
{
    read_address(&chars_of(text))
}

/// Reads an address out of characters.
pub fn read_address(text: &[char]) -> (r: Option<u64>)
    ensures
        r == address_in(text@),
{
    let inner = trim(text);
    let value = if inner.len() >= 2 && inner[0] == '0' && (inner[1] == 'x' || inner[1] == 'X') {
        let digits = vstd::slice::slice_subrange(inner, 2, inner.len());
        assert(digits@ =~= inner@.skip(2));
        read_unsigned(digits, 16, u64::MAX)
    } else {
        read_unsigned(inner, 10, u64::MAX)
    };
    match value {
        Ok(n) => Some(n),
        Err(_) => None,
    }
}

proof fn lemma_digits_are_no_space(n: nat)
    ensures
        text::hex_digits(n).len() > 0,
        forall|i: int|
            0 <= i < text::hex_digits(n).len() ==> !text::space(#[trigger] text::hex_digits(n)[i]),
    decreases n,
{
    let s = text::hex_digits(n);
    if n >= 16 {
        lemma_digits_are_no_space(n / 16);
        let before = text::hex_digits(n / 16);
        assert forall|i: int| 0 <= i < s.len() implies !text::space(#[trigger] s[i]) by {
            if i < before.len() {
                assert(s[i] == before[i]);
            }
        }
    }
}

/// An address that is shown in hexadecimal reads back as itself.
pub proof fn lemma_shown_address_reads_back(addr: u64)
    ensures
        address_in(text::hex_text(addr as nat)) == Some(addr),
{
    let s = text::hex_text(addr as nat);
    let digits = text::hex_digits(addr as nat);
    lemma_digits_are_no_space(addr as nat);
    text::lemma_hex_reads_back(addr as nat, u64::MAX as int);
    reveal_strlit("0x");
    assert(s.len() == digits.len() + 2);
    assert(s[0] == '0' && s[1] == 'x');
    assert(s.last() == digits.last());
    assert(s.skip(2) =~= digits);
    assert(text::trimmed(s) == s);
}

/// What a site in a probe file means: an address where it is marked as one,
/// else a symbol.
pub open spec fn site_place(site: Seq<char>) -> Place {
    match address_in(site) {
        Some(vaddr) => if marked_hex(site) {
            Place::VirtualAddress(vaddr)
        } else {
            Place::Symbol(site)
        },
        None => Place::Symbol(site),
    }
}

/// Reads a site of a probe file, which is a symbol unless it looks like an
/// address.
pub fn site_location(site: &str) -> (r: Location)
    ensures
        r@ == site_place(site@),
{
    let chars = chars_of(site);
    if chars.len() >= 2 && chars[0] == '0' && (chars[1] == 'x' || chars[1] == 'X') {
        if let Some(vaddr) = read_address(&chars) {
            return Location::VirtualAddress(vaddr);
        }
    }
    Location::Symbol(site.to_owned())
}

/// The file offset of a place in an object file.
pub open spec fn offset_in(place: Place, image: Seq<u8>) -> Outcome<u64> {
    match place {
        Place::FileOffset(offset) => Outcome::Got(offset),
        Place::VirtualAddress(vaddr) => if !crate::elf::readable(image) {
            Outcome::Refused(ElfPart::Object)
        } else {
            match crate::elf::segments_of(image) {
                Outcome::Got(segments) => place_of(vaddr, segments),
                Outcome::Told(kind, text) => Outcome::Told(kind, text),
                Outcome::Refused(part) => Outcome::Refused(part),
            }
        },
        Place::Symbol(symbol) => if !crate::elf::readable(image) {
            Outcome::Refused(ElfPart::Object)
        } else {
            crate::elf::probe_offset_of(image, symbol)
        },
    }
}

/// The file offset of an address, given the segments of its file.
pub open spec fn place_of(vaddr: u64, segments: Seq<Segment>) -> Outcome<u64> {
    match crate::elf::offset_of(segments, vaddr) {
        Some(offset) => Outcome::Got(offset),
        None => Outcome::Told(
            Kind::InvalidInput,
            text::hex_text(vaddr as nat) + " is not inside any PT_LOAD segment"@,
        ),
    }
}

/// Finds the file offset of an address among the segments of its file.
pub fn place_address(vaddr: u64, segments: &[Segment]) -> (r: Result<u64, Fault>)
    ensures
        match r {
            Ok(offset) => place_of(vaddr, segments@) == Outcome::Got(offset),
            Err(f) => fault::fails(place_of(vaddr, segments@), f),
        },
{
    match vaddr_to_file_offset(segments, vaddr) {
        Some(offset) => Ok(offset),
        None => {
            let mut message = hex(vaddr);
            message.append(" is not inside any PT_LOAD segment");
            Err(tell_owned(Kind::InvalidInput, message))
        },
    }
}

/// Whether the file has to be read to place a probe.
pub fn needs_image(location: &Location) -> (r: bool)
    ensures
        r == !(location@ is FileOffset),
{
    match location {
        Location::FileOffset(_) => false,
        _ => true,
    }
}

/// The file offset to probe, where `image` is what the file holds.
pub fn probe_site(location: &Location, image: &[u8]) -> (r: Result<u64, Fault>)
    ensures
        match r {
            Ok(offset) => offset_in(location@, image@) == Outcome::Got(offset),
            Err(f) => fault::fails(offset_in(location@, image@), f),
        },
{
    match location {
        Location::FileOffset(offset) => Ok(*offset),
        Location::VirtualAddress(vaddr) => {
            let object = match Elf::parse(image) {
                Ok(object) => object,
                Err(f) => return Err(f),
            };
            match object.segments() {
                Ok(segments) => place_address(*vaddr, &segments),
                Err(f) => Err(f),
            }
        },
        Location::Symbol(symbol) => match Elf::parse(image) {
            Ok(object) => object.probe_offset(symbol.as_str()),
            Err(f) => Err(f),
        },
    }
}

/// Resolves one entry of a probe file, where `image` is what the library's
/// file holds.
pub fn site_offset(site: &str, image: &[u8]) -> (r: Result<u64, Fault>)
    ensures
        match r {
            Ok(offset) => offset_in(site_place(site@), image@) == Outcome::Got(offset),
            Err(f) => fault::fails(offset_in(site_place(site@), image@), f),
        },
{
    probe_site(&site_location(site), image)
}

/// The most that is read from a process at once. A read of several megabytes
/// can come back short.
pub const CHUNK: usize = 0x10_0000;

/// The next piece to read of `len` bytes at `addr`, of which `got` are there.
pub fn next_read(addr: u64, got: usize, len: usize) -> (r: Option<(u64, usize)>)
    requires
        addr + got <= u64::MAX,
    ensures
        r is Some <==> got < len,
        r matches Some(piece) ==> piece.0 == addr + got && piece.1 == if len - got < CHUNK {
            len - got
        } else {
            CHUNK as int
        },
{
    if got >= len {
        return None;
    }
    let want: usize = if len - got < CHUNK {
        len - got
    } else {
        CHUNK
    };
    Some((addr + got as u64, want))
}

/// The parts of a mapping that are genuinely segment content: what a segment
/// holds of the file, clipped to the mapping and to the file's length.
pub open spec fn extent_of(seg: Segment, at: int, span: int, limit: int) -> Option<(int, int)> {
    let stop = if at + span < limit {
        at + span
    } else {
        limit
    };
    let end = if seg.offset + seg.filesz < limit {
        seg.offset + seg.filesz
    } else {
        limit
    };
    let from = if seg.offset > at {
        seg.offset as int
    } else {
        at
    };
    let to = if end < stop {
        end
    } else {
        stop
    };
    if seg.offset + seg.filesz <= usize::MAX && from < to {
        Some((from, to))
    } else {
        None
    }
}

/// The extents of segments, in order.
pub open spec fn extents_of(segments: Seq<Segment>, at: int, span: int, limit: int) -> Seq<
    (int, int),
>
    decreases segments.len(),
{
    if segments.len() == 0 {
        Seq::empty()
    } else {
        let before = extents_of(segments.drop_last(), at, span, limit);
        match extent_of(segments.last(), at, span, limit) {
            Some(extent) => before.push(extent),
            None => before,
        }
    }
}

/// The bounds of ranges.
pub open spec fn bounds(ranges: Seq<Range<usize>>) -> Seq<(int, int)> {
    Seq::new(ranges.len(), |i: int| (ranges[i].start as int, ranges[i].end as int))
}

fn clip(seg: Segment, at: usize, span: usize, limit: usize) -> (r: Option<Range<usize>>)
    ensures
        match r {
            Some(range) => extent_of(seg, at as int, span as int, limit as int) == Some(
                (range.start as int, range.end as int),
            ),
            None => extent_of(seg, at as int, span as int, limit as int) is None,
        },
{
    let stop: usize = match at.checked_add(span) {
        Some(stop) => if stop < limit {
            stop
        } else {
            limit
        },
        None => limit,
    };
    let start: usize = match usize::try_from(seg.offset) {
        Ok(start) => start,
        Err(_) => return None,
    };
    let size: usize = match usize::try_from(seg.filesz) {
        Ok(size) => size,
        Err(_) => return None,
    };
    let end: usize = match start.checked_add(size) {
        Some(end) => if end < limit {
            end
        } else {
            limit
        },
        None => return None,
    };
    let from: usize = if start > at {
        start
    } else {
        at
    };
    let to: usize = if end < stop {
        end
    } else {
        stop
    };
    if from < to {
        Some(from..to)
    } else {
        None
    }
}

/// The parts of a mapping that are genuinely segment content, as file ranges.
/// A mapping's offset is page aligned, so it can begin before the segment it
/// carries and its tail can run past it, and in memory those edges hold bss or
/// heap rather than the file's own bytes. Overlaying a whole mapping buries
/// the section table under live data and leaves a dump no disassembler will
/// open.
pub fn file_extents(segments: &[Segment], at: usize, span: usize, limit: usize) -> (r: Vec<
    Range<usize>,
>)
    ensures
        bounds(r@) == extents_of(segments@, at as int, span as int, limit as int),
{
    let mut out: Vec<Range<usize>> = Vec::new();
    let mut i: usize = 0;
    assert(bounds(out@) =~= Seq::empty());
    while i < segments.len()
        invariant
            i <= segments@.len(),
            bounds(out@) == extents_of(
                segments@.take(i as int),
                at as int,
                span as int,
                limit as int,
            ),
        decreases segments@.len() - i,
    {
        assert(segments@.take(i + 1).drop_last() =~= segments@.take(i as int));
        if let Some(range) = clip(segments[i], at, span, limit) {
            let ghost before = out@;
            let ghost pair = (range.start as int, range.end as int);
            out.push(range);
            assert(bounds(out@) =~= bounds(before).push(pair));
        }
        i += 1;
    }
    assert(segments@.take(i as int) =~= segments@);
    out
}

/// Every extent of a mapping lies inside the mapping, inside the file, and
/// inside what one segment holds of the file.
pub proof fn lemma_overlays_are_clipped(
    segments: Seq<Segment>,
    at: int,
    span: int,
    limit: int,
    i: int,
)
    requires
        0 <= i < extents_of(segments, at, span, limit).len(),
    ensures
        at <= extents_of(segments, at, span, limit)[i].0 < extents_of(
            segments,
            at,
            span,
            limit,
        )[i].1 <= limit,
        extents_of(segments, at, span, limit)[i].1 <= at + span,
        exists|k: int|
            0 <= k < segments.len() && (#[trigger] segments[k]).offset <= extents_of(
                segments,
                at,
                span,
                limit,
            )[i].0 && extents_of(segments, at, span, limit)[i].1 <= segments[k].offset
                + segments[k].filesz,
    decreases segments.len(),
{
    let rest = segments.drop_last();
    let before = extents_of(rest, at, span, limit);
    if i < before.len() {
        lemma_overlays_are_clipped(rest, at, span, limit, i);
        let k = choose|k: int|
            0 <= k < rest.len() && (#[trigger] rest[k]).offset <= before[i].0 && before[i].1
                <= rest[k].offset + rest[k].filesz;
        assert(segments[k] == rest[k]);
    } else {
        let k = segments.len() - 1;
        assert(segments[k] == segments.last());
    }
}

/// A piece of a process's memory to lay over a file.
#[derive(Debug, Clone, Copy, PartialEq, Eq, Structural)]
pub struct Overlay {
    pub at: usize,
    pub addr: u64,
    pub len: usize,
}

/// The size of a mapping.
pub open spec fn span_of(mapping: MappingView) -> int {
    if mapping.start <= mapping.end {
        mapping.end - mapping.start
    } else {
        0
    }
}

/// The pieces of one mapping that are segment content.
pub open spec fn overlays_in(mapping: MappingView, segments: Seq<Segment>, limit: int) -> Seq<
    Overlay,
> {
    let extents = extents_of(segments, mapping.pgoff as int, span_of(mapping), limit);
    Seq::new(
        extents.len(),
        |i: int|
            Overlay {
                at: extents[i].0 as usize,
                addr: (mapping.start + (extents[i].0 - mapping.pgoff)) as u64,
                len: (extents[i].1 - extents[i].0) as usize,
            },
    )
}

/// The pieces of all mappings of a file that are segment content.
pub open spec fn overlays_of(
    mappings: Seq<MappingView>,
    path: Seq<char>,
    segments: Seq<Segment>,
    limit: int,
) -> Seq<Overlay>
    decreases mappings.len(),
{
    if mappings.len() == 0 {
        Seq::empty()
    } else {
        let before = overlays_of(mappings.drop_last(), path, segments, limit);
        if mappings.last().path == Some(path) {
            before + overlays_in(mappings.last(), segments, limit)
        } else {
            before
        }
    }
}

proof fn lemma_long_spans_agree(segments: Seq<Segment>, at: int, a: int, b: int, limit: int)
    requires
        at + a >= limit,
        at + b >= limit,
    ensures
        extents_of(segments, at, a, limit) == extents_of(segments, at, b, limit),
    decreases segments.len(),
{
    if segments.len() > 0 {
        lemma_long_spans_agree(segments.drop_last(), at, a, b, limit);
    }
}

proof fn lemma_nothing_past_the_end(segments: Seq<Segment>, at: int, span: int, limit: int)
    requires
        at >= limit,
    ensures
        extents_of(segments, at, span, limit).len() == 0,
    decreases segments.len(),
{
    if segments.len() > 0 {
        lemma_nothing_past_the_end(segments.drop_last(), at, span, limit);
    }
}

fn mapping_overlays(mapping: &Mapping, segments: &[Segment], limit: usize) -> (r: Vec<Overlay>)
    ensures
        r@ == overlays_in(mapping@, segments@, limit as int),
{
    let mut out: Vec<Overlay> = Vec::new();
    let ghost whole = span_of(mapping@);
    let at: usize = match usize::try_from(mapping.pgoff) {
        Ok(at) => at,
        Err(_) => {
            proof {
                lemma_nothing_past_the_end(
                    segments@,
                    mapping.pgoff as int,
                    whole,
                    limit as int,
                );
            }
            return out;
        },
    };
    let size: u64 = if mapping.start <= mapping.end {
        mapping.end - mapping.start
    } else {
        0
    };
    let span: usize = match usize::try_from(size) {
        Ok(span) => span,
        Err(_) => {
            proof {
                lemma_long_spans_agree(
                    segments@,
                    at as int,
                    whole,
                    usize::MAX as int,
                    limit as int,
                );
            }
            usize::MAX
        },
    };
    let ghost extents = extents_of(segments@, at as int, whole, limit as int);
    let ranges = file_extents(segments, at, span, limit);
    assert(bounds(ranges@) == extents);
    while out.len() < ranges.len()
        invariant
            out@.len() <= ranges@.len(),
            at == mapping.pgoff,
            whole == span_of(mapping@),
            bounds(ranges@) == extents,
            extents == extents_of(segments@, at as int, whole, limit as int),
            out@ =~= overlays_in(mapping@, segments@, limit as int).take(out@.len() as int),
        decreases ranges@.len() - out@.len(),
    {
        let i: usize = out.len();
        proof {
            lemma_overlays_are_clipped(segments@, at as int, whole, limit as int, i as int);
            assert(bounds(ranges@)[i as int] == extents[i as int]);
        }
        let from: usize = ranges[i].start;
        let to: usize = ranges[i].end;
        let addr: u64 = mapping.start + (from - at) as u64;
        out.push(Overlay { at: from, addr, len: to - from });
    }
    assert(out@ =~= overlays_in(mapping@, segments@, limit as int));
    out
}

/// What to read of a process to lay a library's runtime bytes over a copy of
/// its file. A packed library decrypts its own text at load, so the mapped
/// bytes are the real code while the file on disk is ciphertext, and laid over
/// the file they keep its headers and still load in a disassembler.
pub fn overlays(mappings: &[Mapping], path: &str, segments: &[Segment], limit: usize) -> (r: Vec<
    Overlay,
>)
    ensures
        r@ == overlays_of(maps::views(mappings@), path@, segments@, limit as int),
{
    let ghost all = maps::views(mappings@);
    let mut out: Vec<Overlay> = Vec::new();
    let mut i: usize = 0;
    while i < mappings.len()
        invariant
            i <= mappings@.len(),
            all == maps::views(mappings@),
            out@ == overlays_of(all.take(i as int), path@, segments@, limit as int),
        decreases mappings@.len() - i,
    {
        assert(all.take(i + 1).drop_last() =~= all.take(i as int));
        assert(all[i as int] == mappings@[i as int]@);
        if mappings[i].is_of(path) {
            let mut more = mapping_overlays(&mappings[i], segments, limit);
            out.append(&mut more);
        }
        i += 1;
    }
    assert(all.take(i as int) =~= all);
    out
}

/// Whether a piece lies inside the file, inside what one segment holds of it,
/// and inside a mapping of the file, at the address that has its offset.
pub open spec fn is_sound(
    piece: Overlay,
    mappings: Seq<MappingView>,
    path: Seq<char>,
    segments: Seq<Segment>,
    limit: int,
) -> bool {
    &&& piece.len > 0
    &&& piece.at + piece.len <= limit
    &&& exists|k: int|
        0 <= k < segments.len() && (#[trigger] segments[k]).offset <= piece.at && piece.at
            + piece.len <= segments[k].offset + segments[k].filesz
    &&& exists|m: int|
        0 <= m < mappings.len() && (#[trigger] mappings[m]).path == Some(path)
            && mappings[m].start <= piece.addr && piece.addr + piece.len <= mappings[m].end
            && piece.at - mappings[m].pgoff == piece.addr - mappings[m].start
}

/// Every piece that is read for a dump is sound.
pub proof fn lemma_overlays_are_sound(
    mappings: Seq<MappingView>,
    path: Seq<char>,
    segments: Seq<Segment>,
    limit: int,
    i: int,
)
    requires
        0 <= i < overlays_of(mappings, path, segments, limit).len(),
        limit <= usize::MAX,
    ensures
        is_sound(
            overlays_of(mappings, path, segments, limit)[i],
            mappings,
            path,
            segments,
            limit,
        ),
    decreases mappings.len(),
{
    let rest = mappings.drop_last();
    let before = overlays_of(rest, path, segments, limit);
    let piece = overlays_of(mappings, path, segments, limit)[i];
    if i < before.len() {
        lemma_overlays_are_sound(rest, path, segments, limit, i);
        let m = choose|m: int|
            0 <= m < rest.len() && (#[trigger] rest[m]).path == Some(path) && rest[m].start
                <= piece.addr && piece.addr + piece.len <= rest[m].end && piece.at - rest[m].pgoff
                == piece.addr - rest[m].start;
        assert(mappings[m] == rest[m]);
    } else {
        let last = mappings.last();
        let n = i - before.len();
        let extents = extents_of(segments, last.pgoff as int, span_of(last), limit);
        lemma_overlays_are_clipped(segments, last.pgoff as int, span_of(last), limit, n);
        let k = choose|k: int|
            0 <= k < segments.len() && (#[trigger] segments[k]).offset <= extents[n].0
                && extents[n].1 <= segments[k].offset + segments[k].filesz;
        assert(piece == overlays_in(last, segments, limit)[n]);
        assert(segments[k].offset <= piece.at);
        assert(mappings[mappings.len() - 1] == last);
    }
}

/// Every position of a file that a mapping of it holds, that a segment holds
/// and that lies inside the file is read for a dump, whatever the mapping's
/// permissions, from the address that the mapping has it at. A segment that
/// ends past what the machine can count is left out.
pub proof fn lemma_overlays_are_complete(
    mappings: Seq<MappingView>,
    path: Seq<char>,
    segments: Seq<Segment>,
    limit: int,
    m: int,
    k: int,
    p: int,
)
    requires
        limit <= usize::MAX,
        0 <= m < mappings.len(),
        mappings[m].path == Some(path),
        mappings[m].pgoff <= p,
        p - mappings[m].pgoff < mappings[m].end - mappings[m].start,
        0 <= k < segments.len(),
        segments[k].offset <= p < segments[k].offset + segments[k].filesz,
        segments[k].offset + segments[k].filesz <= usize::MAX,
        p < limit,
    ensures
        exists|i: int|
            0 <= i < overlays_of(mappings, path, segments, limit).len() && {
                let piece = #[trigger] overlays_of(mappings, path, segments, limit)[i];
                piece.at <= p < piece.at + piece.len && piece.addr + (p - piece.at)
                    == mappings[m].start + (p - mappings[m].pgoff)
            },
    decreases mappings.len(),
{
    let rest = mappings.drop_last();
    let before = overlays_of(rest, path, segments, limit);
    let all = overlays_of(mappings, path, segments, limit);
    if m < rest.len() {
        assert(rest[m] == mappings[m]);
        lemma_overlays_are_complete(rest, path, segments, limit, m, k, p);
        let i = choose|i: int|
            0 <= i < before.len() && {
                let piece = #[trigger] before[i];
                piece.at <= p < piece.at + piece.len && piece.addr + (p - piece.at)
                    == mappings[m].start + (p - mappings[m].pgoff)
            };
        assert(all[i] == before[i]);
    } else {
        let last = mappings.last();
        let at = last.pgoff as int;
        let span = span_of(last);
        lemma_extents_are_complete(segments, at, span, limit, k, p);
        let extents = extents_of(segments, at, span, limit);
        let n = choose|n: int|
            0 <= n < extents.len() && (#[trigger] extents[n]).0 <= p < extents[n].1;
        lemma_overlays_are_clipped(segments, at, span, limit, n);
        let i = before.len() + n;
        assert(all[i] == overlays_in(last, segments, limit)[n]);
    }
}

proof fn lemma_extents_are_complete(
    segments: Seq<Segment>,
    at: int,
    span: int,
    limit: int,
    k: int,
    p: int,
)
    requires
        limit <= usize::MAX,
        0 <= at <= p < at + span,
        p < limit,
        0 <= k < segments.len(),
        segments[k].offset <= p < segments[k].offset + segments[k].filesz,
        segments[k].offset + segments[k].filesz <= usize::MAX,
    ensures
        exists|n: int|
            0 <= n < extents_of(segments, at, span, limit).len() && (#[trigger] extents_of(
                segments,
                at,
                span,
                limit,
            )[n]).0 <= p < extents_of(segments, at, span, limit)[n].1,
    decreases segments.len(),
{
    let rest = segments.drop_last();
    let before = extents_of(rest, at, span, limit);
    let all = extents_of(segments, at, span, limit);
    if k < rest.len() {
        assert(rest[k] == segments[k]);
        lemma_extents_are_complete(rest, at, span, limit, k, p);
        let n = choose|n: int|
            0 <= n < before.len() && (#[trigger] before[n]).0 <= p < before[n].1;
        assert(all[n] == before[n]);
    } else {
        let n = before.len() as int;
        assert(extent_of(segments.last(), at, span, limit) is Some);
        assert(all[n].0 <= p < all[n].1);
    }
}

/// A file's bytes with others laid over them.
pub open spec fn laid(image: Seq<u8>, at: int, bytes: Seq<u8>) -> Seq<u8> {
    image.take(at) + bytes + image.skip(at + bytes.len())
}

/// A library as the process sees it, and how many bytes of it came out of the
/// process's memory.
#[derive(Debug)]
pub struct Dump {
    pub image: Vec<u8>,
    pub recovered: usize,
}

/// What each read brought.
pub open spec fn read_views(reads: Seq<Vec<u8>>) -> Seq<Seq<u8>> {
    Seq::new(reads.len(), |i: int| reads[i]@)
}

/// How many bytes the first `n` reads brought.
pub open spec fn bytes_read(reads: Seq<Seq<u8>>, n: int) -> int
    decreases n,
{
    if n <= 0 {
        0
    } else {
        bytes_read(reads, n - 1) + reads[n - 1].len()
    }
}

/// A file's bytes with the first `n` pieces that were read laid over them.
/// What could not be read leaves the file as it is.
pub open spec fn overlaid(
    image: Seq<u8>,
    pieces: Seq<Overlay>,
    reads: Seq<Seq<u8>>,
    n: int,
) -> Outcome<Seq<u8>>
    decreases n,
{
    if n <= 0 {
        Outcome::Got(image)
    } else {
        match overlaid(image, pieces, reads, n - 1) {
            Outcome::Got(before) => if reads[n - 1].len() == 0 {
                Outcome::Got(before)
            } else if pieces[n - 1].at + reads[n - 1].len() > before.len() {
                Outcome::Told(Kind::InvalidData, "segment overruns image"@)
            } else {
                Outcome::Got(laid(before, pieces[n - 1].at as int, reads[n - 1]))
            },
            outcome => outcome,
        }
    }
}

/// A library as the process sees it, unless nothing of it could be read.
pub open spec fn dumped(
    image: Seq<u8>,
    pieces: Seq<Overlay>,
    reads: Seq<Seq<u8>>,
    name: Seq<char>,
    pid: i32,
) -> Outcome<Seq<u8>> {
    match overlaid(image, pieces, reads, pieces.len() as int) {
        Outcome::Got(whole) => if bytes_read(reads, pieces.len() as int) == 0 {
            Outcome::Told(
                Kind::NotFound,
                "nothing of "@ + name + " is mapped in pid "@ + text::signed_text(pid as int),
            )
        } else {
            Outcome::Got(whole)
        },
        outcome => outcome,
    }
}

proof fn lemma_bytes_read_grow(reads: Seq<Seq<u8>>, n: int, m: int)
    requires
        0 <= n <= m,
    ensures
        0 <= bytes_read(reads, n) <= bytes_read(reads, m),
    decreases m,
{
    if n < m {
        lemma_bytes_read_grow(reads, n, m - 1);
    } else if n > 0 {
        lemma_bytes_read_grow(reads, n - 1, m - 1);
    }
}

proof fn lemma_overrun_stays(
    image: Seq<u8>,
    pieces: Seq<Overlay>,
    reads: Seq<Seq<u8>>,
    n: int,
    m: int,
)
    requires
        n <= m,
        !(overlaid(image, pieces, reads, n) is Got),
    ensures
        overlaid(image, pieces, reads, m) == overlaid(image, pieces, reads, n),
    decreases m - n,
{
    if n < m {
        lemma_overrun_stays(image, pieces, reads, n, m - 1);
    }
}

fn lay(image: &mut Vec<u8>, at: usize, bytes: &[u8])
    requires
        at + bytes@.len() <= old(image)@.len(),
    ensures
        final(image)@ == laid(old(image)@, at as int, bytes@),
{
    let ghost before = image@;
    let total: usize = image.len();
    let len: usize = bytes.len();
    let mut i: usize = 0;
    while i < len
        invariant
            i <= len,
            len == bytes@.len(),
            at + len <= total,
            total == before.len(),
            image@.len() == total,
            image@ =~= before.take(at as int) + bytes@.take(i as int) + before.skip(at + i),
        decreases len - i,
    {
        image.set(at + i, bytes[i]);
        i += 1;
    }
    assert(bytes@.take(len as int) =~= bytes@);
}

/// Lays what was read of a process over a copy of the library's file. Each
/// read is of the piece at its place, and one that failed brought nothing.
pub fn dump_library(
    image: Vec<u8>,
    pieces: &[Overlay],
    reads: &[Vec<u8>],
    name: &str,
    pid: i32,
) -> (r: Result<Dump, Fault>)
    requires
        pieces@.len() == reads@.len(),
        bytes_read(read_views(reads@), reads@.len() as int) <= usize::MAX,
    ensures
        match r {
            Ok(dump) => dumped(image@, pieces@, read_views(reads@), name@, pid) == Outcome::Got(
                dump.image@,
            ) && dump.recovered == bytes_read(read_views(reads@), reads@.len() as int),
            Err(f) => fault::fails(
                dumped(image@, pieces@, read_views(reads@), name@, pid),
                f,
            ),
        },
{
    let ghost all = read_views(reads@);
    let mut whole = image;
    let mut recovered: usize = 0;
    let mut n: usize = 0;
    while n < pieces.len()
        invariant
            n <= pieces@.len(),
            pieces@.len() == reads@.len(),
            all == read_views(reads@),
            bytes_read(all, reads@.len() as int) <= usize::MAX,
            overlaid(image@, pieces@, all, n as int) == Outcome::Got(whole@),
            recovered == bytes_read(all, n as int),
        decreases pieces@.len() - n,
    {
        proof {
            lemma_bytes_read_grow(all, n + 1, reads@.len() as int);
            if !(overlaid(image@, pieces@, all, n + 1) is Got) {
                lemma_overrun_stays(image@, pieces@, all, n + 1, pieces@.len() as int);
            }
        }
        let at: usize = pieces[n].at;
        let bytes = reads[n].as_slice();
        assert(bytes@ == all[n as int]);
        if bytes.len() > 0 {
            let total: usize = whole.len();
            if at > total || bytes.len() > total - at {
                return Err(tell(Kind::InvalidData, "segment overruns image"));
            }
            lay(&mut whole, at, bytes);
            recovered = recovered + bytes.len();
        }
        n += 1;
    }
    if recovered == 0 {
        let mut message = "nothing of ".to_owned();
        message.append(name);
        message.append(" is mapped in pid ");
        message.append(signed(pid).as_str());
        return Err(tell_owned(Kind::NotFound, message));
    }
    Ok(Dump { image: whole, recovered })
}

/// A dump of a library keeps the file's length, and every byte of the file that
/// no segment holds, whatever was read.
pub proof fn lemma_dump_keeps_the_rest(
    image: Seq<u8>,
    mappings: Seq<MappingView>,
    path: Seq<char>,
    segments: Seq<Segment>,
    reads: Seq<Seq<u8>>,
    n: int,
    p: int,
)
    requires
        image.len() <= usize::MAX,
        0 <= n <= overlays_of(mappings, path, segments, image.len() as int).len(),
        forall|i: int|
            0 <= i < n ==> (#[trigger] reads[i]).len() <= overlays_of(
                mappings,
                path,
                segments,
                image.len() as int,
            )[i].len,
        0 <= p < image.len(),
        forall|k: int|
            0 <= k < segments.len() ==> !((#[trigger] segments[k]).offset <= p < segments[k].offset
                + segments[k].filesz),
    ensures
        overlaid(
            image,
            overlays_of(mappings, path, segments, image.len() as int),
            reads,
            n,
        ) matches Outcome::Got(whole) && whole.len() == image.len() && whole[p] == image[p],
    decreases n,
{
    let pieces = overlays_of(mappings, path, segments, image.len() as int);
    if n > 0 {
        lemma_dump_keeps_the_rest(image, mappings, path, segments, reads, n - 1, p);
        lemma_overlays_are_sound(mappings, path, segments, image.len() as int, n - 1);
        let piece = pieces[n - 1];
        let k = choose|k: int|
            0 <= k < segments.len() && (#[trigger] segments[k]).offset <= piece.at && piece.at
                + piece.len <= segments[k].offset + segments[k].filesz;
        assert(!(segments[k].offset <= p < segments[k].offset + segments[k].filesz));
        assert(reads[n - 1].len() <= piece.len);
    }
}

proof fn lemma_reads_are_laid(
    image: Seq<u8>,
    pieces: Seq<Overlay>,
    reads: Seq<Seq<u8>>,
    live: spec_fn(int) -> u8,
    n: int,
    p: int,
)
    requires
        0 <= n <= pieces.len(),
        pieces.len() <= reads.len(),
        0 <= p < image.len(),
        forall|i: int|
            0 <= i < n ==> (#[trigger] pieces[i]).len > 0 && pieces[i].at + pieces[i].len
                <= image.len() && reads[i] == Seq::new(
                pieces[i].len as nat,
                |j: int| live(pieces[i].addr + j),
            ),
    ensures
        overlaid(image, pieces, reads, n) matches Outcome::Got(whole) && whole.len() == image.len()
            && ((exists|i: int|
            0 <= i < n && (#[trigger] pieces[i]).at <= p < pieces[i].at + pieces[i].len)
            ==> exists|i: int|
            0 <= i < n && (#[trigger] pieces[i]).at <= p < pieces[i].at + pieces[i].len && whole[p]
                == live(pieces[i].addr + (p - pieces[i].at))),
    decreases n,
{
    if n > 0 {
        lemma_reads_are_laid(image, pieces, reads, live, n - 1, p);
        let piece = pieces[n - 1];
        let before = overlaid(image, pieces, reads, n - 1)->Got_0;
        let whole = overlaid(image, pieces, reads, n)->Got_0;
        assert(reads[n - 1].len() == piece.len);
        assert(whole == laid(before, piece.at as int, reads[n - 1]));
        if piece.at <= p < piece.at + piece.len {
            assert(whole[p] == reads[n - 1][p - piece.at]);
        } else {
            assert(whole[p] == before[p]);
            if exists|i: int|
                0 <= i < n && (#[trigger] pieces[i]).at <= p < pieces[i].at + pieces[i].len {
                let i = choose|i: int|
                    0 <= i < n && (#[trigger] pieces[i]).at <= p < pieces[i].at + pieces[i].len;
                assert(0 <= i < n - 1 && pieces[i].at <= p < pieces[i].at + pieces[i].len);
                let j = choose|i: int|
                    0 <= i < n - 1 && (#[trigger] pieces[i]).at <= p < pieces[i].at + pieces[i].len
                        && before[p] == live(pieces[i].addr + (p - pieces[i].at));
                assert(pieces[j].at <= p);
            }
        }
    }
}

/// A dump holds the bytes that the process has in memory: each position of the
/// file that a mapping and a segment hold comes out as it stands at the address
/// of that position in a mapping of the file, as long as every read brought all
/// that it asked for.
pub proof fn lemma_dump_holds_the_live_bytes(
    image: Seq<u8>,
    mappings: Seq<MappingView>,
    path: Seq<char>,
    segments: Seq<Segment>,
    reads: Seq<Seq<u8>>,
    live: spec_fn(int) -> u8,
    m: int,
    k: int,
    p: int,
)
    requires
        image.len() <= usize::MAX,
        0 <= m < mappings.len(),
        mappings[m].path == Some(path),
        mappings[m].pgoff <= p,
        p - mappings[m].pgoff < mappings[m].end - mappings[m].start,
        0 <= k < segments.len(),
        segments[k].offset <= p < segments[k].offset + segments[k].filesz,
        segments[k].offset + segments[k].filesz <= usize::MAX,
        p < image.len(),
        reads.len() == overlays_of(mappings, path, segments, image.len() as int).len(),
        forall|i: int|
            0 <= i < reads.len() ==> #[trigger] reads[i] == ({
                let piece = overlays_of(mappings, path, segments, image.len() as int)[i];
                Seq::new(piece.len as nat, |j: int| live(piece.addr + j))
            }),
    ensures
        overlaid(
            image,
            overlays_of(mappings, path, segments, image.len() as int),
            reads,
            reads.len() as int,
        ) matches Outcome::Got(whole) && whole.len() == image.len() && exists|q: int|
            0 <= q < mappings.len() && (#[trigger] mappings[q]).path == Some(path)
                && mappings[q].pgoff <= p && p - mappings[q].pgoff < mappings[q].end
                - mappings[q].start && whole[p] == live(
                mappings[q].start + (p - mappings[q].pgoff),
            ),
{
    let limit = image.len() as int;
    let pieces = overlays_of(mappings, path, segments, limit);
    assert forall|i: int| 0 <= i < reads.len() implies (#[trigger] pieces[i]).len > 0 && pieces[i].at
        + pieces[i].len <= image.len() && reads[i] == Seq::new(
        pieces[i].len as nat,
        |j: int| live(pieces[i].addr + j),
    ) by {
        lemma_overlays_are_sound(mappings, path, segments, limit, i);
        assert(reads[i] =~= Seq::new(pieces[i].len as nat, |j: int| live(pieces[i].addr + j)));
    }
    lemma_overlays_are_complete(mappings, path, segments, limit, m, k, p);
    let c = choose|i: int|
        0 <= i < pieces.len() && {
            let piece = #[trigger] pieces[i];
            piece.at <= p < piece.at + piece.len && piece.addr + (p - piece.at)
                == mappings[m].start + (p - mappings[m].pgoff)
        };
    assert(pieces[c].at <= p < pieces[c].at + pieces[c].len);
    lemma_reads_are_laid(image, pieces, reads, live, reads.len() as int, p);
    let whole = overlaid(image, pieces, reads, reads.len() as int)->Got_0;
    let i = choose|i: int|
        0 <= i < reads.len() && (#[trigger] pieces[i]).at <= p < pieces[i].at + pieces[i].len
            && whole[p] == live(pieces[i].addr + (p - pieces[i].at));
    lemma_overlays_are_sound(mappings, path, segments, limit, i);
    let piece = pieces[i];
    let q = choose|q: int|
        0 <= q < mappings.len() && (#[trigger] mappings[q]).path == Some(path)
            && mappings[q].start <= piece.addr && piece.addr + piece.len <= mappings[q].end
            && piece.at - mappings[q].pgoff == piece.addr - mappings[q].start;
    assert(mappings[q].start + (p - mappings[q].pgoff) == piece.addr + (p - piece.at));
}

/// Where a file would be loaded for a mapping to stand where it does.
pub open spec fn base_in(mapping: MappingView, path: Seq<char>) -> Option<u64> {
    if mapping.path == Some(path) && mapping.pgoff <= mapping.start {
        Some((mapping.start - mapping.pgoff) as u64)
    } else {
        None
    }
}

/// Every pointer inside a dump is a runtime address, so without the base the
/// dump cannot be followed once the process is gone. Recovering it afterwards
/// is not reliable, since a packed library's relocated slots do not agree on
/// one.
pub fn load_base(mappings: &[Mapping], path: &str) -> (r: Option<u64>)
    ensures
        r is None <==> forall|i: int|
            0 <= i < mappings@.len() ==> base_in((#[trigger] mappings@[i])@, path@) is None,
        r matches Some(base) ==> (exists|i: int|
            0 <= i < mappings@.len() && base_in((#[trigger] mappings@[i])@, path@) == Some(base))
            && forall|i: int|
            0 <= i < mappings@.len() ==> (base_in((#[trigger] mappings@[i])@, path@) matches Some(
                other,
            ) ==> base <= other),
{
    let mut least: Option<u64> = None;
    let mut n: usize = 0;
    while n < mappings.len()
        invariant
            n <= mappings@.len(),
            least is None <==> forall|i: int|
                0 <= i < n ==> base_in((#[trigger] mappings@[i])@, path@) is None,
            least matches Some(base) ==> (exists|i: int|
                0 <= i < n && base_in((#[trigger] mappings@[i])@, path@) == Some(base))
                && forall|i: int|
                0 <= i < n ==> (base_in((#[trigger] mappings@[i])@, path@) matches Some(other)
                    ==> base <= other),
        decreases mappings@.len() - n,
    {
        let mapping = &mappings[n];
        if mapping.is_of(path) && mapping.pgoff <= mapping.start {
            let base: u64 = mapping.start - mapping.pgoff;
            assert(base_in(mappings@[n as int]@, path@) == Some(base));
            least = match least {
                Some(other) => if base < other {
                    Some(base)
                } else {
                    Some(other)
                },
                None => Some(base),
            };
        }
        n += 1;
    }
    least
}

/// What is written beside a dump: where the library was loaded, from which
/// file, and in which process.
pub fn sidecar(base: u64, path: &str, pid: i32) -> (r: String)
    ensures
        r@ == "{\n  \"base\": "@ + text::decimal_digits(base as nat) + ",\n  \"path\": \""@ + path@
            + "\",\n  \"pid\": "@ + text::signed_text(pid as int) + "\n}\n"@,
{
    let mut out = "{\n  \"base\": ".to_owned();
    out.append(decimal(base).as_str());
    out.append(",\n  \"path\": \"");
    out.append(path);
    out.append("\",\n  \"pid\": ");
    out.append(signed(pid).as_str());
    out.append("\n}\n");
    out
}

/// Each address in hexadecimal on a line of its own.
pub open spec fn address_lines(addresses: Seq<u64>) -> Seq<char>
    decreases addresses.len(),
{
    if addresses.len() == 0 {
        Seq::empty()
    } else {
        (address_lines(addresses.drop_last()) + text::hex_text(addresses.last() as nat)).push('\n')
    }
}

/// Lists function entry points, one to a line.
pub fn list_functions(entries: &[u64]) -> (r: String)
    ensures
        r@ == address_lines(entries@),
{
    let mut out = String::new();
    let mut i: usize = 0;
    while i < entries.len()
        invariant
            i <= entries@.len(),
            out@ == address_lines(entries@.take(i as int)),
        decreases entries@.len() - i,
    {
        assert(entries@.take(i + 1).drop_last() =~= entries@.take(i as int));
        out.append(hex(entries[i]).as_str());
        out.push('\n');
        i += 1;
    }
    assert(entries@.take(i as int) =~= entries@);
    out
}

/// The name that a process runs under is all of its command line up to the
/// first NUL, however long.
pub proof fn lemma_name_ends_at_the_first_nul(name: Seq<u8>, rest: Seq<u8>)
    requires
        forall|i: int| 0 <= i < name.len() ==> #[trigger] name[i] != 0,
    ensures
        up_to_nul(name.push(0) + rest) == name,
        up_to_nul(name) == name,
    decreases name.len(),
{
    let whole = name.push(0) + rest;
    if name.len() == 0 {
        assert(whole[0] == 0);
        assert(name =~= Seq::empty());
    } else {
        let tail = name.skip(1);
        assert forall|i: int| 0 <= i < tail.len() implies #[trigger] tail[i] != 0 by {
            assert(tail[i] == name[i + 1]);
        }
        lemma_name_ends_at_the_first_nul(tail, rest);
        assert(whole.skip(1) =~= tail.push(0) + rest);
        assert(name[0] != 0);
        assert(seq![name[0]] + tail =~= name);
    }
}

/// A package is found in the first process that runs under exactly its name.
pub proof fn lemma_package_is_found(
    entries: Seq<Candidate>,
    package: Seq<char>,
    args: Seq<u8>,
    pid: i32,
    i: int,
)
    requires
        0 <= i < entries.len(),
        forall|k: int|
            0 <= k < vstd::utf8::encode_utf8(package).len() ==> #[trigger] vstd::utf8::encode_utf8(
                package,
            )[k] != 0,
        entries[i].cmdline@ == vstd::utf8::encode_utf8(package).push(0) + args
            || entries[i].cmdline@ == vstd::utf8::encode_utf8(package),
        number_in(entries[i].name@) == Some(pid),
        forall|j: int|
            0 <= j < i ==> up_to_nul((#[trigger] entries[j]).cmdline@)
                != vstd::utf8::encode_utf8(package) || number_in(entries[j].name@) is None,
    ensures
        found_pid(entries, package) == Some(pid),
    decreases i,
{
    lemma_name_ends_at_the_first_nul(vstd::utf8::encode_utf8(package), args);
    if i > 0 {
        assert(up_to_nul(entries[0].cmdline@) != vstd::utf8::encode_utf8(package) || number_in(
            entries[0].name@,
        ) is None);
        let rest = entries.skip(1);
        assert forall|j: int| 0 <= j < i - 1 implies up_to_nul((#[trigger] rest[j]).cmdline@)
            != vstd::utf8::encode_utf8(package) || number_in(rest[j].name@) is None by {
            assert(rest[j] == entries[j + 1]);
        }
        lemma_package_is_found(rest, package, args, pid, i - 1);
    }
}

/// A package that no process runs under is not found.
pub proof fn lemma_absent_package_is_not_found(entries: Seq<Candidate>, package: Seq<char>)
    requires
        forall|j: int|
            0 <= j < entries.len() ==> up_to_nul((#[trigger] entries[j]).cmdline@)
                != vstd::utf8::encode_utf8(package),
    ensures
        found_pid(entries, package) is None,
    decreases entries.len(),
{
    if entries.len() > 0 {
        assert(up_to_nul(entries[0].cmdline@) != vstd::utf8::encode_utf8(package));
        let rest = entries.skip(1);
        assert forall|j: int| 0 <= j < rest.len() implies up_to_nul((#[trigger] rest[j]).cmdline@)
            != vstd::utf8::encode_utf8(package) by {
            assert(rest[j] == entries[j + 1]);
        }
        lemma_absent_package_is_not_found(rest, package);
    }
}

/// A process number is read as it is shown, whatever it is.
pub proof fn lemma_shown_number_reads_back(n: i32)
    requires
        n >= 0,
    ensures
        number_in(text::decimal_digits(n as nat)) == Some(n),
{
    let shown = text::decimal_digits(n as nat);
    text::lemma_decimal_reads_back(n as nat, i32::MAX as int);
    text::lemma_shown_numbers(n as nat);
    assert('0' <= shown[0] <= '9');
}

/// The numbers among names are those of each name, in order, and none is left
/// out.
pub proof fn lemma_every_number_is_taken(a: Seq<Seq<char>>, b: Seq<Seq<char>>)
    ensures
        numbers_in(a + b) == numbers_in(a) + numbers_in(b),
        forall|name: Seq<char>|
            numbers_in(#[trigger] seq![name]) == match number_in(name) {
                Some(n) => seq![n],
                None => Seq::empty(),
            },
    decreases b.len(),
{
    assert forall|name: Seq<char>| numbers_in(#[trigger] seq![name]) == match number_in(name) {
        Some(n) => seq![n],
        None => Seq::empty(),
    } by {
        assert(seq![name].drop_last() =~= Seq::empty());
        assert(numbers_in(Seq::empty()) =~= Seq::empty());
        assert(numbers_in(seq![name]) =~= match number_in(name) {
            Some(n) => seq![n],
            None => Seq::empty(),
        });
    }
    if b.len() == 0 {
        assert(a + b =~= a);
    } else {
        lemma_every_number_is_taken(a, b.drop_last());
        assert((a + b).drop_last() =~= a + b.drop_last());
    }
    assert(numbers_in(a + b) =~= numbers_in(a) + numbers_in(b));
}

/// The parent of a process is the second field behind its name, whatever the
/// name holds and whatever follows.
pub proof fn lemma_parent_is_read(
    name: Seq<char>,
    state: Seq<char>,
    parent: i32,
    rest: Seq<char>,
)
    requires
        parent >= 0,
        state.len() > 0,
        forall|i: int| 0 <= i < state.len() ==> !text::space(#[trigger] state[i]),
        !state.contains(')'),
        !rest.contains(')'),
    ensures
        ppid_in(
            name.push(')') + (seq![' '] + (state.push(' ') + (text::decimal_digits(
                parent as nat,
            ).push(' ') + rest))),
        ) == Some(parent),
{
    let shown = text::decimal_digits(parent as nat);
    let last = shown.push(' ') + rest;
    let fields = state.push(' ') + last;
    let tail = seq![' '] + fields;
    let stat = name.push(')') + tail;
    text::lemma_shown_numbers(parent as nat);
    lemma_shown_number_reads_back(parent);
    assert forall|i: int| 0 <= i < shown.len() implies !text::space(#[trigger] shown[i])
        && shown[i] != ')' by {
        assert('0' <= shown[i] <= '9');
    }
    text::lemma_word(shown);
    text::lemma_word(state);
    text::lemma_words_part_at_spaces(shown, ' ', rest);
    text::lemma_words_part_at_spaces(state, ' ', last);
    text::lemma_words_part_at_spaces(Seq::empty(), ' ', fields);
    assert(Seq::<char>::empty().push(' ') + fields =~= tail);
    assert(text::words_of(Seq::empty()) =~= Seq::<Seq<char>>::empty());
    let words = text::words_of(tail);
    assert(words =~= seq![state, shown] + text::words_of(rest));
    assert forall|i: int| name.len() + 1 <= i < stat.len() implies stat[i] != ')' by {
        let j = i - name.len() - 1;
        assert(stat[i] == tail[j]);
        if j > 0 && j <= state.len() {
            assert(tail[j] == state[j - 1]);
            assert(state.contains(state[j - 1]));
        } else if j > state.len() + 1 && j <= state.len() + 1 + shown.len() {
            assert(tail[j] == shown[j - 2 - state.len()]);
        } else if j > state.len() + 2 + shown.len() {
            assert(tail[j] == rest[j - 3 - state.len() - shown.len()]);
            assert(rest.contains(rest[j - 3 - state.len() - shown.len()]));
        }
    }
    assert(stat[name.len() as int] == ')');
    text::lemma_after_last(stat, ')', name.len() as int + 1);
    assert(stat.skip(name.len() as int + 1) =~= tail);
    assert(stat.contains(')'));
}

/// An absolute path is taken as it is. A name is that of the one library which
/// is mapped under it, whatever mappings it has and wherever they stand.
pub proof fn lemma_library_is_resolved(name: Seq<char>, mappings: Seq<MappingView>, path: Seq<char>)
    ensures
        name.len() > 0 && name[0] == '/' ==> library_of(name, mappings) == Outcome::Got(name),
        !(name.len() > 0 && name[0] == '/') && (exists|i: int|
            0 <= i < mappings.len() && (#[trigger] mappings[i]).path == Some(path)
                && text::after_last(path, '/') == name) && (forall|i: int|
            0 <= i < mappings.len() ==> ((#[trigger] mappings[i]).path matches Some(other)
                ==> text::after_last(other, '/') == name ==> other == path)) ==> library_of(
            name,
            mappings,
        ) == Outcome::Got(path),
        !(name.len() > 0 && name[0] == '/') && (forall|i: int|
            0 <= i < mappings.len() ==> ((#[trigger] mappings[i]).path matches Some(other)
                ==> text::after_last(other, '/') != name)) ==> (library_of(name, mappings)
            matches Outcome::Told(kind, _) && kind is NotFound),
{
    lemma_paths_named(mappings, name);
    let found = paths_named(mappings, name);
    if (exists|i: int|
        0 <= i < mappings.len() && (#[trigger] mappings[i]).path == Some(path) && text::after_last(
            path,
            '/',
        ) == name) && (forall|i: int|
        0 <= i < mappings.len() ==> ((#[trigger] mappings[i]).path matches Some(other)
            ==> text::after_last(other, '/') == name ==> other == path)) {
        assert(found.contains(path));
        assert forall|n: int| 0 <= n < found.len() implies #[trigger] found[n] == path by {
            assert(found.contains(found[n]));
        }
        assert(found.len() > 0);
        lemma_none_other(found, path);
    }
    if forall|i: int|
        0 <= i < mappings.len() ==> ((#[trigger] mappings[i]).path matches Some(other)
            ==> text::after_last(other, '/') != name) {
        if found.len() > 0 {
            assert(found.contains(found[0]));
        }
    }
}

/// A name under which two libraries are mapped is refused.
pub proof fn lemma_ambiguous_library_is_refused(
    name: Seq<char>,
    mappings: Seq<MappingView>,
    i: int,
    j: int,
)
    requires
        !(name.len() > 0 && name[0] == '/'),
        0 <= i < mappings.len(),
        0 <= j < mappings.len(),
        mappings[i].path is Some,
        mappings[j].path is Some,
        mappings[i].path != mappings[j].path,
        text::after_last(mappings[i].path->0, '/') == name,
        text::after_last(mappings[j].path->0, '/') == name,
    ensures
        library_of(name, mappings) matches Outcome::Told(kind, _) && kind is InvalidInput,
{
    lemma_paths_named(mappings, name);
    let found = paths_named(mappings, name);
    assert(found.contains(mappings[i].path->0));
    assert(found.contains(mappings[j].path->0));
    lemma_some_other(found, found[0], mappings[i].path->0, mappings[j].path->0);
}

proof fn lemma_paths_named(mappings: Seq<MappingView>, name: Seq<char>)
    ensures
        forall|path: Seq<char>| #[trigger]
            paths_named(mappings, name).contains(path) <==> exists|i: int|
                0 <= i < mappings.len() && (#[trigger] mappings[i]).path == Some(path)
                    && text::after_last(path, '/') == name,
    decreases mappings.len(),
{
    let all = paths_named(mappings, name);
    if mappings.len() > 0 {
        let rest = mappings.drop_last();
        let before = paths_named(rest, name);
        lemma_paths_named(rest, name);
        let last = mappings.last();
        assert forall|path: Seq<char>| #[trigger] all.contains(path) <==> exists|i: int|
            0 <= i < mappings.len() && (#[trigger] mappings[i]).path == Some(path)
                && text::after_last(path, '/') == name by {
            if all.contains(path) {
                let n = choose|n: int| 0 <= n < all.len() && all[n] == path;
                if n < before.len() {
                    assert(before[n] == path);
                    assert(before.contains(path));
                    let i = choose|i: int|
                        0 <= i < rest.len() && (#[trigger] rest[i]).path == Some(path)
                            && text::after_last(path, '/') == name;
                    assert(mappings[i] == rest[i]);
                } else {
                    assert(mappings[mappings.len() - 1] == last);
                }
            }
            if exists|i: int|
                0 <= i < mappings.len() && (#[trigger] mappings[i]).path == Some(path)
                    && text::after_last(path, '/') == name {
                let i = choose|i: int|
                    0 <= i < mappings.len() && (#[trigger] mappings[i]).path == Some(path)
                        && text::after_last(path, '/') == name;
                if i < rest.len() {
                    assert(rest[i] == mappings[i]);
                    assert(before.contains(path));
                    let n = choose|n: int| 0 <= n < before.len() && before[n] == path;
                    assert(all[n] == path);
                } else {
                    assert(all.last() == path);
                }
            }
        }
    }
}

proof fn lemma_none_other(paths: Seq<Seq<char>>, first: Seq<char>)
    requires
        forall|n: int| 0 <= n < paths.len() ==> #[trigger] paths[n] == first,
    ensures
        other_than(paths, first) is None,
    decreases paths.len(),
{
    if paths.len() > 0 {
        assert(paths[0] == first);
        let rest = paths.skip(1);
        assert forall|n: int| 0 <= n < rest.len() implies #[trigger] rest[n] == first by {
            assert(rest[n] == paths[n + 1]);
        }
        lemma_none_other(rest, first);
    }
}

proof fn lemma_some_other(paths: Seq<Seq<char>>, first: Seq<char>, a: Seq<char>, b: Seq<char>)
    requires
        paths.contains(a),
        paths.contains(b),
        a != b,
    ensures
        other_than(paths, first) is Some,
    decreases paths.len(),
{
    if paths[0] == first {
        let c = if a != first {
            a
        } else {
            b
        };
        lemma_other_is_found(paths, first, c);
    }
}

proof fn lemma_other_is_found(paths: Seq<Seq<char>>, first: Seq<char>, c: Seq<char>)
    requires
        paths.contains(c),
        c != first,
    ensures
        other_than(paths, first) is Some,
    decreases paths.len(),
{
    if paths[0] == first {
        let n = choose|n: int| 0 <= n < paths.len() && paths[n] == c;
        assert(paths.skip(1)[n - 1] == c);
        lemma_other_is_found(paths.skip(1), first, c);
    }
}

/// An address is read in either notation: in hexadecimal behind `0x` or `0X`,
/// and in decimal otherwise.
pub proof fn lemma_addresses_are_read(addr: u64)
    ensures
        address_in(text::decimal_digits(addr as nat)) == Some(addr),
        address_in(seq!['0', 'x'] + text::hex_digits(addr as nat)) == Some(addr),
        address_in(seq!['0', 'X'] + text::hex_digits(addr as nat)) == Some(addr),
        site_place(seq!['0', 'x'] + text::hex_digits(addr as nat)) == Place::VirtualAddress(addr),
        site_place(seq!['0', 'X'] + text::hex_digits(addr as nat)) == Place::VirtualAddress(addr),
        site_place(text::decimal_digits(addr as nat)) == Place::Symbol(
            text::decimal_digits(addr as nat),
        ),
{
    let n = addr as nat;
    let decimal = text::decimal_digits(n);
    let hex = text::hex_digits(n);
    text::lemma_decimal_reads_back(n, u64::MAX as int);
    text::lemma_hex_reads_back(n, u64::MAX as int);
    text::lemma_shown_numbers(n);
    assert('0' <= decimal[0] <= '9');
    assert('0' <= decimal[decimal.len() - 1] <= '9');
    if decimal.len() >= 2 {
        assert('0' <= decimal[1] <= '9');
    }
    lemma_already_trimmed(decimal);
    assert('0' <= hex[hex.len() - 1] <= '9' || 'a' <= hex[hex.len() - 1] <= 'f');
    let small = seq!['0', 'x'] + hex;
    let large = seq!['0', 'X'] + hex;
    assert(small.last() == hex.last() && large.last() == hex.last());
    lemma_already_trimmed(small);
    lemma_already_trimmed(large);
    assert(small.skip(2) =~= hex);
    assert(large.skip(2) =~= hex);
}

proof fn lemma_already_trimmed(s: Seq<char>)
    requires
        s.len() > 0,
        !text::space(s[0]),
        !text::space(s.last()),
    ensures
        text::trimmed(s) == s,
{
}

/// A file offset is probed as it is, a virtual address where a loaded segment
/// has it, and a symbol where the object defines it.
pub proof fn lemma_places_are_resolved(
    image: Seq<u8>,
    offset: u64,
    vaddr: u64,
    segments: Seq<Segment>,
    i: int,
    symbol: Seq<char>,
)
    requires
        crate::elf::readable(image),
        crate::elf::segments_of(image) == Outcome::Got(segments),
        0 <= i < segments.len(),
        segments[i].vaddr <= vaddr < segments[i].vaddr + segments[i].filesz,
        segments[i].vaddr + segments[i].filesz <= u64::MAX,
        segments[i].offset + (vaddr - segments[i].vaddr) <= u64::MAX,
        forall|j: int|
            0 <= j < i ==> !((#[trigger] segments[j]).vaddr <= vaddr < segments[j].vaddr
                + segments[j].filesz),
    ensures
        offset_in(Place::FileOffset(offset), image) == Outcome::Got(offset),
        offset_in(Place::VirtualAddress(vaddr), image) == Outcome::Got(
            (segments[i].offset + (vaddr - segments[i].vaddr)) as u64,
        ),
        offset_in(Place::Symbol(symbol), image) == crate::elf::probe_offset_of(image, symbol),
{
    crate::elf::lemma_address_is_found_in_its_segment(segments, vaddr, i);
}

/// Every mapping of a file that does not begin before the file itself says
/// where the file is loaded, whatever its permissions.
pub proof fn lemma_mapping_gives_a_base(mapping: MappingView, path: Seq<char>)
    ensures
        mapping.path == Some(path) && mapping.pgoff <= mapping.start ==> base_in(mapping, path)
            == Some((mapping.start - mapping.pgoff) as u64),
        mapping.path != Some(path) || mapping.pgoff > mapping.start ==> base_in(mapping, path)
            is None,
{
}

/// Addresses are listed one to a line, each of them, in order.
pub proof fn lemma_every_address_is_listed(a: Seq<u64>, b: Seq<u64>)
    ensures
        address_lines(a + b) == address_lines(a) + address_lines(b),
        forall|addr: u64|
            address_lines(#[trigger] seq![addr]) == text::hex_text(addr as nat).push('\n'),
    decreases b.len(),
{
    assert forall|addr: u64| address_lines(#[trigger] seq![addr]) == text::hex_text(
        addr as nat,
    ).push('\n') by {
        assert(seq![addr].drop_last() =~= Seq::empty());
        assert(address_lines(Seq::empty()) =~= Seq::empty());
        assert(address_lines(seq![addr]) =~= text::hex_text(addr as nat).push('\n'));
    }
    if b.len() == 0 {
        assert(a + b =~= a);
    } else {
        lemma_every_address_is_listed(a, b.drop_last());
        assert((a + b).drop_last() =~= a + b.drop_last());
    }
    assert(address_lines(a + b) =~= address_lines(a) + address_lines(b));
}

/// What a dump recovered is all that its reads brought.
pub proof fn lemma_recovered_is_what_was_read(reads: Seq<Seq<u8>>)
    ensures
        bytes_read(reads, reads.len() as int) == reads.flatten().len(),
    decreases reads.len(),
{
    if reads.len() > 0 {
        let rest = reads.drop_last();
        lemma_recovered_is_what_was_read(rest);
        lemma_bytes_read_of_a_prefix(reads, rest, rest.len() as int);
        reads.lemma_flatten_and_flatten_alt_are_equivalent();
        rest.lemma_flatten_and_flatten_alt_are_equivalent();
    }
}

proof fn lemma_bytes_read_of_a_prefix(reads: Seq<Seq<u8>>, rest: Seq<Seq<u8>>, n: int)
    requires
        0 <= n <= rest.len() <= reads.len(),
        rest == reads.take(rest.len() as int),
    ensures
        bytes_read(reads, n) == bytes_read(rest, n),
    decreases n,
{
    if n > 0 {
        lemma_bytes_read_of_a_prefix(reads, rest, n - 1);
        assert(rest[n - 1] == reads[n - 1]);
    }
}

/// The numbers of the children of `parent` in their order, without those that
/// are held already.
pub open spec fn new_children(pids: Seq<i32>, kin: Seq<Kin>, parent: i32) -> Seq<i32> {
    kin.filter(|k: Kin| k.ppid == parent && !pids.contains(k.pid)).map_values(|k: Kin| k.pid)
}

proof fn lemma_children_are_added(pids: Seq<i32>, kin: Seq<Kin>, parent: i32, n: int)
    requires
        0 <= n <= kin.len(),
        forall|i: int, j: int| 0 <= i < j < kin.len() ==> (#[trigger] kin[i]).pid != (#[trigger]
        kin[j]).pid,
    ensures
        with_children(pids, kin, parent, n) == pids + new_children(pids, kin.take(n), parent),
        forall|p: i32| #[trigger]
            new_children(pids, kin.take(n), parent).contains(p) ==> exists|i: int|
                0 <= i < n && (#[trigger] kin[i]).pid == p,
    decreases n,
{
    reveal(Seq::filter);
    let part = kin.take(n);
    if n > 0 {
        lemma_children_are_added(pids, kin, parent, n - 1);
        assert(part.drop_last() =~= kin.take(n - 1));
        let before = new_children(pids, kin.take(n - 1), parent);
        let last = kin[n - 1];
        let added = new_children(pids, part, parent);
        if last.ppid == parent && !pids.contains(last.pid) {
            assert(added =~= before.push(last.pid));
            if (pids + before).contains(last.pid) {
                let k = choose|k: int| 0 <= k < (pids + before).len() && (pids + before)[k]
                    == last.pid;
                if k < pids.len() {
                    assert(pids[k] == last.pid);
                } else {
                    assert(before[k - pids.len()] == last.pid);
                    assert(before.contains(last.pid));
                    let i = choose|i: int| 0 <= i < n - 1 && (#[trigger] kin[i]).pid == last.pid;
                    assert(kin[i].pid != kin[n - 1].pid);
                }
            }
            assert(pids + added =~= (pids + before).push(last.pid));
        } else {
            assert(added =~= before);
            if pids.contains(last.pid) {
                let k = choose|k: int| 0 <= k < pids.len() && pids[k] == last.pid;
                assert((pids + before)[k] == last.pid);
            }
        }
        assert forall|p: i32| #[trigger] added.contains(p) implies exists|i: int|
            0 <= i < n && (#[trigger] kin[i]).pid == p by {
            let k = choose|k: int| 0 <= k < added.len() && added[k] == p;
            if k < before.len() {
                assert(before[k] == p);
                assert(before.contains(p));
                let i = choose|i: int| 0 <= i < n - 1 && (#[trigger] kin[i]).pid == p;
                assert(kin[i].pid == p);
            } else {
                assert(kin[n - 1].pid == p);
            }
        }
    } else {
        assert(part =~= Seq::empty());
        assert(pids + new_children(pids, part, parent) =~= pids);
    }
}

proof fn lemma_walk_goes_on(pids: Seq<i32>, kin: Seq<Kin>, done: int)
    requires
        forall|i: int, j: int| 0 <= i < j < kin.len() ==> (#[trigger] kin[i]).pid != (#[trigger]
        kin[j]).pid,
        0 <= done,
    ensures
        pids.is_prefix_of(walked(pids, kin, done)),
    decreases kin.len() + 1 - done,
{
    if done < pids.len() && done <= kin.len() {
        let next = with_children(pids, kin, pids[done], kin.len() as int);
        lemma_children_are_added(pids, kin, pids[done], kin.len() as int);
        lemma_walk_goes_on(next, kin, done + 1);
        let all = walked(next, kin, done + 1);
        assert(all.take(next.len() as int) == next);
        assert(all.take(pids.len() as int) =~= next.take(pids.len() as int));
    }
}

/// A walk is breadth first. The children of a process stand in the order in
/// which the processes are listed, and behind those of every process that was
/// reached before it.
pub proof fn lemma_walk_is_breadth_first(pids: Seq<i32>, kin: Seq<Kin>, done: int)
    requires
        forall|i: int, j: int| 0 <= i < j < kin.len() ==> (#[trigger] kin[i]).pid != (#[trigger]
        kin[j]).pid,
        0 <= done < pids.len(),
        done <= kin.len(),
    ensures
        (pids + new_children(pids, kin, pids[done])).is_prefix_of(walked(pids, kin, done)),
        walked(pids, kin, done) == walked(
            pids + new_children(pids, kin, pids[done]),
            kin,
            done + 1,
        ),
{
    lemma_children_are_added(pids, kin, pids[done], kin.len() as int);
    assert(kin.take(kin.len() as int) =~= kin);
    lemma_walk_goes_on(pids + new_children(pids, kin, pids[done]), kin, done + 1);
}

/// A file offset is taken whatever the file holds, and an address that no
/// segment holds is a bad one.
pub proof fn lemma_offsets_are_taken_and_addresses_checked(
    image: Seq<u8>,
    offset: u64,
    vaddr: u64,
    segments: Seq<Segment>,
)
    ensures
        offset_in(Place::FileOffset(offset), image) == Outcome::Got(offset),
        crate::elf::readable(image) && crate::elf::segments_of(image) == Outcome::Got(segments) && (
        forall|j: int|
            0 <= j < segments.len() ==> !((#[trigger] segments[j]).vaddr <= vaddr
                < segments[j].vaddr + segments[j].filesz)) ==> (offset_in(
            Place::VirtualAddress(vaddr),
            image,
        ) matches Outcome::Told(kind, _) && kind is InvalidInput),
{
    crate::elf::lemma_outside_every_segment(segments, vaddr);
}

/// Spaces around an address do not matter.
pub proof fn lemma_address_stands_between_spaces(s: Seq<char>, c: char)
    requires
        text::space(c),
    ensures
        address_in(seq![c] + s) == address_in(s),
        address_in(s.push(c)) == address_in(s),
{
    text::lemma_spaces_around_are_dropped(s, c);
}

proof fn lemma_nothing_is_laid(
    image: Seq<u8>,
    pieces: Seq<Overlay>,
    reads: Seq<Seq<u8>>,
    n: int,
)
    requires
        forall|i: int| 0 <= i < n ==> (#[trigger] reads[i]).len() == 0,
    ensures
        overlaid(image, pieces, reads, n) == Outcome::Got(image),
        bytes_read(reads, n) == 0,
    decreases n,
{
    if n > 0 {
        lemma_nothing_is_laid(image, pieces, reads, n - 1);
        assert(reads[n - 1].len() == 0);
    }
}

/// A library of which nothing could be read is not there to dump, be it that
/// no part of it is mapped.
pub proof fn lemma_nothing_read_is_no_dump(
    image: Seq<u8>,
    pieces: Seq<Overlay>,
    reads: Seq<Seq<u8>>,
    name: Seq<char>,
    pid: i32,
)
    requires
        forall|i: int| 0 <= i < pieces.len() ==> (#[trigger] reads[i]).len() == 0,
    ensures
        dumped(image, pieces, reads, name, pid) matches Outcome::Told(kind, _) && kind is NotFound,
{
    lemma_nothing_is_laid(image, pieces, reads, pieces.len() as int);
}

/// What is read of a library stands in the order of its mappings, so that
/// where two overlap the later one is what the dump shows.
pub proof fn lemma_overlays_stand_in_order(
    a: Seq<MappingView>,
    b: Seq<MappingView>,
    path: Seq<char>,
    segments: Seq<Segment>,
    limit: int,
)
    ensures
        overlays_of(a + b, path, segments, limit) == overlays_of(a, path, segments, limit)
            + overlays_of(b, path, segments, limit),
    decreases b.len(),
{
    let whole = a + b;
    let first = overlays_of(a, path, segments, limit);
    if b.len() == 0 {
        assert(whole =~= a);
        assert(first + overlays_of(b, path, segments, limit) =~= first);
    } else {
        let rest = b.drop_last();
        lemma_overlays_stand_in_order(a, rest, path, segments, limit);
        assert(whole.drop_last() =~= a + rest);
        assert(whole.last() == b.last());
        let before = overlays_of(rest, path, segments, limit);
        let last = overlays_in(b.last(), segments, limit);
        assert((first + before) + last =~= first + (before + last));
    }
}

/// Within a mapping the parts stand in the order of the segments.
pub proof fn lemma_extents_stand_in_order(
    a: Seq<Segment>,
    b: Seq<Segment>,
    at: int,
    span: int,
    limit: int,
)
    ensures
        extents_of(a + b, at, span, limit) == extents_of(a, at, span, limit) + extents_of(
            b,
            at,
            span,
            limit,
        ),
    decreases b.len(),
{
    let whole = a + b;
    let first = extents_of(a, at, span, limit);
    if b.len() == 0 {
        assert(whole =~= a);
        assert(first + extents_of(b, at, span, limit) =~= first);
    } else {
        let rest = b.drop_last();
        lemma_extents_stand_in_order(a, rest, at, span, limit);
        assert(whole.drop_last() =~= a + rest);
        assert(whole.last() == b.last());
        assert(extents_of(whole, at, span, limit) =~= first + extents_of(b, at, span, limit));
    }
}

} // verus!
