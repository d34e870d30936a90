//! What is printed of samples and of threads.

use vstd::prelude::*;
use crate::bytes::{self, u64_at};
use crate::command::Capture;
use crate::fault::{self, tell, Fault, Kind};
use crate::groups::{self, Group, ThreadHits, ThreadView};
use crate::lists::{self, insert, Ordered};
use crate::output::{self, hexdump, registers};
use crate::perf::{self, args_from_regs, stack_pointer, Arch};
use crate::ring::Sample;
use crate::text::{self, align_right, decimal, hex, join};

verus! {

/// The frames that are shown of a stack.
pub const STACK_FRAMES: usize = 32;

/// What was read of a process's memory, or why it could not be.
#[derive(Debug)]
pub enum Memory {
    Bytes(Vec<u8>),
    Unreadable(String),
}

/// The low halves of the three registers that carry a state, where the
/// architecture has them.
pub open spec fn state_text(arch: Arch, regs: Seq<u64>) -> Seq<char> {
    if arch == Arch::Aarch64 && regs.len() > 10 {
        " state=["@ + text::hex_text((regs[8] as u32) as nat) + ","@ + text::hex_text(
            (regs[9] as u32) as nat,
        ) + ","@ + text::hex_text((regs[10] as u32) as nat) + "]"@
    } else {
        ""@
    }
}

fn show_state(arch: Arch, regs: &[u64]) -> (r: String)
    ensures
        r@ == state_text(arch, regs@),
{
    match perf::state(arch, regs) {
        Some(state) => {
            let mut out = " state=[".to_owned();
            out.append(hex(state[0] as u32 as u64).as_str());
            out.append(",");
            out.append(hex(state[1] as u32 as u64).as_str());
            out.append(",");
            out.append(hex(state[2] as u32 as u64).as_str());
            out.append("]");
            out
        },
        None => "".to_owned(),
    }
}

/// The line of a hit.
pub open spec fn hit_line(
    arch: Arch,
    label: Seq<char>,
    sample: Sample,
    caller: Seq<char>,
    all_regs: bool,
) -> Seq<char> {
    text::right_aligned(text::decimal_digits(sample.time as nat), 16) + " "@ + label + " pid="@
        + text::decimal_digits(sample.pid as nat) + " tid="@ + text::decimal_digits(
        sample.tid as nat,
    ) + " from="@ + caller + state_text(arch, sample.regs@) + " "@ + output::registers_text(
        arch,
        perf::arguments(arch, sample.regs@),
        all_regs,
    ) + "\n"@
}

/// The line of a stack.
pub open spec fn stack_line(frames: Seq<Seq<char>>) -> Seq<char> {
    if frames.len() == 0 {
        "  <no frames recovered>\n"@
    } else {
        "  "@ + text::joined(frames, " < "@) + "\n"@
    }
}

/// How memory is shown, if any was read.
pub open spec fn memory_text(memory: Option<Memory>) -> Seq<char> {
    match memory {
        None => ""@,
        Some(Memory::Bytes(found)) => output::dump_text(found@),
        Some(Memory::Unreadable(why)) => "  <unreadable: "@ + why@ + ">\n"@,
    }
}

fn show_memory(memory: &Option<Memory>) -> (r: String)
    ensures
        r@ == memory_text(*memory),
{
    match memory {
        None => "".to_owned(),
        Some(Memory::Bytes(found)) => hexdump(found),
        Some(Memory::Unreadable(why)) => {
            let mut out = "  <unreadable: ".to_owned();
            out.append(why.as_str());
            out.append(">\n");
            out
        },
    }
}

/// Shows a sample: the hit, its frames where a stack is captured, and what was
/// read through its registers.
pub fn sample(
    arch: Arch,
    label: &str,
    capture: &Capture,
    taken: &Sample,
    caller: &str,
    frames: &[String],
    dump: &Option<Memory>,
    deref: &Option<Memory>,
) -> (r: Result<String, Fault>)
    ensures
        if taken.regs@.len() < arch.spec_sampled_regs() {
            r matches Err(f) && fault::told(
                f,
                Kind::InvalidData,
                "the sample does not contain the complete register set"@,
            )
        } else {
            r matches Ok(shown) && shown@ == hit_line(
                arch,
                label@,
                *taken,
                caller@,
                capture.all_regs,
            ) + (if capture.stack > 0 {
                stack_line(text::texts(frames@))
            } else {
                ""@
            }) + memory_text(*dump) + memory_text(*deref)
        },
{
    let regs = match args_from_regs(arch, &taken.regs) {
        Some(regs) => regs,
        None => return Err(
            tell(
                Kind::InvalidData,
                "the sample does not contain the complete register set",
            ),
        ),
    };
    let mut out = align_right(decimal(taken.time).as_str(), 16);
    out.append(" ");
    out.append(label);
    out.append(" pid=");
    out.append(decimal(taken.pid as u64).as_str());
    out.append(" tid=");
    out.append(decimal(taken.tid as u64).as_str());
    out.append(" from=");
    out.append(caller);
    out.append(show_state(arch, &taken.regs).as_str());
    out.append(" ");
    out.append(registers(arch, &regs, capture.all_regs).as_str());
    out.append("\n");
    let ghost line = hit_line(arch, label@, *taken, caller@, capture.all_regs);
    assert(out@ =~= line);
    if capture.stack > 0 {
        if frames.len() == 0 {
            out.append("  <no frames recovered>\n");
        } else {
            out.append("  ");
            out.append(join(frames, " < ").as_str());
            out.append("\n");
        }
        assert(out@ =~= line + stack_line(text::texts(frames@)));
    } else {
        proof {
            reveal_strlit("");
        }
        assert(out@ =~= line + ""@);
    }
    out.append(show_memory(dump).as_str());
    out.append(show_memory(deref).as_str());
    Ok(out)
}

/// The address that an index is dumped from: the argument of that number, or
/// the stack pointer past the arguments.
pub open spec fn slot_of(arch: Arch, regs: Seq<u64>, index: int) -> u64 {
    if 0 <= index < arch.spec_arg_count() {
        perf::arguments(arch, regs)[index]
    } else {
        regs[arch.spec_sp_slot()]
    }
}

/// Every argument can be dumped through under its own number, and the stack
/// pointer under the number of its slot, unless that is an argument's.
pub proof fn lemma_dumps_read_their_register(arch: Arch, regs: Seq<u64>)
    requires
        regs.len() >= arch.spec_sampled_regs(),
    ensures
        forall|i: int|
            0 <= i < arch.spec_arg_count() ==> perf::dumpable(arch, i) && #[trigger] slot_of(
                arch,
                regs,
                i,
            ) == perf::arguments(arch, regs)[i],
        arch.spec_sp_slot() >= arch.spec_arg_count() ==> perf::dumpable(arch, arch.spec_sp_slot())
            && Some(slot_of(arch, regs, arch.spec_sp_slot())) == perf::slot_value(
            regs,
            arch.spec_sp_slot(),
        ),
{
}

/// The address that an index is dumped from, unless the sample does not
/// contain the complete register set.
pub fn slot(arch: Arch, regs: &[u64], index: usize) -> (r: Option<u64>)
    requires
        perf::dumpable(arch, index as int),
    ensures
        r is Some <==> regs@.len() >= arch.spec_sampled_regs(),
        r matches Some(value) ==> value == slot_of(arch, regs@, index as int),
{
    let args = match args_from_regs(arch, regs) {
        Some(args) => args,
        None => return None,
    };
    if index < arch.arg_count() {
        Some(args[index])
    } else {
        stack_pointer(arch, regs)
    }
}

/// The address of a field of an object.
pub fn field_address(addr: u64, offset: u64) -> (r: Result<u64, Fault>)
    ensures
        if addr + offset <= u64::MAX {
            r matches Ok(field) && field == addr + offset
        } else {
            r matches Err(f) && fault::told(
                f,
                Kind::InvalidInput,
                "dereference offset overflows the object address"@,
            )
        },
{
    match addr.checked_add(offset) {
        Some(field) => Ok(field),
        None => Err(
            tell(Kind::InvalidInput, "dereference offset overflows the object address"),
        ),
    }
}

/// The pointer that a field holds, unless it is null.
pub fn pointer_in(handle: &[u8]) -> (r: Result<Option<u64>, Fault>)
    ensures
        if handle@.len() != 8 {
            r matches Err(f) && fault::told(
                f,
                Kind::UnexpectedEof,
                "pointer read was incomplete"@,
            )
        } else if bytes::le64(handle@, 0) == 0 {
            r == Ok::<Option<u64>, Fault>(None)
        } else {
            r == Ok::<Option<u64>, Fault>(Some(bytes::le64(handle@, 0) as u64))
        },
{
    if handle.len() != 8 {
        return Err(tell(Kind::UnexpectedEof, "pointer read was incomplete"));
    }
    match u64_at(handle, 0) {
        Some(0) => Ok(None),
        found => Ok(found),
    }
}

/// A thread's place in the ranking.
#[derive(Debug, Clone, Copy, PartialEq, Eq, Structural)]
pub struct Rank {
    pub count: u64,
    pub pid: u32,
    pub tid: u32,
    pub index: usize,
}

/// More hits come first, then higher process numbers, then higher thread
/// numbers.
impl Ordered for Rank {
    open spec fn before(self, other: Self) -> bool {
        self.count > other.count || (self.count == other.count && (self.pid > other.pid || (
        self.pid == other.pid && (self.tid > other.tid || (self.tid == other.tid && self.index
            > other.index)))))
    }

    fn is_before(&self, other: &Self) -> (r: bool) {
        self.count > other.count || (self.count == other.count && (self.pid > other.pid || (
        self.pid == other.pid && (self.tid > other.tid || (self.tid == other.tid && self.index
            > other.index)))))
    }

    proof fn lemma_order(a: Self, b: Self, c: Self) {
    }
}

/// The place of the `i`th thread.
pub open spec fn rank_of(threads: Seq<ThreadHits>, i: int) -> Rank {
    Rank { count: threads[i].count, pid: threads[i].pid, tid: threads[i].tid, index: i as usize }
}

/// Whether `ranks` are the places of all threads, in order.
pub open spec fn ranks(ranking: Seq<Rank>, threads: Seq<ThreadHits>) -> bool {
    &&& lists::ascending(ranking)
    &&& forall|x: Rank| #[trigger]
        ranking.contains(x) <==> exists|i: int| 0 <= i < threads.len() && #[trigger] rank_of(threads, i) == x
}

/// Ranks the threads of a group.
pub fn rank(threads: &[ThreadHits]) -> (r: Vec<Rank>)
    ensures
        ranks(r@, threads@),
{
    let mut out: Vec<Rank> = Vec::new();
    let total: usize = threads.len();
    let mut n: usize = 0;
    while n < total
        invariant
            n <= total,
            total == threads@.len(),
            lists::ascending(out@),
            forall|x: Rank| #[trigger]
                out@.contains(x) <==> exists|i: int|
                    0 <= i < n && #[trigger] rank_of(threads@, i) == x,
        decreases total - n,
    {
        let thread = &threads[n];
        let place = Rank { count: thread.count, pid: thread.pid, tid: thread.tid, index: n };
        assert(place == rank_of(threads@, n as int));
        let ghost before = out@;
        insert(&mut out, place);
        assert forall|x: Rank| #[trigger] out@.contains(x) <==> exists|i: int|
            0 <= i < n + 1 && #[trigger] rank_of(threads@, i) == x by {
            if before.contains(x) {
                let i = choose|i: int| 0 <= i < n && #[trigger] rank_of(threads@, i) == x;
                assert(0 <= i < n + 1 && rank_of(threads@, i) == x);
            }
            if x == place {
                assert(0 <= n < n + 1 && rank_of(threads@, n as int) == x);
            }
        }
        n += 1;
    }
    out
}

/// The line of a thread.
pub open spec fn thread_line(thread: ThreadView) -> Seq<char> {
    "  "@ + text::right_aligned(text::decimal_digits(thread.tid as nat), 7) + "  "@
        + text::right_aligned(text::decimal_digits(thread.count as nat), 8) + "  "@ + thread.name
        + "\n"@
}

/// The lines of threads in the order of a ranking.
pub open spec fn thread_lines(ranking: Seq<Rank>, threads: Seq<ThreadView>) -> Seq<char>
    decreases ranking.len(),
{
    if ranking.len() == 0 {
        Seq::empty()
    } else {
        thread_lines(ranking.drop_last(), threads) + thread_line(
            threads[ranking.last().index as int],
        )
    }
}

/// What is printed of the threads of a group.
pub open spec fn threads_text(label: Seq<char>, ranking: Seq<Rank>, threads: Seq<ThreadView>) -> Seq<
    char,
> {
    text::decimal_digits(threads.len()) + " threads for "@ + label + "\n"@ + thread_lines(
        ranking,
        threads,
    )
}

/// Shows the threads of a group, those with the most hits first.
pub fn threads<P>(group: &Group<P>) -> (r: String)
    ensures
        exists|ranking: Seq<Rank>| #[trigger]
            ranks(ranking, group.threads@) && r@ == threads_text(
                group.label@,
                ranking,
                groups::thread_views(group.threads@),
            ),
{
    let total: usize = group.threads.len();
    let ranking = rank(&group.threads);
    let ghost views = groups::thread_views(group.threads@);
    let mut out = decimal(total as u64);
    out.append(" threads for ");
    out.append(group.label());
    out.append("\n");
    let ghost head = out@;
    let mut i: usize = 0;
    while i < ranking.len()
        invariant
            i <= ranking@.len(),
            ranks(ranking@, group.threads@),
            total == group.threads@.len(),
            views == groups::thread_views(group.threads@),
            out@ =~= head + thread_lines(ranking@.take(i as int), views),
        decreases ranking@.len() - i,
    {
        assert(ranking@.take(i + 1).drop_last() =~= ranking@.take(i as int));
        let place = ranking[i];
        proof {
            assert(ranking@.contains(place));
            let k = choose|k: int|
                0 <= k < group.threads@.len() && #[trigger] rank_of(group.threads@, k) == place;
            assert(place.index == k);
        }
        let thread = &group.threads[place.index];
        assert(views[place.index as int] == thread@);
        let ghost before = out@;
        out.append("  ");
        out.append(align_right(decimal(thread.tid as u64).as_str(), 7).as_str());
        out.append("  ");
        out.append(align_right(decimal(thread.count).as_str(), 8).as_str());
        out.append("  ");
        out.append(thread.name.as_str());
        out.append("\n");
        assert(out@ =~= before + thread_line(thread@));
        i += 1;
    }
    assert(ranking@.take(i as int) =~= ranking@);
    assert(out@ =~= threads_text(group.label@, ranking@, views));
    out
}

/// A ranking shows every thread exactly once.
pub proof fn lemma_ranking_is_complete(ranking: Seq<Rank>, threads: Seq<ThreadHits>)
    requires
        ranks(ranking, threads),
        threads.len() <= usize::MAX,
    ensures
        ranking.len() == threads.len(),
        forall|i: int| 0 <= i < ranking.len() ==> (#[trigger] ranking[i]).index < threads.len(),
        forall|i: int, j: int|
            0 <= i < j < ranking.len() ==> (#[trigger] ranking[i]).index != (
            #[trigger] ranking[j]).index,
{
    let places = Seq::new(threads.len(), |i: int| rank_of(threads, i));
    assert forall|i: int, j: int| 0 <= i < j < ranking.len() implies (
    #[trigger] ranking[i]).index != (#[trigger] ranking[j]).index by {
        assert(ranking.contains(ranking[i]));
        assert(ranking.contains(ranking[j]));
        let a = choose|a: int| 0 <= a < threads.len() && #[trigger] rank_of(threads, a) == ranking[i];
        let b = choose|b: int| 0 <= b < threads.len() && #[trigger] rank_of(threads, b) == ranking[j];
        assert(ranking[i].before(ranking[j]));
        Rank::lemma_order(ranking[i], ranking[j], ranking[i]);
        assert(a != b);
    }
    assert forall|i: int| 0 <= i < ranking.len() implies (#[trigger] ranking[i]).index
        < threads.len() by {
        assert(ranking.contains(ranking[i]));
        let a = choose|a: int| 0 <= a < threads.len() && #[trigger] rank_of(threads, a) == ranking[i];
    }
    assert(ranking.no_duplicates());
    assert(places.no_duplicates()) by {
        assert forall|i: int, j: int|
            0 <= i < places.len() && 0 <= j < places.len() && i != j implies places[i]
            != places[j] by {
            assert(places[i].index == i && places[j].index == j);
        }
    }
    assert(ranking.to_set() =~= places.to_set()) by {
        assert forall|x: Rank| ranking.to_set().contains(x) <==> places.to_set().contains(x) by {
            if ranking.contains(x) {
                let a = choose|a: int| 0 <= a < threads.len() && #[trigger] rank_of(threads, a) == x;
                assert(places[a] == x);
            }
            if places.contains(x) {
                let a = choose|a: int| 0 <= a < places.len() && places[a] == x;
                assert(rank_of(threads, a) == x);
            }
        }
    }
    ranking.unique_seq_to_set();
    places.unique_seq_to_set();
}

/// The ranking holds every thread, once, and none before one that hit more
/// often.
pub proof fn lemma_ranking_is_in_order(ranking: Seq<Rank>, threads: Seq<ThreadHits>, i: int, j: int)
    requires
        ranks(ranking, threads),
        threads.len() <= usize::MAX,
        0 <= i < j < ranking.len(),
    ensures
        ranking[i].index < threads.len(),
        ranking[j].index < threads.len(),
        threads[ranking[i].index as int].count >= threads[ranking[j].index as int].count,
        threads[ranking[i].index as int].count == threads[ranking[j].index as int].count ==> threads[
        ranking[i].index as int].pid >= threads[ranking[j].index as int].pid,
{
    assert(ranking.contains(ranking[i]));
    assert(ranking.contains(ranking[j]));
    let a = choose|k: int| 0 <= k < threads.len() && #[trigger] rank_of(threads, k) == ranking[i];
    let b = choose|k: int| 0 <= k < threads.len() && #[trigger] rank_of(threads, k) == ranking[j];
    assert(lists::Ordered::before(ranking[i], ranking[j]));
}

/// Every thread stands somewhere in the ranking.
pub proof fn lemma_every_thread_is_ranked(ranking: Seq<Rank>, threads: Seq<ThreadHits>, t: int)
    requires
        ranks(ranking, threads),
        threads.len() <= usize::MAX,
        0 <= t < threads.len(),
    ensures
        exists|i: int| 0 <= i < ranking.len() && (#[trigger] ranking[i]).index == t,
{
    let place = rank_of(threads, t);
    assert(ranking.contains(place));
    let i = choose|i: int| 0 <= i < ranking.len() && ranking[i] == place;
    assert(ranking[i].index == t);
}

/// The threads are listed one to a line, each of them, in the order of the
/// ranking.
pub proof fn lemma_every_thread_has_a_line(
    a: Seq<Rank>,
    b: Seq<Rank>,
    threads: Seq<ThreadView>,
)
    ensures
        thread_lines(a + b, threads) == thread_lines(a, threads) + thread_lines(b, threads),
        forall|place: Rank|
            thread_lines(#[trigger] seq![place], threads) == "  "@ + text::right_aligned(
                text::decimal_digits(threads[place.index as int].tid as nat),
                7,
            ) + "  "@ + text::right_aligned(
                text::decimal_digits(threads[place.index as int].count as nat),
                8,
            ) + "  "@ + threads[place.index as int].name + "\n"@,
    decreases b.len(),
{
    assert forall|place: Rank| thread_lines(#[trigger] seq![place], threads) == "  "@
        + text::right_aligned(
        text::decimal_digits(threads[place.index as int].tid as nat),
        7,
    ) + "  "@ + text::right_aligned(
        text::decimal_digits(threads[place.index as int].count as nat),
        8,
    ) + "  "@ + threads[place.index as int].name + "\n"@ by {
        assert(seq![place].drop_last() =~= Seq::empty());
        assert(thread_lines(Seq::empty(), threads) =~= Seq::empty());
        assert(thread_lines(seq![place], threads) =~= thread_line(threads[place.index as int]));
    }
    if b.len() == 0 {
        assert(a + b =~= a);
    } else {
        lemma_every_thread_has_a_line(a, b.drop_last(), threads);
        assert((a + b).drop_last() =~= a + b.drop_last());
    }
    assert(thread_lines(a + b, threads) =~= thread_lines(a, threads) + thread_lines(b, threads));
}

/// What was read on a hit is shown whole, and a read that failed is told.
/// Nothing is shown where nothing was to be read.
pub proof fn lemma_memory_is_shown(found: Vec<u8>, why: String)
    ensures
        memory_text(Some(Memory::Bytes(found))) == output::dump_text(found@),
        memory_text(Some(Memory::Unreadable(why))) == "  <unreadable: "@ + why@ + ">\n"@,
        memory_text(None) == ""@,
{
}

/// A stack is shown on one line, its frames in order with an arrow between.
pub proof fn lemma_frames_are_shown(frames: Seq<Seq<char>>, next: Seq<char>)
    ensures
        stack_line(seq![next]) == "  "@ + next + "\n"@,
        frames.len() > 0 ==> stack_line(frames.push(next)) == stack_line(frames).drop_last() + " < "@
            + next + "\n"@,
{
    reveal_strlit("\n");
    if frames.len() > 0 {
        assert(frames.push(next).drop_last() =~= frames);
        let line = "  "@ + text::joined(frames, " < "@);
        assert((line + "\n"@).drop_last() =~= line);
        assert(stack_line(frames.push(next)) =~= line + " < "@ + next + "\n"@);
    }
}

/// A hit shows three registers more where the architecture keeps a state in
/// them: the low half of each, in order. Elsewhere it shows none.
pub proof fn lemma_state_is_shown(arch: Arch, regs: Seq<u64>)
    ensures
        arch is X86_64 || regs.len() <= 10 ==> state_text(arch, regs) == ""@,
        arch is Aarch64 && regs.len() > 10 ==> state_text(arch, regs) == " state=["@
            + text::joined(
            seq![
                text::hex_text((regs[8] % 0x1_0000_0000) as nat),
                text::hex_text((regs[9] % 0x1_0000_0000) as nat),
                text::hex_text((regs[10] % 0x1_0000_0000) as nat),
            ],
            ","@,
        ) + "]"@,
{
    if arch is Aarch64 && regs.len() > 10 {
        let (a, b, c) = (regs[8], regs[9], regs[10]);
        assert(a as u32 == a % 0x1_0000_0000) by (bit_vector);
        assert(b as u32 == b % 0x1_0000_0000) by (bit_vector);
        assert(c as u32 == c % 0x1_0000_0000) by (bit_vector);
        let shown = seq![
            text::hex_text((a % 0x1_0000_0000) as nat),
            text::hex_text((b % 0x1_0000_0000) as nat),
            text::hex_text((c % 0x1_0000_0000) as nat),
        ];
        assert(shown.drop_last().drop_last() =~= seq![shown[0]]);
        reveal_with_fuel(text::joined, 4);
        assert(state_text(arch, regs) =~= " state=["@ + text::joined(shown, ","@) + "]"@);
    }
}

/// The line of a hit begins with its time, its label, its process and thread
/// and where it came from, in this order, and ends with its arguments.
pub proof fn lemma_hit_tells_its_sample(
    arch: Arch,
    label: Seq<char>,
    sample: Sample,
    caller: Seq<char>,
    all_regs: bool,
)
    ensures
        ({
            let time = text::right_aligned(text::decimal_digits(sample.time as nat), 16);
            let who = " pid="@ + text::decimal_digits(sample.pid as nat) + " tid="@
                + text::decimal_digits(sample.tid as nat);
            let head = time + " "@ + label + who + " from="@ + caller;
            let shown = output::registers_text(
                arch,
                perf::arguments(arch, sample.regs@),
                all_regs,
            );
            let line = hit_line(arch, label, sample, caller, all_regs);
            &&& text::begins_with(line, head)
            &&& line.skip(head.len() as int) == state_text(arch, sample.regs@) + " "@ + shown
                + "\n"@
        }),
{
    let time = text::right_aligned(text::decimal_digits(sample.time as nat), 16);
    let who = " pid="@ + text::decimal_digits(sample.pid as nat) + " tid="@
        + text::decimal_digits(sample.tid as nat);
    let head = time + " "@ + label + who + " from="@ + caller;
    let shown = output::registers_text(arch, perf::arguments(arch, sample.regs@), all_regs);
    let tail = state_text(arch, sample.regs@) + " "@ + shown + "\n"@;
    assert(hit_line(arch, label, sample, caller, all_regs) =~= head + tail);
    assert((head + tail).take(head.len() as int) =~= head);
    assert((head + tail).skip(head.len() as int) =~= tail);
}

/// The threads of a group are counted and the group is named before they are
/// listed.
pub proof fn lemma_threads_are_counted(
    label: Seq<char>,
    ranking: Seq<Rank>,
    threads: Seq<ThreadView>,
)
    ensures
        text::begins_with(
            threads_text(label, ranking, threads),
            text::decimal_digits(threads.len()) + " threads for "@ + label + "\n"@,
        ),
        threads_text(label, ranking, threads).skip(
            (text::decimal_digits(threads.len()) + " threads for "@ + label + "\n"@).len() as int,
        ) == thread_lines(ranking, threads),
{
    let head = text::decimal_digits(threads.len()) + " threads for "@ + label + "\n"@;
    let all = threads_text(label, ranking, threads);
    assert(all.take(head.len() as int) =~= head);
    assert(all.skip(head.len() as int) =~= thread_lines(ranking, threads));
}

} // verus!
