//! Pure decoding of the perf ring buffer. Kept free of system calls so the
//! wrap and layout handling can be tested without a device.

use vstd::prelude::*;
use vstd::arithmetic::div_mod::lemma_fundamental_div_mod;
use vstd::arithmetic::div_mod::lemma_fundamental_div_mod_converse;
use vstd::slice::slice_subrange;
use crate::bytes::{le16, le32, le64, u16_at, u32_at, u64_at};

verus! {

pub const PERF_RECORD_SAMPLE: u32 = 9;
pub const PERF_RECORD_LOST: u32 = 2;

pub const HEADER_SIZE: usize = 8;

#[derive(Debug, PartialEq, Eq)]
pub struct Record {
    pub kind: u32,
    pub body: Vec<u8>,
}

/// What a record holds.
pub struct RecordView {
    pub kind: u32,
    pub body: Seq<u8>,
}

impl View for Record {
    type V = RecordView;

    open spec fn view(&self) -> RecordView {
        RecordView { kind: self.kind, body: self.body@ }
    }
}

#[derive(Debug, Clone, Copy, PartialEq, Eq, Structural)]
pub struct DecodeError;

/// The `len` bytes from position `start` of an endless repetition of `data`.
pub open spec fn wrapped(data: Seq<u8>, start: int, len: nat) -> Seq<u8> {
    Seq::new(len, |i: int| data[(start + i) % (data.len() as int)])
}

proof fn lemma_next_mod(x: int, n: int)
    requires
        n > 0,
        x >= 0,
    ensures
        (x + 1) % n == if x % n + 1 == n {
            0
        } else {
            x % n + 1
        },
{
    lemma_fundamental_div_mod(x, n);
    let q = x / n;
    let m = x % n;
    if m + 1 == n {
        assert(x + 1 == (q + 1) * n) by (nonlinear_arith)
            requires
                x == n * q + m,
                m + 1 == n,
        ;
        lemma_fundamental_div_mod_converse(x + 1, n, q + 1, 0);
    } else {
        assert(x + 1 == q * n + (m + 1)) by (nonlinear_arith)
            requires
                x == n * q + m,
        ;
        lemma_fundamental_div_mod_converse(x + 1, n, q, m + 1);
    }
}

/// The data area is a ring indexed by position modulo its length, and a
/// single record may straddle the end, so this cannot be a plain slice.
pub fn read_wrapped(data: &[u8], start: u64, len: usize) -> (r: Option<Vec<u8>>)
    ensures
        r is Some <==> 0 < data@.len() && len <= data@.len(),
        r matches Some(out) ==> out@ == wrapped(data@, start as int, len as nat),
{
    if data.len() == 0 || len > data.len() {
        return None;
    }
    let mut at: usize = (start % (data.len() as u64)) as usize;
    let mut out: Vec<u8> = Vec::with_capacity(len);
    while out.len() < len
        invariant
            0 < data@.len(),
            out@.len() <= len,
            at == (start + out@.len()) % (data@.len() as int),
            at < data@.len(),
            out@ =~= wrapped(data@, start as int, out@.len()),
        decreases len - out@.len(),
    {
        let ghost n = out@.len();
        out.push(data[at]);
        proof {
            lemma_next_mod(start + n, data@.len() as int);
        }
        at = at + 1;
        if at == data.len() {
            at = 0;
        }
    }
    Some(out)
}

/// The size that the header at `tail` gives its record.
pub open spec fn record_size(data: Seq<u8>, tail: int) -> int {
    le16(wrapped(data, tail, 8), 6)
}

/// Whether a whole record lies between `tail` and `head`.
pub open spec fn has_record(data: Seq<u8>, tail: int, head: int) -> bool {
    &&& tail + 8 <= head
    &&& 8 <= data.len()
    &&& 8 <= record_size(data, tail) <= head - tail
    &&& record_size(data, tail) - 8 <= data.len()
}

/// The record at `tail`, where there is one.
pub open spec fn record_at(data: Seq<u8>, tail: int) -> RecordView {
    RecordView {
        kind: le32(wrapped(data, tail, 8), 0) as u32,
        body: wrapped(data, tail + 8, (record_size(data, tail) - 8) as nat),
    }
}

/// Returns the record at `tail` and the tail to use next.
pub fn next_record(data: &[u8], tail: u64, head: u64) -> (r: Result<
    Option<(Record, u64)>,
    DecodeError,
>)
    ensures
        r matches Ok(None) ==> tail >= head,
        r matches Ok(Some((record, next))) ==> {
            &&& tail < head
            &&& has_record(data@, tail as int, head as int)
            &&& record@ == record_at(data@, tail as int)
            &&& next == tail + record_size(data@, tail as int)
            &&& tail < next <= head
        },
        r is Err ==> tail < head && !has_record(data@, tail as int, head as int),
{
    if tail >= head {
        return Ok(None);
    }
    if head - tail < HEADER_SIZE as u64 {
        return Err(DecodeError);
    }
    let header = match read_wrapped(data, tail, HEADER_SIZE) {
        Some(header) => header,
        None => return Err(DecodeError),
    };
    let (kind, size): (u32, usize) = match (u32_at(&header, 0), u16_at(&header, 6)) {
        (Some(kind), Some(size)) => (kind, size as usize),
        _ => return Err(DecodeError),
    };
    assert(size == record_size(data@, tail as int));
    if size < HEADER_SIZE || size as u64 > head - tail {
        return Err(DecodeError);
    }
    match read_wrapped(data, tail + HEADER_SIZE as u64, size - HEADER_SIZE) {
        Some(body) => {
            let record = Record { kind, body };
            assert(record@ == record_at(data@, tail as int));
            Ok(Some((record, tail + size as u64)))
        },
        None => Err(DecodeError),
    }
}

/// Fields of a sample recorded with `IP` | `TID` | `TIME` | `REGS_USER`,
/// optionally followed by `STACK_USER`, in the order the kernel emits them.
#[derive(Debug, PartialEq, Eq)]
pub struct Sample {
    pub ip: u64,
    pub pid: u32,
    pub tid: u32,
    pub time: u64,
    pub regs: Vec<u64>,
    pub stack: Vec<u8>,
}

/// The least length of a sample with `regs` registers.
pub open spec fn sample_need(regs: int) -> int {
    32 + regs * 8
}

/// The stack copy that follows the fixed part of a sample: a size, the
/// bytes, then the size the kernel actually managed to copy, which is what
/// bounds it. A truncated record yields no stack rather than a wrong one.
pub open spec fn stack_of(body: Seq<u8>, need: int) -> Seq<u8> {
    let size = le64(body, need);
    let filled = le64(body, need + 8 + size);
    if need + 8 <= body.len() && need + 8 + size + 8 <= body.len() && filled <= usize::MAX {
        body.subrange(
            need + 8,
            need + 8 + if filled < size {
                filled
            } else {
                size
            },
        )
    } else {
        Seq::empty()
    }
}

/// Whether `s` is what `body` says.
pub open spec fn decodes(s: Sample, body: Seq<u8>, regs: int) -> bool {
    &&& s.ip == le64(body, 0)
    &&& s.pid == le32(body, 8)
    &&& s.tid == le32(body, 12)
    &&& s.time == le64(body, 16)
    &&& s.regs@.len() == regs
    &&& forall|i: int| 0 <= i < regs ==> #[trigger] s.regs@[i] == le64(body, 32 + i * 8)
    &&& s.stack@ == stack_of(body, sample_need(regs))
}

fn parse_stack(body: &[u8], need: usize) -> (r: Vec<u8>)
    ensures
        r@ == stack_of(body@, need as int),
{
    let mut out: Vec<u8> = Vec::new();
    let total: usize = body.len();
    let raw_size: u64 = match u64_at(body, need) {
        Some(size) => size,
        None => return out,
    };
    // Past the first read, the fixed part and the size field fit the body.
    let bytes_at: usize = need + 8;
    if raw_size > (total - bytes_at) as u64 {
        return out;
    }
    let size: usize = raw_size as usize;
    let dyn_at: usize = bytes_at + size;
    let raw_filled: u64 = match u64_at(body, dyn_at) {
        Some(filled) => filled,
        None => return out,
    };
    if raw_filled > usize::MAX as u64 {
        return out;
    }
    let filled: usize = if raw_filled < raw_size {
        raw_filled as usize
    } else {
        size
    };
    let copied = slice_subrange(body, bytes_at, bytes_at + filled);
    let mut i: usize = 0;
    while i < copied.len()
        invariant
            i <= copied@.len(),
            out@ =~= copied@.take(i as int),
        decreases copied@.len() - i,
    {
        out.push(copied[i]);
        i += 1;
    }
    assert(out@ =~= copied@);
    out
}

/// Decodes the body of a sample that carries `reg_count` registers.
pub fn parse_sample(body: &[u8], reg_count: usize) -> (r: Option<Sample>)
    ensures
        r is Some <==> body@.len() >= sample_need(reg_count as int),
        r matches Some(s) ==> decodes(s, body@, reg_count as int),
{
    let total: usize = body.len();
    if total < 32 || reg_count > (total - 32) / 8 {
        return None;
    }
    let need: usize = 32 + reg_count * 8;
    let mut regs: Vec<u64> = Vec::new();
    let mut i: usize = 0;
    while i < reg_count
        invariant
            i <= reg_count,
            total == body@.len(),
            total >= 32 + reg_count * 8,
            regs@.len() == i,
            forall|k: int| 0 <= k < i ==> #[trigger] regs@[k] == le64(body@, 32 + k * 8),
        decreases reg_count - i,
    {
        match u64_at(body, 32 + i * 8) {
            Some(value) => regs.push(value),
            None => return None,
        }
        i += 1;
    }
    let stack = parse_stack(body, need);
    match (u64_at(body, 0), u32_at(body, 8), u32_at(body, 12), u64_at(body, 16)) {
        (Some(ip), Some(pid), Some(tid), Some(time)) => Some(
            Sample { ip, pid, tid, time, regs, stack },
        ),
        _ => None,
    }
}

/// Every record from `tail` up to `head`, or up to the first position that
/// holds no whole record.
pub open spec fn records_from(data: Seq<u8>, tail: int, head: int) -> Seq<RecordView>
    decreases head - tail,
{
    if tail < head && has_record(data, tail, head) {
        seq![record_at(data, tail)] + records_from(
            data,
            tail + record_size(data, tail),
            head,
        )
    } else {
        Seq::empty()
    }
}

/// Whether the records from `tail` stop short of `head`.
pub open spec fn stops_short(data: Seq<u8>, tail: int, head: int) -> bool
    decreases head - tail,
{
    if tail >= head {
        false
    } else if has_record(data, tail, head) {
        stops_short(data, tail + record_size(data, tail), head)
    } else {
        true
    }
}

/// The bodies of the samples among `records` that carry `regs` registers.
pub open spec fn samples_in(records: Seq<RecordView>, regs: int) -> Seq<Seq<u8>>
    decreases records.len(),
{
    if records.len() == 0 {
        Seq::empty()
    } else {
        let before = samples_in(records.drop_last(), regs);
        let last = records.last();
        if last.kind == PERF_RECORD_SAMPLE && last.body.len() >= sample_need(regs) {
            before.push(last.body)
        } else {
            before
        }
    }
}

/// How many samples the kernel says it dropped.
pub open spec fn lost_in(records: Seq<RecordView>) -> int
    decreases records.len(),
{
    if records.len() == 0 {
        0
    } else {
        let before = lost_in(records.drop_last());
        let last = records.last();
        if last.kind == PERF_RECORD_LOST && last.body.len() >= 16 {
            before + le64(last.body, 8)
        } else {
            before
        }
    }
}

/// How many samples and loss notices are too short to be read.
pub open spec fn malformed_in(records: Seq<RecordView>, regs: int) -> int
    decreases records.len(),
{
    if records.len() == 0 {
        0
    } else {
        let before = malformed_in(records.drop_last(), regs);
        let last = records.last();
        if (last.kind == PERF_RECORD_SAMPLE && last.body.len() < sample_need(regs)) || (last.kind
            == PERF_RECORD_LOST && last.body.len() < 16) {
            before + 1
        } else {
            before
        }
    }
}

/// The bytes of a record: its kind, two reserved bytes, its whole size, and
/// its body.
pub open spec fn record_bytes(kind: u32, body: Seq<u8>) -> Seq<u8> {
    let size = 8 + body.len();
    seq![
        (kind as int % 0x100) as u8,
        (kind as int / 0x100 % 0x100) as u8,
        (kind as int / 0x1_0000 % 0x100) as u8,
        (kind as int / 0x100_0000) as u8,
        0u8,
        0u8,
        (size % 0x100) as u8,
        (size / 0x100) as u8,
    ] + body
}

/// A record that was written into the ring at `tail`, straddling its end or
/// not, is the record that is found there.
pub proof fn lemma_written_record_is_found(
    data: Seq<u8>,
    tail: int,
    head: int,
    kind: u32,
    body: Seq<u8>,
)
    requires
        0 <= tail,
        8 <= data.len(),
        8 + body.len() <= 0xFFFF,
        body.len() <= data.len(),
        tail + 8 + body.len() <= head,
        wrapped(data, tail, 8 + body.len()) == record_bytes(kind, body),
    ensures
        has_record(data, tail, head),
        record_size(data, tail) == 8 + body.len(),
        record_at(data, tail) == (RecordView { kind, body }),
{
    let whole = wrapped(data, tail, 8 + body.len());
    let header = wrapped(data, tail, 8);
    assert forall|i: int| 0 <= i < 8 implies header[i] == record_bytes(kind, body)[i] by {
        assert(header[i] == whole[i]);
    }
    assert(record_size(data, tail) == 8 + body.len());
    assert(le32(header, 0) == kind);
    let found = wrapped(data, tail + 8, body.len());
    assert forall|i: int| 0 <= i < body.len() implies found[i] == body[i] by {
        assert(whole[8 + i] == record_bytes(kind, body)[8 + i]);
        assert(whole[8 + i] == data[(tail + (8 + i)) % (data.len() as int)]);
        assert(found[i] == data[((tail + 8) + i) % (data.len() as int)]);
        assert((tail + 8) + i == tail + (8 + i));
    }
    assert(found =~= body);
}

/// A stack copy is never longer than the kernel says it copied, nor than was
/// asked for.
pub proof fn lemma_stack_is_bounded(body: Seq<u8>, need: int)
    requires
        0 <= need,
        need + 8 <= body.len(),
    ensures
        stack_of(body, need).len() <= le64(body, need),
        need + 8 + le64(body, need) + 8 <= body.len() ==> stack_of(body, need).len() <= le64(
            body,
            need + 8 + le64(body, need),
        ),
{
    let size = le64(body, need);
    if need + 8 + size + 8 <= body.len() {
        let filled = le64(body, need + 8 + size);
    }
}

/// The bytes of records as the kernel writes them, one behind the other.
pub open spec fn written(records: Seq<RecordView>) -> Seq<u8>
    decreases records.len(),
{
    if records.len() == 0 {
        Seq::empty()
    } else {
        record_bytes(records[0].kind, records[0].body) + written(records.skip(1))
    }
}

/// Every record that was written is found, in order and as it was written,
/// wherever the ring wraps around, and nothing else is found.
pub proof fn lemma_written_records_are_found(data: Seq<u8>, tail: int, records: Seq<RecordView>)
    requires
        0 <= tail,
        8 <= data.len(),
        forall|i: int|
            0 <= i < records.len() ==> (#[trigger] records[i]).body.len() + 8 <= 0xFFFF
                && records[i].body.len() <= data.len(),
        wrapped(data, tail, written(records).len()) == written(records),
    ensures
        records_from(data, tail, tail + written(records).len()) == records,
        !stops_short(data, tail, tail + written(records).len()),
    decreases records.len(),
{
    let head = tail + written(records).len();
    if records.len() > 0 {
        let first = records[0];
        let rest = records.skip(1);
        let size = 8 + first.body.len();
        let whole = wrapped(data, tail, written(records).len());
        assert(record_bytes(first.kind, first.body).len() == size);
        assert(first.body.len() + 8 <= 0xFFFF);
        assert forall|i: int| 0 <= i < size implies wrapped(data, tail, size)[i] == record_bytes(
            first.kind,
            first.body,
        )[i] by {
            assert(wrapped(data, tail, size)[i] == whole[i]);
            assert(written(records)[i] == record_bytes(first.kind, first.body)[i]);
        }
        assert(wrapped(data, tail, size) =~= record_bytes(first.kind, first.body));
        lemma_written_record_is_found(data, tail, head, first.kind, first.body);
        let after = wrapped(data, tail + size, written(rest).len());
        assert forall|i: int| 0 <= i < after.len() implies after[i] == written(rest)[i] by {
            assert(whole[size + i] == data[(tail + (size + i)) % (data.len() as int)]);
            assert(tail + (size + i) == (tail + size) + i);
            assert(written(records)[size + i] == written(rest)[i]);
        }
        assert(after =~= written(rest));
        assert forall|i: int| 0 <= i < rest.len() implies (#[trigger] rest[i]).body.len() + 8
            <= 0xFFFF && rest[i].body.len() <= data.len() by {
            assert(rest[i] == records[i + 1]);
        }
        lemma_written_records_are_found(data, tail + size, rest);
        assert(record_at(data, tail) == first);
        assert(seq![first] + rest =~= records);
    } else {
        assert(records =~= Seq::empty());
    }
}

/// The samples, the loss and the malformed records of a run of records are
/// those of its parts together.
pub proof fn lemma_every_record_counts(a: Seq<RecordView>, b: Seq<RecordView>, regs: int)
    ensures
        samples_in(a + b, regs) == samples_in(a, regs) + samples_in(b, regs),
        lost_in(a + b) == lost_in(a) + lost_in(b),
        malformed_in(a + b, regs) == malformed_in(a, regs) + malformed_in(b, regs),
    decreases b.len(),
{
    if b.len() == 0 {
        assert(a + b =~= a);
    } else {
        lemma_every_record_counts(a, b.drop_last(), regs);
        assert((a + b).drop_last() =~= a + b.drop_last());
    }
    assert(samples_in(a + b, regs) =~= samples_in(a, regs) + samples_in(b, regs));
}

/// A sample record is a sample where it holds all registers, a loss record
/// counts as many as it says, and either counts as malformed where it is too
/// short. Any other record counts for nothing.
pub proof fn lemma_record_counts(record: RecordView, regs: int)
    ensures
        record.kind == 9 && record.body.len() >= 32 + 8 * regs ==> samples_in(seq![record], regs)
            == seq![record.body] && lost_in(seq![record]) == 0 && malformed_in(seq![record], regs)
            == 0,
        record.kind == 9 && record.body.len() < 32 + 8 * regs ==> samples_in(
            seq![record],
            regs,
        ).len() == 0 && lost_in(seq![record]) == 0 && malformed_in(seq![record], regs) == 1,
        record.kind == 2 && record.body.len() >= 16 ==> samples_in(seq![record], regs).len() == 0
            && lost_in(seq![record]) == le64(record.body, 8) && malformed_in(seq![record], regs)
            == 0,
        record.kind == 2 && record.body.len() < 16 ==> samples_in(seq![record], regs).len() == 0
            && lost_in(seq![record]) == 0 && malformed_in(seq![record], regs) == 1,
        record.kind != 9 && record.kind != 2 ==> samples_in(seq![record], regs).len() == 0
            && lost_in(seq![record]) == 0 && malformed_in(seq![record], regs) == 0,
{
    let none = Seq::<RecordView>::empty();
    assert(seq![record].drop_last() =~= none);
    assert(samples_in(none, regs) =~= Seq::empty());
    assert(lost_in(none) == 0);
    assert(malformed_in(none, regs) == 0);
    assert(samples_in(seq![record], regs) =~= if record.kind == 9 && record.body.len() >= 32 + 8
        * regs {
        seq![record.body]
    } else {
        Seq::empty()
    });
}

/// A sample is what its body holds: the address of the hit, the process and the
/// thread, the time, behind eight more bytes each register, and the stack that
/// was copied, as far as it was filled.
pub proof fn lemma_sample_is_decoded(sample: Sample, body: Seq<u8>, regs: int, i: int)
    requires
        decodes(sample, body, regs),
        regs >= 0,
    ensures
        sample.ip == le64(body, 0),
        sample.pid == le32(body, 8),
        sample.tid == le32(body, 12),
        sample.time == le64(body, 16),
        sample.regs@.len() == regs,
        0 <= i < regs ==> sample.regs@[i] == le64(body, 32 + 8 * i),
        ({
            let at = 32 + 8 * regs;
            let size = le64(body, at);
            let filled = le64(body, at + 8 + size);
            &&& at + 16 + size <= body.len() && filled <= size && size <= usize::MAX
                ==> sample.stack@ == body.subrange(at + 8, at + 8 + filled)
            &&& at + 16 + size <= body.len() && size < filled <= usize::MAX ==> sample.stack@
                == body.subrange(at + 8, at + 8 + size)
            &&& at + 16 + size > body.len() ==> sample.stack@.len() == 0
        }),
{
    if 0 <= i < regs {
        assert(sample.regs@[i] == le64(body, 32 + i * 8));
    }
}

/// A drain stops short exactly where the records that it found do not fill what
/// was written.
pub proof fn lemma_leftover_is_told(data: Seq<u8>, tail: int, head: int)
    requires
        0 <= tail <= head,
    ensures
        stops_short(data, tail, head) <==> tail + written(records_from(data, tail, head)).len()
            < head,
        tail + written(records_from(data, tail, head)).len() <= head,
    decreases head - tail,
{
    if tail < head && has_record(data, tail, head) {
        let next = tail + record_size(data, tail);
        let rest = records_from(data, next, head);
        let all = seq![record_at(data, tail)] + rest;
        lemma_leftover_is_told(data, next, head);
        assert(all.skip(1) =~= rest);
        assert(written(all).len() == record_size(data, tail) + written(rest).len());
    }
}

} // verus!
