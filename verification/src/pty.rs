//! Starting a shell on a terminal or on a pair of sockets.

use vstd::prelude::*;
use crate::fault::{self, tell, tell_owned, Fault, Kind};
use crate::text::{self, decimal};

verus! {

/// What a shell is started with.
#[derive(Debug)]
pub struct SpawnOpts<'req> {
    pub argv: &'req [String],
    pub exec_context: Option<&'req str>,
    pub env: &'req [String],
}

/// The strings of a shell as the system takes them: bytes with a zero behind,
/// made before the fork so that the child allocates nothing.
#[derive(Debug)]
pub struct Prepared {
    pub args: Vec<Vec<u8>>,
    pub env: Vec<Vec<u8>>,
    pub exec_ctx: Option<Vec<u8>>,
}

/// The index of the first zero byte, or the length.
pub open spec fn nul_at(bytes: Seq<u8>) -> int
    decreases bytes.len(),
{
    if bytes.len() == 0 || bytes[0] == 0 {
        0
    } else {
        1 + nul_at(bytes.skip(1))
    }
}

proof fn lemma_nul_at(bytes: Seq<u8>, n: int)
    requires
        0 <= n <= bytes.len(),
        forall|i: int| 0 <= i < n ==> bytes[i] != 0,
        n < bytes.len() ==> bytes[n] == 0,
    ensures
        nul_at(bytes) == n,
    decreases n,
{
    if n > 0 {
        assert forall|i: int| 0 <= i < n - 1 implies bytes.skip(1)[i] != 0 by {
            assert(bytes[i + 1] != 0);
        }
        lemma_nul_at(bytes.skip(1), n - 1);
    }
}

/// The bytes of a string.
pub open spec fn utf8(s: Seq<char>) -> Seq<u8> {
    vstd::utf8::encode_utf8(s)
}

/// Whether a string holds a zero byte.
pub open spec fn holds_nul(s: Seq<char>) -> bool {
    nul_at(utf8(s)) < utf8(s).len()
}

proof fn lemma_scalar_without_nul(scalar: u32)
    requires
        0 < scalar <= 0x10FFFF,
    ensures
        forall|i: int|
            0 <= i < vstd::utf8::encode_scalar(scalar).len()
                ==> #[trigger] vstd::utf8::encode_scalar(scalar)[i] != 0,
{
    assert(scalar <= 0x7F ==> vstd::utf8::leading_byte_width_1(scalar) != 0) by (bit_vector)
        requires
            0 < scalar <= 0x10FFFF,
    ;
    assert(vstd::utf8::leading_byte_width_2(scalar) != 0 && vstd::utf8::leading_byte_width_3(scalar)
        != 0 && vstd::utf8::leading_byte_width_4(scalar) != 0
        && vstd::utf8::last_continuation_byte(scalar) != 0
        && vstd::utf8::second_last_continuation_byte(scalar) != 0
        && vstd::utf8::third_last_continuation_byte(scalar) != 0) by (bit_vector);
}

/// A string without a NUL has no zero byte.
pub proof fn lemma_without_nul(s: Seq<char>)
    requires
        !s.contains('\0'),
    ensures
        !holds_nul(s),
    decreases s.len(),
{
    lemma_bytes_without_nul(s);
    lemma_nul_at(utf8(s), utf8(s).len() as int);
}

proof fn lemma_bytes_without_nul(s: Seq<char>)
    requires
        !s.contains('\0'),
    ensures
        forall|i: int| 0 <= i < utf8(s).len() ==> #[trigger] utf8(s)[i] != 0,
    decreases s.len(),
{
    if s.len() > 0 {
        let scalar = s[0] as u32;
        assert(s[0] != '\0');
        vstd::utf8::char_is_scalar(s[0]);
        vstd::utf8::char_u32_cast(s[0], scalar);
        assert(0 < scalar <= 0x10FFFF);
        lemma_scalar_without_nul(scalar);
        assert forall|i: int| 0 <= i < s.drop_first().len() implies s.drop_first()[i] != '\0' by {
            assert(s[i + 1] != '\0');
        }
        lemma_bytes_without_nul(s.drop_first());
        let first = vstd::utf8::encode_scalar(scalar);
        assert forall|i: int| 0 <= i < utf8(s).len() implies #[trigger] utf8(s)[i] != 0 by {
            if i < first.len() {
                assert(utf8(s)[i] == first[i]);
            } else {
                assert(utf8(s)[i] == utf8(s.drop_first())[i - first.len()]);
            }
        }
    }
}

/// What is said of a string that holds a zero byte.
pub open spec fn nul_text(s: Seq<char>) -> Seq<char> {
    "nul byte found in provided data at position: "@ + text::decimal_digits(nul_at(utf8(s)) as nat)
}

/// The bytes of a string with a zero behind, unless it holds one itself.
pub fn terminated(s: &str) -> (r: Result<Vec<u8>, Fault>)
    ensures
        match r {
            Ok(bytes) => !holds_nul(s@) && bytes@ == utf8(s@).push(0),
            Err(f) => holds_nul(s@) && fault::told(f, Kind::InvalidInput, nul_text(s@)),
        },
{
    let bytes = s.as_bytes();
    let mut out: Vec<u8> = Vec::new();
    let mut n: usize = 0;
    while n < bytes.len()
        invariant
            n <= bytes@.len(),
            bytes@ == utf8(s@),
            out@ =~= bytes@.take(n as int),
            forall|i: int| 0 <= i < n ==> bytes@[i] != 0,
        decreases bytes@.len() - n,
    {
        if bytes[n] == 0 {
            proof {
                lemma_nul_at(bytes@, n as int);
            }
            let mut message = "nul byte found in provided data at position: ".to_owned();
            message.append(decimal(n as u64).as_str());
            return Err(tell_owned(Kind::InvalidInput, message));
        }
        out.push(bytes[n]);
        n += 1;
    }
    proof {
        lemma_nul_at(bytes@, n as int);
    }
    assert(out@ =~= bytes@);
    out.push(0);
    Ok(out)
}

/// The bytes of each string with a zero behind.
pub open spec fn all_terminated(strings: Seq<Seq<char>>) -> Seq<Seq<u8>> {
    Seq::new(strings.len(), |i: int| utf8(strings[i]).push(0))
}

/// What each list of bytes holds.
pub open spec fn held(lists: Seq<Vec<u8>>) -> Seq<Seq<u8>> {
    Seq::new(lists.len(), |i: int| lists[i]@)
}

/// The first string that holds a zero byte.
pub open spec fn first_with_nul(strings: Seq<Seq<char>>) -> Option<Seq<char>>
    decreases strings.len(),
{
    if strings.len() == 0 {
        None
    } else if holds_nul(strings[0]) {
        Some(strings[0])
    } else {
        first_with_nul(strings.skip(1))
    }
}

/// Strings without a NUL have no zero byte among them.
pub proof fn lemma_all_without_nul(strings: Seq<Seq<char>>)
    requires
        forall|i: int| 0 <= i < strings.len() ==> !(#[trigger] strings[i]).contains('\0'),
    ensures
        first_with_nul(strings) is None,
    decreases strings.len(),
{
    if strings.len() > 0 {
        lemma_without_nul(strings[0]);
        assert forall|i: int| 0 <= i < strings.skip(1).len() implies !(#[trigger] strings.skip(
            1,
        )[i]).contains('\0') by {
            assert(strings.skip(1)[i] == strings[i + 1]);
        }
        lemma_all_without_nul(strings.skip(1));
    }
}

fn terminate_all(strings: &[String]) -> (r: Result<Vec<Vec<u8>>, Fault>)
    ensures
        match first_with_nul(text::texts(strings@)) {
            None => r matches Ok(lists) && held(lists@) == all_terminated(text::texts(strings@)),
            Some(s) => r matches Err(f) && fault::told(f, Kind::InvalidInput, nul_text(s)),
        },
{
    let ghost all = text::texts(strings@);
    let mut out: Vec<Vec<u8>> = Vec::new();
    assert(all.skip(0) =~= all);
    while out.len() < strings.len()
        invariant
            out@.len() <= strings@.len(),
            all == text::texts(strings@),
            first_with_nul(all) == first_with_nul(all.skip(out@.len() as int)),
            held(out@) =~= all_terminated(all).take(out@.len() as int),
        decreases strings@.len() - out@.len(),
    {
        let n: usize = out.len();
        assert(all.skip(n as int).skip(1) =~= all.skip(n + 1));
        assert(all[n as int] == strings@[n as int]@);
        let ghost before = out@;
        match terminated(strings[n].as_str()) {
            Ok(bytes) => {
                let ghost seen = bytes@;
                out.push(bytes);
                assert(held(out@) =~= held(before).push(seen));
            },
            Err(f) => return Err(f),
        }
    }
    assert(held(out@) =~= all_terminated(all));
    Ok(out)
}

/// Why a shell cannot be prepared, if it cannot.
pub open spec fn preparation_refusal(
    argv: Seq<Seq<char>>,
    env: Seq<Seq<char>>,
    context: Option<Seq<char>>,
) -> Option<Seq<char>> {
    if argv.len() == 0 {
        Some("argv must not be empty"@)
    } else {
        match (first_with_nul(argv), first_with_nul(env), context) {
            (Some(arg), _, _) => Some(nul_text(arg)),
            (None, Some(entry), _) => Some(nul_text(entry)),
            (None, None, Some(context)) => if holds_nul(context) {
                Some(nul_text(context))
            } else {
                None
            },
            (None, None, None) => None,
        }
    }
}

/// What a borrowed string holds, if there is one.
pub open spec fn borrowed(s: Option<&str>) -> Option<Seq<char>> {
    match s {
        Some(s) => Some(s@),
        None => None,
    }
}

impl Prepared {
    /// Everything the child needs.
    pub fn new(opts: &SpawnOpts) -> (r: Result<Self, Fault>)
        ensures
            match preparation_refusal(
                text::texts(opts.argv@),
                text::texts(opts.env@),
                borrowed(opts.exec_context),
            ) {
                Some(why) => r matches Err(f) && fault::told(f, Kind::InvalidInput, why),
                None => r matches Ok(prep) && held(prep.args@) == all_terminated(
                    text::texts(opts.argv@),
                ) && held(prep.env@) == all_terminated(text::texts(opts.env@)) && match (
                    prep.exec_ctx,
                    opts.exec_context,
                ) {
                    (Some(bytes), Some(context)) => bytes@ == utf8(context@).push(0),
                    (None, None) => true,
                    _ => false,
                },
            },
    {
        if opts.argv.len() == 0 {
            return Err(tell(Kind::InvalidInput, "argv must not be empty"));
        }
        let args = match terminate_all(opts.argv) {
            Ok(args) => args,
            Err(f) => return Err(f),
        };
        let env = match terminate_all(opts.env) {
            Ok(env) => env,
            Err(f) => return Err(f),
        };
        let exec_ctx = match opts.exec_context {
            Some(context) => match terminated(context) {
                Ok(bytes) => Some(bytes),
                Err(f) => return Err(f),
            },
            None => None,
        };
        Ok(Prepared { args, env, exec_ctx })
    }
}

/// What a child could not do.
#[derive(Debug, Clone, Copy, PartialEq, Eq, Structural)]
pub enum ChildFailure {
    Session,
    Terminal,
    Io,
    Context,
    Exec,
}

impl ChildFailure {
    pub open spec fn spec_code(self) -> u8 {
        match self {
            ChildFailure::Session => 1,
            ChildFailure::Terminal => 2,
            ChildFailure::Io => 3,
            ChildFailure::Context => 4,
            ChildFailure::Exec => 5,
        }
    }

    /// The byte that a child reports a failure by.
    pub fn code(self) -> (r: u8)
        ensures
            r == self.spec_code(),
    {
        match self {
            ChildFailure::Session => 1,
            ChildFailure::Terminal => 2,
            ChildFailure::Io => 3,
            ChildFailure::Context => 4,
            ChildFailure::Exec => 5,
        }
    }

    /// What a child exits with: 127 where something was not to be had, 126
    /// where it could not be used.
    pub fn exit_code(self) -> (r: i32)
        ensures
            r == (if self is Terminal || self is Exec {
                127i32
            } else {
                126i32
            }),
    {
        match self {
            ChildFailure::Terminal => 127,
            ChildFailure::Exec => 127,
            _ => 126,
        }
    }
}

/// What is said of the byte that a child reported.
pub open spec fn failure_text(code: u8) -> Seq<char> {
    if code == 1 {
        "child could not create its session"@
    } else if code == 2 {
        "child could not open its terminal"@
    } else if code == 3 {
        "child could not connect standard I/O"@
    } else if code == 4 {
        "child could not select its SELinux exec context"@
    } else if code == 5 {
        "child could not execute the shell"@
    } else {
        "child setup failed"@
    }
}

/// What reading the handshake means: the child executed the shell, it failed,
/// or the read is to be tried again.
#[derive(Debug)]
pub enum Handshake {
    Executed,
    Failed(Fault),
    /// The read failed, and not because it was interrupted.
    Broken,
    Again,
}

/// What a read of the handshake means. It ends without a byte when the exec
/// closed the child's end.
pub fn await_exec(read: isize, failure: u8, interrupted: bool) -> (r: Handshake)
    ensures
        if read == 0 {
            r is Executed
        } else if read == 1 {
            r matches Handshake::Failed(f) && fault::told(f, Kind::Other, failure_text(failure))
        } else if interrupted {
            r is Again
        } else {
            r is Broken
        },
{
    if read == 0 {
        return Handshake::Executed;
    }
    if read == 1 {
        let message = match failure {
            1 => "child could not create its session",
            2 => "child could not open its terminal",
            3 => "child could not connect standard I/O",
            4 => "child could not select its SELinux exec context",
            5 => "child could not execute the shell",
            _ => "child setup failed",
        };
        return Handshake::Failed(tell(Kind::Other, message));
    }
    if interrupted {
        Handshake::Again
    } else {
        Handshake::Broken
    }
}

/// Every failure of a child is told apart from the others.
pub proof fn lemma_failures_are_told_apart(a: ChildFailure, b: ChildFailure)
    ensures
        failure_text(a.spec_code()) == failure_text(b.spec_code()) ==> a == b,
{
    reveal_strlit("child could not create its session");
    reveal_strlit("child could not open its terminal");
    reveal_strlit("child could not connect standard I/O");
    reveal_strlit("child could not select its SELinux exec context");
    reveal_strlit("child could not execute the shell");
    let i = failure_text(a.spec_code());
    let j = failure_text(b.spec_code());
    if a != b {
        assert(i.len() != j.len() || i[17] != j[17]);
    }
}

/// Which side of a clone this is.
#[derive(Debug)]
pub enum Cloned {
    Child,
    Parent(i32),
}

/// What a clone came to, where it did not fail: `pidfd` is the descriptor that
/// it filled in.
pub fn clone_result(result: i64, pidfd: i32) -> (r: Result<Cloned, Fault>)
    requires
        result >= 0,
    ensures
        if result == 0 {
            r matches Ok(Cloned::Child)
        } else if result > i32::MAX {
            r matches Err(f) && fault::told(
                f,
                Kind::Other,
                "out of range integral type conversion attempted"@,
            )
        } else if pidfd < 0 {
            r matches Err(f) && fault::told(f, Kind::Other, "clone3 did not return a pidfd"@)
        } else {
            r matches Ok(Cloned::Parent(pid)) && pid == result
        },
{
    if result == 0 {
        return Ok(Cloned::Child);
    }
    if result > 0x7FFF_FFFF {
        return Err(tell(Kind::Other, "out of range integral type conversion attempted"));
    }
    if pidfd < 0 {
        return Err(tell(Kind::Other, "clone3 did not return a pidfd"));
    }
    Ok(Cloned::Parent(result as i32))
}

/// Whether waiting for a child is over: it was reaped, it is no child, or the
/// wait failed otherwise than by an interruption.
pub fn wait_is_over(pid: i32, waited: i32, interrupted: bool) -> (r: bool)
    ensures
        r == (waited == pid || (waited < 0 && !interrupted)),
{
    waited == pid || (waited < 0 && !interrupted)
}

/// Whether all of a context was written.
pub fn wrote_all(written: isize, len: usize) -> (r: bool)
    ensures
        r == (written >= 0 && written == len),
{
    written >= 0 && written as usize == len
}

/// A dimension of a window, which is at least one and fits sixteen bits.
pub fn window_dimension(value: i32) -> (r: u16)
    ensures
        r == if value < 1 {
            1
        } else if value > 65535 {
            65535
        } else {
            value as int
        },
{
    if value < 1 {
        1
    } else if value > 65535 {
        65535
    } else {
        value as u16
    }
}

/// What a child does between the clone and the exec, in order.
#[derive(Debug, Clone, Copy, PartialEq, Eq, Structural)]
pub enum ChildStep {
    /// Let every descriptor but the standard ones close at the exec.
    CloseOnExec,
    NewSession,
    OpenTerminal,
    /// Make the terminal the session's own.
    TakeTerminal,
    /// Connect standard input, output and error.
    Redirect,
    /// Close the descriptors that were only needed to connect those.
    CloseSpares,
    /// Select the context that the shell runs in.
    SelectContext,
    Exec,
}

/// What follows a step of a child.
#[derive(Debug, Clone, Copy, PartialEq, Eq, Structural)]
pub enum ChildNext {
    Do(ChildStep),
    Fail(ChildFailure),
}

/// What follows a step of a child that has a terminal or not, and a context to
/// select or not. An exec that comes back has failed.
pub open spec fn step_after(terminal: bool, context: bool, step: ChildStep, done: bool) -> ChildNext {
    match step {
        ChildStep::CloseOnExec => if done {
            ChildNext::Do(ChildStep::NewSession)
        } else {
            ChildNext::Fail(ChildFailure::Session)
        },
        ChildStep::NewSession => if !done {
            ChildNext::Fail(ChildFailure::Session)
        } else if terminal {
            ChildNext::Do(ChildStep::OpenTerminal)
        } else {
            ChildNext::Do(ChildStep::Redirect)
        },
        ChildStep::OpenTerminal => if done {
            ChildNext::Do(ChildStep::TakeTerminal)
        } else {
            ChildNext::Fail(ChildFailure::Terminal)
        },
        ChildStep::TakeTerminal => if done {
            ChildNext::Do(ChildStep::Redirect)
        } else {
            ChildNext::Fail(ChildFailure::Io)
        },
        ChildStep::Redirect => if done {
            ChildNext::Do(ChildStep::CloseSpares)
        } else {
            ChildNext::Fail(ChildFailure::Io)
        },
        ChildStep::CloseSpares => if context {
            ChildNext::Do(ChildStep::SelectContext)
        } else {
            ChildNext::Do(ChildStep::Exec)
        },
        ChildStep::SelectContext => if done {
            ChildNext::Do(ChildStep::Exec)
        } else {
            ChildNext::Fail(ChildFailure::Context)
        },
        ChildStep::Exec => ChildNext::Fail(ChildFailure::Exec),
    }
}

/// What follows a step of a child. It allocates nothing, so that it can run
/// between a clone and an exec.
pub fn child_next(terminal: bool, context: bool, step: ChildStep, done: bool) -> (r: ChildNext)
    ensures
        r == step_after(terminal, context, step, done),
{
    match step {
        ChildStep::CloseOnExec => if done {
            ChildNext::Do(ChildStep::NewSession)
        } else {
            ChildNext::Fail(ChildFailure::Session)
        },
        ChildStep::NewSession => if !done {
            ChildNext::Fail(ChildFailure::Session)
        } else if terminal {
            ChildNext::Do(ChildStep::OpenTerminal)
        } else {
            ChildNext::Do(ChildStep::Redirect)
        },
        ChildStep::OpenTerminal => if done {
            ChildNext::Do(ChildStep::TakeTerminal)
        } else {
            ChildNext::Fail(ChildFailure::Terminal)
        },
        ChildStep::TakeTerminal => if done {
            ChildNext::Do(ChildStep::Redirect)
        } else {
            ChildNext::Fail(ChildFailure::Io)
        },
        ChildStep::Redirect => if done {
            ChildNext::Do(ChildStep::CloseSpares)
        } else {
            ChildNext::Fail(ChildFailure::Io)
        },
        ChildStep::CloseSpares => if context {
            ChildNext::Do(ChildStep::SelectContext)
        } else {
            ChildNext::Do(ChildStep::Exec)
        },
        ChildStep::SelectContext => if done {
            ChildNext::Do(ChildStep::Exec)
        } else {
            ChildNext::Fail(ChildFailure::Context)
        },
        ChildStep::Exec => ChildNext::Fail(ChildFailure::Exec),
    }
}

/// Whether a step follows the one before it, where that was done.
pub open spec fn follows(terminal: bool, context: bool, steps: Seq<ChildStep>, i: int) -> bool {
    step_after(terminal, context, steps[i - 1], true) == ChildNext::Do(steps[i])
}

/// Whether a step was reached by steps that were all done, from the first one
/// on.
pub open spec fn reached(terminal: bool, context: bool, steps: Seq<ChildStep>) -> bool {
    &&& steps.len() > 0
    &&& steps[0] == ChildStep::CloseOnExec
    &&& forall|i: int| 0 < i < steps.len() ==> #[trigger] follows(terminal, context, steps, i)
}

/// A child that comes to the exec has a session of its own and its standard
/// descriptors connected, and where a context is to be selected it was.
pub proof fn lemma_exec_comes_last(terminal: bool, context: bool, steps: Seq<ChildStep>)
    requires
        reached(terminal, context, steps),
        steps.last() == ChildStep::Exec,
    ensures
        steps.contains(ChildStep::NewSession),
        steps.contains(ChildStep::Redirect),
        context ==> steps.contains(ChildStep::SelectContext),
        terminal ==> steps.contains(ChildStep::TakeTerminal),
{
    let n = steps.len() as int;
    assert(follows(terminal, context, steps, n - 1));
    if context {
        assert(steps[n - 2] == ChildStep::SelectContext);
        assert(follows(terminal, context, steps, n - 2));
        lemma_connected_before(terminal, context, steps, n - 3);
    } else {
        if steps[n - 2] == ChildStep::SelectContext {
            assert(follows(terminal, context, steps, n - 2));
        }
        lemma_connected_before(terminal, context, steps, n - 2);
    }
}

proof fn lemma_connected_before(terminal: bool, context: bool, steps: Seq<ChildStep>, at: int)
    requires
        reached(terminal, context, steps),
        0 <= at < steps.len(),
        steps[at] == ChildStep::CloseSpares,
    ensures
        steps.contains(ChildStep::NewSession),
        steps.contains(ChildStep::Redirect),
        terminal ==> steps.contains(ChildStep::TakeTerminal),
{
    assert(follows(terminal, context, steps, at));
    assert(steps[at - 1] == ChildStep::Redirect);
    assert(follows(terminal, context, steps, at - 1));
    if terminal {
        assert(steps[at - 2] == ChildStep::TakeTerminal);
        assert(follows(terminal, context, steps, at - 2));
        assert(steps[at - 3] == ChildStep::OpenTerminal);
        assert(follows(terminal, context, steps, at - 3));
        assert(steps[at - 4] == ChildStep::NewSession);
    } else {
        if steps[at - 2] == ChildStep::TakeTerminal {
            assert(follows(terminal, context, steps, at - 2));
            assert(follows(terminal, context, steps, at - 3));
        }
        assert(steps[at - 2] == ChildStep::NewSession);
    }
}

/// A step that fails ends the child with the failure that it stands for,
/// whatever else was asked for. Closing what is spare cannot fail it, and an
/// exec that comes back has failed.
pub proof fn lemma_failed_steps_end_the_child(terminal: bool, context: bool, done: bool)
    ensures
        step_after(terminal, context, ChildStep::CloseOnExec, false) == ChildNext::Fail(
            ChildFailure::Session,
        ),
        step_after(terminal, context, ChildStep::NewSession, false) == ChildNext::Fail(
            ChildFailure::Session,
        ),
        step_after(terminal, context, ChildStep::OpenTerminal, false) == ChildNext::Fail(
            ChildFailure::Terminal,
        ),
        step_after(terminal, context, ChildStep::TakeTerminal, false) == ChildNext::Fail(
            ChildFailure::Io,
        ),
        step_after(terminal, context, ChildStep::Redirect, false) == ChildNext::Fail(
            ChildFailure::Io,
        ),
        step_after(terminal, context, ChildStep::SelectContext, false) == ChildNext::Fail(
            ChildFailure::Context,
        ),
        !(step_after(terminal, context, ChildStep::CloseSpares, done) is Fail),
        step_after(terminal, context, ChildStep::Exec, done) == ChildNext::Fail(
            ChildFailure::Exec,
        ),
{
}

/// Where every step succeeds, a child starts its session, takes its terminal
/// where it has one, connects its standard channels, closes what is spare,
/// selects its context where it has one, and executes the shell.
pub proof fn lemma_steps_of_a_child()
    ensures
        reached(
            true,
            true,
            seq![
                ChildStep::CloseOnExec,
                ChildStep::NewSession,
                ChildStep::OpenTerminal,
                ChildStep::TakeTerminal,
                ChildStep::Redirect,
                ChildStep::CloseSpares,
                ChildStep::SelectContext,
                ChildStep::Exec,
            ],
        ),
        reached(
            false,
            true,
            seq![
                ChildStep::CloseOnExec,
                ChildStep::NewSession,
                ChildStep::Redirect,
                ChildStep::CloseSpares,
                ChildStep::SelectContext,
                ChildStep::Exec,
            ],
        ),
        reached(
            true,
            false,
            seq![
                ChildStep::CloseOnExec,
                ChildStep::NewSession,
                ChildStep::OpenTerminal,
                ChildStep::TakeTerminal,
                ChildStep::Redirect,
                ChildStep::CloseSpares,
                ChildStep::Exec,
            ],
        ),
        reached(
            false,
            false,
            seq![
                ChildStep::CloseOnExec,
                ChildStep::NewSession,
                ChildStep::Redirect,
                ChildStep::CloseSpares,
                ChildStep::Exec,
            ],
        ),
{
}

/// A string that holds a NUL is found, wherever it stands, and the first such
/// string is the one that is told.
pub proof fn lemma_string_with_a_nul_is_found(strings: Seq<Seq<char>>, i: int)
    requires
        0 <= i < strings.len(),
        holds_nul(strings[i]),
        forall|j: int| 0 <= j < i ==> !holds_nul(#[trigger] strings[j]),
    ensures
        first_with_nul(strings) == Some(strings[i]),
    decreases i,
{
    if i > 0 {
        assert(!holds_nul(strings[0]));
        let rest = strings.skip(1);
        assert forall|j: int| 0 <= j < i - 1 implies !holds_nul(#[trigger] rest[j]) by {
            assert(rest[j] == strings[j + 1]);
        }
        lemma_string_with_a_nul_is_found(rest, i - 1);
    }
}

/// A string holds a NUL where any of its bytes is one, and the first of them is
/// where the string would end.
pub proof fn lemma_nul_is_found(bytes: Seq<u8>, i: int)
    requires
        0 <= i <= bytes.len(),
        forall|j: int| 0 <= j < i ==> #[trigger] bytes[j] != 0,
        i < bytes.len() ==> bytes[i] == 0,
    ensures
        nul_at(bytes) == i,
    decreases i,
{
    if i > 0 {
        assert(bytes[0] != 0);
        let rest = bytes.skip(1);
        assert forall|j: int| 0 <= j < i - 1 implies #[trigger] rest[j] != 0 by {
            assert(rest[j] == bytes[j + 1]);
        }
        lemma_nul_is_found(rest, i - 1);
    }
}

proof fn lemma_no_string_with_a_nul(strings: Seq<Seq<char>>)
    ensures
        first_with_nul(strings) is None <==> forall|i: int|
            0 <= i < strings.len() ==> !holds_nul(#[trigger] strings[i]),
    decreases strings.len(),
{
    if strings.len() > 0 {
        let rest = strings.skip(1);
        lemma_no_string_with_a_nul(rest);
        if first_with_nul(strings) is None {
            assert forall|i: int| 0 <= i < strings.len() implies !holds_nul(
                #[trigger] strings[i],
            ) by {
                if i > 0 {
                    assert(rest[i - 1] == strings[i]);
                }
            }
        } else if forall|i: int| 0 <= i < strings.len() ==> !holds_nul(#[trigger] strings[i]) {
            assert(!holds_nul(strings[0]));
            assert forall|i: int| 0 <= i < rest.len() implies !holds_nul(#[trigger] rest[i]) by {
                assert(rest[i] == strings[i + 1]);
            }
        }
    }
}

/// A shell can be prepared exactly where there is something to run and no
/// argument, no environment entry and no context holds a NUL.
pub proof fn lemma_what_can_be_prepared(
    argv: Seq<Seq<char>>,
    env: Seq<Seq<char>>,
    context: Option<Seq<char>>,
)
    ensures
        preparation_refusal(argv, env, context) is None <==> {
            &&& argv.len() > 0
            &&& forall|i: int| 0 <= i < argv.len() ==> !holds_nul(#[trigger] argv[i])
            &&& forall|i: int| 0 <= i < env.len() ==> !holds_nul(#[trigger] env[i])
            &&& context matches Some(label) ==> !holds_nul(label)
        },
{
    lemma_no_string_with_a_nul(argv);
    lemma_no_string_with_a_nul(env);
}

/// Each string is handed over as its bytes, all of them, with a NUL behind.
pub proof fn lemma_strings_are_ended(strings: Seq<Seq<char>>, i: int)
    requires
        0 <= i < strings.len(),
    ensures
        all_terminated(strings).len() == strings.len(),
        all_terminated(strings)[i].last() == 0,
        all_terminated(strings)[i].drop_last() == vstd::utf8::encode_utf8(strings[i]),
{
    assert(all_terminated(strings)[i].drop_last() =~= utf8(strings[i]));
}

} // verus!
