//! A su client that is not setuid. All privilege comes from the service.

use vstd::prelude::*;
use crate::fault::{self, tell, Fault, Kind};
use crate::shell::{self, quote_line};
use crate::text::{self, same};

verus! {

/// The script for a command and its arguments.
pub open spec fn script_of(command: Seq<char>, arguments: Seq<Seq<char>>) -> Seq<char> {
    if arguments.len() == 0 {
        command
    } else {
        "set -- "@ + text::joined(shell::all_quoted(arguments), " "@) + "\n"@ + command
    }
}

/// Builds the script for `sh -c`. The first argument after -c is the command
/// and any further ones become its positional parameters rather than being
/// concatenated into it.
pub fn build_command(command: String, arguments: &[String]) -> (r: String)
    ensures
        r@ == script_of(command@, text::texts(arguments@)),
{
    if arguments.len() == 0 {
        return command;
    }
    let mut script = "set -- ".to_owned();
    script.append(quote_line(arguments).as_str());
    script.append("\n");
    script.append(command.as_str());
    script
}

/// A shell that runs the script of a command takes the arguments as they were
/// given, as its positional parameters, and then comes to the command as it
/// was given.
pub proof fn lemma_arguments_become_positionals(command: Seq<char>, arguments: Seq<Seq<char>>)
    requires
        arguments.len() > 0,
    ensures
        text::begins_with(script_of(command, arguments), "set -- "@),
        shell::read_line(script_of(command, arguments).skip(7)) == (arguments, "\n"@ + command),
{
    reveal_strlit("set -- ");
    reveal_strlit("\n");
    reveal_strlit(" ");
    assert(" "@ =~= seq![' ']);
    let script = script_of(command, arguments);
    let rest = "\n"@ + command;
    let line = text::joined(shell::all_quoted(arguments), seq![' ']);
    assert(script.take(7) =~= "set -- "@);
    assert(script.skip(7) =~= line + rest);
    shell::lemma_quoted_line_reads_back(arguments, rest);
}

/// The script that a command line asks for.
pub fn command_from_args(args: &[String]) -> (r: Result<String, &'static str>)
    ensures
        if args@.len() == 0 {
            r matches Ok(script) && script@ == ""@
        } else if args@[0]@ != "-c"@ {
            r matches Err(why) && why@ == "expected -c followed by a command"@
        } else if args@.len() == 1 {
            r matches Err(why) && why@ == "-c requires a command"@
        } else {
            r matches Ok(script) && script@ == script_of(args@[1]@, text::texts(args@).skip(2))
        },
{
    if args.len() == 0 {
        return Ok("".to_owned());
    }
    if !same(args[0].as_str(), "-c") {
        return Err("expected -c followed by a command");
    }
    if args.len() == 1 {
        return Err("-c requires a command");
    }
    let rest = vstd::slice::slice_subrange(args, 2, args.len());
    assert(text::texts(rest@) =~= text::texts(args@).skip(2));
    Ok(build_command(args[1].as_str().to_owned(), rest))
}

/// An environment entry.
pub fn environment_entry(key: &str, value: &str) -> (r: String)
    ensures
        r@ == key@ + "="@ + value@,
{
    let mut entry = key.to_owned();
    entry.append("=");
    entry.append(value);
    entry
}

/// The columns and rows to ask for: those of the terminal, or else those of a
/// usual one.
pub fn window_size(reported: Option<(u16, u16)>) -> (r: (i32, i32))
    ensures
        match reported {
            Some(size) => r.0 == size.0 && r.1 == size.1,
            None => r == (80i32, 24i32),
        },
{
    match reported {
        Some((columns, rows)) => (columns as i32, rows as i32),
        None => (80, 24),
    }
}

/// What is wrong with the channels of a session, if anything. A terminal
/// carries standard error itself, and anything else has a channel of its own
/// for it.
pub fn check_session(want_pty: bool, has_error: bool, has_io: bool, has_status: bool) -> (r: Result<
    (),
    &'static str,
>)
    ensures
        if want_pty == has_error {
            r matches Err(why) && why@ == "benzened returned an invalid standard error channel"@
        } else if !has_io {
            r matches Err(why) && why@ == "benzened returned no input and output channel"@
        } else if !has_status {
            r matches Err(why) && why@ == "benzened returned no exit status channel"@
        } else {
            r is Ok
        },
{
    if want_pty == has_error {
        Err("benzened returned an invalid standard error channel")
    } else if !has_io {
        Err("benzened returned no input and output channel")
    } else if !has_status {
        Err("benzened returned no exit status channel")
    } else {
        Ok(())
    }
}

/// Why no exit status came.
pub fn status_fault(f: Fault) -> (r: Fault)
    ensures
        if fault::kind_of(f) == Kind::UnexpectedEof {
            fault::told(r, Kind::UnexpectedEof, "shell exited without reporting its status"@)
        } else {
            r == f
        },
{
    if f.kind() == Kind::UnexpectedEof {
        tell(Kind::UnexpectedEof, "shell exited without reporting its status")
    } else {
        f
    }
}

/// What the client exits with: the shell's exit code, unless relaying, standard
/// error or the exit status failed, of which the first is reported.
pub fn conclude(
    relayed: Result<(), Fault>,
    copied: Option<Result<(), Fault>>,
    status: Result<u8, Fault>,
) -> (r: Result<u8, Fault>)
    ensures
        r == match (relayed, copied, status) {
            (Err(f), _, _) => Err::<u8, Fault>(f),
            (_, Some(Err(f)), _) => Err(f),
            (_, _, status) => status,
        },
{
    match (relayed, copied, status) {
        (Err(f), _, _) => Err(f),
        (_, Some(Err(f)), _) => Err(f),
        (_, _, status) => status,
    }
}

/// The poll bits.
pub const POLLIN: i16 = 0x1;

pub const POLLERR: i16 = 0x8;

pub const POLLHUP: i16 = 0x10;

pub const POLLNVAL: i16 = 0x20;

/// How a read went.
#[derive(Debug, PartialEq, Eq)]
pub enum ReadEnd {
    /// Nothing more comes.
    Eof,
    Data(Vec<u8>),
    Interrupted,
    Failed,
}

/// What has happened to a relay.
#[derive(Debug, PartialEq, Eq)]
pub enum Event {
    /// What a poll said of standard input and of the shell.
    Polled { input: i16, shell: i16 },
    /// A poll was interrupted.
    PollInterrupted,
    /// A poll failed otherwise.
    PollFailed,
    /// How reading from the shell went.
    ShellRead(ReadEnd),
    /// What the shell said was printed, if it said anything, and flushed.
    Printed,
    /// How reading standard input went.
    InputRead(ReadEnd),
    /// What was read was handed to the shell, or the end of it was.
    Handed,
}

/// What a relay does next.
#[derive(Debug, PartialEq, Eq)]
pub enum Step {
    /// Poll the shell, and standard input where it is open.
    Poll,
    ReadShell,
    /// Print what the shell said, and flush.
    Print(Vec<u8>),
    /// Flush what was printed before.
    Flush,
    ReadInput,
    /// Hand what was read to the shell.
    Feed(Vec<u8>),
    /// Tell the shell that no more input comes.
    CloseShell,
    Done,
    /// Fail with the error of the step before.
    Fail,
    /// Fail because the shell's descriptor is not valid.
    Invalid,
}

/// The relay between a terminal and a shell: whether standard input is open,
/// and what the last poll said.
#[derive(Debug, Clone, Copy, PartialEq, Eq, Structural)]
pub struct Relay {
    pub stdin_open: bool,
    pub input: i16,
    pub shell: i16,
}

impl Relay {
    pub fn new() -> (r: Self)
        ensures
            r == (Relay { stdin_open: true, input: 0, shell: 0 }),
    {
        Relay { stdin_open: true, input: 0, shell: 0 }
    }

    /// The relay at the end of a turn.
    pub open spec fn turned(self) -> Relay {
        Relay {
            stdin_open: self.stdin_open && self.input & (POLLHUP | POLLERR | POLLNVAL) == 0,
            ..self
        }
    }

    /// What follows once the shell was heard: refuse a descriptor that is not
    /// valid, read input where there is any, or end the turn.
    pub open spec fn past_shell(self) -> (Relay, Step) {
        if self.shell & POLLNVAL != 0 {
            (self, Step::Invalid)
        } else if self.input & POLLIN != 0 {
            (self, Step::ReadInput)
        } else {
            (self.turned(), Step::Poll)
        }
    }

    /// What an event leads to.
    pub open spec fn next(self, event: Event) -> (Relay, Step) {
        match event {
            Event::PollInterrupted => (self, Step::Poll),
            Event::PollFailed => (self, Step::Fail),
            Event::Polled { input, shell } => {
                let heard = Relay { input, shell, ..self };
                if shell & (POLLIN | POLLHUP | POLLERR) != 0 {
                    (heard, Step::ReadShell)
                } else {
                    heard.past_shell()
                }
            },
            Event::ShellRead(end) => match end {
                ReadEnd::Eof => (self, Step::Done),
                ReadEnd::Failed => (self, Step::Done),
                ReadEnd::Interrupted => (self, Step::Flush),
                ReadEnd::Data(said) => (self, Step::Print(said)),
            },
            Event::Printed => self.past_shell(),
            Event::InputRead(end) => match end {
                ReadEnd::Eof => (Relay { stdin_open: false, ..self }, Step::CloseShell),
                ReadEnd::Data(typed) => (self, Step::Feed(typed)),
                ReadEnd::Interrupted => (self.turned(), Step::Poll),
                ReadEnd::Failed => (self, Step::Fail),
            },
            Event::Handed => (self.turned(), Step::Poll),
        }
    }

    fn end_turn(&mut self) -> (r: Step)
        ensures
            *final(self) == old(self).turned(),
            r == Step::Poll,
    {
        if self.input & (POLLHUP | POLLERR | POLLNVAL) != 0 {
            self.stdin_open = false;
        }
        Step::Poll
    }

    fn heard(&mut self) -> (r: Step)
        ensures
            (*final(self), r) == old(self).past_shell(),
    {
        if self.shell & POLLNVAL != 0 {
            Step::Invalid
        } else if self.input & POLLIN != 0 {
            Step::ReadInput
        } else {
            self.end_turn()
        }
    }

    /// Takes in an event and says what to do next.
    pub fn relay(&mut self, event: Event) -> (r: Step)
        ensures
            (*final(self), r) == old(self).next(event),
    {
        match event {
            Event::PollInterrupted => Step::Poll,
            Event::PollFailed => Step::Fail,
            Event::Polled { input, shell } => {
                self.input = input;
                self.shell = shell;
                if shell & (POLLIN | POLLHUP | POLLERR) != 0 {
                    Step::ReadShell
                } else {
                    self.heard()
                }
            },
            Event::ShellRead(end) => match end {
                ReadEnd::Eof => Step::Done,
                ReadEnd::Failed => Step::Done,
                ReadEnd::Interrupted => Step::Flush,
                ReadEnd::Data(said) => Step::Print(said),
            },
            Event::Printed => self.heard(),
            Event::InputRead(end) => match end {
                ReadEnd::Eof => {
                    self.stdin_open = false;
                    Step::CloseShell
                },
                ReadEnd::Data(typed) => Step::Feed(typed),
                ReadEnd::Interrupted => self.end_turn(),
                ReadEnd::Failed => Step::Fail,
            },
            Event::Handed => self.end_turn(),
        }
    }
}

/// Why the relay cannot go on with the shell's descriptor.
pub fn invalid_descriptor() -> (r: Fault)
    ensures
        fault::told(r, Kind::BrokenPipe, "benzened returned an invalid I/O descriptor"@),
{
    tell(Kind::BrokenPipe, "benzened returned an invalid I/O descriptor")
}

/// Standard input that is closed stays closed.
pub proof fn lemma_input_stays_closed(relay: Relay, event: Event)
    requires
        !relay.stdin_open,
    ensures
        !relay.next(event).0.stdin_open,
{
}

/// The end of standard input is handed to the shell, and only that is.
pub proof fn lemma_shell_learns_the_end_of_input(relay: Relay, event: Event)
    ensures
        relay.next(event).1 == Step::CloseShell <==> event == Event::InputRead(ReadEnd::Eof),
{
}

/// The relay ends well only once the shell has nothing more to say.
pub proof fn lemma_relay_ends_with_the_shell(relay: Relay, event: Event)
    ensures
        relay.next(event).1 == Step::Done <==> (event == Event::ShellRead(ReadEnd::Eof) || event
            == Event::ShellRead(ReadEnd::Failed)),
{
}

/// Whenever a poll says that standard input can be read, and the shell's
/// descriptor is valid, standard input is read before the next poll and before
/// it is closed, whatever other bits the poll set for it. Where the shell can
/// be heard too, that comes first, and what it said is printed.
pub proof fn lemma_input_that_is_there_is_read(
    relay: Relay,
    input: i16,
    shell: i16,
    heard: Vec<u8>,
)
    requires
        input & POLLIN != 0,
        shell & POLLNVAL == 0,
    ensures
        ({
            let (polled, step) = relay.next(Event::Polled { input, shell });
            let (said, print) = polled.next(Event::ShellRead(ReadEnd::Data(heard)));
            let (hushed, flush) = polled.next(Event::ShellRead(ReadEnd::Interrupted));
            &&& polled.stdin_open == relay.stdin_open
            &&& shell & (POLLIN | POLLHUP | POLLERR) == 0 ==> step == Step::ReadInput
            &&& shell & (POLLIN | POLLHUP | POLLERR) != 0 ==> {
                &&& step == Step::ReadShell
                &&& print == Step::Print(heard)
                &&& said.next(Event::Printed).1 == Step::ReadInput
                &&& said.next(Event::Printed).0.stdin_open == relay.stdin_open
                &&& flush == Step::Flush
                &&& hushed.next(Event::Printed).1 == Step::ReadInput
                &&& hushed.next(Event::Printed).0.stdin_open == relay.stdin_open
            }
        }),
{
}

/// A turn in which standard input cannot be read goes on to the next poll once
/// the shell was heard, and standard input is closed at its end exactly where
/// the poll says that it hung up, failed or is not valid.
pub proof fn lemma_turn_without_input(relay: Relay, input: i16, shell: i16, heard: Vec<u8>)
    requires
        input & POLLIN == 0,
        shell & POLLNVAL == 0,
    ensures
        ({
            let (polled, step) = relay.next(Event::Polled { input, shell });
            let (said, _) = polled.next(Event::ShellRead(ReadEnd::Data(heard)));
            let (hushed, _) = polled.next(Event::ShellRead(ReadEnd::Interrupted));
            let open = relay.stdin_open && input & (POLLHUP | POLLERR | POLLNVAL) == 0;
            &&& shell & (POLLIN | POLLHUP | POLLERR) == 0 ==> step == Step::Poll
                && polled.stdin_open == open
            &&& shell & (POLLIN | POLLHUP | POLLERR) != 0 ==> {
                &&& step == Step::ReadShell
                &&& said.next(Event::Printed).1 == Step::Poll
                &&& said.next(Event::Printed).0.stdin_open == open
                &&& hushed.next(Event::Printed).1 == Step::Poll
                &&& hushed.next(Event::Printed).0.stdin_open == open
            }
        }),
{
}

/// What standard input brings is handed on whole, after which the turn is over
/// and standard input is closed exactly where the poll said that it hung up,
/// failed or is not valid. Its end is told to the shell and closes it, and a
/// read that failed ends the relay.
pub proof fn lemma_input_is_handed_on(relay: Relay, input: i16, shell: i16, typed: Vec<u8>)
    requires
        input & POLLIN != 0,
        shell & (POLLIN | POLLHUP | POLLERR) == 0,
        shell & POLLNVAL == 0,
    ensures
        ({
            let (polled, _) = relay.next(Event::Polled { input, shell });
            let (fed, feed) = polled.next(Event::InputRead(ReadEnd::Data(typed)));
            let (ended, end) = polled.next(Event::InputRead(ReadEnd::Eof));
            let (hushed, again) = polled.next(Event::InputRead(ReadEnd::Interrupted));
            let open = relay.stdin_open && input & (POLLHUP | POLLERR | POLLNVAL) == 0;
            &&& feed == Step::Feed(typed)
            &&& fed.stdin_open == relay.stdin_open
            &&& fed.next(Event::Handed).1 == Step::Poll
            &&& fed.next(Event::Handed).0.stdin_open == open
            &&& end == Step::CloseShell
            &&& !ended.stdin_open
            &&& ended.next(Event::Handed).1 == Step::Poll
            &&& !ended.next(Event::Handed).0.stdin_open
            &&& again == Step::Poll
            &&& hushed.stdin_open == open
            &&& polled.next(Event::InputRead(ReadEnd::Failed)).1 == Step::Fail
        }),
{
}

/// A poll of the shell that says its descriptor is not valid ends the relay
/// once the shell was heard, and nothing else does so.
pub proof fn lemma_invalid_descriptor_ends_the_relay(
    relay: Relay,
    input: i16,
    shell: i16,
    heard: Vec<u8>,
    event: Event,
)
    ensures
        ({
            let (polled, step) = relay.next(Event::Polled { input, shell });
            let (said, _) = polled.next(Event::ShellRead(ReadEnd::Data(heard)));
            &&& shell & (POLLIN | POLLHUP | POLLERR) == 0 ==> (step == Step::Invalid <==> shell
                & POLLNVAL != 0)
            &&& shell & (POLLIN | POLLHUP | POLLERR) != 0 ==> (said.next(Event::Printed).1
                == Step::Invalid <==> shell & POLLNVAL != 0)
        }),
        relay.next(Event::PollInterrupted) == (relay, Step::Poll),
        relay.next(Event::PollFailed).1 == Step::Fail,
        relay.next(event).1 == Step::Fail ==> event == Event::PollFailed || event
            == Event::InputRead(ReadEnd::Failed),
{
}

/// Standard input is closed only by its end, or where a poll said that it hung
/// up, failed or is not valid.
pub proof fn lemma_input_closes_for_a_reason(relay: Relay, event: Event)
    requires
        relay.stdin_open,
        !relay.next(event).0.stdin_open,
    ensures
        event == Event::InputRead(ReadEnd::Eof) || (relay.next(event).1 == Step::Poll && match event {
            Event::Polled { input, .. } => input & (POLLHUP | POLLERR | POLLNVAL) != 0,
            _ => relay.input & (POLLHUP | POLLERR | POLLNVAL) != 0,
        }),
{
}

/// The relay after a run of events, and what it did.
pub open spec fn run(relay: Relay, events: Seq<Event>) -> (Relay, Seq<Step>)
    decreases events.len(),
{
    if events.len() == 0 {
        (relay, Seq::empty())
    } else {
        let before = run(relay, events.drop_last());
        let turn = before.0.next(events.last());
        (turn.0, before.1.push(turn.1))
    }
}

/// What the shell said in a run of events.
pub open spec fn said(events: Seq<Event>) -> Seq<u8>
    decreases events.len(),
{
    if events.len() == 0 {
        Seq::empty()
    } else {
        said(events.drop_last()) + match events.last() {
            Event::ShellRead(ReadEnd::Data(data)) => data@,
            _ => Seq::empty(),
        }
    }
}

/// What was read from standard input in a run of events.
pub open spec fn typed(events: Seq<Event>) -> Seq<u8>
    decreases events.len(),
{
    if events.len() == 0 {
        Seq::empty()
    } else {
        typed(events.drop_last()) + match events.last() {
            Event::InputRead(ReadEnd::Data(data)) => data@,
            _ => Seq::empty(),
        }
    }
}

/// What is printed in a run of steps.
pub open spec fn printed(steps: Seq<Step>) -> Seq<u8>
    decreases steps.len(),
{
    if steps.len() == 0 {
        Seq::empty()
    } else {
        printed(steps.drop_last()) + match steps.last() {
            Step::Print(data) => data@,
            _ => Seq::empty(),
        }
    }
}

/// What is handed to the shell in a run of steps.
pub open spec fn fed(steps: Seq<Step>) -> Seq<u8>
    decreases steps.len(),
{
    if steps.len() == 0 {
        Seq::empty()
    } else {
        fed(steps.drop_last()) + match steps.last() {
            Step::Feed(data) => data@,
            _ => Seq::empty(),
        }
    }
}

/// However a relay runs, it prints exactly what the shell said and hands the
/// shell exactly what was read, in that order, with nothing lost or added.
pub proof fn lemma_relay_keeps_every_byte(relay: Relay, events: Seq<Event>)
    ensures
        printed(run(relay, events).1) == said(events),
        fed(run(relay, events).1) == typed(events),
    decreases events.len(),
{
    if events.len() > 0 {
        lemma_relay_keeps_every_byte(relay, events.drop_last());
        let before = run(relay, events.drop_last());
        assert(run(relay, events).1.drop_last() =~= before.1);
    }
}

/// A command that takes no arguments is run as it stands.
pub proof fn lemma_command_alone_is_run_as_it_is(command: Seq<char>)
    ensures
        script_of(command, Seq::empty()) == command,
{
}

} // verus!
