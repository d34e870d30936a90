use benzened::fault::{Fault, Kind};
use benzened::shell::shell_quote;
use benzened::su::{
    build_command, check_session, command_from_args, conclude, environment_entry,
    invalid_descriptor, status_fault, window_size, Event, ReadEnd, Relay, Step, POLLERR, POLLHUP,
    POLLIN, POLLNVAL,
};

fn owned(texts: &[&str]) -> Vec<String> {
    texts.iter().map(|text| (*text).to_owned()).collect()
}

fn told(kind: Kind) -> Fault {
    Fault::Told { kind, text: "x".to_owned() }
}

#[test]
fn extra_args_become_positionals_not_concatenated() {
    let args = ["a  b".to_owned()];
    let script = build_command("echo \"$1\"".to_owned(), &args);
    assert!(script.starts_with("set -- 'a  b'\n"), "{script}");
    assert!(script.ends_with("echo \"$1\""), "{script}");
}

#[test]
fn arguments_are_quoted_one_by_one() {
    assert_eq!(shell_quote(""), "''");
    assert_eq!(shell_quote("it's"), "'it'\\''s'");
    assert_eq!(
        build_command("x".to_owned(), &owned(&["a b", "c'd", ""])),
        "set -- 'a b' 'c'\\''d' ''\nx"
    );
    assert_eq!(build_command("x".to_owned(), &[]), "x");
}

#[test]
fn the_command_line_is_read() {
    assert_eq!(command_from_args(&[]), Ok(String::new()));
    assert_eq!(command_from_args(&owned(&["-c", "ls"])), Ok("ls".to_owned()));
    assert_eq!(
        command_from_args(&owned(&["-c", "ls", "a"])),
        Ok("set -- 'a'\nls".to_owned())
    );
    assert_eq!(command_from_args(&owned(&["-c"])), Err("-c requires a command"));
    assert_eq!(
        command_from_args(&owned(&["root"])),
        Err("expected -c followed by a command")
    );
}

#[test]
fn a_session_has_the_channels_it_needs() {
    assert_eq!(check_session(true, false, true, true), Ok(()));
    assert_eq!(check_session(false, true, true, true), Ok(()));
    assert_eq!(
        check_session(true, true, true, true),
        Err("benzened returned an invalid standard error channel")
    );
    assert_eq!(
        check_session(false, true, false, true),
        Err("benzened returned no input and output channel")
    );
    assert_eq!(
        check_session(false, true, true, false),
        Err("benzened returned no exit status channel")
    );
    assert_eq!(window_size(None), (80, 24));
    assert_eq!(window_size(Some((132, 50))), (132, 50));
    assert_eq!(environment_entry("A", "b=c"), "A=b=c");
}

#[test]
fn the_first_failure_is_reported() {
    assert!(matches!(conclude(Ok(()), None, Ok(7)), Ok(7)));
    assert!(matches!(conclude(Ok(()), Some(Ok(())), Ok(0)), Ok(0)));
    assert!(matches!(
        conclude(Err(Fault::Os(1)), Some(Err(Fault::Os(2))), Err(Fault::Os(3))),
        Err(Fault::Os(1))
    ));
    assert!(matches!(
        conclude(Ok(()), Some(Err(Fault::Os(2))), Err(Fault::Os(3))),
        Err(Fault::Os(2))
    ));
    assert!(matches!(conclude(Ok(()), None, Err(Fault::Os(3))), Err(Fault::Os(3))));
    match status_fault(told(Kind::UnexpectedEof)) {
        Fault::Told { text, .. } => assert_eq!(text, "shell exited without reporting its status"),
        other => panic!("{other:?}"),
    }
    assert!(matches!(status_fault(Fault::Os(5)), Fault::Os(5)));
}

#[test]
fn a_relay_passes_both_ways_until_the_shell_ends() {
    let mut relay = Relay::new();
    assert_eq!(relay.relay(Event::Polled { input: POLLIN, shell: POLLIN }), Step::ReadShell);
    assert_eq!(
        relay.relay(Event::ShellRead(ReadEnd::Data(b"$ ".to_vec()))),
        Step::Print(b"$ ".to_vec())
    );
    assert_eq!(relay.relay(Event::Printed), Step::ReadInput);
    assert_eq!(
        relay.relay(Event::InputRead(ReadEnd::Data(b"ls\n".to_vec()))),
        Step::Feed(b"ls\n".to_vec())
    );
    assert_eq!(relay.relay(Event::Handed), Step::Poll);
    assert!(relay.stdin_open);

    assert_eq!(relay.relay(Event::Polled { input: POLLIN, shell: 0 }), Step::ReadInput);
    assert_eq!(relay.relay(Event::InputRead(ReadEnd::Eof)), Step::CloseShell);
    assert!(!relay.stdin_open);
    assert_eq!(relay.relay(Event::Handed), Step::Poll);

    assert_eq!(relay.relay(Event::PollInterrupted), Step::Poll);
    assert_eq!(relay.relay(Event::Polled { input: 0, shell: POLLHUP }), Step::ReadShell);
    assert_eq!(relay.relay(Event::ShellRead(ReadEnd::Interrupted)), Step::Flush);
    assert_eq!(relay.relay(Event::Printed), Step::Poll);
    assert_eq!(relay.relay(Event::ShellRead(ReadEnd::Eof)), Step::Done);
    assert_eq!(relay.relay(Event::ShellRead(ReadEnd::Failed)), Step::Done);
    assert_eq!(relay.relay(Event::PollFailed), Step::Fail);
}

#[test]
fn a_relay_refuses_a_bad_descriptor_and_closes_a_hung_up_input() {
    let mut relay = Relay::new();
    assert_eq!(
        relay.relay(Event::Polled { input: POLLIN, shell: POLLNVAL }),
        Step::Invalid
    );
    match invalid_descriptor() {
        Fault::Told { kind, text } => {
            assert_eq!(kind, Kind::BrokenPipe);
            assert_eq!(text, "benzened returned an invalid I/O descriptor");
        },
        other => panic!("{other:?}"),
    }
    assert_eq!(relay.relay(Event::Polled { input: POLLHUP, shell: 0 }), Step::Poll);
    assert!(!relay.stdin_open);
    let mut other = Relay::new();
    assert_eq!(
        other.relay(Event::Polled { input: POLLIN | POLLERR, shell: 0 }),
        Step::ReadInput
    );
    assert!(other.stdin_open);
    assert_eq!(other.relay(Event::InputRead(ReadEnd::Interrupted)), Step::Poll);
    assert!(!other.stdin_open);
    assert_eq!(other.relay(Event::InputRead(ReadEnd::Failed)), Step::Fail);
}

#[test]
fn poll_bits_are_those_of_the_system() {
    assert_eq!(POLLIN, libc::POLLIN);
    assert_eq!(POLLERR, libc::POLLERR);
    assert_eq!(POLLHUP, libc::POLLHUP);
    assert_eq!(POLLNVAL, libc::POLLNVAL);
    assert_eq!(
        benzened::session::POLL_GONE,
        libc::POLLERR | libc::POLLHUP | libc::POLLNVAL
    );
}
