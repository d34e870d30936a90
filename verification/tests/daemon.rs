use benzened::children::{
    doomed, doomed_by, exit_code, group_alive, group_killed, pause, reap, revoked, Errand,
    ExitWatch, Finding, Pause, Registry,
};
use benzened::fault::{Fault, Kind};
use benzened::grant::{self, decide, Decision, Source, Tier};
use benzened::pty::{
    await_exec, child_next, clone_result, terminated, wait_is_over, window_dimension, wrote_all,
    ChildFailure, ChildNext, ChildStep, Cloned, Handshake, Prepared, SpawnOpts,
};
use benzened::ratelimit::{RateLimiter, MAX_PER_WINDOW, MAX_TRACKED_UIDS, WINDOW};
use benzened::service::{
    answer, check_caller, check_caller_at, check_counted, open_shell, plan_shell, resolve_cwd,
    resolve_env, spawn_refusal, with_cwd, Exception, ShellRequest,
};

struct Fixed(Option<i32>);

impl Source for Fixed {
    fn tier(&self, _uid: u32) -> Option<i32> {
        self.0
    }
}

struct ByUid;

impl Source for ByUid {
    fn tier(&self, uid: u32) -> Option<i32> {
        if uid == 1 {
            Some(grant::TIER_UNRESTRICTED)
        } else if uid == 2 {
            Some(grant::TIER_STANDARD)
        } else {
            None
        }
    }
}

fn owned(texts: &[&str]) -> Vec<String> {
    texts.iter().map(|text| (*text).to_owned()).collect()
}

fn words(fault: &Fault) -> (Kind, &str) {
    match fault {
        Fault::Told { kind, text } => (*kind, text.as_str()),
        other => panic!("not in words: {other:?}"),
    }
}

#[test]
fn grant_loss_and_downgrades_revoke_only_overprivileged_shells() {
    assert!(revoked(&Fixed(Some(grant::TIER_NONE)), 10_001, Tier::Standard));
    assert!(revoked(&Fixed(None), 10_001, Tier::Standard));
    assert!(revoked(&Fixed(Some(grant::TIER_STANDARD)), 10_001, Tier::Unrestricted));
    assert!(!revoked(&Fixed(Some(grant::TIER_UNRESTRICTED)), 10_001, Tier::Standard));
    assert!(!revoked(&Fixed(Some(grant::TIER_STANDARD)), 10_001, Tier::Standard));
}

#[test]
fn budgets_are_per_uid_and_reset_at_the_window_boundary() {
    let mut rl = RateLimiter::new();
    let t0 = 5_u64;
    for _ in 0..MAX_PER_WINDOW {
        assert!(rl.allow_at(10123, t0));
    }
    assert!(!rl.allow_at(10123, t0));
    assert!(rl.allow_at(10456, t0));
    assert!(rl.allow_at(10123, t0 + WINDOW));
}

#[test]
fn a_budget_lasts_until_the_window_is_over() {
    let mut rl = RateLimiter::default();
    for _ in 0..MAX_PER_WINDOW {
        assert!(rl.allow_at(1, 100));
    }
    assert!(!rl.allow_at(1, 100 + WINDOW - 1));
    assert!(rl.allow_at(1, 100 + WINDOW));
}

#[test]
fn a_crowd_is_turned_away_until_windows_are_over() {
    let mut rl = RateLimiter::new();
    for uid in 0..MAX_TRACKED_UIDS as u32 {
        assert!(rl.allow_at(uid, 0));
    }
    assert!(!rl.allow_at(1_000_000, 1));
    assert!(rl.allow_at(5, 1));
    assert!(rl.allow_at(1_000_000, WINDOW));
}

#[test]
fn the_present_counts_against_a_budget() {
    let mut rl = RateLimiter::new();
    let granted = (0..MAX_PER_WINDOW + 1).filter(|_| rl.allow(7)).count();
    assert_eq!(granted, MAX_PER_WINDOW as usize);
}

#[test]
fn only_known_tiers_are_allowed() {
    assert_eq!(decide(&Fixed(Some(grant::TIER_NONE)), 1), Decision::DenyNotGranted);
    assert_eq!(decide(&Fixed(None), 1), Decision::DenyUnknownCaller);
    assert_eq!(
        decide(&Fixed(Some(grant::TIER_STANDARD)), 1),
        Decision::Allow(Tier::Standard)
    );
    assert_eq!(
        decide(&Fixed(Some(grant::TIER_UNRESTRICTED)), 1),
        Decision::Allow(Tier::Unrestricted)
    );
    assert_eq!(decide(&Fixed(Some(-7)), 1), decide(&Fixed(Some(grant::TIER_NONE)), 1));
    assert_eq!(Tier::Standard.exec_context(), None);
    assert_eq!(
        Tier::Unrestricted.exec_context(),
        Some(grant::UNRESTRICTED_CONTEXT)
    );
}

#[test]
fn a_sweep_kills_exactly_what_lost_its_grant() {
    let mut registry: Registry<&str> = Registry::new();
    assert!(registry.track(2, 20, "b", Tier::Unrestricted, true).is_ok());
    assert!(registry.track(1, 10, "a", Tier::Unrestricted, true).is_ok());
    assert!(registry.track(2, 21, "c", Tier::Standard, true).is_ok());
    assert!(registry.track(2, 22, "d", Tier::Unrestricted, true).is_ok());
    assert_eq!(registry.pids(), vec![20, 10, 21, 22]);

    let holders = registry.holders();
    assert_eq!(
        holders,
        vec![(1, Tier::Unrestricted), (2, Tier::Standard), (2, Tier::Unrestricted)]
    );
    let lost = doomed(&ByUid, holders);
    assert_eq!(lost, vec![(2, Tier::Unrestricted)]);
    assert_eq!(registry.condemned(&lost), vec![true, false, false, true]);
    registry.release(&lost, &[true, true, true, false]);
    assert_eq!(registry.pids(), vec![10, 21, 22]);
    registry.retain_alive(&[true, false, true]);
    assert_eq!(registry.pids(), vec![10, 22]);
}

#[test]
fn answers_are_taken_holder_by_holder() {
    let holders = vec![(1, Tier::Standard), (2, Tier::Standard)];
    assert_eq!(
        doomed_by(holders, &[Some(grant::TIER_STANDARD), None]),
        vec![(2, Tier::Standard)]
    );
}

#[test]
fn an_unwatched_shell_is_handed_back() {
    let mut registry: Registry<u8> = Registry::new();
    let (back, why) = registry.track(1, 2, 9, Tier::Standard, false).unwrap_err();
    assert_eq!(back, 9);
    assert_eq!(words(&why), (Kind::BrokenPipe, "the child reaper stopped"));
    assert!(registry.pids().is_empty());
}

#[test]
fn exit_codes_follow_the_wait_status() {
    assert_eq!(exit_code(0), Some(0));
    assert_eq!(exit_code(3 << 8), Some(3));
    assert_eq!(exit_code(0xFF00), Some(255));
    assert_eq!(exit_code(9), Some(137));
    assert_eq!(exit_code(15 | 0x80), Some(143));
    assert_eq!(exit_code(126), Some(254));
    assert_eq!(exit_code(0x137F), None);
    assert_eq!(exit_code(-1), None);
    for status in [0, 256, 0x0B00, 11, 139, 0x7F, 0x057F, -1, 0xFFFF] {
        let expected = if libc::WIFEXITED(status) {
            Some(libc::WEXITSTATUS(status) as u8)
        } else if libc::WIFSIGNALED(status) {
            Some(128 + libc::WTERMSIG(status) as u8)
        } else {
            None
        };
        assert_eq!(exit_code(status), expected, "status {status:#x}");
    }
}

#[test]
fn a_watched_shell_is_followed_to_its_end() {
    let mut watch = ExitWatch { pid: 40, client_gone: false, leader_reaped: false };
    assert_eq!(reap(&mut watch, Finding::Pass), Errand::InspectLease);
    assert_eq!(reap(&mut watch, Finding::Lease { closed: false }), Errand::Wait);
    let running = Finding::Waited { pid: 0, status: 0, interrupted: false };
    assert_eq!(reap(&mut watch, running), Errand::Keep);

    let ended = Finding::Waited { pid: 40, status: 2 << 8, interrupted: false };
    assert_eq!(reap(&mut watch, ended), Errand::Report(2));
    assert!(watch.leader_reaped);
    assert_eq!(reap(&mut watch, Finding::Reported), Errand::ProbeGroup);
    assert_eq!(reap(&mut watch, Finding::Group { alive: true }), Errand::Keep);
    assert_eq!(reap(&mut watch, Finding::Group { alive: false }), Errand::Forget);

    assert_eq!(reap(&mut watch, Finding::Lease { closed: true }), Errand::KillGroup);
    assert_eq!(reap(&mut watch, Finding::Pass), Errand::KillGroup);
    assert_eq!(reap(&mut watch, Finding::Killed), Errand::ProbeGroup);
    assert_eq!(reap(&mut watch, Finding::LeaseUnknown), Errand::Keep);
    let lost = Finding::Waited { pid: -1, status: 0, interrupted: false };
    assert_eq!(reap(&mut watch, lost), Errand::Forget);
    let again = Finding::Waited { pid: -1, status: 0, interrupted: true };
    assert_eq!(reap(&mut watch, again), Errand::Keep);
}

#[test]
fn the_reaper_waits_as_its_work_allows() {
    assert_eq!(pause(false, true), Pause::Stop);
    assert_eq!(pause(true, true), Pause::Receive);
    assert_eq!(pause(true, false), Pause::ReceiveBriefly);
    assert_eq!(pause(false, false), Pause::Sleep);
    assert!(group_alive(true, false));
    assert!(group_alive(false, true));
    assert!(!group_alive(false, false));
    assert!(group_killed(true, false));
    assert!(group_killed(false, true));
    assert!(!group_killed(false, false));
}

#[test]
fn strings_are_prepared_for_the_child() {
    let argv = owned(&["/system/bin/sh", "-c", "é"]);
    let env = owned(&["A=1"]);
    let prep = Prepared::new(&SpawnOpts { argv: &argv, exec_context: Some("u:r"), env: &env })
        .unwrap();
    assert_eq!(prep.args[0], b"/system/bin/sh\0".to_vec());
    assert_eq!(prep.args[2], vec![0xC3, 0xA9, 0]);
    assert_eq!(prep.env, vec![b"A=1\0".to_vec()]);
    assert_eq!(prep.exec_ctx, Some(b"u:r\0".to_vec()));
}

#[test]
fn strings_with_a_zero_byte_are_refused() {
    let none: Vec<String> = Vec::new();
    let empty = SpawnOpts { argv: &none, exec_context: None, env: &none };
    assert_eq!(
        words(&Prepared::new(&empty).unwrap_err()),
        (Kind::InvalidInput, "argv must not be empty")
    );
    assert_eq!(
        words(&terminated("éa\0b").unwrap_err()),
        (Kind::InvalidInput, "nul byte found in provided data at position: 3")
    );
    let argv = owned(&["sh"]);
    let env = owned(&["A=1", "B=\0"]);
    let opts = SpawnOpts { argv: &argv, exec_context: Some("\0"), env: &env };
    assert_eq!(
        words(&Prepared::new(&opts).unwrap_err()),
        (Kind::InvalidInput, "nul byte found in provided data at position: 2")
    );
    let opts = SpawnOpts { argv: &argv, exec_context: Some("\0"), env: &none };
    assert_eq!(
        words(&Prepared::new(&opts).unwrap_err()),
        (Kind::InvalidInput, "nul byte found in provided data at position: 0")
    );
}

#[test]
fn child_failures_are_told_by_their_byte() {
    let expected = [
        (ChildFailure::Session, 126, "child could not create its session"),
        (ChildFailure::Terminal, 127, "child could not open its terminal"),
        (ChildFailure::Io, 126, "child could not connect standard I/O"),
        (ChildFailure::Context, 126, "child could not select its SELinux exec context"),
        (ChildFailure::Exec, 127, "child could not execute the shell"),
    ];
    for (failure, exit, text) in expected {
        assert_eq!(failure.exit_code(), exit);
        match await_exec(1, failure.code(), false) {
            Handshake::Failed(f) => assert_eq!(words(&f), (Kind::Other, text)),
            other => panic!("{other:?}"),
        }
    }
    match await_exec(1, 77, false) {
        Handshake::Failed(f) => assert_eq!(words(&f), (Kind::Other, "child setup failed")),
        other => panic!("{other:?}"),
    }
    assert!(matches!(await_exec(0, 0, false), Handshake::Executed));
    assert!(matches!(await_exec(-1, 0, true), Handshake::Again));
    assert!(matches!(await_exec(-1, 0, false), Handshake::Broken));
}

fn steps(terminal: bool, context: bool) -> Vec<ChildStep> {
    let mut taken = vec![ChildStep::CloseOnExec];
    while let ChildNext::Do(next) = child_next(terminal, context, taken[taken.len() - 1], true) {
        taken.push(next);
    }
    taken
}

#[test]
fn a_child_takes_its_steps_in_order() {
    assert_eq!(
        steps(true, true),
        vec![
            ChildStep::CloseOnExec,
            ChildStep::NewSession,
            ChildStep::OpenTerminal,
            ChildStep::TakeTerminal,
            ChildStep::Redirect,
            ChildStep::CloseSpares,
            ChildStep::SelectContext,
            ChildStep::Exec,
        ]
    );
    assert_eq!(
        steps(false, false),
        vec![
            ChildStep::CloseOnExec,
            ChildStep::NewSession,
            ChildStep::Redirect,
            ChildStep::CloseSpares,
            ChildStep::Exec,
        ]
    );
    let failed = |step: ChildStep| child_next(true, true, step, false);
    assert_eq!(failed(ChildStep::CloseOnExec), ChildNext::Fail(ChildFailure::Session));
    assert_eq!(failed(ChildStep::NewSession), ChildNext::Fail(ChildFailure::Session));
    assert_eq!(failed(ChildStep::OpenTerminal), ChildNext::Fail(ChildFailure::Terminal));
    assert_eq!(failed(ChildStep::TakeTerminal), ChildNext::Fail(ChildFailure::Io));
    assert_eq!(failed(ChildStep::Redirect), ChildNext::Fail(ChildFailure::Io));
    assert_eq!(failed(ChildStep::SelectContext), ChildNext::Fail(ChildFailure::Context));
    assert_eq!(failed(ChildStep::Exec), ChildNext::Fail(ChildFailure::Exec));
}

#[test]
fn clones_and_waits_are_understood() {
    assert!(matches!(clone_result(0, -1), Ok(Cloned::Child)));
    assert!(matches!(clone_result(77, 5), Ok(Cloned::Parent(77))));
    assert_eq!(
        words(&clone_result(77, -1).unwrap_err()),
        (Kind::Other, "clone3 did not return a pidfd")
    );
    assert_eq!(
        words(&clone_result(1 << 31, 5).unwrap_err()).1,
        i32::try_from(1_i64 << 31).unwrap_err().to_string()
    );
    assert!(wait_is_over(5, 5, false));
    assert!(wait_is_over(5, -1, false));
    assert!(!wait_is_over(5, -1, true));
    assert!(!wait_is_over(5, 0, false));
    assert!(wrote_all(4, 4));
    assert!(!wrote_all(3, 4));
    assert!(!wrote_all(-1, 4));
    assert_eq!(window_dimension(-4), 1);
    assert_eq!(window_dimension(0), 1);
    assert_eq!(window_dimension(80), 80);
    assert_eq!(window_dimension(70_000), u16::MAX);
}

fn request(command: &str, dir: Option<&str>, environment: &[&str]) -> ShellRequest {
    ShellRequest {
        command: command.to_owned(),
        terminal: true,
        columns: 80,
        rows: 24,
        working_directory: dir.map(str::to_owned),
        environment: owned(environment),
    }
}

#[test]
fn an_empty_environment_is_replaced_by_a_usable_one() {
    assert_eq!(
        resolve_env(&[]).unwrap(),
        owned(&[
            "PATH=/product/bin:/apex/com.android.runtime/bin:/system/bin:/system_ext/bin",
            "HOME=/",
            "TERM=xterm-256color",
        ])
    );
    assert_eq!(resolve_env(&owned(&["A=", "B=c=d"])).unwrap(), owned(&["A=", "B=c=d"]));
    for bad in ["", "=x", "A", "A=\0"] {
        let refusal = resolve_env(&owned(&["OK=1", bad])).unwrap_err();
        assert_eq!(refusal.exception, Exception::IllegalArgument);
        assert_eq!(
            refusal.message,
            "environment entries must be non-empty KEY=VALUE pairs without NUL bytes"
        );
    }
}

#[test]
fn a_working_directory_is_absolute() {
    assert_eq!(resolve_cwd(None).unwrap(), None);
    assert_eq!(resolve_cwd(Some("")).unwrap(), None);
    assert_eq!(resolve_cwd(Some("/data")).unwrap(), Some("/data"));
    assert_eq!(
        resolve_cwd(Some("data")).unwrap_err().message,
        "workingDirectory must be absolute"
    );
    assert_eq!(
        resolve_cwd(Some("a\0")).unwrap_err().message,
        "workingDirectory must not contain a NUL byte"
    );
    assert_eq!(with_cwd("ls", None), "ls");
    assert_eq!(with_cwd("", Some("/a b")), "cd '/a b' && exec /system/bin/sh");
    assert_eq!(with_cwd("ls", Some("/it's")), "cd '/it'\\''s' || exit\nls");
}

#[test]
fn a_request_becomes_a_plan() {
    let plan = plan_shell(&request("ls", Some("/"), &["A=1"]), 7, Tier::Standard).unwrap();
    assert_eq!(plan.argv, owned(&["/system/bin/sh", "-c", "cd '/' || exit\nls"]));
    assert_eq!(plan.env, owned(&["A=1"]));
    assert!(plan.want_pty);
    assert_eq!((plan.columns, plan.rows, plan.caller), (80, 24, 7));
    assert_eq!(plan.tier, Tier::Standard);

    let plain = plan_shell(&request("", None, &[]), 7, Tier::Standard).unwrap();
    assert_eq!(plain.argv, owned(&["/system/bin/sh"]));
    assert_eq!(plain.env.len(), 3);

    let refused = plan_shell(&request("a\0", Some("b"), &["x"]), 7, Tier::Standard).unwrap_err();
    assert_eq!(refused.message, "command must not contain a NUL byte");
    let refused = plan_shell(&request("a", Some("b"), &["x"]), 7, Tier::Standard).unwrap_err();
    assert_eq!(refused.message, "workingDirectory must be absolute");
}

#[test]
fn a_request_is_looked_at_only_once_its_caller_is_admitted() {
    let bad = request("a\0", Some("b"), &["x"]);
    let good = request("ls", None, &[]);
    for asked in [&bad, &good] {
        let refused = open_shell(false, &ByUid, 2, asked).unwrap_err();
        assert_eq!(refused.exception, Exception::Security);
        assert_eq!(refused.message, "too many shell requests");
        let refused = open_shell(true, &ByUid, 3, asked).unwrap_err();
        assert_eq!(refused.exception, Exception::Security);
        assert_eq!(refused.message, "benzened access not granted");
    }
    let refused = open_shell(true, &ByUid, 2, &bad).unwrap_err();
    assert_eq!(refused.exception, Exception::IllegalArgument);
    assert_eq!(refused.message, "command must not contain a NUL byte");
    let plan = open_shell(true, &ByUid, 1, &good).unwrap();
    assert_eq!((plan.tier, plan.caller), (Tier::Unrestricted, 1));
    assert_eq!(plan.argv, owned(&["/system/bin/sh", "-c", "ls"]));
}

#[test]
fn a_caller_is_admitted_by_budget_and_grant() {
    let mut limiter = RateLimiter::new();
    let standard = Fixed(Some(grant::TIER_STANDARD));
    for _ in 0..MAX_PER_WINDOW {
        assert_eq!(
            check_caller_at(&mut limiter, &standard, 3, 0).unwrap(),
            Tier::Standard
        );
    }
    let refused = check_caller_at(&mut limiter, &standard, 3, 0).unwrap_err();
    assert_eq!(refused.exception, Exception::Security);
    assert_eq!(refused.message, "too many shell requests");
    let refused = check_caller_at(&mut limiter, &Fixed(None), 4, 0).unwrap_err();
    assert_eq!(refused.exception, Exception::Security);
    assert_eq!(refused.message, "benzened access not granted");

    let mut fresh = RateLimiter::new();
    assert_eq!(check_caller(&mut fresh, &standard, 3).unwrap(), Tier::Standard);
    assert_eq!(check_counted(true, &standard, 3).unwrap(), Tier::Standard);
    let refused = check_counted(false, &standard, 3).unwrap_err();
    assert_eq!(refused.message, check_caller_at(&mut limiter, &standard, 3, 0).unwrap_err().message);
    assert_eq!(
        answer(true, Decision::DenyNotGranted).unwrap_err().message,
        "benzened access not granted"
    );
    assert_eq!(
        answer(false, Decision::Allow(Tier::Standard)).unwrap_err().message,
        "too many shell requests"
    );
}

#[test]
fn a_shell_that_cannot_be_had_is_refused() {
    assert!(spawn_refusal(true, true).is_none());
    let failed = spawn_refusal(false, false).unwrap();
    assert_eq!(failed.exception, Exception::ServiceSpecific);
    assert_eq!(failed.message, "failed to spawn shell");
    assert_eq!(spawn_refusal(true, false).unwrap().message, "could not monitor the shell");
}
