//! What a request for a shell is answered.

use vstd::prelude::*;
use crate::grant::{self, decide, Decision, Source, Tier};
use crate::ratelimit::{self, RateLimiter};
use crate::shell::{self, shell_quote};
use crate::text::{self, chars_of, cut_once, find};

verus! {

/// How often grants are looked at again, in milliseconds. It is how long a
/// revoked shell keeps running.
pub const REVOCATION_INTERVAL: u64 = 2000;

/// The kind of an answer that is no.
#[derive(Debug, Clone, Copy, PartialEq, Eq, Structural)]
pub enum Exception {
    Security,
    IllegalArgument,
    ServiceSpecific,
}

/// An answer that is no.
#[derive(Debug)]
pub struct Refusal {
    pub exception: Exception,
    pub message: &'static str,
}

/// Whether a refusal is of that kind in those words.
pub open spec fn says(refusal: Refusal, exception: Exception, message: Seq<char>) -> bool {
    refusal.exception == exception && refusal.message@ == message
}

/// A request for a shell.
#[derive(Debug)]
pub struct ShellRequest {
    pub command: String,
    pub terminal: bool,
    pub columns: i32,
    pub rows: i32,
    pub working_directory: Option<String>,
    pub environment: Vec<String>,
}

/// The shell that a request comes to.
#[derive(Debug)]
pub struct ShellPlan {
    pub argv: Vec<String>,
    pub want_pty: bool,
    pub columns: i32,
    pub rows: i32,
    pub env: Vec<String>,
    pub tier: Tier,
    pub caller: u32,
}

pub const DEFAULT_PATH: &'static str =
    "PATH=/product/bin:/apex/com.android.runtime/bin:/system/bin:/system_ext/bin";

pub const DEFAULT_HOME: &'static str = "HOME=/";

pub const DEFAULT_TERM: &'static str = "TERM=xterm-256color";

/// An empty environment leaves the shell with no PATH, so callers that pass
/// nothing get a usable minimum rather than a broken session.
pub open spec fn default_env() -> Seq<Seq<char>> {
    seq![DEFAULT_PATH@, DEFAULT_HOME@, DEFAULT_TERM@]
}

/// Whether an environment entry names a variable and holds no NUL.
pub open spec fn is_entry(entry: Seq<char>) -> bool {
    !entry.contains('\0') && match text::cut_at(entry, '=') {
        Some(parts) => parts.0.len() > 0,
        None => false,
    }
}

fn holds_nul(s: &str) -> (r: bool)
    ensures
        r == s@.contains('\0'),
{
    let chars = chars_of(s);
    let at: usize = find(&chars, '\0');
    if at < chars.len() {
        assert(s@[at as int] == '\0');
        true
    } else {
        false
    }
}

fn entry_is_sound(entry: &str) -> (r: bool)
    ensures
        r == is_entry(entry@),
{
    if holds_nul(entry) {
        return false;
    }
    match cut_once(&chars_of(entry), '=') {
        Some((name, _)) => name.len() > 0,
        None => false,
    }
}

/// The environment of the shell: the one that is asked for, or a usable
/// minimum.
pub fn resolve_env(environment: &[String]) -> (r: Result<Vec<String>, Refusal>)
    ensures
        if environment@.len() == 0 {
            r matches Ok(env) && text::texts(env@) == default_env()
        } else if exists|i: int| 0 <= i < environment@.len() && !is_entry((#[trigger] environment@[i])@) {
            r matches Err(refusal) && says(
                refusal,
                Exception::IllegalArgument,
                "environment entries must be non-empty KEY=VALUE pairs without NUL bytes"@,
            )
        } else {
            r matches Ok(env) && text::texts(env@) == text::texts(environment@)
        },
{
    let mut out: Vec<String> = Vec::new();
    if environment.len() == 0 {
        out.push(DEFAULT_PATH.to_owned());
        out.push(DEFAULT_HOME.to_owned());
        out.push(DEFAULT_TERM.to_owned());
        assert(text::texts(out@) =~= default_env());
        return Ok(out);
    }
    while out.len() < environment.len()
        invariant
            out@.len() <= environment@.len(),
            environment@.len() > 0,
            forall|i: int| 0 <= i < out@.len() ==> is_entry((#[trigger] environment@[i])@),
            text::texts(out@) =~= text::texts(environment@).take(out@.len() as int),
        decreases environment@.len() - out@.len(),
    {
        let n: usize = out.len();
        if !entry_is_sound(environment[n].as_str()) {
            assert(!is_entry(environment@[n as int]@));
            return Err(
                Refusal {
                    exception: Exception::IllegalArgument,
                    message:
                        "environment entries must be non-empty KEY=VALUE pairs without NUL bytes",
                },
            );
        }
        let ghost before = out@;
        out.push(environment[n].as_str().to_owned());
        assert(text::texts(out@) =~= text::texts(before).push(environment@[n as int]@));
    }
    assert(text::texts(out@) =~= text::texts(environment@));
    Ok(out)
}

/// What a client makes of a variable is an entry that the service accepts.
pub proof fn lemma_variables_make_entries(key: Seq<char>, value: Seq<char>)
    requires
        key.len() > 0,
        key[0] != '=',
        !key.contains('\0'),
        !value.contains('\0'),
    ensures
        is_entry(key + "="@ + value),
{
    reveal_strlit("=");
    let entry = key + "="@ + value;
    let n = text::first_at(key, '=');
    lemma_first_at_bounds(key, '=');
    if n < key.len() {
        assert forall|i: int| 0 <= i < n implies entry[i] != '=' by {
            assert(entry[i] == key[i]);
        }
        text::lemma_first_at(entry, '=', n);
    } else {
        assert forall|i: int| 0 <= i < key.len() implies entry[i] != '=' by {
            assert(entry[i] == key[i]);
        }
        text::lemma_first_at(entry, '=', key.len() as int);
    }
    assert forall|i: int| 0 <= i < entry.len() implies entry[i] != '\0' by {
        if i < key.len() {
            assert(key.contains(key[i]));
        } else if i > key.len() {
            assert(value.contains(value[i - key.len() - 1]));
        }
    }
}

proof fn lemma_first_at_bounds(s: Seq<char>, c: char)
    ensures
        0 <= text::first_at(s, c) <= s.len(),
        text::first_at(s, c) < s.len() ==> s[text::first_at(s, c)] == c,
        forall|i: int| 0 <= i < text::first_at(s, c) ==> s[i] != c,
        s.len() > 0 && s[0] != c ==> text::first_at(s, c) > 0,
    decreases s.len(),
{
    if s.len() > 0 && s[0] != c {
        lemma_first_at_bounds(s.skip(1), c);
        assert forall|i: int| 0 <= i < text::first_at(s, c) implies s[i] != c by {
            if i > 0 {
                assert(s.skip(1)[i - 1] == s[i]);
            }
        }
    }
}

/// Where the shell starts: nowhere in particular, or in an absolute directory.
pub fn resolve_cwd(working_directory: Option<&str>) -> (r: Result<Option<&str>, Refusal>)
    ensures
        match working_directory {
            None => r matches Ok(None),
            Some(dir) => if dir@.len() == 0 {
                r matches Ok(None)
            } else if dir@.contains('\0') {
                r matches Err(refusal) && says(
                    refusal,
                    Exception::IllegalArgument,
                    "workingDirectory must not contain a NUL byte"@,
                )
            } else if dir@[0] != '/' {
                r matches Err(refusal) && says(
                    refusal,
                    Exception::IllegalArgument,
                    "workingDirectory must be absolute"@,
                )
            } else {
                r matches Ok(Some(found)) && found@ == dir@
            },
        },
{
    let dir = match working_directory {
        Some(dir) => dir,
        None => return Ok(None),
    };
    let chars = chars_of(dir);
    if chars.len() == 0 {
        return Ok(None);
    }
    if holds_nul(dir) {
        return Err(
            Refusal {
                exception: Exception::IllegalArgument,
                message: "workingDirectory must not contain a NUL byte",
            },
        );
    }
    if chars[0] != '/' {
        return Err(
            Refusal {
                exception: Exception::IllegalArgument,
                message: "workingDirectory must be absolute",
            },
        );
    }
    Ok(Some(dir))
}

/// The script that runs a command in a directory.
pub open spec fn script_in(command: Seq<char>, cwd: Option<Seq<char>>) -> Seq<char> {
    match cwd {
        None => command,
        Some(dir) => if command.len() == 0 {
            "cd "@ + shell::quoted(dir) + " && exec /system/bin/sh"@
        } else {
            "cd "@ + shell::quoted(dir) + " || exit\n"@ + command
        },
    }
}

/// The chdir has to happen after the exec. The forked child is still in the
/// service's domain, which has no filesystem access to speak of.
pub fn with_cwd(command: &str, cwd: Option<&str>) -> (r: String)
    ensures
        r@ == script_in(command@, crate::pty::borrowed(cwd)),
{
    let dir = match cwd {
        Some(dir) => dir,
        None => return command.to_owned(),
    };
    let mut script = "cd ".to_owned();
    script.append(shell_quote(dir).as_str());
    if chars_of(command).len() == 0 {
        script.append(" && exec /system/bin/sh");
    } else {
        script.append(" || exit\n");
        script.append(command);
    }
    script
}

/// A shell changes to exactly the directory that was asked for, whatever its
/// name holds, before it comes to the command.
pub proof fn lemma_directory_is_entered(command: Seq<char>, dir: Seq<char>)
    ensures
        text::begins_with(script_in(command, Some(dir)), "cd "@),
        shell::read_word(script_in(command, Some(dir)).skip(3), false).0 == dir,
{
    reveal_strlit("cd ");
    reveal_strlit(" && exec /system/bin/sh");
    reveal_strlit(" || exit\n");
    let script = script_in(command, Some(dir));
    let rest = if command.len() == 0 {
        " && exec /system/bin/sh"@
    } else {
        " || exit\n"@ + command
    };
    assert(script.take(3) =~= "cd "@);
    assert(script.skip(3) =~= shell::quoted(dir) + rest);
    shell::lemma_quoted_reads_back(dir, rest);
}

/// Whether a plan is what a request comes to.
pub open spec fn plans(
    plan: ShellPlan,
    request: ShellRequest,
    cwd: Option<Seq<char>>,
    caller: u32,
    tier: Tier,
) -> bool {
    let script = script_in(request.command@, cwd);
    &&& text::texts(plan.argv@) == if script.len() == 0 {
        seq!["/system/bin/sh"@]
    } else {
        seq!["/system/bin/sh"@, "-c"@, script]
    }
    &&& plan.want_pty == request.terminal
    &&& plan.columns == request.columns
    &&& plan.rows == request.rows
    &&& text::texts(plan.env@) == if request.environment@.len() == 0 {
        default_env()
    } else {
        text::texts(request.environment@)
    }
    &&& plan.tier == tier
    &&& plan.caller == caller
}

/// The directory of a request, where it asks for one.
pub open spec fn directory_of(request: ShellRequest) -> Option<Seq<char>> {
    match request.working_directory {
        Some(dir) => if dir@.len() == 0 {
            None
        } else {
            Some(dir@)
        },
        None => None,
    }
}

/// Why a request is refused, if it is.
pub open spec fn request_refusal(request: ShellRequest) -> Option<Seq<char>> {
    if request.command@.contains('\0') {
        Some("command must not contain a NUL byte"@)
    } else {
        match directory_of(request) {
            Some(dir) => if dir.contains('\0') {
                Some("workingDirectory must not contain a NUL byte"@)
            } else if dir[0] != '/' {
                Some("workingDirectory must be absolute"@)
            } else {
                environment_refusal(request)
            },
            None => environment_refusal(request),
        }
    }
}

/// Why the environment of a request is refused, if it is.
pub open spec fn environment_refusal(request: ShellRequest) -> Option<Seq<char>> {
    if exists|i: int|
        0 <= i < request.environment@.len() && !is_entry((#[trigger] request.environment@[i])@) {
        Some("environment entries must be non-empty KEY=VALUE pairs without NUL bytes"@)
    } else {
        None
    }
}

/// Whether the request of an admitted caller is answered by what it holds.
pub open spec fn planned(
    r: Result<ShellPlan, Refusal>,
    request: ShellRequest,
    caller: u32,
    tier: Tier,
) -> bool {
    match request_refusal(request) {
        Some(why) => r matches Err(refusal) && says(refusal, Exception::IllegalArgument, why),
        None => r matches Ok(plan) && plans(plan, request, directory_of(request), caller, tier),
    }
}

/// The shell that a request of an admitted caller comes to.
pub fn plan_shell(request: &ShellRequest, caller: u32, tier: Tier) -> (r: Result<
    ShellPlan,
    Refusal,
>)
    ensures
        planned(r, *request, caller, tier),
{
    if holds_nul(request.command.as_str()) {
        return Err(
            Refusal {
                exception: Exception::IllegalArgument,
                message: "command must not contain a NUL byte",
            },
        );
    }
    let asked = match &request.working_directory {
        Some(dir) => Some(dir.as_str()),
        None => None,
    };
    let cwd = match resolve_cwd(asked) {
        Ok(cwd) => cwd,
        Err(refusal) => return Err(refusal),
    };
    assert(crate::pty::borrowed(cwd) == directory_of(*request));
    let env = match resolve_env(&request.environment) {
        Ok(env) => env,
        Err(refusal) => return Err(refusal),
    };
    let script = with_cwd(request.command.as_str(), cwd);
    let mut argv: Vec<String> = Vec::new();
    argv.push("/system/bin/sh".to_owned());
    if chars_of(script.as_str()).len() > 0 {
        let ghost shown = script@;
        argv.push("-c".to_owned());
        argv.push(script);
        assert(text::texts(argv@) =~= seq!["/system/bin/sh"@, "-c"@, shown]);
    } else {
        assert(text::texts(argv@) =~= seq!["/system/bin/sh"@]);
    }
    Ok(
        ShellPlan {
            argv,
            want_pty: request.terminal,
            columns: request.columns,
            rows: request.rows,
            env,
            tier,
            caller,
        },
    )
}

/// A shell that was planned can be prepared: nothing that goes into it holds a
/// NUL.
pub proof fn lemma_planned_shells_can_be_prepared(
    plan: ShellPlan,
    request: ShellRequest,
    caller: u32,
    tier: Tier,
)
    requires
        request_refusal(request) is None,
        plans(plan, request, directory_of(request), caller, tier),
    ensures
        crate::pty::preparation_refusal(
            text::texts(plan.argv@),
            text::texts(plan.env@),
            plan.tier.context(),
        ) is None,
{
    reveal_strlit("/system/bin/sh");
    reveal_strlit("-c");
    reveal_strlit("u:r:benzened_shell_unrestricted:s0");
    let argv = text::texts(plan.argv@);
    let env = text::texts(plan.env@);
    let script = script_in(request.command@, directory_of(request));
    lemma_script_without_nul(request.command@, directory_of(request));
    assert forall|i: int| 0 <= i < argv.len() implies !(#[trigger] argv[i]).contains('\0') by {
        assert(!"/system/bin/sh"@.contains('\0'));
        assert(!"-c"@.contains('\0'));
    }
    crate::pty::lemma_all_without_nul(argv);
    assert forall|i: int| 0 <= i < env.len() implies !(#[trigger] env[i]).contains('\0') by {
        if request.environment@.len() == 0 {
            reveal_strlit(
                "PATH=/product/bin:/apex/com.android.runtime/bin:/system/bin:/system_ext/bin",
            );
            reveal_strlit("HOME=/");
            reveal_strlit("TERM=xterm-256color");
            assert(!DEFAULT_PATH@.contains('\0'));
            assert(!DEFAULT_HOME@.contains('\0'));
            assert(!DEFAULT_TERM@.contains('\0'));
        } else {
            assert(env[i] == request.environment@[i]@);
            assert(is_entry(request.environment@[i]@));
        }
    }
    crate::pty::lemma_all_without_nul(env);
    assert(!grant::UNRESTRICTED_CONTEXT@.contains('\0'));
    crate::pty::lemma_without_nul(grant::UNRESTRICTED_CONTEXT@);
}

proof fn lemma_script_without_nul(command: Seq<char>, cwd: Option<Seq<char>>)
    requires
        !command.contains('\0'),
        cwd matches Some(dir) ==> !dir.contains('\0'),
    ensures
        !script_in(command, cwd).contains('\0'),
{
    if let Some(dir) = cwd {
        reveal_strlit("cd ");
        reveal_strlit(" && exec /system/bin/sh");
        reveal_strlit(" || exit\n");
        shell::lemma_quoted_holds_the_word(dir, '\0');
        let quoted = shell::quoted(dir);
        let script = script_in(command, cwd);
        let rest = if command.len() == 0 {
            " && exec /system/bin/sh"@
        } else {
            " || exit\n"@ + command
        };
        assert(script =~= "cd "@ + quoted + rest);
        assert forall|i: int| 0 <= i < script.len() implies script[i] != '\0' by {
            if 3 <= i < 3 + quoted.len() {
                assert(script[i] == quoted[i - 3]);
            } else if i >= 3 + quoted.len() {
                assert(script[i] == rest[i - 3 - quoted.len()]);
                if command.len() > 0 && i >= 3 + quoted.len() + 9 {
                    assert(script[i] == command[i - 3 - quoted.len() - 9]);
                }
            }
        }
    }
}

/// What a caller is answered: no, where it asks too often or holds no grant.
pub fn answer(allowed: bool, decision: Decision) -> (r: Result<Tier, Refusal>)
    ensures
        if !allowed {
            r matches Err(refusal) && says(
                refusal,
                Exception::Security,
                "too many shell requests"@,
            )
        } else {
            match decision {
                Decision::Allow(tier) => r == Ok::<Tier, Refusal>(tier),
                _ => r matches Err(refusal) && says(
                    refusal,
                    Exception::Security,
                    "benzened access not granted"@,
                ),
            }
        },
{
    if !allowed {
        return Err(
            Refusal { exception: Exception::Security, message: "too many shell requests" },
        );
    }
    match decision {
        Decision::Allow(tier) => Ok(tier),
        _ => Err(
            Refusal { exception: Exception::Security, message: "benzened access not granted" },
        ),
    }
}

/// Whether a caller whose request was counted is answered as its grant says.
pub open spec fn answered<S: Source>(
    r: Result<Tier, Refusal>,
    allowed: bool,
    grants: &S,
    caller: u32,
) -> bool {
    if !allowed {
        r matches Err(refusal) && says(refusal, Exception::Security, "too many shell requests"@)
    } else {
        exists|answer: Option<i32>| #[trigger]
            call_ensures(S::tier, (grants, caller), answer) && match grant::meaning(answer) {
                Decision::Allow(tier) => r == Ok::<Tier, Refusal>(tier),
                _ => r matches Err(refusal) && says(
                    refusal,
                    Exception::Security,
                    "benzened access not granted"@,
                ),
            }
    }
}

/// Asks for the grant of a caller whose request was counted. One that asks
/// too often is refused without its grant being asked for.
pub fn check_counted<S>(allowed: bool, grants: &S, caller: u32) -> (r: Result<
    Tier,
    Refusal,
>) where S: Source
    ensures
        answered(r, allowed, grants, caller),
{
    if !allowed {
        return answer(false, Decision::DenyUnknownCaller);
    }
    let decision = decide(grants, caller);
    answer(true, decision)
}

/// Whether a counted request is answered in the right order: by the budget,
/// else by the grant, and by what it holds only where the grant admits it.
pub open spec fn admitted<S: Source>(
    r: Result<ShellPlan, Refusal>,
    allowed: bool,
    grants: &S,
    caller: u32,
    request: ShellRequest,
) -> bool {
    if !allowed {
        r matches Err(refusal) && says(refusal, Exception::Security, "too many shell requests"@)
    } else {
        exists|answer: Option<i32>| #[trigger]
            call_ensures(S::tier, (grants, caller), answer) && match grant::meaning(answer) {
                Decision::Allow(tier) => planned(r, request, caller, tier),
                _ => r matches Err(refusal) && says(
                    refusal,
                    Exception::Security,
                    "benzened access not granted"@,
                ),
            }
    }
}

/// The shell that a counted request comes to. A caller without a grant learns
/// nothing of what is wrong with its request.
pub fn open_shell<S>(allowed: bool, grants: &S, caller: u32, request: &ShellRequest) -> (r: Result<
    ShellPlan,
    Refusal,
>) where S: Source
    ensures
        admitted(r, allowed, grants, caller, *request),
{
    match check_counted(allowed, grants, caller) {
        Ok(tier) => plan_shell(request, caller, tier),
        Err(refusal) => Err(refusal),
    }
}

/// Counts a caller's request at `now` and asks for its grant.
pub fn check_caller_at<S>(limiter: &mut RateLimiter, grants: &S, caller: u32, now: u64) -> (r: Result<
    Tier,
    Refusal,
>) where S: Source
    ensures
        final(limiter)@ == ratelimit::after(old(limiter)@, caller, now),
        answered(r, ratelimit::granted(old(limiter)@, caller, now), grants, caller),
{
    let allowed = limiter.allow_at(caller, now);
    check_counted(allowed, grants, caller)
}

/// Counts a caller's request at the present and asks for its grant.
pub fn check_caller<S>(limiter: &mut RateLimiter, grants: &S, caller: u32) -> (r: Result<
    Tier,
    Refusal,
>) where S: Source
    ensures
        exists|now: u64| #[trigger]
            ratelimit::after(old(limiter)@, caller, now) == final(limiter)@ && answered(
                r,
                ratelimit::granted(old(limiter)@, caller, now),
                grants,
                caller,
            ),
{
    let allowed = limiter.allow(caller);
    check_counted(allowed, grants, caller)
}

/// What a request is answered that came this far: whether the shell was
/// spawned and whether its exit is watched.
pub fn spawn_refusal(spawned: bool, watched: bool) -> (r: Option<Refusal>)
    ensures
        if !spawned {
            r matches Some(refusal) && says(
                refusal,
                Exception::ServiceSpecific,
                "failed to spawn shell"@,
            )
        } else if !watched {
            r matches Some(refusal) && says(
                refusal,
                Exception::ServiceSpecific,
                "could not monitor the shell"@,
            )
        } else {
            r is None
        },
{
    if !spawned {
        Some(
            Refusal { exception: Exception::ServiceSpecific, message: "failed to spawn shell" },
        )
    } else if !watched {
        Some(
            Refusal {
                exception: Exception::ServiceSpecific,
                message: "could not monitor the shell",
            },
        )
    } else {
        None
    }
}

/// An environment entry is any text without a NUL that has a name before its
/// first equals sign. What it is set to does not matter.
pub proof fn lemma_what_an_entry_is(entry: Seq<char>)
    ensures
        is_entry(entry) <==> !entry.contains('\0') && entry.contains('=') && entry[0] != '=',
{
    if entry.contains('=') {
        let at = text::first_at(entry, '=');
        lemma_equals_is_found(entry);
        if entry[0] == '=' {
            text::lemma_first_at(entry, '=', 0);
        }
    } else {
        assert forall|i: int| 0 <= i < entry.len() implies entry[i] != '=' by {
            assert(entry.contains(entry[i]));
        }
        text::lemma_first_at(entry, '=', entry.len() as int);
    }
}

proof fn lemma_equals_is_found(entry: Seq<char>)
    requires
        entry.contains('='),
    ensures
        0 <= text::first_at(entry, '=') < entry.len(),
        entry[text::first_at(entry, '=')] == '=',
    decreases entry.len(),
{
    if entry[0] != '=' {
        let i = choose|i: int| 0 <= i < entry.len() && entry[i] == '=';
        assert(entry.skip(1)[i - 1] == '=');
        lemma_equals_is_found(entry.skip(1));
    }
}

/// A request is refused exactly where its command, its directory or an entry of
/// its environment holds a NUL, its directory is not absolute, or an entry has
/// no name. An empty directory asks for none.
pub proof fn lemma_what_is_refused(request: ShellRequest)
    ensures
        request_refusal(request) is None <==> {
            &&& !request.command@.contains('\0')
            &&& request.working_directory matches Some(dir) ==> dir@.len() > 0 ==> dir@[0] == '/'
                && !dir@.contains('\0')
            &&& forall|i: int|
                0 <= i < request.environment@.len() ==> {
                    let entry = (#[trigger] request.environment@[i])@;
                    !entry.contains('\0') && entry.contains('=') && entry[0] != '='
                }
        },
{
    assert forall|i: int| 0 <= i < request.environment@.len() implies (is_entry(
        (#[trigger] request.environment@[i])@,
    ) <==> {
        let entry = request.environment@[i]@;
        !entry.contains('\0') && entry.contains('=') && entry[0] != '='
    }) by {
        lemma_what_an_entry_is(request.environment@[i]@);
    }
    if let Some(dir) = request.working_directory {
        if dir@.len() == 0 {
            assert(!dir@.contains('\0'));
        }
    }
}

/// A shell is planned as it was asked for: it runs the command as it is, in the
/// directory where there is one, on a terminal of that size where one is asked
/// for, with the environment as it is or the usual one where there is none, for
/// that caller and with its tier.
pub proof fn lemma_plan_is_what_was_asked_for(
    plan: ShellPlan,
    request: ShellRequest,
    caller: u32,
    tier: Tier,
)
    requires
        plans(plan, request, directory_of(request), caller, tier),
    ensures
        plan.argv@.len() > 0,
        plan.argv@[0]@ == "/system/bin/sh"@,
        (request.working_directory is None || request.working_directory->0@.len() == 0)
            && request.command@.len() == 0 ==> plan.argv@.len() == 1,
        (request.working_directory is None || request.working_directory->0@.len() == 0)
            && request.command@.len() > 0 ==> plan.argv@.len() == 3 && plan.argv@[1]@ == "-c"@
            && plan.argv@[2]@ == request.command@,
        request.working_directory matches Some(dir) ==> dir@.len() > 0 && request.command@.len() > 0
            ==> plan.argv@.len() == 3 && plan.argv@[1]@ == "-c"@ && plan.argv@[2]@ == "cd "@
            + shell::quoted(dir@) + " || exit\n"@ + request.command@,
        request.working_directory matches Some(dir) ==> dir@.len() > 0 && request.command@.len()
            == 0 ==> plan.argv@.len() == 3 && plan.argv@[1]@ == "-c"@ && plan.argv@[2]@ == "cd "@
            + shell::quoted(dir@) + " && exec /system/bin/sh"@,
        plan.want_pty == request.terminal,
        plan.columns == request.columns,
        plan.rows == request.rows,
        request.environment@.len() > 0 ==> text::texts(plan.env@) == text::texts(
            request.environment@,
        ),
        request.environment@.len() == 0 ==> text::texts(plan.env@) == seq![
            DEFAULT_PATH@,
            DEFAULT_HOME@,
            DEFAULT_TERM@,
        ],
        plan.tier == tier,
        plan.caller == caller,
{
    reveal_strlit("cd ");
    let script = script_in(request.command@, directory_of(request));
    let argv = text::texts(plan.argv@);
    assert(argv.len() == plan.argv@.len());
    assert(argv[0] == plan.argv@[0]@);
    if argv.len() == 3 {
        assert(argv[1] == plan.argv@[1]@);
        assert(argv[2] == plan.argv@[2]@);
    }
    if let Some(dir) = directory_of(request) {
        assert(script.len() >= 3);
    }
}

/// Only an answer that names a tier gets a caller a shell, and of that tier.
/// Where no answer names one, or the caller asked too often, it gets nothing
/// and learns nothing of its request.
pub proof fn lemma_who_gets_a_shell<S: Source>(
    r: Result<ShellPlan, Refusal>,
    allowed: bool,
    grants: &S,
    caller: u32,
    request: ShellRequest,
)
    requires
        admitted(r, allowed, grants, caller, request),
    ensures
        r matches Ok(plan) ==> allowed && plan.caller == caller && exists|answer: Option<i32>|
            #[trigger] call_ensures(S::tier, (grants, caller), answer) && (if plan.tier
                is Standard {
                answer == Some(grant::TIER_STANDARD)
            } else {
                answer == Some(grant::TIER_UNRESTRICTED)
            }),
        !allowed ==> (r matches Err(refusal) && refusal.exception is Security),
        (forall|answer: Option<i32>| #[trigger]
            call_ensures(S::tier, (grants, caller), answer) ==> answer != Some(grant::TIER_STANDARD)
                && answer != Some(grant::TIER_UNRESTRICTED)) ==> (r matches Err(refusal)
            && refusal.exception is Security),
        (forall|answer: Option<i32>| #[trigger]
            call_ensures(S::tier, (grants, caller), answer) ==> answer == Some(grant::TIER_STANDARD)
                || answer == Some(grant::TIER_UNRESTRICTED)) && allowed && request_refusal(request)
            is None ==> r is Ok,
{
}

/// A caller is counted for what its grant says: it has the tier that an
/// answer names, or none where it asked too often or no answer names one.
pub proof fn lemma_who_is_admitted<S: Source>(
    r: Result<Tier, Refusal>,
    allowed: bool,
    grants: &S,
    caller: u32,
)
    requires
        answered(r, allowed, grants, caller),
    ensures
        r matches Ok(tier) ==> allowed && exists|answer: Option<i32>| #[trigger]
            call_ensures(S::tier, (grants, caller), answer) && (if tier is Standard {
                answer == Some(grant::TIER_STANDARD)
            } else {
                answer == Some(grant::TIER_UNRESTRICTED)
            }),
        !allowed ==> (r matches Err(refusal) && refusal.exception is Security),
        (forall|answer: Option<i32>| #[trigger]
            call_ensures(S::tier, (grants, caller), answer) ==> answer == Some(grant::TIER_STANDARD)
                || answer == Some(grant::TIER_UNRESTRICTED)) && allowed ==> r is Ok,
{
}

} // verus!
