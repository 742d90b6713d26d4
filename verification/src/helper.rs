//! The Linux helper: whether a process was started as one, what it does step by step before the
//! target runs, and how it reports a step that failed.

use vstd::prelude::*;
use vstd::utf8::*;

use crate::env::EnvMap;
use crate::os;
use crate::os::OsText;
use crate::reexec;
use crate::reexec::{
    HelperMode, HelperPolicy, ProxyRouteSpec, HELPER_ARG0, HELPER_EXIT_BAD_POLICY,
    HELPER_EXIT_EXEC_FAILED, HELPER_EXIT_NOT_ENFORCED, POLICY_ENV, STAGE_ENV, STAGE_INNER,
};
use crate::text;
use crate::transform;
use crate::types;

verus! {

// ---------------------------------------------------------------------------
// Starting
// ---------------------------------------------------------------------------

/// What the helper found where its policy should be.
#[derive(Debug)]
pub enum PolicyInput {
    /// No policy, and why.
    Missing(String),
    /// Something that is no policy, and why.
    Malformed(String),
    /// A policy.
    Parsed(HelperPolicy),
}

/// What a process that may be the helper does.
#[derive(Debug)]
pub enum HelperStart {
    /// It is not the helper: go on as usual.
    NotInvoked,
    /// It is, and has to give up.
    Exit { code: i32, message: String },
    /// It is, and enforces this policy on this command.
    Run { policy: HelperPolicy, command: Vec<OsText> },
}

/// Whether a process is the helper: by its `argv[0]`, or, inside bwrap, by the stage in its
/// environment.
pub open spec fn is_helper(argv: Seq<Seq<u8>>, stage: Option<Seq<u8>>) -> bool {
    ||| argv.len() > 0 && argv[0] == encode_utf8(HELPER_ARG0@)
    ||| stage == Some(encode_utf8(STAGE_INNER@))
}

/// The command that the helper is to run: what follows its `argv[0]`.
pub open spec fn command_of(argv: Seq<Seq<u8>>) -> Seq<Seq<u8>> {
    if argv.len() > 0 {
        argv.skip(1)
    } else {
        argv
    }
}

/// What the process does.
pub open spec fn starts_as(
    argv: Seq<Seq<u8>>,
    stage: Option<Seq<u8>>,
    policy: PolicyInput,
    r: HelperStart,
) -> bool {
    if !is_helper(argv, stage) {
        r is NotInvoked
    } else if command_of(argv).len() == 0 {
        gives_up(r, HELPER_EXIT_BAD_POLICY, "no command to run"@)
    } else {
        match policy {
            PolicyInput::Missing(why) => gives_up(
                r,
                HELPER_EXIT_BAD_POLICY,
                "missing MOTOSAN_SANDBOX_POLICY: "@ + why@,
            ),
            PolicyInput::Malformed(why) => gives_up(
                r,
                HELPER_EXIT_BAD_POLICY,
                "bad policy json: "@ + why@,
            ),
            PolicyInput::Parsed(h) => r matches HelperStart::Run { policy: p, command } && p == h
                && command.deep_view() == command_of(argv),
        }
    }
}

/// The process gives up with this code and message.
pub open spec fn gives_up(r: HelperStart, code: i32, message: Seq<char>) -> bool {
    r matches HelperStart::Exit { code: c, message: m } && c == code && m@ == message
}

/// Decides what a process does that may have been started as the helper. `argv` are its
/// arguments, `stage` is the value of the stage variable, and `policy` what the policy variable
/// held. A process that is not the helper goes on as usual.
pub fn run_if_invoked(
    argv: &Vec<OsText>,
    stage: Option<&OsText>,
    policy: PolicyInput,
) -> (r: HelperStart)
    ensures
        starts_as(
            argv.deep_view(),
            match stage {
                Some(s) => Some(s@),
                None => None,
            },
            policy,
            r,
        ),
{
    let by_name: bool = argv.len() > 0 && argv[0].is_text(HELPER_ARG0);
    let by_stage: bool = match stage {
        Some(s) => s.is_text(STAGE_INNER),
        None => false,
    };
    if !by_name && !by_stage {
        return HelperStart::NotInvoked;
    }
    let command: Vec<OsText> = rest_of(argv);
    assert(command.deep_view().len() == command@.len());
    if command.len() == 0 {
        return HelperStart::Exit {
            code: HELPER_EXIT_BAD_POLICY,
            message: "no command to run".to_owned(),
        };
    }
    match policy {
        PolicyInput::Missing(why) => HelperStart::Exit {
            code: HELPER_EXIT_BAD_POLICY,
            message: text::join2("missing MOTOSAN_SANDBOX_POLICY: ", why.as_str()),
        },
        PolicyInput::Malformed(why) => HelperStart::Exit {
            code: HELPER_EXIT_BAD_POLICY,
            message: text::join2("bad policy json: ", why.as_str()),
        },
        PolicyInput::Parsed(policy) => HelperStart::Run { policy, command },
    }
}

/// A copy of all arguments but the first.
fn rest_of(argv: &Vec<OsText>) -> (r: Vec<OsText>)
    ensures
        r.deep_view() == command_of(argv.deep_view()),
{
    let mut out: Vec<OsText> = Vec::new();
    let ghost all = argv.deep_view();
    if argv.len() == 0 {
        assert(out.deep_view() =~= all);
        return out;
    }
    let mut i: usize = 1;
    while i < argv.len()
        invariant
            1 <= i <= argv@.len(),
            out@.len() == i - 1,
            forall|k: int| 0 <= k < i - 1 ==> (#[trigger] out@[k])@ == argv@[k + 1]@,
        decreases argv@.len() - i,
    {
        out.push(argv[i].clone());
        i = i + 1;
    }
    assert(out.deep_view() =~= all.skip(1));
    out
}

// ---------------------------------------------------------------------------
// Steps
// ---------------------------------------------------------------------------

/// A step of the helper.
#[derive(Debug, Clone, Copy, PartialEq, Eq, Structural)]
pub enum Step {
    /// Gives up the right to gain privileges.
    NoNewPrivs,
    /// Installs the filter of a blocked network.
    BlockNetwork,
    /// Restricts the filesystem with Landlock.
    RestrictFiles,
    /// Finds bwrap.
    FindBwrap,
    /// Hands the policy for the second stage over in the environment.
    HandOver,
    /// Finds the paths to mask.
    MaskPaths,
    /// Becomes bwrap, which starts the second stage.
    EnterBwrap,
    /// Listens at a loopback port for each route.
    BindRoutes,
    /// Leaves a process behind that bridges from there to the proxy.
    ForkBridge,
    /// Leads the target to the bridge, and takes the policy out of its environment.
    LeadToBridge,
    /// Installs the filter of a proxied network.
    RouteNetwork,
    /// Takes the policy out of the target's environment.
    HidePolicy,
    /// Becomes the target.
    RunTarget,
}

/// The steps of a mode, in order.
pub open spec fn steps_of(mode: reexec::Mode) -> Seq<Step> {
    match mode {
        reexec::Mode::Landlock { network_blocked } => if network_blocked {
            seq![
                Step::NoNewPrivs,
                Step::BlockNetwork,
                Step::RestrictFiles,
                Step::HidePolicy,
                Step::RunTarget,
            ]
        } else {
            seq![Step::NoNewPrivs, Step::RestrictFiles, Step::HidePolicy, Step::RunTarget]
        },
        reexec::Mode::ProxiedOuter { .. } => seq![
            Step::FindBwrap,
            Step::HandOver,
            Step::MaskPaths,
            Step::EnterBwrap,
        ],
        reexec::Mode::ProxiedInner { .. } => seq![
            Step::BindRoutes,
            Step::ForkBridge,
            Step::LeadToBridge,
            Step::NoNewPrivs,
            Step::RouteNetwork,
            Step::RunTarget,
        ],
    }
}

/// The steps of a mode, in order. The helper takes one after the other and gives up at the first
/// that fails.
pub fn helper_steps(mode: &HelperMode) -> (r: Vec<Step>)
    ensures
        r@ == steps_of(mode.deep_view()),
{
    let mut steps: Vec<Step> = Vec::new();
    match mode {
        HelperMode::Landlock { network_blocked } => {
            steps.push(Step::NoNewPrivs);
            if *network_blocked {
                steps.push(Step::BlockNetwork);
            }
            steps.push(Step::RestrictFiles);
            steps.push(Step::HidePolicy);
            steps.push(Step::RunTarget);
        },
        HelperMode::ProxiedOuter { .. } => {
            steps.push(Step::FindBwrap);
            steps.push(Step::HandOver);
            steps.push(Step::MaskPaths);
            steps.push(Step::EnterBwrap);
        },
        HelperMode::ProxiedInner { .. } => {
            steps.push(Step::BindRoutes);
            steps.push(Step::ForkBridge);
            steps.push(Step::LeadToBridge);
            steps.push(Step::NoNewPrivs);
            steps.push(Step::RouteNetwork);
            steps.push(Step::RunTarget);
        },
    }
    assert(steps@ =~= steps_of(mode.deep_view()));
    steps
}

/// The exit code for a step that failed.
pub open spec fn failure_code(step: Step) -> i32 {
    match step {
        Step::RunTarget => HELPER_EXIT_EXEC_FAILED,
        Step::EnterBwrap => HELPER_EXIT_EXEC_FAILED,
        _ => HELPER_EXIT_NOT_ENFORCED,
    }
}

/// The message for a step that failed; `why` is what the system said.
pub open spec fn failure_message(step: Step, why: Seq<char>) -> Seq<char> {
    match step {
        Step::NoNewPrivs => "prctl(PR_SET_NO_NEW_PRIVS) failed"@,
        Step::BlockNetwork => "seccomp install failed: "@ + why,
        Step::RouteNetwork => "seccomp install failed: "@ + why,
        Step::RestrictFiles => "landlock failed: "@ + why,
        Step::FindBwrap => "bwrap not found"@,
        Step::HandOver => "policy hand-over failed: "@ + why,
        Step::MaskPaths => "deny-read expand: "@ + why,
        Step::EnterBwrap => "exec bwrap failed: "@ + why,
        Step::BindRoutes => "bind route listeners failed: "@ + why,
        Step::ForkBridge => "fork bridge failed"@,
        Step::LeadToBridge => "bridge setup failed: "@ + why,
        Step::HidePolicy => "environment setup failed: "@ + why,
        Step::RunTarget => "exec "@ + why,
    }
}

/// The exit code and the message for a step that failed.
pub fn give_up(step: Step, why: &str) -> (r: (i32, String))
    ensures
        r.0 == failure_code(step),
        r.1@ == failure_message(step, why@),
{
    match step {
        Step::NoNewPrivs => (
            HELPER_EXIT_NOT_ENFORCED,
            "prctl(PR_SET_NO_NEW_PRIVS) failed".to_owned(),
        ),
        Step::BlockNetwork => (
            HELPER_EXIT_NOT_ENFORCED,
            text::join2("seccomp install failed: ", why),
        ),
        Step::RouteNetwork => (
            HELPER_EXIT_NOT_ENFORCED,
            text::join2("seccomp install failed: ", why),
        ),
        Step::RestrictFiles => (HELPER_EXIT_NOT_ENFORCED, text::join2("landlock failed: ", why)),
        Step::FindBwrap => (HELPER_EXIT_NOT_ENFORCED, "bwrap not found".to_owned()),
        Step::HandOver => (
            HELPER_EXIT_NOT_ENFORCED,
            text::join2("policy hand-over failed: ", why),
        ),
        Step::MaskPaths => (HELPER_EXIT_NOT_ENFORCED, text::join2("deny-read expand: ", why)),
        Step::EnterBwrap => (HELPER_EXIT_EXEC_FAILED, text::join2("exec bwrap failed: ", why)),
        Step::BindRoutes => (
            HELPER_EXIT_NOT_ENFORCED,
            text::join2("bind route listeners failed: ", why),
        ),
        Step::ForkBridge => (HELPER_EXIT_NOT_ENFORCED, "fork bridge failed".to_owned()),
        Step::LeadToBridge => (
            HELPER_EXIT_NOT_ENFORCED,
            text::join2("bridge setup failed: ", why),
        ),
        Step::HidePolicy => (
            HELPER_EXIT_NOT_ENFORCED,
            text::join2("environment setup failed: ", why),
        ),
        Step::RunTarget => (HELPER_EXIT_EXEC_FAILED, text::join2("exec ", why)),
    }
}

// ---------------------------------------------------------------------------
// Environments
// ---------------------------------------------------------------------------

/// The environment without the policy.
pub open spec fn without_policy(env: Map<Seq<u8>, Seq<u8>>) -> Map<Seq<u8>, Seq<u8>> {
    env.remove(encode_utf8(POLICY_ENV@))
}

/// The environment of the second stage: the policy for it, and the stage.
pub open spec fn second_stage_env(env: Map<Seq<u8>, Seq<u8>>, json: Seq<char>) -> Map<
    Seq<u8>,
    Seq<u8>,
> {
    env.insert(encode_utf8(POLICY_ENV@), encode_utf8(json)).insert(
        encode_utf8(STAGE_ENV@),
        encode_utf8(STAGE_INNER@),
    )
}

/// The environment with the variable of each of the first `n` routes leading to its port.
pub open spec fn with_routes(
    env: Map<Seq<u8>, Seq<u8>>,
    routes: Seq<(Seq<char>, Seq<u8>)>,
    ports: Seq<u16>,
    n: nat,
) -> Map<Seq<u8>, Seq<u8>>
    decreases n,
{
    if n == 0 {
        env
    } else {
        with_routes(env, routes, ports, (n - 1) as nat).insert(
            encode_utf8(routes[n - 1].0),
            encode_utf8(transform::proxy_url(ports[n - 1])),
        )
    }
}

/// The environment of a target behind the bridge: its proxy variables lead to the bridge, and
/// nothing of the helper is left in it.
pub open spec fn bridged(
    env: Map<Seq<u8>, Seq<u8>>,
    routes: Seq<(Seq<char>, Seq<u8>)>,
    ports: Seq<u16>,
) -> Map<Seq<u8>, Seq<u8>> {
    with_routes(env, routes, ports, routes.len()).remove(encode_utf8(POLICY_ENV@)).remove(
        encode_utf8(STAGE_ENV@),
    )
}

/// The environment of a target under Landlock.
pub fn landlock_target_env(env: &EnvMap) -> (r: EnvMap)
    ensures
        r@ == without_policy(env@),
{
    let mut out: EnvMap = env.clone();
    out.remove(&OsText::new(POLICY_ENV));
    out
}

/// The environment of the second stage. `json` is its policy in written form.
pub fn inner_stage_env(env: &EnvMap, json: &str) -> (r: EnvMap)
    ensures
        r@ == second_stage_env(env@, json@),
{
    let mut out: EnvMap = env.clone();
    out.insert(OsText::new(POLICY_ENV), OsText::new(json));
    out.insert(OsText::new(STAGE_ENV), OsText::new(STAGE_INNER));
    out
}

/// The environment of a target behind the bridge. `ports` are the loopback ports of the routes.
pub fn proxied_target_env(env: &EnvMap, routes: &ProxyRouteSpec, ports: &Vec<u16>) -> (r: EnvMap)
    requires
        ports@.len() == routes.routes@.len(),
    ensures
        r@ == bridged(env@, routes.deep_view(), ports@),
{
    let ghost all = routes.deep_view();
    let mut out: EnvMap = env.clone();
    let mut i: usize = 0;
    while i < routes.routes.len()
        invariant
            i <= routes.routes@.len(),
            ports@.len() == routes.routes@.len(),
            all == routes.deep_view(),
            out@ == with_routes(env@, all, ports@, i as nat),
        decreases routes.routes@.len() - i,
    {
        let url: String = transform::local_proxy_url(ports[i]);
        assert(all[i as int].0 == routes.routes@[i as int].env_key@);
        out.insert(OsText::new(routes.routes[i].env_key.as_str()), OsText::new(url.as_str()));
        i = i + 1;
    }
    out.remove(&OsText::new(POLICY_ENV));
    out.remove(&OsText::new(STAGE_ENV));
    out
}

/// The command that bwrap runs: the helper again, then the target and its arguments.
pub open spec fn second_stage_command(exe: Seq<u8>, command: Seq<Seq<u8>>) -> Seq<Seq<char>> {
    seq![os::text_of(exe)] + Seq::new(command.len(), |i: int| os::text_of(command[i]))
}

/// The command that bwrap runs. `exe` is the running program.
pub fn inner_argv(exe: &OsText, command: &Vec<OsText>) -> (r: Vec<String>)
    ensures
        r.deep_view() == second_stage_command(exe@, command.deep_view()),
{
    let mut out: Vec<String> = Vec::new();
    out.push(exe.to_string_lossy());
    let mut i: usize = 0;
    while i < command.len()
        invariant
            i <= command@.len(),
            out@.len() == i + 1,
            out@[0]@ == os::text_of(exe@),
            forall|k: int| 0 <= k < i ==> (#[trigger] out@[k + 1])@ == os::text_of(command@[k]@),
        decreases command@.len() - i,
    {
        out.push(command[i].to_string_lossy());
        i = i + 1;
    }
    proof {
        let want = second_stage_command(exe@, command.deep_view());
        assert forall|j: int| 0 <= j < want.len() implies out.deep_view()[j] == want[j] by {
            if j > 0 {
                assert(out@[(j - 1) + 1]@ == os::text_of(command@[j - 1]@));
            }
        }
        assert(out.deep_view() =~= want);
    }
    out
}

// ---------------------------------------------------------------------------
// Laws
// ---------------------------------------------------------------------------

/// The helper runs what it was asked to run: started by the request that the sandbox builds, it
/// finds the program of the command and its arguments, in order.
pub proof fn helper_finds_the_command(
    cmd: types::Command,
    helper: reexec::Helper,
    helper_exe: Seq<u8>,
    json: Seq<char>,
    stage: Option<Seq<u8>>,
)
    ensures
        ({
            let req = reexec::helper_spawn(cmd, helper, helper_exe, json);
            let argv = seq![req.arg0.unwrap()] + req.args;
            &&& is_helper(argv, stage)
            &&& command_of(argv) == seq![cmd.program] + cmd.args
        }),
{
    let req = reexec::helper_spawn(cmd, helper, helper_exe, json);
    let argv = seq![req.arg0.unwrap()] + req.args;
    assert(command_of(argv) =~= seq![cmd.program] + cmd.args);
}

/// The command survives the second stage: what bwrap starts knows itself as the helper by the
/// stage alone, and finds the same command, where that is text.
pub proof fn second_stage_finds_the_command(exe: Seq<u8>, command: Seq<Seq<u8>>)
    requires
        forall|i: int| 0 <= i < command.len() ==> valid_utf8(#[trigger] command[i]),
    ensures
        ({
            let args = second_stage_command(exe, command);
            let argv = Seq::new(args.len(), |i: int| encode_utf8(args[i]));
            &&& is_helper(argv, Some(encode_utf8(STAGE_INNER@)))
            &&& command_of(argv) == command
        }),
{
    let args = second_stage_command(exe, command);
    let argv = Seq::new(args.len(), |i: int| encode_utf8(args[i]));
    assert forall|i: int| 0 <= i < command.len() implies argv.skip(1)[i] == command[i] by {
        assert(args[i + 1] == os::text_of(command[i]));
        decode_utf8_encode_utf8(command[i]);
    }
    assert(command_of(argv) =~= command);
}

/// Nothing of the helper is left in the environment of a target behind the bridge, and the
/// policy is gone from that of a target under Landlock.
pub proof fn target_env_is_clean(
    env: Map<Seq<u8>, Seq<u8>>,
    routes: Seq<(Seq<char>, Seq<u8>)>,
    ports: Seq<u16>,
)
    ensures
        !bridged(env, routes, ports).dom().contains(encode_utf8(POLICY_ENV@)),
        !bridged(env, routes, ports).dom().contains(encode_utf8(STAGE_ENV@)),
        !without_policy(env).dom().contains(encode_utf8(POLICY_ENV@)),
{
}

/// The target runs last, and only after every restriction of its mode is in force: filesystem
/// and, where it is blocked, network under Landlock; the filter of a proxied network behind the
/// bridge. Without the right to gain privileges, a filter comes only after that was given up.
pub proof fn target_runs_restricted(mode: reexec::Mode)
    ensures
        ({
            let steps = steps_of(mode);
            &&& !(mode is ProxiedOuter) ==> steps.last() == Step::RunTarget
            &&& mode is ProxiedOuter ==> steps.last() == Step::EnterBwrap && !steps.contains(
                Step::RunTarget,
            )
            &&& mode is Landlock ==> steps.contains(Step::RestrictFiles)
            &&& mode == (reexec::Mode::Landlock { network_blocked: true }) ==> steps.contains(
                Step::BlockNetwork,
            )
            &&& mode is ProxiedInner ==> steps.contains(Step::RouteNetwork) && steps.contains(
                Step::ForkBridge,
            )
            &&& forall|i: int|
                0 <= i < steps.len() && (#[trigger] steps[i] == Step::BlockNetwork || steps[i]
                    == Step::RouteNetwork) ==> steps.take(i).contains(Step::NoNewPrivs)
            &&& forall|i: int|
                0 <= i < steps.len() - 1 ==> #[trigger] steps[i] != Step::RunTarget
        }),
{
    let steps = steps_of(mode);
    match mode {
        reexec::Mode::Landlock { network_blocked } => {
            assert(steps[0] == Step::NoNewPrivs);
            if network_blocked {
                assert(steps[1] == Step::BlockNetwork && steps[2] == Step::RestrictFiles);
                assert(steps[3] == Step::HidePolicy && steps[4] == Step::RunTarget);
                assert(steps.take(1)[0] == Step::NoNewPrivs);
            } else {
                assert(steps[1] == Step::RestrictFiles && steps[2] == Step::HidePolicy);
                assert(steps[3] == Step::RunTarget);
            }
        },
        reexec::Mode::ProxiedOuter { .. } => {
            assert(steps[0] == Step::FindBwrap && steps[1] == Step::HandOver);
            assert(steps[2] == Step::MaskPaths && steps[3] == Step::EnterBwrap);
        },
        reexec::Mode::ProxiedInner { .. } => {
            assert(steps[0] == Step::BindRoutes && steps[1] == Step::ForkBridge);
            assert(steps[2] == Step::LeadToBridge && steps[3] == Step::NoNewPrivs);
            assert(steps[4] == Step::RouteNetwork && steps[5] == Step::RunTarget);
            assert(steps.take(4)[3] == Step::NoNewPrivs);
        },
    }
}

/// A step that failed is never taken for a result of the command: its exit code is one that the
/// sandbox reports as a failure of the helper. So is that of a policy that could not be read.
pub proof fn failures_are_reported(step: Step)
    ensures
        reexec::helper_failure(Some(failure_code(step))) is Some,
        reexec::helper_failure(Some(HELPER_EXIT_BAD_POLICY)) is Some,
        !(step is RunTarget || step is EnterBwrap) ==> reexec::helper_failure(
            Some(failure_code(step)),
        ) == Some(reexec::HelperFailure::NotEnforced),
{
}

/// A process is the helper exactly by its name or, in the second stage, by the stage. Any other
/// goes on as usual. The helper gives up with code 122 where it has no command or no policy, and
/// says why; with both it runs that command, and no other, under that policy.
pub proof fn helper_starts_by_its_name(
    argv: Seq<Seq<u8>>,
    stage: Option<Seq<u8>>,
    policy: PolicyInput,
    r: HelperStart,
)
    requires
        starts_as(argv, stage, policy, r),
    ensures
        ({
            let invoked = (argv.len() > 0 && argv[0] == encode_utf8("__motosan_sandbox_helper"@))
                || stage == Some(encode_utf8("inner"@));
            &&& r is NotInvoked <==> !invoked
            &&& r is Run <==> invoked && argv.len() > 1 && policy is Parsed
            &&& r matches HelperStart::Exit { code, .. } ==> code == 122
            &&& r matches HelperStart::Run { policy: p, command } ==> {
                &&& policy == PolicyInput::Parsed(p)
                &&& command.deep_view() == argv.skip(1)
            }
            &&& r matches HelperStart::Exit { message, .. } ==> argv.len() > 1 ==> match policy {
                PolicyInput::Missing(why) => why@.is_suffix_of(message@),
                PolicyInput::Malformed(why) => why@.is_suffix_of(message@),
                PolicyInput::Parsed(_) => false,
            }
        }),
{
    match policy {
        PolicyInput::Missing(why) => {
            lemma_suffix_of_sum("missing MOTOSAN_SANDBOX_POLICY: "@, why@);
        },
        PolicyInput::Malformed(why) => {
            lemma_suffix_of_sum("bad policy json: "@, why@);
        },
        _ => {},
    }
}

proof fn lemma_suffix_of_sum(a: Seq<char>, b: Seq<char>)
    ensures
        b.is_suffix_of(a + b),
{
    let s = a + b;
    assert(s.subrange(s.len() - b.len(), s.len() as int) =~= b);
}

/// One step comes before another: both are taken, and no other way round.
pub open spec fn comes_before(steps: Seq<Step>, a: Step, b: Step) -> bool {
    &&& steps.contains(a)
    &&& steps.contains(b)
    &&& forall|i: int, j: int|
        0 <= i < steps.len() && 0 <= j < steps.len() && #[trigger] steps[i] == a
            && #[trigger] steps[j] == b ==> i < j
}

/// The order of the steps, in each mode. Under Landlock privileges are given up first, then come
/// the network filter, where the network is blocked, and the filesystem, and the policy is taken
/// out of the environment before the target runs. Before bwrap is entered it was found, the policy
/// was handed over and the paths to mask were found. Behind bwrap the routes are bound before the
/// bridge leaves, and that before the filter that would keep it from its sockets; the target is
/// led to the bridge before it runs.
pub proof fn steps_come_in_order(mode: reexec::Mode)
    ensures
        ({
            let steps = steps_of(mode);
            &&& mode matches reexec::Mode::Landlock { network_blocked } ==> {
                &&& comes_before(steps, Step::NoNewPrivs, Step::RestrictFiles)
                &&& comes_before(steps, Step::RestrictFiles, Step::HidePolicy)
                &&& comes_before(steps, Step::HidePolicy, Step::RunTarget)
                &&& network_blocked ==> comes_before(steps, Step::NoNewPrivs, Step::BlockNetwork)
                &&& network_blocked ==> comes_before(steps, Step::BlockNetwork, Step::RestrictFiles)
                &&& steps.contains(Step::BlockNetwork) <==> network_blocked
                &&& steps.len() == (if network_blocked {
                    5int
                } else {
                    4int
                })
            }
            &&& mode is ProxiedOuter ==> {
                &&& comes_before(steps, Step::FindBwrap, Step::HandOver)
                &&& comes_before(steps, Step::HandOver, Step::MaskPaths)
                &&& comes_before(steps, Step::MaskPaths, Step::EnterBwrap)
                &&& steps.len() == 4
            }
            &&& mode is ProxiedInner ==> {
                &&& comes_before(steps, Step::BindRoutes, Step::ForkBridge)
                &&& comes_before(steps, Step::ForkBridge, Step::LeadToBridge)
                &&& comes_before(steps, Step::LeadToBridge, Step::NoNewPrivs)
                &&& comes_before(steps, Step::NoNewPrivs, Step::RouteNetwork)
                &&& comes_before(steps, Step::RouteNetwork, Step::RunTarget)
                &&& steps.len() == 6
            }
        }),
{
    let steps = steps_of(mode);
    match mode {
        reexec::Mode::Landlock { network_blocked } => {
            assert(steps[0] == Step::NoNewPrivs);
            if network_blocked {
                assert(steps[1] == Step::BlockNetwork && steps[2] == Step::RestrictFiles);
                assert(steps[3] == Step::HidePolicy && steps[4] == Step::RunTarget);
            } else {
                assert(steps[1] == Step::RestrictFiles && steps[2] == Step::HidePolicy);
                assert(steps[3] == Step::RunTarget);
            }
        },
        reexec::Mode::ProxiedOuter { .. } => {
            assert(steps[0] == Step::FindBwrap && steps[1] == Step::HandOver);
            assert(steps[2] == Step::MaskPaths && steps[3] == Step::EnterBwrap);
        },
        reexec::Mode::ProxiedInner { .. } => {
            assert(steps[0] == Step::BindRoutes && steps[1] == Step::ForkBridge);
            assert(steps[2] == Step::LeadToBridge && steps[3] == Step::NoNewPrivs);
            assert(steps[4] == Step::RouteNetwork && steps[5] == Step::RunTarget);
        },
    }
}

/// A restriction that fails is reported as not enforced, by code 121; only a program that could
/// not be started, the target or bwrap, is reported by code 123. What the system said comes last
/// in the message, where it is said at all.
pub proof fn failures_have_their_codes(step: Step, why: Seq<char>)
    ensures
        failure_code(step) == 123 <==> step is RunTarget || step is EnterBwrap,
        failure_code(step) == 121 <==> !(step is RunTarget || step is EnterBwrap),
        step is NoNewPrivs || step is FindBwrap || step is ForkBridge || why.is_suffix_of(
            failure_message(step, why),
        ),
{
    lemma_suffix_of_sum("seccomp install failed: "@, why);
    lemma_suffix_of_sum("landlock failed: "@, why);
    lemma_suffix_of_sum("policy hand-over failed: "@, why);
    lemma_suffix_of_sum("deny-read expand: "@, why);
    lemma_suffix_of_sum("exec bwrap failed: "@, why);
    lemma_suffix_of_sum("bind route listeners failed: "@, why);
    lemma_suffix_of_sum("bridge setup failed: "@, why);
    lemma_suffix_of_sum("environment setup failed: "@, why);
    lemma_suffix_of_sum("exec "@, why);
}

/// The environment of a target under Landlock is what the helper was given, less the policy; that
/// of the second stage is the same with its own policy and the stage. Every other name keeps its
/// value or stays away.
pub proof fn stages_keep_the_environment(
    env: Map<Seq<u8>, Seq<u8>>,
    json: Seq<char>,
    name: Seq<u8>,
)
    ensures
        ({
            let policy = encode_utf8("MOTOSAN_SANDBOX_POLICY"@);
            let stage = encode_utf8("MOTOSAN_SANDBOX_STAGE"@);
            let target = without_policy(env);
            let second = second_stage_env(env, json);
            &&& !target.dom().contains(policy)
            &&& name != policy ==> (target.dom().contains(name) <==> env.dom().contains(name))
            &&& name != policy && env.dom().contains(name) ==> target[name] == env[name]
            &&& second.dom().contains(policy) && second[policy] == encode_utf8(json)
            &&& second.dom().contains(stage) && second[stage] == encode_utf8("inner"@)
            &&& name != policy && name != stage ==> (second.dom().contains(name)
                <==> env.dom().contains(name))
            &&& name != policy && name != stage && env.dom().contains(name) ==> second[name]
                == env[name]
        }),
{
    reveal_strlit("MOTOSAN_SANDBOX_POLICY");
    reveal_strlit("MOTOSAN_SANDBOX_STAGE");
    encode_utf8_decode_utf8("MOTOSAN_SANDBOX_POLICY"@);
    encode_utf8_decode_utf8("MOTOSAN_SANDBOX_STAGE"@);
    assert("MOTOSAN_SANDBOX_POLICY"@.len() != "MOTOSAN_SANDBOX_STAGE"@.len());
}

/// Routes change the names that they are for, and no other.
proof fn lemma_routes_elsewhere(
    env: Map<Seq<u8>, Seq<u8>>,
    routes: Seq<(Seq<char>, Seq<u8>)>,
    ports: Seq<u16>,
    n: nat,
    name: Seq<u8>,
)
    requires
        n <= routes.len(),
        forall|k: int| 0 <= k < n ==> encode_utf8((#[trigger] routes[k]).0) != name,
    ensures
        with_routes(env, routes, ports, n).dom().contains(name) <==> env.dom().contains(name),
        env.dom().contains(name) ==> with_routes(env, routes, ports, n)[name] == env[name],
    decreases n,
{
    if n > 0 {
        lemma_routes_elsewhere(env, routes, ports, (n - 1) as nat, name);
        assert(encode_utf8(routes[n - 1].0) != name);
    }
}

/// A route that is the last for its name decides it.
proof fn lemma_route_decides(
    env: Map<Seq<u8>, Seq<u8>>,
    routes: Seq<(Seq<char>, Seq<u8>)>,
    ports: Seq<u16>,
    n: nat,
    i: int,
)
    requires
        n <= routes.len(),
        0 <= i < n,
        forall|k: int|
            i < k < n ==> encode_utf8((#[trigger] routes[k]).0) != encode_utf8(routes[i].0),
    ensures
        ({
            let r = with_routes(env, routes, ports, n);
            let name = encode_utf8(routes[i].0);
            r.dom().contains(name) && r[name] == encode_utf8(transform::proxy_url(ports[i]))
        }),
    decreases n,
{
    if i < n - 1 {
        lemma_route_decides(env, routes, ports, (n - 1) as nat, i);
        assert(encode_utf8(routes[n - 1].0) != encode_utf8(routes[i].0));
    }
}

/// Behind the bridge the variable of every route leads to the port of that route on this machine,
/// and no other name of the environment is changed or lost.
pub proof fn routes_lead_to_their_ports(
    env: Map<Seq<u8>, Seq<u8>>,
    routes: Seq<(Seq<char>, Seq<u8>)>,
    ports: Seq<u16>,
    i: int,
    name: Seq<u8>,
)
    ensures
        ({
            let r = bridged(env, routes, ports);
            let policy = encode_utf8("MOTOSAN_SANDBOX_POLICY"@);
            let stage = encode_utf8("MOTOSAN_SANDBOX_STAGE"@);
            let key = encode_utf8(routes[i].0);
            let last = forall|k: int|
                i < k < routes.len() ==> encode_utf8((#[trigger] routes[k]).0) != key;
            let elsewhere = forall|k: int|
                0 <= k < routes.len() ==> encode_utf8((#[trigger] routes[k]).0) != name;
            &&& 0 <= i < routes.len() && last && key != policy && key != stage
                ==> r.dom().contains(key) && r[key] == encode_utf8(
                "http://127.0.0.1:"@ + text::decimal(ports[i] as nat),
            )
            &&& elsewhere && name != policy && name != stage ==> {
                &&& r.dom().contains(name) <==> env.dom().contains(name)
                &&& env.dom().contains(name) ==> r[name] == env[name]
            }
        }),
{
    let key = encode_utf8(routes[i].0);
    if 0 <= i < routes.len() && (forall|k: int|
        i < k < routes.len() ==> encode_utf8((#[trigger] routes[k]).0) != key) {
        lemma_route_decides(env, routes, ports, routes.len(), i);
    }
    if forall|k: int| 0 <= k < routes.len() ==> encode_utf8((#[trigger] routes[k]).0) != name {
        lemma_routes_elsewhere(env, routes, ports, routes.len(), name);
    }
}

/// What bwrap is told to run starts with the helper's own program, and has one argument for each
/// part of the command.
pub proof fn second_stage_is_the_helper(exe: Seq<u8>, command: Seq<Seq<u8>>)
    requires
        valid_utf8(exe),
    ensures
        second_stage_command(exe, command).len() == command.len() + 1,
        encode_utf8(second_stage_command(exe, command)[0]) == exe,
{
    decode_utf8_encode_utf8(exe);
}

} // verus!
