//! The protocol between the sandbox and its Linux helper: the marker by which the helper knows
//! itself, the policy that it is handed, and the exit codes that it reports failures with.

use vstd::prelude::*;
use vstd::utf8::*;

use crate::env::EnvMap;
use crate::error::Error;
use crate::os;
use crate::os::OsText;
use crate::policy;
use crate::policy::{copy_strings, NetworkPolicy, SandboxPolicy};
use crate::text;
use crate::transform;
use crate::types;
use crate::types::{SandboxCommand, SandboxKind, SpawnRequest};

verus! {

/// The `argv[0]` by which a process knows that it was started as the helper.
pub const HELPER_ARG0: &'static str = "__motosan_sandbox_helper";

/// The environment variable that hands the policy to the helper.
pub const POLICY_ENV: &'static str = "MOTOSAN_SANDBOX_POLICY";

/// The environment variable that tells the second stage of the helper from the first. It
/// survives bwrap, which sets `argv[0]` itself.
pub const STAGE_ENV: &'static str = "MOTOSAN_SANDBOX_STAGE";

/// The value of the stage variable in the second stage.
pub const STAGE_INNER: &'static str = "inner";

/// Exit code of the helper: the restrictions could not be enforced.
pub const HELPER_EXIT_NOT_ENFORCED: i32 = 121;

/// Exit code of the helper: the policy could not be read.
pub const HELPER_EXIT_BAD_POLICY: i32 = 122;

/// Exit code of the helper: the target could not be started.
pub const HELPER_EXIT_EXEC_FAILED: i32 = 123;

// ---------------------------------------------------------------------------
// Exit codes
// ---------------------------------------------------------------------------

/// A failure of the helper, before the target ran.
pub enum HelperFailure {
    NotEnforced,
    BadPolicy,
    ExecFailed,
}

/// The failure that an exit code stands for.
pub open spec fn helper_failure(code: Option<i32>) -> Option<HelperFailure> {
    match code {
        Some(c) => if c == HELPER_EXIT_NOT_ENFORCED {
            Some(HelperFailure::NotEnforced)
        } else if c == HELPER_EXIT_BAD_POLICY {
            Some(HelperFailure::BadPolicy)
        } else if c == HELPER_EXIT_EXEC_FAILED {
            Some(HelperFailure::ExecFailed)
        } else {
            None
        },
        None => None,
    }
}

/// Whether an error reports a failure of the helper.
pub open spec fn reports(e: Error, failure: HelperFailure) -> bool {
    match failure {
        HelperFailure::NotEnforced => e matches Error::NotEnforced(why) && why@
            == "landlock/seccomp could not be enforced (see child stderr)"@,
        HelperFailure::BadPolicy => e matches Error::Transform(why) && why@
            == "sandbox helper rejected the policy (see child stderr)"@,
        HelperFailure::ExecFailed => e matches Error::Transform(why) && why@
            == "sandbox helper failed to exec the target (see child stderr)"@,
    }
}

/// The error that an exit code of the helper stands for, or `None` where the code is a genuine
/// result of the command.
pub fn classify_helper_exit(code: Option<i32>) -> (r: Option<Error>)
    ensures
        r is Some <==> helper_failure(code) is Some,
        r matches Some(e) ==> reports(e, helper_failure(code).unwrap()),
{
    match code {
        Some(c) => {
            if c == HELPER_EXIT_NOT_ENFORCED {
                Some(
                    Error::NotEnforced(
                        "landlock/seccomp could not be enforced (see child stderr)".to_owned(),
                    ),
                )
            } else if c == HELPER_EXIT_BAD_POLICY {
                Some(
                    Error::Transform(
                        "sandbox helper rejected the policy (see child stderr)".to_owned(),
                    ),
                )
            } else if c == HELPER_EXIT_EXEC_FAILED {
                Some(
                    Error::Transform(
                        "sandbox helper failed to exec the target (see child stderr)".to_owned(),
                    ),
                )
            } else {
                None
            }
        },
        None => None,
    }
}

// ---------------------------------------------------------------------------
// The policy that the helper is handed
// ---------------------------------------------------------------------------

/// One route from inside the network namespace to the proxy: the environment variable that
/// leads to it, and the socket that it goes through.
#[derive(Debug, PartialEq, Eq)]
pub struct ProxyRouteEntry {
    pub env_key: String,
    pub uds_path: OsText,
}

/// All routes to the proxy.
#[derive(Debug, PartialEq, Eq)]
pub struct ProxyRouteSpec {
    pub routes: Vec<ProxyRouteEntry>,
}

impl DeepView for ProxyRouteEntry {
    type V = (Seq<char>, Seq<u8>);

    open spec fn deep_view(&self) -> (Seq<char>, Seq<u8>) {
        (self.env_key@, self.uds_path@)
    }
}

impl DeepView for ProxyRouteSpec {
    type V = Seq<(Seq<char>, Seq<u8>)>;

    open spec fn deep_view(&self) -> Seq<(Seq<char>, Seq<u8>)> {
        self.routes.deep_view()
    }
}

impl Clone for ProxyRouteSpec {
    fn clone(&self) -> (r: Self)
        ensures
            r.deep_view() == self.deep_view(),
    {
        let mut routes: Vec<ProxyRouteEntry> = Vec::new();
        let mut i: usize = 0;
        while i < self.routes.len()
            invariant
                i <= self.routes@.len(),
                routes@.len() == i,
                forall|k: int|
                    0 <= k < i ==> (#[trigger] routes@[k]).deep_view()
                        == self.routes@[k].deep_view(),
            decreases self.routes@.len() - i,
        {
            let route: &ProxyRouteEntry = &self.routes[i];
            routes.push(
                ProxyRouteEntry { env_key: route.env_key.clone(), uds_path: route.uds_path.clone() },
            );
            i = i + 1;
        }
        assert(routes.deep_view() =~= self.routes.deep_view());
        ProxyRouteSpec { routes }
    }
}

/// Which way the helper takes.
#[derive(Debug, PartialEq, Eq)]
pub enum HelperMode {
    /// Landlock and seccomp, in one stage.
    Landlock { network_blocked: bool },
    /// The first stage of a proxied run: enters bwrap.
    ProxiedOuter { route_spec: ProxyRouteSpec },
    /// The second stage of a proxied run, inside bwrap: bridges to the proxy, then runs the
    /// target.
    ProxiedInner { route_spec: ProxyRouteSpec },
}

/// A mode of the helper as a mathematical value.
pub enum Mode {
    Landlock { network_blocked: bool },
    ProxiedOuter { routes: Seq<(Seq<char>, Seq<u8>)> },
    ProxiedInner { routes: Seq<(Seq<char>, Seq<u8>)> },
}

impl DeepView for HelperMode {
    type V = Mode;

    open spec fn deep_view(&self) -> Mode {
        match self {
            HelperMode::Landlock { network_blocked } => Mode::Landlock {
                network_blocked: *network_blocked,
            },
            HelperMode::ProxiedOuter { route_spec } => Mode::ProxiedOuter {
                routes: route_spec.deep_view(),
            },
            HelperMode::ProxiedInner { route_spec } => Mode::ProxiedInner {
                routes: route_spec.deep_view(),
            },
        }
    }
}

/// What the helper enforces. Reading everywhere is implied.
#[derive(Debug, PartialEq, Eq)]
pub struct HelperPolicy {
    pub writable_roots: Vec<OsText>,
    pub read_only_subpaths: Vec<OsText>,
    pub deny_read_globs: Vec<String>,
    pub mode: HelperMode,
}

/// The policy of the helper as a mathematical value.
pub struct Helper {
    pub writable_roots: Seq<Seq<u8>>,
    pub read_only_subpaths: Seq<Seq<u8>>,
    pub deny_read_globs: Seq<Seq<char>>,
    pub mode: Mode,
}

impl DeepView for HelperPolicy {
    type V = Helper;

    open spec fn deep_view(&self) -> Helper {
        Helper {
            writable_roots: self.writable_roots.deep_view(),
            read_only_subpaths: self.read_only_subpaths.deep_view(),
            deny_read_globs: self.deny_read_globs.deep_view(),
            mode: self.mode.deep_view(),
        }
    }
}

/// Whether Landlock, which can only allow, is able to express a policy: nothing inside a
/// writable root stays read-only, nothing is hidden from reading, and the network is either
/// blocked or allowed.
pub open spec fn landlock_can_express(access: policy::Access) -> bool {
    &&& !(access.network is Proxied)
    &&& access.read_only_subpaths.len() == 0
    &&& access.deny_read_globs.len() == 0
}

/// What the helper enforces with Landlock.
pub open spec fn landlock_helper(access: policy::Access) -> Helper {
    Helper {
        writable_roots: access.writable_roots,
        read_only_subpaths: Seq::empty(),
        deny_read_globs: Seq::empty(),
        mode: Mode::Landlock { network_blocked: access.network is Blocked },
    }
}

impl HelperPolicy {
    /// The helper's policy for the Landlock way. A policy that Landlock cannot express is
    /// refused rather than enforced in part.
    pub fn from_policy(policy: &SandboxPolicy) -> (r: Result<Self, Error>)
        ensures
            r is Ok <==> landlock_can_express(policy.deep_view()),
            r matches Ok(h) ==> h.deep_view() == landlock_helper(policy.deep_view()),
            r matches Err(e) ==> e == Error::Unsupported(SandboxKind::LinuxSeccomp),
    {
        let ghost access = policy.deep_view();
        let network_blocked: bool = match policy.network() {
            NetworkPolicy::Blocked => true,
            NetworkPolicy::Allowed => false,
            NetworkPolicy::Proxied { .. } => {
                return Err(Error::Unsupported(SandboxKind::LinuxSeccomp));
            },
        };
        let carved: Vec<OsText> = policy.read_only_subpaths();
        assert(carved.deep_view().len() == carved@.len());
        if carved.len() > 0 {
            return Err(Error::Unsupported(SandboxKind::LinuxSeccomp));
        }
        let hidden: Vec<String> = policy.deny_read_globs();
        assert(hidden.deep_view().len() == hidden@.len());
        if hidden.len() > 0 {
            return Err(Error::Unsupported(SandboxKind::LinuxSeccomp));
        }
        let h = HelperPolicy {
            writable_roots: policy.writable_roots(),
            read_only_subpaths: Vec::new(),
            deny_read_globs: Vec::new(),
            mode: HelperMode::Landlock { network_blocked },
        };
        assert(h.read_only_subpaths.deep_view() =~= Seq::<Seq<u8>>::empty());
        assert(h.deny_read_globs.deep_view() =~= Seq::<Seq<char>>::empty());
        Ok(h)
    }

    /// The helper's policy for the first stage of the proxied way.
    pub fn for_proxied(
        writable_roots: Vec<OsText>,
        read_only_subpaths: Vec<OsText>,
        deny_read_globs: Vec<String>,
        route_spec: ProxyRouteSpec,
    ) -> (r: Self)
        ensures
            r.deep_view() == (Helper {
                writable_roots: writable_roots.deep_view(),
                read_only_subpaths: read_only_subpaths.deep_view(),
                deny_read_globs: deny_read_globs.deep_view(),
                mode: Mode::ProxiedOuter { routes: route_spec.deep_view() },
            }),
    {
        HelperPolicy {
            writable_roots,
            read_only_subpaths,
            deny_read_globs,
            mode: HelperMode::ProxiedOuter { route_spec },
        }
    }

    /// The same policy for the second stage.
    pub fn inner(&self, route_spec: &ProxyRouteSpec) -> (r: Self)
        ensures
            r.deep_view() == (Helper {
                mode: Mode::ProxiedInner { routes: route_spec.deep_view() },
                ..self.deep_view()
            }),
    {
        HelperPolicy {
            writable_roots: os::copy_all(&self.writable_roots),
            read_only_subpaths: os::copy_all(&self.read_only_subpaths),
            deny_read_globs: copy_strings(&self.deny_read_globs),
            mode: HelperMode::ProxiedInner { route_spec: route_spec.clone() },
        }
    }
}

// ---------------------------------------------------------------------------
// Starting the helper
// ---------------------------------------------------------------------------

/// The command that starts the helper: its arguments are the target and the target's arguments,
/// its `argv[0]` is the marker, and the policy is in its environment as the text `json`.
pub open spec fn helper_spawn(
    cmd: types::Command,
    helper: Helper,
    helper_exe: Seq<u8>,
    json: Seq<char>,
) -> types::Spawn {
    let env = cmd.env.insert(encode_utf8(POLICY_ENV@), encode_utf8(json));
    types::Spawn {
        program: helper_exe,
        args: seq![cmd.program] + cmd.args,
        cwd: cmd.cwd,
        env: if helper.mode matches Mode::Landlock { network_blocked } && network_blocked {
            env.insert(encode_utf8(transform::NETWORK_DISABLED_ENV@), encode_utf8("1"@))
        } else {
            env
        },
        arg0: Some(encode_utf8(HELPER_ARG0@)),
    }
}

/// Builds the request that starts the helper. `policy_json` is the policy of the helper in its
/// written form, or why it could not be written.
pub fn build_reexec_request(
    cmd: &SandboxCommand,
    helper: &HelperPolicy,
    helper_exe: &OsText,
    policy_json: Result<String, String>,
) -> (r: Result<SpawnRequest, Error>)
    ensures
        r is Ok <==> policy_json is Ok,
        r matches Ok(req) ==> req.deep_view() == helper_spawn(
            cmd.deep_view(),
            helper.deep_view(),
            helper_exe@,
            policy_json->Ok_0@,
        ),
        r matches Err(e) ==> (e matches Error::Transform(why) && why@ == "serialize policy: "@
            + policy_json->Err_0@),
{
    let json: String = match policy_json {
        Ok(json) => json,
        Err(e) => {
            return Err(Error::Transform(text::join2("serialize policy: ", e.as_str())));
        },
    };
    let mut env: EnvMap = cmd.env.clone();
    env.insert(OsText::new(POLICY_ENV), OsText::new(json.as_str()));
    match &helper.mode {
        HelperMode::Landlock { network_blocked } => {
            if *network_blocked {
                env.insert(OsText::new(transform::NETWORK_DISABLED_ENV), OsText::new("1"));
            }
        },
        _ => {},
    }
    let mut args: Vec<OsText> = Vec::new();
    args.push(cmd.program.clone());
    assert(args.deep_view() =~= seq![cmd.program@]);
    os::push_all(&mut args, &cmd.args);
    Ok(
        SpawnRequest {
            program: helper_exe.clone(),
            args,
            cwd: cmd.cwd.clone(),
            env,
            arg0: Some(OsText::new(HELPER_ARG0)),
        },
    )
}

// ---------------------------------------------------------------------------
// Laws
// ---------------------------------------------------------------------------

/// The helper is started with all that the command was given: its arguments are the command's
/// program and arguments, it runs in the command's directory, and of the command's environment
/// nothing is lost or changed but the policy and the marker of a blocked network. The policy is
/// the text that was written for it, and the helper knows itself by its name.
pub proof fn helper_request_keeps_the_command(
    cmd: types::Command,
    helper: Helper,
    helper_exe: Seq<u8>,
    json: Seq<char>,
    name: Seq<u8>,
)
    ensures
        ({
            let req = helper_spawn(cmd, helper, helper_exe, json);
            let policy = encode_utf8("MOTOSAN_SANDBOX_POLICY"@);
            let marker = encode_utf8("MOTOSAN_SANDBOX_NETWORK_DISABLED"@);
            let blocked = helper.mode == (Mode::Landlock { network_blocked: true });
            &&& req.program == helper_exe
            &&& req.args.len() == 1 + cmd.args.len()
            &&& req.args[0] == cmd.program
            &&& req.args.skip(1) == cmd.args
            &&& req.cwd == cmd.cwd
            &&& req.arg0 == Some(encode_utf8("__motosan_sandbox_helper"@))
            &&& req.env.dom().contains(policy) && req.env[policy] == encode_utf8(json)
            &&& blocked ==> req.env.dom().contains(marker) && req.env[marker] == encode_utf8("1"@)
            &&& name != policy && !(blocked && name == marker) ==> {
                &&& req.env.dom().contains(name) <==> cmd.env.dom().contains(name)
                &&& cmd.env.dom().contains(name) ==> req.env[name] == cmd.env[name]
            }
        }),
{
    reveal_strlit("MOTOSAN_SANDBOX_POLICY");
    reveal_strlit("MOTOSAN_SANDBOX_NETWORK_DISABLED");
    encode_utf8_decode_utf8("MOTOSAN_SANDBOX_POLICY"@);
    encode_utf8_decode_utf8("MOTOSAN_SANDBOX_NETWORK_DISABLED"@);
    let req = helper_spawn(cmd, helper, helper_exe, json);
    assert(req.args.skip(1) =~= cmd.args);
}

/// The helper reports its failures by three exit codes, each with a meaning of its own; every
/// other code, and a death by a signal, is a result of the command.
pub proof fn three_codes_are_the_helpers(code: Option<i32>)
    ensures
        helper_failure(code) is Some <==> (code matches Some(c) && 121 <= c <= 123),
        helper_failure(code) == Some(HelperFailure::NotEnforced) <==> code == Some(121i32),
        helper_failure(code) == Some(HelperFailure::BadPolicy) <==> code == Some(122i32),
        helper_failure(code) == Some(HelperFailure::ExecFailed) <==> code == Some(123i32),
{
}

/// A run that was not enforced is reported as that, so that it is never taken for a policy that
/// could not be read or a target that could not be started; and the other way round.
pub proof fn reports_tell_failures_apart(e: Error, failure: HelperFailure)
    requires
        reports(e, failure),
    ensures
        e is NotEnforced <==> failure is NotEnforced,
        e is Transform <==> !(failure is NotEnforced),
        forall|other: HelperFailure| reports(e, other) ==> other == failure,
{
    reveal_strlit("sandbox helper rejected the policy (see child stderr)");
    reveal_strlit("sandbox helper failed to exec the target (see child stderr)");
    assert("sandbox helper rejected the policy (see child stderr)"@.len()
        != "sandbox helper failed to exec the target (see child stderr)"@.len());
}

/// Landlock takes a policy exactly if nothing inside its writable roots is read-only, nothing is
/// hidden and the network is not proxied; and then it enforces the whole of it: the same writable
/// roots, and a network that is blocked exactly if it was.
pub proof fn landlock_enforces_the_whole_policy(access: policy::Access)
    ensures
        landlock_can_express(access) <==> access.read_only_subpaths == Seq::<Seq<u8>>::empty()
            && access.deny_read_globs == Seq::<Seq<char>>::empty() && (access.network is Blocked
            || access.network is Allowed),
        landlock_can_express(access) ==> {
            let h = landlock_helper(access);
            &&& h.writable_roots == access.writable_roots
            &&& h.read_only_subpaths == access.read_only_subpaths
            &&& h.deny_read_globs == access.deny_read_globs
            &&& h.mode == (Mode::Landlock { network_blocked: access.network is Blocked })
        },
{
    assert(access.read_only_subpaths.len() == 0 ==> access.read_only_subpaths =~= Seq::<
        Seq<u8>,
    >::empty());
    assert(access.deny_read_globs.len() == 0 ==> access.deny_read_globs =~= Seq::<
        Seq<char>,
    >::empty());
}

} // verus!
