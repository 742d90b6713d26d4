//! From a command and a policy to the command that is spawned. Nothing is spawned here, no
//! privilege is needed and the system is not asked for anything.

use vstd::prelude::*;
use vstd::utf8::*;

use crate::env::EnvMap;
use crate::error::Error;
use crate::glob;
use crate::os;
use crate::os::OsText;
use crate::policy;
use crate::policy::{NetworkPolicy, SandboxPolicy};
use crate::reexec;
use crate::reexec::{HelperPolicy, ProxyRouteSpec};
use crate::sandbox::{Host, Sandbox};
use crate::seatbelt;
use crate::text;
use crate::types;
use crate::types::{SandboxCommand, SandboxKind, SpawnRequest, TransformCtx};

verus! {

/// Set on the child where the network is blocked, so that cooperative tools can restrict
/// themselves.
pub const NETWORK_DISABLED_ENV: &'static str = "MOTOSAN_SANDBOX_NETWORK_DISABLED";

/// The environment of a child: that of the command, with the marker where the network is
/// blocked. A proxied network is not off, so it sets no marker.
pub open spec fn child_env(
    env: Map<Seq<u8>, Seq<u8>>,
    network: policy::NetworkRule,
) -> Map<Seq<u8>, Seq<u8>> {
    if network is Blocked {
        env.insert(encode_utf8(NETWORK_DISABLED_ENV@), encode_utf8("1"@))
    } else {
        env
    }
}

/// Builds the environment of the child.
pub fn build_env(cmd: &SandboxCommand, policy: &SandboxPolicy) -> (r: EnvMap)
    ensures
        r@ == child_env(cmd.env@, policy.deep_view().network),
{
    let mut env: EnvMap = cmd.env.clone();
    match policy.network() {
        NetworkPolicy::Blocked => {
            env.insert(OsText::new(NETWORK_DISABLED_ENV), OsText::new("1"));
        },
        _ => {},
    }
    env
}

/// The command as it is, without a wrapper.
pub open spec fn unwrapped(cmd: types::Command, network: policy::NetworkRule) -> types::Spawn {
    types::Spawn {
        program: cmd.program,
        args: cmd.args,
        cwd: cmd.cwd,
        env: child_env(cmd.env, network),
        arg0: None,
    }
}

/// Runs the command unwrapped.
pub fn passthrough(cmd: &SandboxCommand, policy: &SandboxPolicy) -> (r: SpawnRequest)
    ensures
        r.deep_view() == unwrapped(cmd.deep_view(), policy.deep_view().network),
{
    SpawnRequest {
        program: cmd.program.clone(),
        args: os::copy_all(&cmd.args),
        cwd: cmd.cwd.clone(),
        env: build_env(cmd, policy),
        arg0: None,
    }
}

// ---------------------------------------------------------------------------
// Globs and the proxy's environment
// ---------------------------------------------------------------------------

/// A directory as text, without slashes at its end.
pub open spec fn dir_text(dir: Seq<u8>) -> Seq<char> {
    text::drop_trail(os::text_of(dir), text::equal_to('/'))
}

/// A glob in absolute form: one that starts with a slash as it is, any other below `cwd`. The
/// characters of `cwd` stand for themselves.
pub open spec fn absolute_glob(glob: Seq<char>, cwd: Seq<u8>) -> Seq<char> {
    if glob::is_absolute(glob) {
        glob
    } else {
        glob::guarded(dir_text(cwd)) + "/"@ + glob
    }
}

/// A list of globs in absolute form.
pub open spec fn absolute_globs(globs: Seq<Seq<char>>, cwd: Seq<u8>) -> Seq<Seq<char>> {
    Seq::new(globs.len(), |i: int| absolute_glob(globs[i], cwd))
}

/// Brings globs into absolute form, once for all backends.
pub fn resolve_deny_globs(globs: &Vec<String>, cwd: &OsText) -> (r: Vec<String>)
    ensures
        r.deep_view() == absolute_globs(globs.deep_view(), cwd@),
{
    let base: Vec<char> = text::trim_end_of(
        text::chars_of(cwd.to_string_lossy().as_str()).as_slice(),
        '/',
    );
    let base: String = glob::guard(base.as_slice());
    let mut out: Vec<String> = Vec::new();
    let mut i: usize = 0;
    while i < globs.len()
        invariant
            i <= globs@.len(),
            base@ == glob::guarded(dir_text(cwd@)),
            out@.len() == i,
            forall|k: int|
                0 <= k < i ==> (#[trigger] out@[k])@ == absolute_glob(globs@[k]@, cwd@),
        decreases globs@.len() - i,
    {
        let glob: &String = &globs[i];
        let cs: Vec<char> = text::chars_of(glob.as_str());
        if cs.len() > 0 && cs[0] == '/' {
            out.push(glob.clone());
        } else {
            out.push(text::join3(base.as_str(), "/", glob.as_str()));
        }
        i = i + 1;
    }
    assert(out.deep_view() =~= absolute_globs(globs.deep_view(), cwd@));
    out
}

/// The address of a proxy on this machine.
pub open spec fn proxy_url(port: u16) -> Seq<char> {
    "http://127.0.0.1:"@ + text::decimal(port as nat)
}

/// An environment that leads cooperative tools to the proxy.
pub open spec fn with_proxy(env: Map<Seq<u8>, Seq<u8>>, port: u16) -> Map<Seq<u8>, Seq<u8>> {
    let url = encode_utf8(proxy_url(port));
    env.insert(encode_utf8("HTTP_PROXY"@), url).insert(encode_utf8("HTTPS_PROXY"@), url).insert(
        encode_utf8("ALL_PROXY"@),
        url,
    ).insert(encode_utf8("NO_PROXY"@), encode_utf8("localhost,127.0.0.1,::1"@))
}

/// Writes the address of a proxy on this machine.
pub fn local_proxy_url(port: u16) -> (r: String)
    ensures
        r@ == proxy_url(port),
{
    text::join2("http://127.0.0.1:", text::to_decimal(port as u64).as_str())
}

/// Leads cooperative tools to the proxy. The profile makes it binding: the child can reach this
/// port and no other.
pub fn inject_proxy_env(env: &mut EnvMap, port: u16)
    ensures
        final(env)@ == with_proxy(old(env)@, port),
{
    let url: OsText = OsText::new(local_proxy_url(port).as_str());
    env.insert(OsText::new("HTTP_PROXY"), url.clone());
    env.insert(OsText::new("HTTPS_PROXY"), url.clone());
    env.insert(OsText::new("ALL_PROXY"), url.clone());
    env.insert(OsText::new("NO_PROXY"), OsText::new("localhost,127.0.0.1,::1"));
}

// ---------------------------------------------------------------------------
// The transformation
// ---------------------------------------------------------------------------

/// A transformed command.
#[derive(Debug, PartialEq, Eq)]
pub enum Transformed {
    /// Ready to be spawned.
    Ready(SpawnRequest),
    /// To be run by the helper, which is to be handed this policy: `build_reexec_request` makes
    /// the request from the policy in its written form.
    Reexec { helper: HelperPolicy, helper_exe: OsText },
}

/// What becomes of a command, as a mathematical value.
pub enum Outcome {
    Ready(types::Spawn),
    Reexec { helper: reexec::Helper, helper_exe: Seq<u8> },
    Unsupported(SandboxKind),
    Refused(Seq<char>),
    Failed,
}

/// A result of `transform` as a mathematical value.
pub open spec fn outcome_of(r: Result<Transformed, Error>) -> Outcome {
    match r {
        Ok(Transformed::Ready(req)) => Outcome::Ready(req.deep_view()),
        Ok(Transformed::Reexec { helper, helper_exe }) => Outcome::Reexec {
            helper: helper.deep_view(),
            helper_exe: helper_exe@,
        },
        Err(Error::Unsupported(kind)) => Outcome::Unsupported(kind),
        Err(Error::Transform(why)) => Outcome::Refused(why@),
        Err(_) => Outcome::Failed,
    }
}

/// Everything that decides what becomes of a command.
pub struct Setting {
    /// The helper that was asked for, if one was.
    pub helper_exe: Option<Seq<u8>>,
    /// The backend.
    pub kind: SandboxKind,
    /// Whether a proxy can be had at all.
    pub proxy_built: bool,
    /// The running program, or why it is not known.
    pub current_exe: Result<Seq<u8>, Seq<char>>,
    /// The port of the proxy that was started.
    pub port: Option<u16>,
    /// The routes to it that were prepared.
    pub routes: Option<Seq<(Seq<char>, Seq<u8>)>>,
}

/// Handing a policy to the helper: the one that was asked for, else the running program.
pub open spec fn by_helper(helper: reexec::Helper, at: Setting) -> Outcome {
    match at.helper_exe {
        Some(exe) => Outcome::Reexec { helper, helper_exe: exe },
        None => match at.current_exe {
            Ok(exe) => Outcome::Reexec { helper, helper_exe: exe },
            Err(why) => Outcome::Refused("resolve current_exe: "@ + why),
        },
    }
}

/// What becomes of a command on Linux. Proxied networking goes through bwrap, everything else
/// through Landlock.
pub open spec fn on_linux(cmd: types::Command, access: policy::Access, at: Setting) -> Outcome {
    if access.network is Proxied {
        if !at.proxy_built {
            Outcome::Unsupported(SandboxKind::LinuxSeccomp)
        } else {
            match at.routes {
                None => Outcome::Refused("Linux Proxied transform needs route_spec (run() bug)"@),
                Some(routes) => by_helper(
                    reexec::Helper {
                        writable_roots: access.writable_roots,
                        read_only_subpaths: access.read_only_subpaths,
                        deny_read_globs: absolute_globs(access.deny_read_globs, cmd.cwd),
                        mode: reexec::Mode::ProxiedOuter { routes },
                    },
                    at,
                ),
            }
        }
    } else if reexec::landlock_can_express(access) {
        by_helper(reexec::landlock_helper(access), at)
    } else {
        Outcome::Unsupported(SandboxKind::LinuxSeccomp)
    }
}

/// What becomes of a command on macOS.
pub open spec fn on_macos(cmd: types::Command, access: policy::Access, at: Setting) -> Outcome {
    let globs = absolute_globs(access.deny_read_globs, cmd.cwd);
    match seatbelt::profile_fault(access.network, at.port, globs) {
        Some(why) => Outcome::Refused(why),
        None => {
            let wrapped = seatbelt::under_seatbelt(cmd, access, at.port, globs);
            if access.network is Proxied {
                Outcome::Ready(
                    types::Spawn { env: with_proxy(wrapped.env, at.port.unwrap()), ..wrapped },
                )
            } else {
                Outcome::Ready(wrapped)
            }
        },
    }
}

/// What becomes of a command.
pub open spec fn transformed(cmd: types::Command, access: policy::Access, at: Setting) -> Outcome {
    if access.full || at.kind == SandboxKind::Unsandboxed {
        Outcome::Ready(unwrapped(cmd, access.network))
    } else if at.kind == SandboxKind::LinuxSeccomp {
        on_linux(cmd, access, at)
    } else {
        on_macos(cmd, access, at)
    }
}

/// The setting of a transformation.
pub open spec fn setting(sandbox: Sandbox, host: Host, ctx: TransformCtx<'_>) -> Setting {
    Setting {
        helper_exe: sandbox.helper_exe.deep_view(),
        kind: host.kind,
        proxy_built: host.proxy_built,
        current_exe: match host.current_exe {
            Ok(exe) => Ok(exe@),
            Err(why) => Err(why@),
        },
        port: match ctx.proxy {
            Some(proxy) => Some(proxy.port),
            None => None,
        },
        routes: match ctx.route_spec {
            Some(routes) => Some(routes.deep_view()),
            None => None,
        },
    }
}

impl Sandbox {
    /// The program that hosts the helper.
    fn resolve_helper(&self, host: &Host) -> (r: Result<OsText, Error>)
        ensures
            r matches Ok(exe) ==> match self.helper_exe {
                Some(p) => exe@ == p@,
                None => host.current_exe matches Ok(p) && exe@ == p@,
            },
            r matches Err(e) ==> self.helper_exe is None && (host.current_exe matches Err(why) && (
            e matches Error::Transform(text) && text@ == "resolve current_exe: "@ + why@)),
    {
        match &self.helper_exe {
            Some(p) => Ok(p.clone()),
            None => match &host.current_exe {
                Ok(p) => Ok(p.clone()),
                Err(why) => Err(
                    Error::Transform(text::join2("resolve current_exe: ", why.as_str())),
                ),
            },
        }
    }

    /// Hands a policy to the helper.
    fn through_helper(&self, host: &Host, helper: HelperPolicy) -> (r: Result<Transformed, Error>)
        ensures
            outcome_of(r) == by_helper(
                helper.deep_view(),
                setting(*self, *host, (TransformCtx { proxy: None, route_spec: None })),
            ),
    {
        match self.resolve_helper(host) {
            Ok(helper_exe) => Ok(Transformed::Reexec { helper, helper_exe }),
            Err(e) => Err(e),
        }
    }

    /// Transforms a command for Linux.
    fn transform_linux(
        &self,
        cmd: &SandboxCommand,
        policy: &SandboxPolicy,
        ctx: &TransformCtx<'_>,
        host: &Host,
    ) -> (r: Result<Transformed, Error>)
        ensures
            outcome_of(r) == on_linux(
                cmd.deep_view(),
                policy.deep_view(),
                setting(*self, *host, *ctx),
            ),
    {
        let proxied: bool = match policy.network() {
            NetworkPolicy::Proxied { .. } => true,
            _ => false,
        };
        if proxied {
            if !host.proxy_built {
                return Err(Error::Unsupported(SandboxKind::LinuxSeccomp));
            }
            match ctx.route_spec {
                None => Err(
                    Error::Transform(
                        "Linux Proxied transform needs route_spec (run() bug)".to_owned(),
                    ),
                ),
                Some(route_spec) => {
                    let routes: ProxyRouteSpec = route_spec.clone();
                    let helper: HelperPolicy = HelperPolicy::for_proxied(
                        policy.writable_roots(),
                        policy.read_only_subpaths(),
                        resolve_deny_globs(&policy.deny_read_globs(), &cmd.cwd),
                        routes,
                    );
                    self.through_helper(host, helper)
                },
            }
        } else {
            match HelperPolicy::from_policy(policy) {
                Ok(helper) => self.through_helper(host, helper),
                Err(e) => Err(e),
            }
        }
    }

    /// Transforms a command for macOS.
    fn transform_macos(
        &self,
        cmd: &SandboxCommand,
        policy: &SandboxPolicy,
        ctx: &TransformCtx<'_>,
        host: &Host,
    ) -> (r: Result<Transformed, Error>)
        ensures
            outcome_of(r) == on_macos(
                cmd.deep_view(),
                policy.deep_view(),
                setting(*self, *host, *ctx),
            ),
    {
        let port: Option<u16> = match ctx.proxy {
            Some(proxy) => Some(proxy.port),
            None => None,
        };
        let globs: Vec<String> = resolve_deny_globs(&policy.deny_read_globs(), &cmd.cwd);
        let mut req: SpawnRequest = match seatbelt::transform_seatbelt(cmd, policy, port, &globs) {
            Ok(req) => req,
            Err(e) => {
                return Err(e);
            },
        };
        match policy.network() {
            NetworkPolicy::Proxied { .. } => match port {
                Some(port) => {
                    let mut env: EnvMap = req.env.clone();
                    inject_proxy_env(&mut env, port);
                    req.env = env;
                },
                None => {
                    return Err(Error::Transform("proxied policy needs a running proxy".to_owned()));
                },
            },
            _ => {},
        }
        Ok(Transformed::Ready(req))
    }

    /// Rewrites a command so that the backend of `host` enforces the policy on it. Full access,
    /// or a platform without a backend, leaves it as it is.
    pub fn transform(
        &self,
        cmd: &SandboxCommand,
        policy: &SandboxPolicy,
        ctx: &TransformCtx<'_>,
        host: &Host,
    ) -> (r: Result<Transformed, Error>)
        ensures
            outcome_of(r) == transformed(
                cmd.deep_view(),
                policy.deep_view(),
                setting(*self, *host, *ctx),
            ),
    {
        if policy.is_full_access() || host.kind == SandboxKind::Unsandboxed {
            return Ok(Transformed::Ready(passthrough(cmd, policy)));
        }
        match host.kind {
            SandboxKind::LinuxSeccomp => self.transform_linux(cmd, policy, ctx, host),
            _ => self.transform_macos(cmd, policy, ctx, host),
        }
    }
}

// ---------------------------------------------------------------------------
// Laws
// ---------------------------------------------------------------------------

/// Full access leaves the command as it is, on every platform, with no marker in its
/// environment.
pub proof fn full_access_is_passthrough(cmd: types::Command, at: Setting)
    ensures
        transformed(cmd, policy::full_access(), at) == Outcome::Ready(
            types::Spawn {
                program: cmd.program,
                args: cmd.args,
                cwd: cmd.cwd,
                env: cmd.env,
                arg0: None,
            },
        ),
{
}

/// Where there is a backend, a policy short of full access never lets the command run
/// unwrapped: on Linux it is handed to the helper, on macOS it runs under `sandbox-exec`, or it
/// does not run at all.
pub proof fn never_unwrapped(cmd: types::Command, access: policy::Access, at: Setting)
    requires
        !access.full,
        at.kind != SandboxKind::Unsandboxed,
    ensures
        match transformed(cmd, access, at) {
            Outcome::Ready(req) => {
                &&& at.kind == SandboxKind::MacosSeatbelt
                &&& req.program == encode_utf8(seatbelt::SEATBELT_EXE@)
            },
            Outcome::Reexec { helper, helper_exe } => {
                &&& at.kind == SandboxKind::LinuxSeccomp
                &&& at.helper_exe == Some(helper_exe) || (at.helper_exe is None && at.current_exe
                    == Ok::<Seq<u8>, Seq<char>>(helper_exe))
            },
            _ => true,
        },
{
}

/// A command goes to the helper exactly in the runs whose exit codes are read as the helper's.
pub proof fn helper_runs_are_helper_runs(
    cmd: types::Command,
    access: policy::Access,
    at: Setting,
)
    ensures
        transformed(cmd, access, at) is Reexec ==> crate::sandbox::runs_in_helper(at.kind, access),
        transformed(cmd, access, at) is Ready ==> !crate::sandbox::runs_in_helper(at.kind, access),
{
}

/// A proxied policy fails closed: where there is a backend but the proxy or the way to it is
/// missing, the command does not run.
pub proof fn proxied_fails_closed(cmd: types::Command, access: policy::Access, at: Setting)
    requires
        !access.full,
        access.network is Proxied,
        at.kind == SandboxKind::LinuxSeccomp ==> at.routes is None || !at.proxy_built,
        at.kind == SandboxKind::MacosSeatbelt ==> at.port is None,
        at.kind != SandboxKind::Unsandboxed,
    ensures
        transformed(cmd, access, at) is Unsupported || transformed(cmd, access, at) is Refused,
{
}

/// What Landlock cannot express is never run through it: on Linux a policy with read-only paths
/// or hidden globs is refused, unless it is proxied and so goes through bwrap, which is handed
/// all of them.
pub proof fn landlock_gaps_fail_closed(cmd: types::Command, access: policy::Access, at: Setting)
    requires
        !access.full,
        at.kind == SandboxKind::LinuxSeccomp,
        access.read_only_subpaths.len() > 0 || access.deny_read_globs.len() > 0,
    ensures
        !(access.network is Proxied) ==> transformed(cmd, access, at) == Outcome::Unsupported(
            SandboxKind::LinuxSeccomp,
        ),
        transformed(cmd, access, at) matches Outcome::Reexec { helper, .. } ==> {
            &&& helper.mode is ProxiedOuter
            &&& helper.read_only_subpaths == access.read_only_subpaths
            &&& helper.deny_read_globs == absolute_globs(access.deny_read_globs, cmd.cwd)
        },
{
}

/// What was planned suffices: after the start-up that the policy asks for, a proxied command is
/// never refused for want of a proxy or of routes to it. On macOS a malformed glob is still
/// refused.
pub proof fn startup_suffices(
    cmd: types::Command,
    access: policy::Access,
    at: Setting,
    bwrap_found: bool,
)
    requires
        !access.full,
        access.network is Proxied,
        crate::sandbox::startup(access.network, at.kind, at.proxy_built, bwrap_found) is Start,
        at.port is Some,
        crate::sandbox::startup(
            access.network,
            at.kind,
            at.proxy_built,
            bwrap_found,
        )->bridge ==> at.routes is Some,
        at.helper_exe is Some || at.current_exe is Ok,
    ensures
        ({
            let globs = absolute_globs(access.deny_read_globs, cmd.cwd);
            ||| transformed(cmd, access, at) is Ready
            ||| transformed(cmd, access, at) is Reexec
            ||| at.kind == SandboxKind::MacosSeatbelt && seatbelt::first_malformed(globs) is Some
        }),
{
}

/// A malformed glob is never passed over: on macOS the command does not run.
pub proof fn malformed_globs_fail_closed(
    cmd: types::Command,
    access: policy::Access,
    at: Setting,
    i: int,
)
    requires
        !access.full,
        at.kind == SandboxKind::MacosSeatbelt,
        0 <= i < access.deny_read_globs.len(),
        !glob::well_formed(absolute_glob(access.deny_read_globs[i], cmd.cwd)),
    ensures
        transformed(cmd, access, at) is Refused,
{
    let globs = absolute_globs(access.deny_read_globs, cmd.cwd);
    assert(globs[i] == absolute_glob(access.deny_read_globs[i], cmd.cwd));
    if !(access.network is Proxied && at.port is None) {
        seatbelt::malformed_globs_are_refused(access.network, at.port, globs);
    }
}

/// In an absolute working directory every glob comes into absolute form. It ends as it was
/// written; one that was absolute stays as it was; and bringing it into absolute form again, in
/// any directory, changes nothing.
pub proof fn absolute_glob_stays(glob: Seq<char>, cwd: Seq<u8>, other: Seq<u8>)
    requires
        os::is_rooted(cwd),
    ensures
        glob::is_absolute(absolute_glob(glob, cwd)),
        glob.is_suffix_of(absolute_glob(glob, cwd)),
        glob::is_absolute(glob) ==> absolute_glob(glob, cwd) == glob,
        absolute_glob(absolute_glob(glob, cwd), other) == absolute_glob(glob, cwd),
{
    reveal_strlit("/");
    let base = os::text_of(cwd);
    os::rooted_text(cwd);
    text::lemma_trail_bounds(base, text::equal_to('/'));
    let cut = dir_text(cwd);
    let whole = glob::guarded(cut) + "/"@ + glob;
    assert(whole[0] == '/') by {
        if cut.len() > 0 {
            assert(cut[0] == base[0]);
            assert(whole[0] == glob::guarded(cut)[0]);
        }
    }
    assert(whole.subrange(whole.len() - glob.len(), whole.len() as int) =~= glob);
    assert(glob.subrange(0, glob.len() as int) =~= glob);
}

/// In an absolute working directory a list of globs comes into absolute form one by one, and only
/// once: in any directory the result stays as it is.
pub proof fn absolute_globs_stay(globs: Seq<Seq<char>>, cwd: Seq<u8>, other: Seq<u8>)
    requires
        os::is_rooted(cwd),
    ensures
        absolute_globs(globs, cwd).len() == globs.len(),
        forall|i: int|
            0 <= i < globs.len() ==> {
                &&& glob::is_absolute(#[trigger] absolute_globs(globs, cwd)[i])
                &&& globs[i].is_suffix_of(absolute_globs(globs, cwd)[i])
                &&& glob::is_absolute(globs[i]) ==> absolute_globs(globs, cwd)[i] == globs[i]
            },
        absolute_globs(absolute_globs(globs, cwd), other) == absolute_globs(globs, cwd),
{
    let r = absolute_globs(globs, cwd);
    assert forall|i: int| 0 <= i < globs.len() implies {
        &&& glob::is_absolute(#[trigger] r[i])
        &&& globs[i].is_suffix_of(r[i])
        &&& glob::is_absolute(globs[i]) ==> r[i] == globs[i]
        &&& absolute_glob(r[i], other) == r[i]
    } by {
        absolute_glob_stays(globs[i], cwd, other);
    }
    assert(absolute_globs(r, other) =~= r);
}

/// A glob that is not absolute speaks of paths below the working directory: there it covers what
/// it covers by itself, and it covers nothing elsewhere, whatever characters the directory's name
/// has.
pub proof fn directory_stands_for_itself(glob: Seq<char>, cwd: Seq<u8>, path: Seq<char>)
    requires
        !glob::is_absolute(glob),
    ensures
        glob::well_formed(absolute_glob(glob, cwd)) <==> glob::well_formed(glob),
        glob::covers(absolute_glob(glob, cwd), path) <==> {
            let front = dir_text(cwd) + "/"@;
            front.is_prefix_of(path) && glob::covers(glob, path.skip(front.len() as int))
        },
{
    glob::glob_is_rebased(dir_text(cwd), glob, path);
}

/// A relative path, given as a glob, names that path below the working directory to both backends,
/// and no other path.
pub proof fn relative_path_is_found(glob: Seq<char>, cwd: Seq<u8>, path: Seq<char>)
    requires
        !glob::is_absolute(glob),
        glob::is_spelled(glob),
    ensures
        glob::covers(absolute_glob(glob, cwd), path) <==> path == dir_text(cwd) + "/"@
            + glob::lead_text(glob),
        crate::bwrap::is_simple(absolute_glob(glob, cwd)),
        crate::bwrap::simple_match(absolute_glob(glob, cwd), encode_utf8(path)) <==> path
            == dir_text(cwd) + "/"@ + glob::lead_text(glob),
{
    let front = dir_text(cwd) + "/"@;
    let spelled = front + glob::lead_text(glob);
    directory_stands_for_itself(glob, cwd, path);
    glob::covered_paths_start_alike(glob, path.skip(front.len() as int));
    if front.is_prefix_of(path) {
        assert(path =~= front + path.skip(front.len() as int));
    }
    assert(spelled.subrange(0, front.len() as int) =~= front);
    assert(spelled.skip(front.len() as int) =~= glob::lead_text(glob));
    crate::bwrap::spelled_path_below_directory(dir_text(cwd), glob, encode_utf8(path));
    encode_utf8_decode_utf8(path);
    encode_utf8_decode_utf8(spelled);
}

/// The marker is set exactly where the network is blocked, and nothing else of the command's
/// environment changes.
pub proof fn marker_iff_blocked(env: Map<Seq<u8>, Seq<u8>>, network: policy::NetworkRule)
    requires
        !env.dom().contains(encode_utf8(NETWORK_DISABLED_ENV@)),
    ensures
        child_env(env, network).dom().contains(encode_utf8(NETWORK_DISABLED_ENV@))
            <==> network is Blocked,
        child_env(env, network).remove(encode_utf8(NETWORK_DISABLED_ENV@)) == env,
{
    assert(child_env(env, network).remove(encode_utf8(NETWORK_DISABLED_ENV@)) =~= env);
}

/// Different texts are written as different bytes.
proof fn lemma_bytes_differ(a: Seq<char>, b: Seq<char>)
    requires
        a != b,
    ensures
        encode_utf8(a) != encode_utf8(b),
{
    encode_utf8_decode_utf8(a);
    encode_utf8_decode_utf8(b);
}

/// The helper is handed the policy as it was given, whichever way it goes: the same writable
/// roots, the same read-only paths and as many globs, each of which ends as it was written. A
/// blocked or open network stays that; a proxied one goes by the routes that were prepared. And
/// the helper is the one that was asked for, else the running program.
pub proof fn helper_gets_the_policy(cmd: types::Command, access: policy::Access, at: Setting)
    ensures
        transformed(cmd, access, at) matches Outcome::Reexec { helper, helper_exe } ==> {
            &&& helper.writable_roots == access.writable_roots
            &&& helper.read_only_subpaths == access.read_only_subpaths
            &&& helper.deny_read_globs.len() == access.deny_read_globs.len()
            &&& forall|i: int|
                0 <= i < access.deny_read_globs.len() ==> {
                    &&& (#[trigger] access.deny_read_globs[i]).is_suffix_of(
                        helper.deny_read_globs[i],
                    )
                    &&& access.deny_read_globs[i].len() > 0 && access.deny_read_globs[i][0] == '/'
                        ==> helper.deny_read_globs[i] == access.deny_read_globs[i]
                }
            &&& match access.network {
                policy::NetworkRule::Blocked => helper.mode == (reexec::Mode::Landlock {
                    network_blocked: true,
                }),
                policy::NetworkRule::Allowed => helper.mode == (reexec::Mode::Landlock {
                    network_blocked: false,
                }),
                policy::NetworkRule::Proxied { .. } => helper.mode matches
                    reexec::Mode::ProxiedOuter { routes } && at.routes == Some(routes),
            }
            &&& match at.helper_exe {
                Some(asked) => helper_exe == asked,
                None => at.current_exe == Ok::<Seq<u8>, Seq<char>>(helper_exe),
            }
        },
{
    match transformed(cmd, access, at) {
        Outcome::Reexec { helper, .. } => {
            assert(helper.read_only_subpaths =~= access.read_only_subpaths);
            assert forall|i: int| 0 <= i < access.deny_read_globs.len() implies (
            #[trigger] access.deny_read_globs[i]).is_suffix_of(helper.deny_read_globs[i]) by {
                let glob = access.deny_read_globs[i];
                let whole = helper.deny_read_globs[i];
                assert(whole.subrange(whole.len() - glob.len(), whole.len() as int) =~= glob);
            }
        },
        _ => {},
    }
}

/// On Linux a command short of full access goes to the helper exactly if there is a helper and
/// the policy can be enforced: a proxied one, where there is a proxy with routes to it; any other,
/// where nothing inside the writable roots is read-only and nothing is hidden. What the platform
/// cannot do at all is unsupported, and what is merely missing is refused.
pub proof fn linux_runs_what_it_can(cmd: types::Command, access: policy::Access, at: Setting)
    requires
        !access.full,
        at.kind == SandboxKind::LinuxSeccomp,
    ensures
        ({
            let r = transformed(cmd, access, at);
            let proxied = access.network is Proxied;
            let can = if proxied {
                at.proxy_built
            } else {
                access.read_only_subpaths.len() == 0 && access.deny_read_globs.len() == 0
            };
            let has_all = (proxied ==> at.routes is Some) && (at.helper_exe is Some
                || at.current_exe is Ok);
            &&& r is Reexec <==> can && has_all
            &&& r is Refused <==> can && !has_all
            &&& r == Outcome::Unsupported(SandboxKind::LinuxSeccomp) <==> !can
        }),
{
}

/// On macOS a command short of full access runs exactly if its globs can be read and, where its
/// network is proxied, the port of the proxy is known; else it is refused.
pub proof fn macos_runs_what_it_can(cmd: types::Command, access: policy::Access, at: Setting)
    requires
        !access.full,
        at.kind == SandboxKind::MacosSeatbelt,
    ensures
        ({
            let r = transformed(cmd, access, at);
            let can = (access.network is Proxied ==> at.port is Some) && forall|i: int|
                0 <= i < access.deny_read_globs.len() ==> glob::well_formed(
                    #[trigger] absolute_glob(access.deny_read_globs[i], cmd.cwd),
                );
            &&& r is Ready <==> can
            &&& r is Refused <==> !can
        }),
{
    let globs = absolute_globs(access.deny_read_globs, cmd.cwd);
    if access.network is Proxied ==> at.port is Some {
        seatbelt::malformed_globs_are_refused(access.network, at.port, globs);
        assert forall|i: int| 0 <= i < globs.len() implies #[trigger] globs[i] == absolute_glob(
            access.deny_read_globs[i],
            cmd.cwd,
        ) by {}
        if forall|i: int|
            0 <= i < access.deny_read_globs.len() ==> glob::well_formed(
                #[trigger] absolute_glob(access.deny_read_globs[i], cmd.cwd),
            ) {
            assert forall|i: int| 0 <= i < globs.len() implies glob::well_formed(
                #[trigger] globs[i],
            ) by {
                assert(glob::well_formed(absolute_glob(access.deny_read_globs[i], cmd.cwd)));
            }
        }
        if forall|i: int| 0 <= i < globs.len() ==> glob::well_formed(#[trigger] globs[i]) {
            assert forall|i: int| 0 <= i < access.deny_read_globs.len() implies glob::well_formed(
                #[trigger] absolute_glob(access.deny_read_globs[i], cmd.cwd),
            ) by {
                assert(glob::well_formed(globs[i]));
            }
        }
    }
}

/// Without a backend, and with full access, the command runs as it is: the same program, the same
/// arguments, the same directory, under its own name.
pub proof fn unwrapped_command_is_kept(cmd: types::Command, access: policy::Access, at: Setting)
    requires
        access.full || at.kind == SandboxKind::Unsandboxed,
    ensures
        transformed(cmd, access, at) matches Outcome::Ready(req) && {
            &&& req.program == cmd.program
            &&& req.args == cmd.args
            &&& req.cwd == cmd.cwd
            &&& req.arg0 is None
            &&& req.env == child_env(cmd.env, access.network)
        },
{
}

/// On macOS the command is passed on whole: after the end of the options come its program and its
/// arguments, and it runs in its own directory.
pub proof fn macos_keeps_the_command(cmd: types::Command, access: policy::Access, at: Setting)
    requires
        !access.full,
        at.kind == SandboxKind::MacosSeatbelt,
    ensures
        transformed(cmd, access, at) matches Outcome::Ready(req) ==> {
            &&& req.program == encode_utf8("/usr/bin/sandbox-exec"@)
            &&& (seq![encode_utf8("--"@), cmd.program] + cmd.args).is_suffix_of(req.args)
            &&& req.args.len() == 2 + 2 * (access.writable_roots.len()
                + access.read_only_subpaths.len()) + 2 + cmd.args.len()
            &&& req.cwd == cmd.cwd
            &&& req.arg0 is None
        },
{
    match transformed(cmd, access, at) {
        Outcome::Ready(req) => {
            let tail = seq![encode_utf8("--"@), cmd.program] + cmd.args;
            assert(req.args.subrange(req.args.len() - tail.len(), req.args.len() as int) =~= tail);
            seatbelt::parameters_are_passed(seatbelt::profile_params(access));
        },
        _ => {},
    }
}

/// The environment of a child is the command's own: every name but the marker keeps its value or
/// stays away. The marker is `1` where the network is blocked, and is left alone elsewhere.
pub proof fn child_env_is_the_commands(
    env: Map<Seq<u8>, Seq<u8>>,
    network: policy::NetworkRule,
    name: Seq<u8>,
)
    ensures
        ({
            let marker = encode_utf8("MOTOSAN_SANDBOX_NETWORK_DISABLED"@);
            let r = child_env(env, network);
            &&& name != marker ==> (r.dom().contains(name) <==> env.dom().contains(name))
            &&& name != marker && env.dom().contains(name) ==> r[name] == env[name]
            &&& network is Blocked ==> r.dom().contains(marker) && r[marker] == encode_utf8("1"@)
            &&& !(network is Blocked) ==> r == env
        }),
{
}

/// Leading tools to a proxy sets four names and no other: three to the address of the proxy, and
/// one to the addresses that need none.
pub proof fn proxy_env_sets_four_names(env: Map<Seq<u8>, Seq<u8>>, port: u16, name: Seq<u8>)
    ensures
        ({
            let r = with_proxy(env, port);
            let url = encode_utf8("http://127.0.0.1:"@ + text::decimal(port as nat));
            let led = name == encode_utf8("HTTP_PROXY"@) || name == encode_utf8("HTTPS_PROXY"@)
                || name == encode_utf8("ALL_PROXY"@);
            let spared = name == encode_utf8("NO_PROXY"@);
            &&& led ==> r.dom().contains(name) && r[name] == url
            &&& spared ==> r.dom().contains(name) && r[name] == encode_utf8(
                "localhost,127.0.0.1,::1"@,
            )
            &&& !led && !spared ==> (r.dom().contains(name) <==> env.dom().contains(name))
            &&& !led && !spared && env.dom().contains(name) ==> r[name] == env[name]
        }),
{
    reveal_strlit("HTTP_PROXY");
    reveal_strlit("HTTPS_PROXY");
    reveal_strlit("ALL_PROXY");
    reveal_strlit("NO_PROXY");
    lemma_bytes_differ("HTTP_PROXY"@, "NO_PROXY"@);
    lemma_bytes_differ("HTTPS_PROXY"@, "NO_PROXY"@);
    lemma_bytes_differ("ALL_PROXY"@, "NO_PROXY"@);
}

/// A command that runs under Seatbelt gets its own environment: besides the marker of a blocked
/// network and the names that lead to a proxy, nothing is added, changed or lost. The names of
/// the proxy are set only where the network is proxied, and lead to the port of the proxy.
pub proof fn macos_keeps_the_environment(
    cmd: types::Command,
    access: policy::Access,
    at: Setting,
    name: Seq<u8>,
)
    requires
        !access.full,
        at.kind == SandboxKind::MacosSeatbelt,
    ensures
        transformed(cmd, access, at) matches Outcome::Ready(req) ==> {
            let marker = name == encode_utf8("MOTOSAN_SANDBOX_NETWORK_DISABLED"@);
            let led = name == encode_utf8("HTTP_PROXY"@) || name == encode_utf8("HTTPS_PROXY"@)
                || name == encode_utf8("ALL_PROXY"@);
            let spared = name == encode_utf8("NO_PROXY"@);
            &&& access.network is Proxied && led ==> at.port is Some && req.env.dom().contains(name)
                && req.env[name] == encode_utf8(
                "http://127.0.0.1:"@ + text::decimal(at.port.unwrap() as nat),
            )
            &&& access.network is Blocked && marker ==> req.env.dom().contains(name)
                && req.env[name] == encode_utf8("1"@)
            &&& !(access.network is Blocked && marker) && !(access.network is Proxied && (led
                || spared)) ==> {
                &&& req.env.dom().contains(name) <==> cmd.env.dom().contains(name)
                &&& cmd.env.dom().contains(name) ==> req.env[name] == cmd.env[name]
            }
        },
{
    child_env_is_the_commands(cmd.env, access.network, name);
    if at.port is Some {
        proxy_env_sets_four_names(child_env(cmd.env, access.network), at.port.unwrap(), name);
    }
}

/// A relative glob is joined to the working directory by one slash, however many slashes the
/// directory ends in; where the directory's name has no marks, it stands there as it is.
pub proof fn relative_glob_is_joined(dir: Seq<char>, slashes: Seq<char>, glob: Seq<char>)
    requires
        forall|i: int|
            0 <= i < dir.len() ==> {
                let c = #[trigger] dir[i];
                c != '*' && c != '?' && c != '[' && c != '{' && c != '}' && c != ',' && c != '\\'
            },
        dir.len() > 0 ==> dir.last() != '/',
        forall|i: int| 0 <= i < slashes.len() ==> #[trigger] slashes[i] == '/',
        glob.len() == 0 || glob[0] != '/',
    ensures
        absolute_glob(glob, encode_utf8(dir + slashes)) == dir + "/"@ + glob,
{
    directory_is_guarded(dir, slashes, glob);
    glob::plain_text_is_unchanged(dir);
}

/// Where there is no helper, the refusal says why the running program is not known.
pub proof fn missing_helper_is_explained(cmd: types::Command, access: policy::Access, at: Setting)
    requires
        at.kind == SandboxKind::LinuxSeccomp,
        at.helper_exe is None,
        at.current_exe is Err,
        transformed(cmd, access, at) is Refused,
        !(access.network is Proxied) || at.routes is Some,
    ensures
        transformed(cmd, access, at) matches Outcome::Refused(why)
            && (at.current_exe->Err_0).is_suffix_of(why),
{
    let said = at.current_exe->Err_0;
    let why = "resolve current_exe: "@ + said;
    assert(why.subrange(why.len() - said.len(), why.len() as int) =~= said);
}

/// The working directory stands in front of a relative glob with each of its marks behind a
/// backslash, and without the slashes at its end.
pub proof fn directory_is_guarded(dir: Seq<char>, slashes: Seq<char>, glob: Seq<char>)
    requires
        dir.len() > 0 ==> dir.last() != '/',
        forall|i: int| 0 <= i < slashes.len() ==> #[trigger] slashes[i] == '/',
        glob.len() == 0 || glob[0] != '/',
    ensures
        absolute_glob(glob, encode_utf8(dir + slashes)) == glob::guarded(dir) + "/"@ + glob,
{
    let whole = dir + slashes;
    os::text_of_encoded(whole);
    assert forall|i: int| whole.len() - slashes.len() <= i < whole.len() implies (text::equal_to(
        '/',
    ))(#[trigger] whole[i]) by {
        assert(whole[i] == slashes[i - dir.len()]);
    }
    assert(slashes.len() < whole.len() ==> whole[dir.len() - 1] == dir.last());
    text::lemma_trail(whole, text::equal_to('/'), slashes.len());
    assert(dir_text(encode_utf8(whole)) =~= dir);
}

} // verus!
