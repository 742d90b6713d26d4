//! The entry point: which backend a platform has, and what a run needs to be started.

use vstd::prelude::*;

use crate::error::Error;
use crate::os::OsText;
use crate::policy;
use crate::policy::{HostPattern, NetworkPolicy, SandboxPolicy};
use crate::text;
use crate::types::SandboxKind;

verus! {

/// The sandbox, with the helper program that it was told to use.
#[derive(Debug)]
pub struct Sandbox {
    /// The program that hosts the helper. `None`: the running program itself.
    pub helper_exe: Option<OsText>,
}

/// What the sandbox has to know of the process that it runs in.
#[derive(Debug)]
pub struct Host {
    /// The backend of the platform.
    pub kind: SandboxKind,
    /// Whether the program was built with the proxy.
    pub proxy_built: bool,
    /// The running program, or why it cannot be told.
    pub current_exe: Result<OsText, String>,
}

impl Default for Sandbox {
    fn default() -> (r: Self)
        ensures
            r.helper_exe is None,
    {
        Sandbox { helper_exe: None }
    }
}

/// The backend of an operating system, by the name that the compiler gives it.
pub open spec fn backend_of(target_os: Seq<char>) -> SandboxKind {
    if target_os == "macos"@ {
        SandboxKind::MacosSeatbelt
    } else if target_os == "linux"@ {
        SandboxKind::LinuxSeccomp
    } else {
        SandboxKind::Unsandboxed
    }
}

impl Sandbox {
    /// A sandbox that uses the running program as its helper.
    pub fn new() -> (r: Self)
        ensures
            r.helper_exe is None,
    {
        Sandbox { helper_exe: None }
    }

    /// Uses an explicit helper program.
    pub fn with_helper_exe(self, path: OsText) -> (r: Self)
        ensures
            r.helper_exe == Some(path),
    {
        Sandbox { helper_exe: Some(path) }
    }

    /// The backend that the sandbox uses on an operating system.
    pub fn detect(target_os: &str) -> (r: SandboxKind)
        ensures
            r == backend_of(target_os@),
    {
        if text::same_text(target_os, "macos") {
            SandboxKind::MacosSeatbelt
        } else if text::same_text(target_os, "linux") {
            SandboxKind::LinuxSeccomp
        } else {
            SandboxKind::Unsandboxed
        }
    }
}

// ---------------------------------------------------------------------------
// Before the run
// ---------------------------------------------------------------------------

/// What has to be started before a command can be transformed.
#[derive(Debug, PartialEq, Eq)]
pub enum ProxyPlan {
    /// Nothing.
    Nothing,
    /// The proxy, with these patterns; and, where `bridge` is set, the bridge that leads to it
    /// from inside a network namespace.
    Start { patterns: Vec<String>, bridge: bool },
}

/// A plan as a mathematical value.
pub enum Startup {
    Nothing,
    Start { patterns: Seq<Seq<char>>, bridge: bool },
    Unsupported(SandboxKind),
    Refused(Seq<char>),
    Failed,
}

/// A result of `maybe_start_proxy` as a mathematical value.
pub open spec fn startup_of(r: Result<ProxyPlan, Error>) -> Startup {
    match r {
        Ok(ProxyPlan::Nothing) => Startup::Nothing,
        Ok(ProxyPlan::Start { patterns, bridge }) => Startup::Start {
            patterns: patterns.deep_view(),
            bridge,
        },
        Err(Error::Unsupported(kind)) => Startup::Unsupported(kind),
        Err(Error::Transform(why)) => Startup::Refused(why@),
        Err(_) => Startup::Failed,
    }
}

/// What a policy needs to have started. On Linux the proxy is reached through bwrap; without
/// bwrap, or without the proxy, a proxied policy is refused rather than weakened.
pub open spec fn startup(
    network: policy::NetworkRule,
    kind: SandboxKind,
    proxy_built: bool,
    bwrap_found: bool,
) -> Startup {
    match network {
        policy::NetworkRule::Proxied { allowlist } => if kind == SandboxKind::LinuxSeccomp && !(
        proxy_built && bwrap_found) {
            Startup::Unsupported(SandboxKind::LinuxSeccomp)
        } else if !proxy_built {
            Startup::Refused("Proxied policy requires the `proxy` feature"@)
        } else {
            Startup::Start {
                patterns: crate::matcher::texts_of(allowlist),
                bridge: kind == SandboxKind::LinuxSeccomp,
            }
        },
        _ => Startup::Nothing,
    }
}

/// Whether the command of a run is started by the helper.
pub open spec fn runs_in_helper(kind: SandboxKind, access: policy::Access) -> bool {
    kind == SandboxKind::LinuxSeccomp && !access.full
}

impl Sandbox {
    /// Decides what has to be started before a command under this policy can be transformed.
    /// `bwrap_found` is whether the program bwrap is there.
    pub fn maybe_start_proxy(
        &self,
        policy: &SandboxPolicy,
        host: &Host,
        bwrap_found: bool,
    ) -> (r: Result<ProxyPlan, Error>)
        ensures
            startup_of(r) == startup(
                policy.deep_view().network,
                host.kind,
                host.proxy_built,
                bwrap_found,
            ),
    {
        match policy.network() {
            NetworkPolicy::Proxied { allowlist } => {
                if host.kind == SandboxKind::LinuxSeccomp && !(host.proxy_built && bwrap_found) {
                    return Err(Error::Unsupported(SandboxKind::LinuxSeccomp));
                }
                if !host.proxy_built {
                    return Err(
                        Error::Transform("Proxied policy requires the `proxy` feature".to_owned()),
                    );
                }
                Ok(
                    ProxyPlan::Start {
                        patterns: pattern_strings(&allowlist),
                        bridge: host.kind == SandboxKind::LinuxSeccomp,
                    },
                )
            },
            _ => Ok(ProxyPlan::Nothing),
        }
    }

    /// Whether a run under this policy goes through the helper, so that the helper's exit codes
    /// have their meaning.
    pub fn uses_helper(&self, policy: &SandboxPolicy, host: &Host) -> (r: bool)
        ensures
            r == runs_in_helper(host.kind, policy.deep_view()),
    {
        host.kind == SandboxKind::LinuxSeccomp && !policy.is_full_access()
    }
}

/// The texts of a list of patterns.
fn pattern_strings(list: &Vec<HostPattern>) -> (r: Vec<String>)
    ensures
        r.deep_view() == crate::matcher::texts_of(list.deep_view()),
{
    let mut out: Vec<String> = Vec::new();
    let mut i: usize = 0;
    while i < list.len()
        invariant
            i <= list@.len(),
            out@.len() == i,
            forall|k: int|
                0 <= k < i ==> (#[trigger] out@[k])@ == policy::host_text(list@[k].deep_view()),
        decreases list@.len() - i,
    {
        out.push(list[i].to_pattern_string());
        i = i + 1;
    }
    assert(out.deep_view() =~= crate::matcher::texts_of(list.deep_view()));
    out
}

// ---------------------------------------------------------------------------
// Laws
// ---------------------------------------------------------------------------

/// Every platform has the backend of its name, and any other has none.
pub proof fn platforms_have_their_backends(target_os: Seq<char>)
    ensures
        backend_of(target_os) == SandboxKind::MacosSeatbelt <==> target_os == "macos"@,
        backend_of(target_os) == SandboxKind::LinuxSeccomp <==> target_os == "linux"@,
{
    reveal_strlit("macos");
    reveal_strlit("linux");
    assert("macos"@[0] == 'm' && "linux"@[0] == 'l');
}

/// The proxy is started exactly for a proxied network that can be had: where it was built in and,
/// on Linux, bwrap is there. The bridge is started with it on Linux and nowhere else. Any other
/// network needs nothing, and what cannot be had is refused.
pub proof fn proxy_is_started_where_needed(
    network: policy::NetworkRule,
    kind: SandboxKind,
    proxy_built: bool,
    bwrap_found: bool,
)
    ensures
        ({
            let r = startup(network, kind, proxy_built, bwrap_found);
            let linux = kind == SandboxKind::LinuxSeccomp;
            let can = proxy_built && (linux ==> bwrap_found);
            &&& r is Nothing <==> !(network is Proxied)
            &&& r is Start <==> network is Proxied && can
            &&& r == Startup::Unsupported(SandboxKind::LinuxSeccomp) <==> network is Proxied && !can
                && linux
            &&& r is Refused <==> network is Proxied && !can && !linux
            &&& r matches Startup::Start { bridge, .. } ==> (bridge <==> linux)
        }),
{
}

/// The proxy that is started lets through what the policy lets through: each pattern reaches it as
/// the text that stands for it, so a host passes the proxy exactly if it passes the allowlist.
pub proof fn proxy_gets_the_allowlist(
    allowlist: Seq<policy::HostShape>,
    kind: SandboxKind,
    bwrap_found: bool,
    target: Seq<char>,
)
    requires
        forall|i: int|
            0 <= i < allowlist.len() ==> policy::canonical(#[trigger] allowlist[i]),
    ensures
        startup(
            policy::NetworkRule::Proxied { allowlist },
            kind,
            true,
            bwrap_found,
        ) matches Startup::Start { patterns, .. } ==> {
            &&& patterns.len() == allowlist.len()
            &&& crate::matcher::list_allows(crate::matcher::shapes_of(patterns), target)
                == crate::matcher::list_allows(allowlist, target)
        },
{
    crate::matcher::patterns_survive_as_texts(allowlist);
}

/// A run goes through the helper on Linux, unless it has full access; nowhere else.
pub proof fn helper_is_for_linux(kind: SandboxKind, access: policy::Access)
    ensures
        runs_in_helper(kind, access) <==> kind == SandboxKind::LinuxSeccomp && !access.full,
{
}

} // verus!
