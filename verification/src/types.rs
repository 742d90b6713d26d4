//! The command to run, what came of it, the options of a run, and the request that a
//! transformed command is spawned from.

use std::time::Duration;

use vstd::prelude::*;

use crate::env::EnvMap;
use crate::os;
use crate::os::OsText;
use crate::reexec::ProxyRouteSpec;

verus! {

/// The enforcement backend of a platform.
#[derive(Debug, Clone, Copy, PartialEq, Eq, Structural)]
pub enum SandboxKind {
    /// No enforcement: the command runs unwrapped.
    Unsandboxed,
    /// Apple Seatbelt, through `sandbox-exec`.
    MacosSeatbelt,
    /// The seccomp, Landlock and bwrap helper.
    LinuxSeccomp,
}

impl SandboxKind {
    /// The name of the backend.
    pub open spec fn spec_name(self) -> Seq<char> {
        match self {
            SandboxKind::Unsandboxed => "None"@,
            SandboxKind::MacosSeatbelt => "MacosSeatbelt"@,
            SandboxKind::LinuxSeccomp => "LinuxSeccomp"@,
        }
    }

    /// The name of the backend.
    pub fn name(self) -> (r: String)
        ensures
            r@ == self.spec_name(),
    {
        match self {
            SandboxKind::Unsandboxed => "None".to_owned(),
            SandboxKind::MacosSeatbelt => "MacosSeatbelt".to_owned(),
            SandboxKind::LinuxSeccomp => "LinuxSeccomp".to_owned(),
        }
    }
}

/// A command to run inside the sandbox.
///
/// `env` is the whole environment of the command: nothing is inherited from the parent.
/// Callers pass a curated one; forwarding their own would leak its secrets.
#[derive(Debug, PartialEq, Eq)]
pub struct SandboxCommand {
    pub program: OsText,
    pub args: Vec<OsText>,
    /// Absolute working directory.
    pub cwd: OsText,
    pub env: EnvMap,
}

/// A command as a mathematical value.
#[verifier::ext_equal]
pub struct Command {
    pub program: Seq<u8>,
    pub args: Seq<Seq<u8>>,
    pub cwd: Seq<u8>,
    pub env: Map<Seq<u8>, Seq<u8>>,
}

impl DeepView for SandboxCommand {
    type V = Command;

    open spec fn deep_view(&self) -> Command {
        Command {
            program: self.program@,
            args: self.args.deep_view(),
            cwd: self.cwd@,
            env: self.env@,
        }
    }
}

impl Clone for SandboxCommand {
    fn clone(&self) -> (r: Self)
        ensures
            r.deep_view() == self.deep_view(),
    {
        SandboxCommand {
            program: self.program.clone(),
            args: os::copy_all(&self.args),
            cwd: self.cwd.clone(),
            env: self.env.clone(),
        }
    }
}

/// What came of a sandboxed run.
#[derive(Debug, PartialEq, Eq)]
pub struct ExecOutput {
    /// The code, if the process exited by itself.
    pub exit_code: Option<i32>,
    /// The signal, if the process was killed by one.
    pub signal: Option<i32>,
    pub stdout: Vec<u8>,
    pub stderr: Vec<u8>,
    /// Whether the process was killed because it exceeded `RunOpts::timeout`.
    pub timed_out: bool,
}

impl Clone for ExecOutput {
    fn clone(&self) -> (r: Self)
        ensures
            r.exit_code == self.exit_code,
            r.signal == self.signal,
            r.stdout@ == self.stdout@,
            r.stderr@ == self.stderr@,
            r.timed_out == self.timed_out,
    {
        ExecOutput {
            exit_code: self.exit_code,
            signal: self.signal,
            stdout: os::copy_bytes(self.stdout.as_slice(), 0, self.stdout.len()),
            stderr: os::copy_bytes(self.stderr.as_slice(), 0, self.stderr.len()),
            timed_out: self.timed_out,
        }
    }
}

/// Options of a single run.
#[derive(Debug)]
pub struct RunOpts {
    /// Kill the command after this duration. `None`: no timeout.
    pub timeout: Option<Duration>,
    /// Keep at most this many bytes of each of stdout and stderr (0: all of them).
    pub max_output_bytes: usize,
}

impl Default for RunOpts {
    fn default() -> (r: Self)
        ensures
            r.timeout is None,
            r.max_output_bytes == 0,
    {
        RunOpts { timeout: None, max_output_bytes: 0 }
    }
}

/// A running network proxy, by the loopback port that it listens on.
#[derive(Debug, Clone, Copy, PartialEq, Eq, Structural)]
pub struct ProxyHandle {
    pub port: u16,
}

/// Inputs of `transform` that are not part of the policy. They are found out before and passed
/// in, so that the transformation itself asks the system nothing.
#[derive(Debug)]
pub struct TransformCtx<'a> {
    /// The proxy of a proxied policy.
    pub proxy: Option<&'a ProxyHandle>,
    /// The routes from inside a network namespace to the proxy.
    pub route_spec: Option<&'a ProxyRouteSpec>,
}

impl<'a> Default for TransformCtx<'a> {
    fn default() -> (r: Self)
        ensures
            r.proxy is None,
            r.route_spec is None,
    {
        TransformCtx { proxy: None, route_spec: None }
    }
}

/// A command that is ready to be spawned: every decision of the policy is already in it.
#[derive(Debug, PartialEq, Eq)]
pub struct SpawnRequest {
    pub program: OsText,
    pub args: Vec<OsText>,
    pub cwd: OsText,
    pub env: EnvMap,
    /// The child's `argv[0]`, where it is not the program.
    pub arg0: Option<OsText>,
}

impl Clone for SpawnRequest {
    fn clone(&self) -> (r: Self)
        ensures
            r.deep_view() == self.deep_view(),
    {
        SpawnRequest {
            program: self.program.clone(),
            args: os::copy_all(&self.args),
            cwd: self.cwd.clone(),
            env: self.env.clone(),
            arg0: match &self.arg0 {
                Some(name) => Some(name.clone()),
                None => None,
            },
        }
    }
}

/// A spawn request as a mathematical value.
#[verifier::ext_equal]
pub struct Spawn {
    pub program: Seq<u8>,
    pub args: Seq<Seq<u8>>,
    pub cwd: Seq<u8>,
    pub env: Map<Seq<u8>, Seq<u8>>,
    pub arg0: Option<Seq<u8>>,
}

impl DeepView for SpawnRequest {
    type V = Spawn;

    open spec fn deep_view(&self) -> Spawn {
        Spawn {
            program: self.program@,
            args: self.args.deep_view(),
            cwd: self.cwd@,
            env: self.env@,
            arg0: self.arg0.deep_view(),
        }
    }
}

/// Each backend has a name of its own.
pub proof fn backends_have_their_names(kind: SandboxKind)
    ensures
        kind.spec_name() == "None"@ <==> kind == SandboxKind::Unsandboxed,
        kind.spec_name() == "MacosSeatbelt"@ <==> kind == SandboxKind::MacosSeatbelt,
        kind.spec_name() == "LinuxSeccomp"@ <==> kind == SandboxKind::LinuxSeccomp,
{
    reveal_strlit("None");
    reveal_strlit("MacosSeatbelt");
    reveal_strlit("LinuxSeccomp");
    assert("None"@.len() == 4 && "MacosSeatbelt"@.len() == 13 && "LinuxSeccomp"@.len() == 12);
}

} // verus!
