//! A sandbox for untrusted commands: what a policy means, how a command is rewritten so that
//! an operating-system backend enforces it, and what the result of a run tells.
//!
//! Every decision is made here, on plain values, and proved to be what its contract says. What
//! touches the system (spawning, sockets, system calls) is for the program around this library.

pub mod bridge;
pub mod bwrap;
pub mod connect;
pub mod denial;
pub mod env;
pub mod error;
pub mod execpolicy;
pub mod glob;
pub mod helper;
pub mod landlock;
pub mod matcher;
pub mod os;
pub mod policy;
pub mod reexec;
pub mod sandbox;
pub mod seatbelt;
pub mod seccomp;
pub mod spawn;
pub mod text;
pub mod transform;
pub mod types;

pub use connect::ProxyConfig;
pub use denial::is_likely_sandbox_denied;
pub use env::EnvMap;
pub use error::Error;
pub use execpolicy::{ExecDecision, ExecPolicy};
pub use matcher::Allowlist;
pub use os::OsText;
pub use policy::{HostPattern, NetworkPolicy, ReadOnly, SandboxPolicy, WorkspaceWrite};
pub use sandbox::{Host, Sandbox};
pub use transform::{Transformed, NETWORK_DISABLED_ENV};
pub use types::{
    ExecOutput, ProxyHandle, RunOpts, SandboxCommand, SandboxKind, SpawnRequest, TransformCtx,
};
