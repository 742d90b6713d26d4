//! The one error of the crate.

use vstd::prelude::*;

use crate::text;
use crate::types::SandboxKind;

verus! {

/// An error of the operating system.
#[verifier::external_type_specification]
#[verifier::external_body]
pub struct ExIoError(std::io::Error);

/// The text that `std::io::Error` displays. Part of it may come from the operating system, so
/// nothing is claimed of it.
#[verifier::external_body]
fn io_error_text(e: &std::io::Error) -> (r: String) {
    format!("{}", e)
}

/// Errors of the sandbox.
#[derive(Debug)]
#[non_exhaustive]
pub enum Error {
    /// The platform has no backend that can enforce the policy.
    Unsupported(SandboxKind),
    /// The Linux helper could not enforce the restrictions. The command was not run
    /// unsandboxed.
    NotEnforced(String),
    /// The policy could not be turned into a runnable command.
    Transform(String),
    /// Spawning or waiting for the child process failed.
    Spawn(std::io::Error),
}

/// The text before the details of an error.
pub open spec fn error_heading(e: Error) -> Seq<char> {
    match e {
        Error::Unsupported(_) => "sandboxing is not supported on this platform/backend: "@,
        Error::NotEnforced(_) => "sandbox could not be enforced: "@,
        Error::Transform(_) => "failed to build sandbox command: "@,
        Error::Spawn(_) => "failed to spawn sandboxed command: "@,
    }
}

/// The message of a spawn error with these details.
pub fn spawn_message(details: &str) -> (r: String)
    ensures
        r@ == "failed to spawn sandboxed command: "@ + details@,
{
    text::join2("failed to spawn sandboxed command: ", details)
}

impl Error {
    /// The message of the error: what failed, then the details. Of a spawn error the details
    /// are those of the operating system.
    pub fn to_string(&self) -> (r: String)
        ensures
            error_heading(*self).is_prefix_of(r@),
            self matches Error::Unsupported(kind) ==> r@ == error_heading(*self)
                + kind.spec_name(),
            self matches Error::NotEnforced(why) ==> r@ == error_heading(*self) + why@,
            self matches Error::Transform(why) ==> r@ == error_heading(*self) + why@,
    {
        match self {
            Error::Unsupported(kind) => {
                let r: String = text::join2(
                    "sandboxing is not supported on this platform/backend: ",
                    kind.name().as_str(),
                );
                proof {
                    text::lemma_prefix_of_sum(error_heading(*self), kind.spec_name());
                }
                r
            },
            Error::NotEnforced(why) => {
                proof {
                    text::lemma_prefix_of_sum(error_heading(*self), why@);
                }
                text::join2("sandbox could not be enforced: ", why.as_str())
            },
            Error::Transform(why) => {
                proof {
                    text::lemma_prefix_of_sum(error_heading(*self), why@);
                }
                text::join2("failed to build sandbox command: ", why.as_str())
            },
            Error::Spawn(e) => {
                let details: String = io_error_text(e);
                proof {
                    text::lemma_prefix_of_sum(error_heading(*self), details@);
                }
                spawn_message(details.as_str())
            },
        }
    }
}

} // verus!
