use motosan_sandbox::error::spawn_message;
use motosan_sandbox::{Error, SandboxKind};

#[test]
fn unsupported_displays_kind() {
    let e = Error::Unsupported(SandboxKind::LinuxSeccomp);
    assert!(e.to_string().contains("LinuxSeccomp"));
}

#[test]
fn spawn_wraps_io_error() {
    let io = std::io::Error::new(std::io::ErrorKind::NotFound, "nope");
    let e = Error::Spawn(io);
    assert!(e.to_string().contains("failed to spawn"));
}

#[test]
fn messages_are_exact() {
    assert_eq!(
        Error::Unsupported(SandboxKind::Unsandboxed).to_string(),
        "sandboxing is not supported on this platform/backend: None"
    );
    assert_eq!(
        Error::Unsupported(SandboxKind::MacosSeatbelt).to_string(),
        "sandboxing is not supported on this platform/backend: MacosSeatbelt"
    );
    assert_eq!(
        Error::NotEnforced("x".to_string()).to_string(),
        "sandbox could not be enforced: x"
    );
    assert_eq!(
        Error::Transform("y".to_string()).to_string(),
        "failed to build sandbox command: y"
    );
    let io = std::io::Error::new(std::io::ErrorKind::NotFound, "nope");
    assert_eq!(
        Error::Spawn(io).to_string(),
        "failed to spawn sandboxed command: nope"
    );
}

#[test]
fn a_spawn_message_holds_its_details() {
    assert_eq!(spawn_message("nope"), "failed to spawn sandboxed command: nope");
    assert_eq!(spawn_message(""), "failed to spawn sandboxed command: ");
}
