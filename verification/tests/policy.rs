use motosan_sandbox::{HostPattern, NetworkPolicy, OsText, ReadOnly, SandboxPolicy, WorkspaceWrite};

fn os(s: &str) -> OsText {
    OsText::new(s)
}

#[test]
fn builder_defaults() {
    let w = WorkspaceWrite::new(vec![os("/ws")]);
    assert_eq!(w.writable_roots, vec![os("/ws")]);
    assert!(w.read_only_subpaths.is_empty());
    assert!(!w.exclude_tmp);
    assert_eq!(w.network, NetworkPolicy::Blocked);
}

#[test]
fn builder_setters_chain() {
    let w = WorkspaceWrite::new(vec![os("/ws")])
        .read_only(os("/ws/secrets"))
        .exclude_tmp(true)
        .network(NetworkPolicy::Allowed);
    assert_eq!(w.read_only_subpaths, vec![os("/ws/secrets")]);
    assert!(w.exclude_tmp);
    assert_eq!(w.network, NetworkPolicy::Allowed);
}

#[test]
fn network_helper_maps_each_variant() {
    assert_eq!(
        SandboxPolicy::DangerFullAccess.network(),
        NetworkPolicy::Allowed
    );
    assert_eq!(
        SandboxPolicy::ReadOnly(ReadOnly::new(NetworkPolicy::Blocked)).network(),
        NetworkPolicy::Blocked
    );
    let w = SandboxPolicy::WorkspaceWrite(
        WorkspaceWrite::new(vec![os("/ws")]).network(NetworkPolicy::Allowed),
    );
    assert_eq!(w.network(), NetworkPolicy::Allowed);
}

#[test]
fn is_full_access_only_for_danger() {
    assert!(SandboxPolicy::DangerFullAccess.is_full_access());
    assert!(!SandboxPolicy::ReadOnly(ReadOnly::new(NetworkPolicy::Blocked)).is_full_access());
}

#[test]
fn parses_each_shape() {
    assert_eq!(
        HostPattern::parse("example.com"),
        HostPattern::Exact("example.com".into())
    );
    assert_eq!(
        HostPattern::parse("*.example.com"),
        HostPattern::SubdomainsOnly("example.com".into())
    );
    assert_eq!(
        HostPattern::parse("**.example.com"),
        HostPattern::ApexAndSubdomains("example.com".into())
    );
    assert_eq!(HostPattern::parse("*"), HostPattern::Any);
}

#[test]
fn round_trips_to_string() {
    for s in ["example.com", "*.example.com", "**.example.com", "*"] {
        assert_eq!(HostPattern::parse(s).to_pattern_string(), s);
    }
}

#[test]
fn lowercases_host() {
    assert_eq!(
        HostPattern::parse("Example.COM"),
        HostPattern::Exact("example.com".into())
    );
}

#[test]
fn proxied_carries_allowlist() {
    let n = NetworkPolicy::Proxied {
        allowlist: vec![HostPattern::parse("*.example.com")],
    };
    let NetworkPolicy::Proxied { allowlist } = &n else {
        panic!("expected Proxied")
    };
    assert_eq!(allowlist.len(), 1);
}

#[test]
fn white_space_around_a_pattern_does_not_count() {
    assert_eq!(HostPattern::parse(" \t*\n"), HostPattern::Any);
    assert_eq!(
        HostPattern::parse("\u{3000}*.X.org "),
        HostPattern::SubdomainsOnly("x.org".into())
    );
    assert_eq!(HostPattern::parse(" "), HostPattern::Exact("".into()));
    assert_eq!(
        HostPattern::parse("***.x"),
        HostPattern::Exact("***.x".into())
    );
}

#[test]
fn patterns_that_are_not_canonical_do_not_round_trip() {
    for p in [
        HostPattern::Exact("*".into()),
        HostPattern::Exact("*.x".into()),
        HostPattern::Exact("X".into()),
        HostPattern::SubdomainsOnly("x ".into()),
    ] {
        assert_ne!(HostPattern::parse(&p.to_pattern_string()), p);
    }
    let p = HostPattern::SubdomainsOnly(" x".into());
    assert_eq!(HostPattern::parse(&p.to_pattern_string()), p);
}

#[test]
fn network_is_blocked_by_default() {
    assert_eq!(NetworkPolicy::default(), NetworkPolicy::Blocked);
}

#[test]
fn deny_read_accumulates() {
    let r = ReadOnly::new(NetworkPolicy::Blocked)
        .deny_read("**/.env")
        .deny_read("**/*.pem");
    assert_eq!(r.deny_read_globs, vec!["**/.env", "**/*.pem"]);
    assert_eq!(
        SandboxPolicy::ReadOnly(r).deny_read_globs(),
        vec!["**/.env", "**/*.pem"]
    );
    let w = WorkspaceWrite::new(vec![os("/ws")]).deny_read("**/.aws/**");
    let p = SandboxPolicy::WorkspaceWrite(w);
    assert_eq!(p.clone().deny_read_globs(), vec!["**/.aws/**"]);
    assert_eq!(p.writable_roots(), vec![os("/ws")]);
    assert!(SandboxPolicy::DangerFullAccess.deny_read_globs().is_empty());
}

#[test]
fn a_copy_of_a_policy_is_the_same_policy() {
    for p in [
        SandboxPolicy::DangerFullAccess,
        SandboxPolicy::ReadOnly(ReadOnly::new(NetworkPolicy::Blocked)),
        SandboxPolicy::WorkspaceWrite(WorkspaceWrite::new(vec![])),
    ] {
        assert_eq!(p.clone(), p);
    }
}
