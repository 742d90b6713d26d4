use motosan_sandbox::seatbelt::{
    build_policy, deny_read_regexes, transform_seatbelt, Param, SEATBELT_EXE,
};
use motosan_sandbox::transform::resolve_deny_globs;
use motosan_sandbox::{
    EnvMap, Error, HostPattern, NetworkPolicy, OsText, ReadOnly, SandboxCommand, SandboxPolicy,
    WorkspaceWrite,
};

fn os(s: &str) -> OsText {
    OsText::new(s)
}

fn read_only(network: NetworkPolicy) -> SandboxPolicy {
    SandboxPolicy::ReadOnly(ReadOnly::new(network))
}

#[test]
fn base_policy_denies_by_default() {
    let (text, params) = build_policy(&read_only(NetworkPolicy::Blocked), None, &vec![]).unwrap();
    assert!(text.contains("(deny default)"));
    assert!(text.contains("(allow file-read*)"));
    assert!(!text.contains("(allow network*)"));
    assert!(!text.contains("file-write* (subpath"));
    assert!(params.is_empty());
}

#[test]
fn read_only_with_network_adds_network_rule() {
    let (text, _) = build_policy(&read_only(NetworkPolicy::Allowed), None, &vec![]).unwrap();
    assert!(text.contains("(allow network*)"));
}

#[test]
fn workspace_write_emits_writable_and_readonly_params() {
    let w = WorkspaceWrite::new(vec![os("/ws"), os("/cache")]).read_only(os("/ws/secrets"));
    let (text, params) = build_policy(&SandboxPolicy::WorkspaceWrite(w), None, &vec![]).unwrap();

    assert!(text.contains("(allow file-write* (subpath (param \"WRITABLE_ROOT_0\")))"));
    assert!(text.contains("(allow file-write* (subpath (param \"WRITABLE_ROOT_1\")))"));
    assert!(text.contains("(deny file-write* (subpath (param \"READONLY_SUB_0\")))"));

    assert_eq!(params.len(), 3);
    assert_eq!(
        params[0],
        Param {
            name: "WRITABLE_ROOT_0".into(),
            value: "/ws".into()
        }
    );
    assert_eq!(
        params[1],
        Param {
            name: "WRITABLE_ROOT_1".into(),
            value: "/cache".into()
        }
    );
    assert_eq!(
        params[2],
        Param {
            name: "READONLY_SUB_0".into(),
            value: "/ws/secrets".into()
        }
    );
}

#[test]
fn proxied_emits_localhost_port_rule() {
    let policy = SandboxPolicy::WorkspaceWrite(WorkspaceWrite::new(vec![os("/ws")]).network(
        NetworkPolicy::Proxied {
            allowlist: vec![HostPattern::parse("*.example.com")],
        },
    ));
    let (text, _) = build_policy(&policy, Some(54321), &vec![]).unwrap();
    assert!(
        text.contains("(allow network-outbound (remote ip \"localhost:54321\"))"),
        "got: {text}"
    );
    assert!(!text.contains("(allow network*)"));
}

#[test]
fn proxied_without_addr_fails_closed() {
    let policy = read_only(NetworkPolicy::Proxied { allowlist: vec![] });
    let err = build_policy(&policy, None, &vec![]).unwrap_err();
    assert!(
        matches!(err, Error::Transform(ref m) if m.contains("proxied")),
        "expected Transform error, got {err:?}"
    );
}

#[test]
fn base_policy_grants_posix_ipc() {
    let (text, _) = build_policy(&read_only(NetworkPolicy::Blocked), None, &vec![]).unwrap();
    assert!(text.contains("(allow ipc-posix-sem)"));
    assert!(text.contains("ipc-posix-shm-write-create"));
    assert!(text.contains("__KMP_REGISTERED_LIB_"));
}

#[test]
fn glob_to_deny_regexes_translates_and_anchors() {
    let rs = deny_read_regexes("/Users/x/.aws/**").unwrap();
    assert!(rs.iter().any(|r| r == r"^/Users/x/\.aws/.*$"));
    assert!(rs.iter().any(|r| r == r"^/Users/x/\.aws$"));
    assert_eq!(rs.len(), 2);
}

#[test]
fn glob_to_deny_regexes_single_star_is_segment_scoped() {
    let rs = deny_read_regexes("/ws/*.pem").unwrap();
    assert!(rs.iter().any(|r| r == r"^/ws/[^/]*\.pem$"));
}

#[test]
fn glob_to_deny_regexes_resolves_relative_against_cwd() {
    let globs = resolve_deny_globs(&vec![".env".to_string()], &os("/work/s"));
    let rs = deny_read_regexes(&globs[0]).unwrap();
    assert!(rs.iter().any(|r| r == r"^/work/s/\.env$"));
    assert_eq!(rs.len(), 1);
}

#[test]
fn a_wildcard_in_the_first_name_adds_no_directory() {
    assert_eq!(deny_read_regexes("/*").unwrap(), vec!["^/[^/]*$"]);
    assert_eq!(deny_read_regexes("*").unwrap(), vec!["^[^/]*$"]);
    assert_eq!(deny_read_regexes("/a/b*").unwrap(), vec!["^/a/b[^/]*$", "^/a$"]);
}

#[test]
fn hidden_globs_are_the_last_rules() {
    let policy = SandboxPolicy::WorkspaceWrite(
        WorkspaceWrite::new(vec![os("/w")])
            .read_only(os("/w/r"))
            .network(NetworkPolicy::Allowed),
    );
    let globs = vec!["/w/a\"b".to_string(), "/k/**".to_string()];
    let (text, _) = build_policy(&policy, None, &globs).unwrap();
    let added = [
        "(allow file-write* (subpath (param \"WRITABLE_ROOT_0\")))",
        "(deny file-write* (subpath (param \"READONLY_SUB_0\")))",
        "(allow network*)",
        "(deny file-read* (regex #\"^/w/a\\\"b$\"))",
        "(deny file-read* (regex #\"^/k/.*$\"))",
        "(deny file-read* (regex #\"^/k$\"))",
    ]
    .join("\n");
    assert!(text.ends_with(&format!("\n{}", added)), "got: {text}");
    assert!(text.starts_with("(version 1)\n(deny default)\n"));
}

#[test]
fn the_command_follows_the_profile() {
    let cmd = SandboxCommand {
        program: os("/bin/echo"),
        args: vec![os("a"), os("b")],
        cwd: os("/c"),
        env: EnvMap::new(),
    };
    let policy = SandboxPolicy::WorkspaceWrite(
        WorkspaceWrite::new(vec![os("/w"), os("/x")]).network(NetworkPolicy::Allowed),
    );
    let req = transform_seatbelt(&cmd, &policy, None, &vec![]).unwrap();
    assert_eq!(req.program, os(SEATBELT_EXE));
    assert_eq!(req.cwd, os("/c"));
    assert_eq!(req.arg0, None);
    let args: Vec<String> = req.args.iter().map(|a| a.to_string_lossy()).collect();
    assert_eq!(args[0], "-p");
    assert_eq!(
        args[2..],
        ["-D", "WRITABLE_ROOT_0=/w", "-D", "WRITABLE_ROOT_1=/x", "--", "/bin/echo", "a", "b"]
    );
    let proxied = read_only(NetworkPolicy::Proxied { allowlist: vec![] });
    assert!(transform_seatbelt(&cmd, &proxied, None, &vec![]).is_err());
}

#[test]
fn what_follows_a_double_star_is_found_at_any_depth() {
    assert_eq!(
        deny_read_regexes("/a/**/b.env").unwrap(),
        vec!["^/a/.*b\\.env$", "^/a$"]
    );
    assert_eq!(deny_read_regexes("/a/b.env").unwrap(), vec!["^/a/b\\.env$"]);
}

#[test]
fn malformed_globs_are_refused() {
    for glob in ["/ws/[ab.pem", "/ws/{a,b.pem", "/ws/a}", "/ws/a\\", "/ws/[b-a]"] {
        assert!(deny_read_regexes(glob).is_none());
        let globs = vec!["/ok/**".to_string(), glob.to_string()];
        let err = build_policy(&read_only(NetworkPolicy::Blocked), None, &globs).unwrap_err();
        let want = format!("malformed deny-read glob '{}'", glob);
        assert!(matches!(err, Error::Transform(ref m) if *m == want), "got {err:?}");
    }
    assert!(deny_read_regexes("/ws/a],b").is_some());
}

#[test]
fn classes_groups_and_escapes_are_hidden() {
    assert_eq!(
        deny_read_regexes("/ws/[ab].pem").unwrap(),
        vec![r"^/ws/[ab]\.pem$", "^/ws$"]
    );
    assert_eq!(
        deny_read_regexes("/ws/{a,b}.pem").unwrap(),
        vec![r"^/ws/(a|b)\.pem$", "^/ws$"]
    );
    assert_eq!(deny_read_regexes(r"/ws/\*.pem").unwrap(), vec![r"^/ws/\*\.pem$"]);
    assert_eq!(
        deny_read_regexes(r"/w\[s]/[!0-9]*").unwrap(),
        vec![r"^/w\[s\]/[^0-9][^/]*$", r"^/w\[s\]$"]
    );
}

#[test]
fn a_directory_with_marks_stands_for_itself() {
    let globs = vec![".env".to_string(), "k/*".to_string()];
    let globs = resolve_deny_globs(&globs, &os("/h/[p]/{a,b}*"));
    assert_eq!(deny_read_regexes(&globs[0]).unwrap(), vec![r"^/h/\[p\]/\{a,b\}\*/\.env$"]);
    assert_eq!(
        deny_read_regexes(&globs[1]).unwrap(),
        vec![r"^/h/\[p\]/\{a,b\}\*/k/[^/]*$", r"^/h/\[p\]/\{a,b\}\*/k$"]
    );
}
