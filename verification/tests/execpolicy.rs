use motosan_sandbox::{EnvMap, ExecDecision, ExecPolicy, OsText, SandboxCommand};

fn cmd(program: &str) -> SandboxCommand {
    SandboxCommand {
        program: OsText::new(program),
        args: Vec::new(),
        cwd: OsText::new("/"),
        env: EnvMap::new(),
    }
}

#[test]
fn basename_entry_allows_bare_absolute_and_relative() {
    let p = ExecPolicy::new().allow("python3");
    assert!(p.check(&cmd("python3")).is_allowed());
    assert!(p.check(&cmd("/usr/bin/python3")).is_allowed());
    assert!(p.check(&cmd("./python3")).is_allowed());
}

#[test]
fn venv_pip_basename_matches_pip_entry() {
    let p = ExecPolicy::new().allow("pip");
    assert!(p.check(&cmd(".venv/bin/pip")).is_allowed());
}

#[test]
fn non_listed_program_denied_with_basename_in_reason() {
    let p = ExecPolicy::new().allow("python3");
    let d = p.check(&cmd("/usr/bin/curl"));
    assert!(d.is_denied());
    if let ExecDecision::Deny { program, reason } = d {
        assert_eq!(program, "curl");
        assert!(reason.contains("'curl'"), "reason was: {reason}");
    } else {
        panic!("expected Deny");
    }
}

#[test]
fn empty_policy_denies_everything() {
    let p = ExecPolicy::new();
    assert!(p.check(&cmd("python3")).is_denied());
    assert!(p.check(&cmd("/bin/sh")).is_denied());
}

#[test]
fn empty_program_string_denies_with_no_usable_name_reason() {
    let p = ExecPolicy::new().allow("python3");
    let d = p.check(&cmd(""));
    if let ExecDecision::Deny { program, reason } = d {
        assert_eq!(program, "");
        assert!(
            reason.contains("no usable program name"),
            "reason was: {reason}"
        );
    } else {
        panic!("expected Deny for empty program");
    }
}

#[test]
fn pure_slash_program_denies_with_allowlist_reason() {
    let p = ExecPolicy::new().allow("python3");
    let d = p.check(&cmd("/"));
    if let ExecDecision::Deny { program, reason } = d {
        assert_eq!(program, "/");
        assert!(
            reason.contains("'/'") && reason.contains("not in the exec allowlist"),
            "reason was: {reason}"
        );
    } else {
        panic!("expected Deny for '/'");
    }
}

#[test]
fn exact_path_entry_pins_one_path_and_denies_lookalikes() {
    let p = ExecPolicy::new().allow("/usr/bin/python3");
    assert!(p.check(&cmd("/usr/bin/python3")).is_allowed());
    assert!(p.check(&cmd("/tmp/evil/python3")).is_denied());
    assert!(p.check(&cmd("python3")).is_denied());
}

#[test]
fn is_allowed_and_is_denied_agree_with_variant() {
    assert!(ExecDecision::Allow.is_allowed());
    assert!(!ExecDecision::Allow.is_denied());
    let d = ExecDecision::Deny {
        program: "x".into(),
        reason: "y".into(),
    };
    assert!(d.is_denied());
    assert!(!d.is_allowed());
}

#[test]
fn builder_chaining_accumulates_the_allowlist() {
    let p = ExecPolicy::new()
        .allow("python3")
        .allow("pip")
        .allow("/usr/bin/jq");
    assert!(p.check(&cmd("python3")).is_allowed());
    assert!(p.check(&cmd("/anywhere/pip")).is_allowed());
    assert!(p.check(&cmd("/usr/bin/jq")).is_allowed());
    assert!(p.check(&cmd("jq")).is_denied());
}

#[test]
fn a_program_that_is_no_text_is_denied_by_its_whole_name() {
    let p = ExecPolicy::new().allow("tool");
    let mut c = cmd("");
    c.program = OsText::from_bytes(b"/bin/to\xffol".to_vec());
    match p.check(&c) {
        ExecDecision::Deny { program, reason } => {
            assert_eq!(program, "/bin/to\u{FFFD}ol");
            assert_eq!(
                reason,
                "program '/bin/to\u{FFFD}ol' is not in the exec allowlist"
            );
        }
        ExecDecision::Allow => panic!("expected Deny"),
    }
}

#[test]
fn allowing_twice_is_allowing_once() {
    let p = ExecPolicy::new().allow("sh").allow("sh").clone();
    assert!(p.check(&cmd("/bin/sh/.")).is_allowed());
    assert!(p.check(&cmd("/bin/sh/..")).is_denied());
    assert!(ExecPolicy::default().check(&cmd("sh")).is_denied());
}
