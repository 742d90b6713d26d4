use motosan_sandbox::denial::has_denial_marker;
use motosan_sandbox::{is_likely_sandbox_denied, ExecOutput, SandboxKind};

fn out(code: Option<i32>, signal: Option<i32>, stderr: &str) -> ExecOutput {
    ExecOutput {
        exit_code: code,
        signal,
        stdout: Vec::new(),
        stderr: stderr.as_bytes().to_vec(),
        timed_out: false,
    }
}

#[test]
fn none_backend_never_denied() {
    let o = out(Some(1), None, "permission denied");
    assert!(!is_likely_sandbox_denied(&o, SandboxKind::Unsandboxed));
}

#[test]
fn clean_exit_not_denied() {
    let o = out(Some(0), None, "permission denied");
    assert!(!is_likely_sandbox_denied(&o, SandboxKind::MacosSeatbelt));
}

#[test]
fn permission_denied_marker_is_denial() {
    let o = out(Some(1), None, "mkdir: Permission denied");
    assert!(is_likely_sandbox_denied(&o, SandboxKind::MacosSeatbelt));
}

#[test]
fn not_found_code_excluded() {
    let o = out(Some(127), None, "command not found");
    assert!(!is_likely_sandbox_denied(&o, SandboxKind::MacosSeatbelt));
}

#[test]
fn sigsys_on_linux_is_denial() {
    let o = out(None, Some(31), "");
    assert!(is_likely_sandbox_denied(&o, SandboxKind::LinuxSeccomp));
}

#[test]
fn netns_network_unreachable_is_denial() {
    let o = out(Some(1), None, "connect: Network is unreachable");
    assert!(is_likely_sandbox_denied(&o, SandboxKind::LinuxSeccomp));
}

#[test]
fn netns_no_route_to_host_is_denial() {
    let o = out(Some(1), None, "curl: (7) No route to host");
    assert!(is_likely_sandbox_denied(&o, SandboxKind::LinuxSeccomp));
}

#[test]
fn connection_refused_is_not_a_sandbox_denial() {
    let o = out(Some(1), None, "connect: Connection refused");
    assert!(!is_likely_sandbox_denied(&o, SandboxKind::LinuxSeccomp));
}

#[test]
fn codes_with_a_meaning_of_their_own_are_no_denial() {
    for code in [2, 126, 127] {
        let o = out(Some(code), None, "Operation not permitted");
        assert!(!is_likely_sandbox_denied(&o, SandboxKind::LinuxSeccomp));
    }
    let o = out(Some(3), None, "Operation not permitted");
    assert!(is_likely_sandbox_denied(&o, SandboxKind::LinuxSeccomp));
}

#[test]
fn sigsys_means_nothing_on_macos() {
    let o = out(None, Some(31), "");
    assert!(!is_likely_sandbox_denied(&o, SandboxKind::MacosSeatbelt));
}

#[test]
fn markers_are_found_in_stdout_and_beside_bytes_that_are_no_text() {
    let mut o = out(Some(1), None, "");
    o.stdout = b"\xff\xfe LANDLOCK says no".to_vec();
    assert!(is_likely_sandbox_denied(&o, SandboxKind::LinuxSeccomp));
}

#[test]
fn markers_are_found_in_upper_case_outside_ascii() {
    // The Kelvin sign is a capital letter whose lower-case form is the letter k.
    let o = out(Some(1), None, "Networ\u{212A} is unreachable");
    assert!(is_likely_sandbox_denied(&o, SandboxKind::LinuxSeccomp));
}

#[test]
fn a_marker_does_not_span_the_two_streams() {
    let mut o = out(Some(1), None, "denied");
    o.stdout = b"permission ".to_vec();
    assert!(!is_likely_sandbox_denied(&o, SandboxKind::LinuxSeccomp));
}

#[test]
fn every_marker_is_recognised_and_nothing_else() {
    for m in [
        "operation not permitted",
        "permission denied",
        "read-only file system",
        "seccomp",
        "sandbox",
        "landlock",
        "network is unreachable",
        "no route to host",
    ] {
        assert!(has_denial_marker(&format!("x {} y", m)), "{}", m);
        assert!(!has_denial_marker(&m[1..]), "{}", m);
    }
    assert!(!has_denial_marker(""));
    assert!(!has_denial_marker("Permission denied"));
}

#[test]
fn both_streams_count_alike() {
    let samples: [&[u8]; 6] = [
        b"",
        b"permission",
        b" denied",
        b"Permission Denied",
        "\u{3a3}\u{39f}\u{3a3}".as_bytes(),
        b"\xff SANDBOX",
    ];
    for a in samples {
        for b in samples {
            for code in [Some(0), Some(1), None] {
                let mut one = out(code, None, "");
                one.stdout = a.to_vec();
                one.stderr = b.to_vec();
                let mut other = one.clone();
                other.stdout = b.to_vec();
                other.stderr = a.to_vec();
                other.timed_out = true;
                let kind = SandboxKind::LinuxSeccomp;
                assert_eq!(
                    is_likely_sandbox_denied(&one, kind),
                    is_likely_sandbox_denied(&other, kind)
                );
            }
        }
    }
}

#[test]
fn a_line_break_ends_a_word() {
    for a in ["\u{3a3}", "A\u{3a3}", "\u{130}x", ""] {
        for b in ["\u{3a3}", "\u{3a3}a", "b\u{3a3}", ""] {
            let both = format!("{}\n{}", a, b);
            let apart = format!("{}\n{}", a.to_lowercase(), b.to_lowercase());
            assert_eq!(both.to_lowercase(), apart);
        }
    }
}
