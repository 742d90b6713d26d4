use motosan_sandbox::helper::{
    give_up, helper_steps, inner_argv, inner_stage_env, landlock_target_env, proxied_target_env,
    run_if_invoked, HelperStart, PolicyInput, Step,
};
use motosan_sandbox::landlock::{check_enforced, landlock_rules, Enforcement};
use motosan_sandbox::reexec::{
    build_reexec_request, classify_helper_exit, HelperMode, HelperPolicy, ProxyRouteEntry,
    ProxyRouteSpec, HELPER_ARG0, POLICY_ENV, STAGE_ENV,
};
use motosan_sandbox::{
    EnvMap, Error, NetworkPolicy, OsText, ReadOnly, SandboxCommand, SandboxKind, SandboxPolicy,
    WorkspaceWrite, NETWORK_DISABLED_ENV,
};

fn os(s: &str) -> OsText {
    OsText::new(s)
}

fn cmd() -> SandboxCommand {
    SandboxCommand {
        program: os("/bin/echo"),
        args: vec![os("hi")],
        cwd: os("/tmp"),
        env: EnvMap::new(),
    }
}

fn landlock(roots: &[&str], network_blocked: bool) -> HelperPolicy {
    HelperPolicy {
        writable_roots: roots.iter().map(|r| os(r)).collect(),
        read_only_subpaths: vec![],
        deny_read_globs: vec![],
        mode: HelperMode::Landlock { network_blocked },
    }
}

fn routes() -> ProxyRouteSpec {
    ProxyRouteSpec {
        routes: vec![
            ProxyRouteEntry {
                env_key: "HTTP_PROXY".to_string(),
                uds_path: os("/t/route-0.sock"),
            },
            ProxyRouteEntry {
                env_key: "HTTPS_PROXY".to_string(),
                uds_path: os("/t/route-1.sock"),
            },
        ],
    }
}

#[test]
fn classifies_reserved_codes() {
    assert!(matches!(
        classify_helper_exit(Some(121)),
        Some(Error::NotEnforced(_))
    ));
    assert!(matches!(
        classify_helper_exit(Some(122)),
        Some(Error::Transform(_))
    ));
    assert!(matches!(
        classify_helper_exit(Some(123)),
        Some(Error::Transform(_))
    ));
}

#[test]
fn passes_through_normal_codes() {
    assert!(classify_helper_exit(Some(0)).is_none());
    assert!(classify_helper_exit(Some(1)).is_none());
    assert!(classify_helper_exit(Some(127)).is_none());
    assert!(classify_helper_exit(None).is_none());
}

#[test]
fn reserved_codes_have_their_messages() {
    let text = |code| classify_helper_exit(Some(code)).unwrap().to_string();
    assert_eq!(
        text(121),
        "sandbox could not be enforced: landlock/seccomp could not be enforced (see child stderr)"
    );
    assert_eq!(
        text(122),
        "failed to build sandbox command: sandbox helper rejected the policy (see child stderr)"
    );
    assert_eq!(
        text(123),
        "failed to build sandbox command: sandbox helper failed to exec the target (see child stderr)"
    );
}

#[test]
fn workspace_write_maps_roots_and_network() {
    let p = SandboxPolicy::WorkspaceWrite(
        WorkspaceWrite::new(vec![os("/ws")]).network(NetworkPolicy::Blocked),
    );
    let h = HelperPolicy::from_policy(&p).unwrap();
    assert_eq!(h, landlock(&["/ws"], true));
}

#[test]
fn read_only_maps_to_no_roots() {
    let h = HelperPolicy::from_policy(&SandboxPolicy::ReadOnly(ReadOnly::new(
        NetworkPolicy::Allowed,
    )))
    .unwrap();
    assert_eq!(h, landlock(&[], false));
}

#[test]
fn read_only_subpaths_rejected_on_landlock_path() {
    let p = SandboxPolicy::WorkspaceWrite(
        WorkspaceWrite::new(vec![os("/ws")]).read_only(os("/ws/secret")),
    );
    assert!(matches!(
        HelperPolicy::from_policy(&p),
        Err(Error::Unsupported(SandboxKind::LinuxSeccomp))
    ));
}

#[test]
fn deny_read_globs_rejected_on_landlock_path() {
    let policy =
        SandboxPolicy::ReadOnly(ReadOnly::new(NetworkPolicy::Blocked).deny_read("**/.env"));
    assert!(matches!(
        HelperPolicy::from_policy(&policy),
        Err(Error::Unsupported(_))
    ));
}

#[test]
fn proxied_rejected_on_landlock_path() {
    let policy = SandboxPolicy::ReadOnly(ReadOnly::new(NetworkPolicy::Proxied {
        allowlist: vec![],
    }));
    assert!(matches!(
        HelperPolicy::from_policy(&policy),
        Err(Error::Unsupported(_))
    ));
}

#[test]
fn for_proxied_carries_deny_read_globs() {
    let h = HelperPolicy::for_proxied(
        vec![os("/ws")],
        vec![os("/ws/ro")],
        vec!["**/.env".to_string()],
        ProxyRouteSpec { routes: vec![] },
    );
    assert_eq!(h.deny_read_globs, vec!["**/.env".to_string()]);
    assert_eq!(h.writable_roots, vec![os("/ws")]);
    assert_eq!(h.read_only_subpaths, vec![os("/ws/ro")]);
    let spec = routes();
    let inner = h.inner(&spec);
    assert_eq!(inner.mode, HelperMode::ProxiedInner { route_spec: spec });
    assert_eq!(inner.deny_read_globs, h.deny_read_globs);
}

#[test]
fn builds_reexec_argv_and_env() {
    let helper = landlock(&["/ws"], true);
    let req = build_reexec_request(
        &cmd(),
        &helper,
        &os("/usr/bin/myhelper"),
        Ok("{\"x\":1}".to_string()),
    )
    .unwrap();
    assert_eq!(req.program, os("/usr/bin/myhelper"));
    assert_eq!(req.arg0, Some(os(HELPER_ARG0)));
    assert_eq!(req.args[0], os("/bin/echo"));
    assert_eq!(req.args[1], os("hi"));
    assert_eq!(req.env.get(&os(POLICY_ENV)), Some(os("{\"x\":1}")));
    assert!(req.env.contains_key(&os(NETWORK_DISABLED_ENV)));
    let open = build_reexec_request(&cmd(), &landlock(&[], false), &os("/h"), Ok(String::new()));
    assert!(!open.unwrap().env.contains_key(&os(NETWORK_DISABLED_ENV)));
}

#[test]
fn a_policy_that_cannot_be_written_is_an_error() {
    let r = build_reexec_request(
        &cmd(),
        &landlock(&[], true),
        &os("/h"),
        Err("path contains invalid UTF-8 characters".to_string()),
    );
    assert!(matches!(
        r,
        Err(Error::Transform(m)) if m == "serialize policy: path contains invalid UTF-8 characters"
    ));
}

#[test]
fn run_if_invoked_is_noop_in_phase0() {
    let start = run_if_invoked(
        &vec![os("/usr/bin/app"), os("--flag")],
        None,
        PolicyInput::Missing("environment variable not found".to_string()),
    );
    assert!(matches!(start, HelperStart::NotInvoked));
    assert!(matches!(
        run_if_invoked(&vec![], None, PolicyInput::Parsed(landlock(&[], true))),
        HelperStart::NotInvoked
    ));
    assert!(matches!(
        run_if_invoked(&vec![os("a")], Some(&os("outer")), PolicyInput::Missing(String::new())),
        HelperStart::NotInvoked
    ));
}

#[test]
fn the_helper_finds_what_it_was_handed() {
    let req = build_reexec_request(
        &cmd(),
        &landlock(&["/ws"], true),
        &os("/h"),
        Ok("json".to_string()),
    )
    .unwrap();
    let mut argv = vec![req.arg0.unwrap()];
    argv.extend(req.args);
    match run_if_invoked(&argv, None, PolicyInput::Parsed(landlock(&["/ws"], true))) {
        HelperStart::Run { policy, command } => {
            assert_eq!(policy, landlock(&["/ws"], true));
            assert_eq!(command, vec![os("/bin/echo"), os("hi")]);
        }
        other => panic!("expected Run, got {:?}", other),
    }
}

#[test]
fn the_second_stage_finds_the_same_command() {
    let command = vec![os("/bin/echo"), os("a b"), os("")];
    let argv: Vec<OsText> = inner_argv(&os("/h"), &command).iter().map(|s| os(s)).collect();
    assert_eq!(argv[0], os("/h"));
    match run_if_invoked(
        &argv,
        Some(&os("inner")),
        PolicyInput::Parsed(landlock(&[], true)),
    ) {
        HelperStart::Run { command: c, .. } => assert_eq!(c, command),
        other => panic!("expected Run, got {:?}", other),
    }
}

#[test]
fn a_helper_without_command_or_policy_gives_up() {
    let exit = |argv: Vec<OsText>, p: PolicyInput| match run_if_invoked(&argv, None, p) {
        HelperStart::Exit { code, message } => (code, message),
        other => panic!("expected Exit, got {:?}", other),
    };
    let me = || os(HELPER_ARG0);
    assert_eq!(
        exit(vec![me()], PolicyInput::Parsed(landlock(&[], true))),
        (122, "no command to run".to_string())
    );
    assert_eq!(
        exit(vec![me(), os("x")], PolicyInput::Missing("gone".to_string())),
        (122, "missing MOTOSAN_SANDBOX_POLICY: gone".to_string())
    );
    assert_eq!(
        exit(vec![me(), os("x")], PolicyInput::Malformed("eof".to_string())),
        (122, "bad policy json: eof".to_string())
    );
}

#[test]
fn steps_are_in_order() {
    assert_eq!(
        helper_steps(&HelperMode::Landlock {
            network_blocked: true
        }),
        vec![
            Step::NoNewPrivs,
            Step::BlockNetwork,
            Step::RestrictFiles,
            Step::HidePolicy,
            Step::RunTarget
        ]
    );
    assert_eq!(
        helper_steps(&HelperMode::Landlock {
            network_blocked: false
        }),
        vec![
            Step::NoNewPrivs,
            Step::RestrictFiles,
            Step::HidePolicy,
            Step::RunTarget
        ]
    );
    assert_eq!(
        helper_steps(&HelperMode::ProxiedOuter {
            route_spec: routes()
        })
        .last(),
        Some(&Step::EnterBwrap)
    );
    assert_eq!(
        helper_steps(&HelperMode::ProxiedInner {
            route_spec: routes()
        }),
        vec![
            Step::BindRoutes,
            Step::ForkBridge,
            Step::LeadToBridge,
            Step::NoNewPrivs,
            Step::RouteNetwork,
            Step::RunTarget
        ]
    );
}

#[test]
fn failed_steps_are_reported_to_the_sandbox() {
    assert_eq!(
        give_up(Step::NoNewPrivs, "x"),
        (121, "prctl(PR_SET_NO_NEW_PRIVS) failed".to_string())
    );
    assert_eq!(
        give_up(Step::BlockNetwork, "x"),
        (121, "seccomp install failed: x".to_string())
    );
    assert_eq!(
        give_up(Step::RestrictFiles, "x"),
        (121, "landlock failed: x".to_string())
    );
    assert_eq!(
        give_up(Step::FindBwrap, "x"),
        (121, "bwrap not found".to_string())
    );
    assert_eq!(
        give_up(Step::MaskPaths, "x"),
        (121, "deny-read expand: x".to_string())
    );
    assert_eq!(give_up(Step::ForkBridge, "x").0, 121);
    assert_eq!(
        give_up(Step::RunTarget, "\"p\" failed: x"),
        (123, "exec \"p\" failed: x".to_string())
    );
    assert!(classify_helper_exit(Some(give_up(Step::EnterBwrap, "").0)).is_some());
}

#[test]
fn targets_get_a_clean_environment() {
    let mut env = EnvMap::new();
    env.insert(os(POLICY_ENV), os("p"));
    env.insert(os("HOME"), os("/h"));
    env.insert(os("HTTP_PROXY"), os("old"));
    let plain = landlock_target_env(&env);
    assert!(!plain.contains_key(&os(POLICY_ENV)));
    assert_eq!(plain.get(&os("HOME")), Some(os("/h")));
    let inner = inner_stage_env(&env, "q");
    assert_eq!(inner.get(&os(POLICY_ENV)), Some(os("q")));
    assert_eq!(inner.get(&os(STAGE_ENV)), Some(os("inner")));
    let target = proxied_target_env(&inner, &routes(), &vec![81, 65535]);
    assert!(!target.contains_key(&os(POLICY_ENV)));
    assert!(!target.contains_key(&os(STAGE_ENV)));
    assert_eq!(
        target.get(&os("HTTP_PROXY")),
        Some(os("http://127.0.0.1:81"))
    );
    assert_eq!(
        target.get(&os("HTTPS_PROXY")),
        Some(os("http://127.0.0.1:65535"))
    );
    assert_eq!(target.get(&os("HOME")), Some(os("/h")));
}

#[test]
fn landlock_allows_reading_everywhere_and_writing_below_the_roots() {
    let rules = landlock_rules(&vec![os("/a"), os("/b")]);
    let got: Vec<(String, bool)> = rules
        .iter()
        .map(|r| (r.path.to_string_lossy(), r.write))
        .collect();
    assert_eq!(
        got,
        vec![
            ("/".to_string(), false),
            ("/dev/null".to_string(), true),
            ("/a".to_string(), true),
            ("/b".to_string(), true)
        ]
    );
}

#[test]
fn landlock_that_is_not_enforced_stops_the_helper() {
    assert!(check_enforced(Enforcement::Fully).is_ok());
    assert!(check_enforced(Enforcement::Partially).is_ok());
    assert_eq!(
        check_enforced(Enforcement::NotAtAll),
        Err("Landlock ruleset NotEnforced (kernel too old or disabled)".to_string())
    );
}
