use motosan_sandbox::bridge::{
    address_failure_matters, raised_flags, route_spec, routed_proxy_env_keys, set_iface_name,
};
use motosan_sandbox::reexec::{HelperMode, ProxyRouteEntry, ProxyRouteSpec};
use motosan_sandbox::sandbox::ProxyPlan;
use motosan_sandbox::spawn::{cap, finish_run, Capture, StopReason};
use motosan_sandbox::transform::{build_env, resolve_deny_globs};
use motosan_sandbox::{
    EnvMap, Error, Host, HostPattern, NetworkPolicy, OsText, ProxyHandle, ReadOnly, RunOpts,
    Sandbox, SandboxCommand, SandboxKind, SandboxPolicy, SpawnRequest, TransformCtx, Transformed,
    WorkspaceWrite, NETWORK_DISABLED_ENV,
};

fn os(s: &str) -> OsText {
    OsText::new(s)
}

fn cmd() -> SandboxCommand {
    SandboxCommand {
        program: os("echo"),
        args: vec![os("hi")],
        cwd: os("/tmp"),
        env: EnvMap::new(),
    }
}

fn host(kind: SandboxKind) -> Host {
    Host {
        kind,
        proxy_built: true,
        current_exe: Ok(os("/me")),
    }
}

fn read_only(network: NetworkPolicy) -> SandboxPolicy {
    SandboxPolicy::ReadOnly(ReadOnly::new(network))
}

fn proxied() -> NetworkPolicy {
    NetworkPolicy::Proxied {
        allowlist: vec![HostPattern::parse("*.Example.com"), HostPattern::Any],
    }
}

fn ready(r: Result<Transformed, Error>) -> SpawnRequest {
    match r {
        Ok(Transformed::Ready(req)) => req,
        other => panic!("expected Ready, got {:?}", other),
    }
}

fn routes() -> ProxyRouteSpec {
    ProxyRouteSpec {
        routes: vec![ProxyRouteEntry {
            env_key: "HTTP_PROXY".to_string(),
            uds_path: os("/t/route-0.sock"),
        }],
    }
}

#[test]
fn detect_matches_target() {
    assert_eq!(Sandbox::detect("macos"), SandboxKind::MacosSeatbelt);
    assert_eq!(Sandbox::detect("linux"), SandboxKind::LinuxSeccomp);
    assert_eq!(Sandbox::detect("windows"), SandboxKind::Unsandboxed);
}

#[test]
fn run_opts_default_is_empty() {
    let o = RunOpts::default();
    assert!(o.timeout.is_none());
    assert_eq!(o.max_output_bytes, 0);
}

#[test]
fn transform_ctx_default_has_no_proxy() {
    let ctx = TransformCtx::default();
    assert!(ctx.proxy.is_none());
}

#[test]
fn build_env_sets_marker_when_network_blocked() {
    let env = build_env(&cmd(), &read_only(NetworkPolicy::Blocked));
    assert_eq!(env.get(&os(NETWORK_DISABLED_ENV)), Some(os("1")));
}

#[test]
fn build_env_omits_marker_when_network_allowed() {
    let env = build_env(&cmd(), &read_only(NetworkPolicy::Allowed));
    assert!(!env.contains_key(&os(NETWORK_DISABLED_ENV)));
}

#[test]
fn build_env_omits_marker_when_proxied() {
    let env = build_env(
        &cmd(),
        &read_only(NetworkPolicy::Proxied { allowlist: vec![] }),
    );
    assert!(!env.contains_key(&os(NETWORK_DISABLED_ENV)));
}

#[test]
fn danger_full_access_is_passthrough() {
    for kind in [
        SandboxKind::Unsandboxed,
        SandboxKind::MacosSeatbelt,
        SandboxKind::LinuxSeccomp,
    ] {
        let req = ready(Sandbox::new().transform(
            &cmd(),
            &SandboxPolicy::DangerFullAccess,
            &TransformCtx::default(),
            &host(kind),
        ));
        assert_eq!(req.program, os("echo"));
        assert_eq!(req.args, vec![os("hi")]);
        assert!(!req.env.contains_key(&os(NETWORK_DISABLED_ENV)));
    }
}

#[test]
fn seatbelt_argv_wraps_sandbox_exec() {
    let policy = SandboxPolicy::WorkspaceWrite(
        WorkspaceWrite::new(vec![os("/tmp/ws")]).network(NetworkPolicy::Blocked),
    );
    let mut c = cmd();
    c.program = os("/bin/echo");
    c.args = vec![os("hello")];
    let req = ready(Sandbox::new().transform(
        &c,
        &policy,
        &TransformCtx::default(),
        &host(SandboxKind::MacosSeatbelt),
    ));

    assert_eq!(req.program, os("/usr/bin/sandbox-exec"));
    assert_eq!(req.args[0], os("-p"));
    let policy_text = req.args[1].to_string_lossy();
    assert!(policy_text.contains("(deny default)"));
    assert!(policy_text.contains("WRITABLE_ROOT_0"));

    let has_root = req
        .args
        .windows(2)
        .any(|w| w[0] == os("-D") && w[1] == os("WRITABLE_ROOT_0=/tmp/ws"));
    assert!(
        has_root,
        "expected -D WRITABLE_ROOT_0=/tmp/ws in {:?}",
        req.args
    );

    let dd = req.args.iter().position(|a| a == &os("--")).unwrap();
    assert_eq!(req.args[dd + 1], os("/bin/echo"));
    assert_eq!(req.args[dd + 2], os("hello"));

    assert!(req.env.contains_key(&os(NETWORK_DISABLED_ENV)));
}

#[test]
fn a_platform_without_backend_runs_the_command_with_the_marker() {
    let req = ready(Sandbox::new().transform(
        &cmd(),
        &read_only(NetworkPolicy::Blocked),
        &TransformCtx::default(),
        &host(SandboxKind::Unsandboxed),
    ));
    assert_eq!(req.program, os("echo"));
    assert_eq!(req.env.get(&os(NETWORK_DISABLED_ENV)), Some(os("1")));
}

#[test]
fn a_proxied_command_on_macos_is_led_to_the_proxy() {
    let proxy = ProxyHandle { port: 8080 };
    let ctx = TransformCtx {
        proxy: Some(&proxy),
        route_spec: None,
    };
    let req = ready(Sandbox::new().transform(
        &cmd(),
        &read_only(proxied()),
        &ctx,
        &host(SandboxKind::MacosSeatbelt),
    ));
    for key in ["HTTP_PROXY", "HTTPS_PROXY", "ALL_PROXY"] {
        assert_eq!(req.env.get(&os(key)), Some(os("http://127.0.0.1:8080")));
    }
    assert_eq!(
        req.env.get(&os("NO_PROXY")),
        Some(os("localhost,127.0.0.1,::1"))
    );
    assert!(req.args[1]
        .to_string_lossy()
        .contains("(allow network-outbound (remote ip \"localhost:8080\"))"));
    let r = Sandbox::new().transform(
        &cmd(),
        &read_only(proxied()),
        &TransformCtx::default(),
        &host(SandboxKind::MacosSeatbelt),
    );
    assert!(matches!(r, Err(Error::Transform(m)) if m == "proxied policy needs a running proxy"));
}

#[test]
fn a_command_on_linux_is_handed_to_the_helper() {
    let policy = SandboxPolicy::WorkspaceWrite(WorkspaceWrite::new(vec![os("/ws")]));
    let ctx = TransformCtx::default();
    let at = host(SandboxKind::LinuxSeccomp);
    match Sandbox::new().transform(&cmd(), &policy, &ctx, &at) {
        Ok(Transformed::Reexec { helper, helper_exe }) => {
            assert_eq!(helper_exe, os("/me"));
            assert_eq!(helper.writable_roots, vec![os("/ws")]);
            assert_eq!(
                helper.mode,
                HelperMode::Landlock {
                    network_blocked: true
                }
            );
        }
        other => panic!("expected Reexec, got {:?}", other),
    }
    match Sandbox::new()
        .with_helper_exe(os("/helper"))
        .transform(&cmd(), &policy, &ctx, &at)
    {
        Ok(Transformed::Reexec { helper_exe, .. }) => assert_eq!(helper_exe, os("/helper")),
        other => panic!("expected Reexec, got {:?}", other),
    }
}

#[test]
fn a_helper_that_cannot_be_told_is_an_error() {
    let mut at = host(SandboxKind::LinuxSeccomp);
    at.current_exe = Err("gone".to_string());
    let r = Sandbox::default().transform(
        &cmd(),
        &read_only(NetworkPolicy::Blocked),
        &TransformCtx::default(),
        &at,
    );
    assert!(matches!(r, Err(Error::Transform(m)) if m == "resolve current_exe: gone"));
}

#[test]
fn a_proxied_command_on_linux_carries_everything_to_bwrap() {
    let policy = SandboxPolicy::WorkspaceWrite(
        WorkspaceWrite::new(vec![os("/ws")])
            .read_only(os("/ws/ro"))
            .network(proxied())
            .deny_read(".env")
            .deny_read("/k/**"),
    );
    let spec = routes();
    let ctx = TransformCtx {
        proxy: None,
        route_spec: Some(&spec),
    };
    match Sandbox::new().transform(&cmd(), &policy, &ctx, &host(SandboxKind::LinuxSeccomp)) {
        Ok(Transformed::Reexec { helper, .. }) => {
            assert_eq!(helper.read_only_subpaths, vec![os("/ws/ro")]);
            assert_eq!(helper.deny_read_globs, vec!["/tmp/.env", "/k/**"]);
            assert_eq!(
                helper.mode,
                HelperMode::ProxiedOuter {
                    route_spec: routes()
                }
            );
        }
        other => panic!("expected Reexec, got {:?}", other),
    }
}

#[test]
fn linux_refuses_what_it_cannot_enforce() {
    let at = host(SandboxKind::LinuxSeccomp);
    let ctx = TransformCtx::default();
    let carved = SandboxPolicy::WorkspaceWrite(
        WorkspaceWrite::new(vec![os("/ws")]).read_only(os("/ws/secret")),
    );
    let hidden = SandboxPolicy::ReadOnly(ReadOnly::new(NetworkPolicy::Allowed).deny_read("/x"));
    for policy in [carved, hidden] {
        assert!(matches!(
            Sandbox::new().transform(&cmd(), &policy, &ctx, &at),
            Err(Error::Unsupported(SandboxKind::LinuxSeccomp))
        ));
    }
    assert!(matches!(
        Sandbox::new().transform(&cmd(), &read_only(proxied()), &ctx, &at),
        Err(Error::Transform(m)) if m == "Linux Proxied transform needs route_spec (run() bug)"
    ));
    let mut no_proxy = host(SandboxKind::LinuxSeccomp);
    no_proxy.proxy_built = false;
    assert!(matches!(
        Sandbox::new().transform(&cmd(), &read_only(proxied()), &ctx, &no_proxy),
        Err(Error::Unsupported(SandboxKind::LinuxSeccomp))
    ));
}

#[test]
fn the_proxy_is_planned_where_the_policy_asks_for_it() {
    let sb = Sandbox::new();
    let p = read_only(proxied());
    let linux = host(SandboxKind::LinuxSeccomp);
    let macos = host(SandboxKind::MacosSeatbelt);
    assert_eq!(
        sb.maybe_start_proxy(&p, &linux, true).unwrap(),
        ProxyPlan::Start {
            patterns: vec!["*.example.com".to_string(), "*".to_string()],
            bridge: true
        }
    );
    assert!(matches!(
        sb.maybe_start_proxy(&p, &linux, false),
        Err(Error::Unsupported(SandboxKind::LinuxSeccomp))
    ));
    assert!(matches!(
        sb.maybe_start_proxy(&p, &macos, false),
        Ok(ProxyPlan::Start { bridge: false, .. })
    ));
    let mut without = host(SandboxKind::MacosSeatbelt);
    without.proxy_built = false;
    assert!(matches!(
        sb.maybe_start_proxy(&p, &without, true),
        Err(Error::Transform(m)) if m == "Proxied policy requires the `proxy` feature"
    ));
    without.kind = SandboxKind::LinuxSeccomp;
    assert!(matches!(
        sb.maybe_start_proxy(&p, &without, true),
        Err(Error::Unsupported(_))
    ));
    for q in [
        SandboxPolicy::DangerFullAccess,
        read_only(NetworkPolicy::Blocked),
        read_only(NetworkPolicy::Allowed),
    ] {
        assert_eq!(
            sb.maybe_start_proxy(&q, &without, false).unwrap(),
            ProxyPlan::Nothing
        );
    }
    assert!(sb.uses_helper(&p, &linux));
    assert!(!sb.uses_helper(&SandboxPolicy::DangerFullAccess, &linux));
    assert!(!sb.uses_helper(&p, &macos));
}

#[test]
fn relative_globs_lie_below_the_working_directory() {
    let globs = vec!["a".to_string(), "/b".to_string(), "".to_string()];
    assert_eq!(
        resolve_deny_globs(&globs, &os("/w//")),
        vec!["/w/a", "/b", "/w/"]
    );
    assert_eq!(resolve_deny_globs(&globs, &os("/")), vec!["/a", "/b", "/"]);
}

#[test]
fn the_working_directory_is_no_glob() {
    let globs = vec!["a*".to_string(), "/[b]".to_string()];
    assert_eq!(
        resolve_deny_globs(&globs, &os("/w*/[x]")),
        vec!["/w\\*/\\[x]/a*", "/[b]"]
    );
}

#[test]
fn globs_are_made_absolute_once() {
    let globs = vec!["a".to_string(), "/b".to_string(), "{c,d}".to_string()];
    for cwd in [os("/w"), os("/"), OsText::from_bytes(vec![b'/', 0xff, b'/', b'w', 0xfe])] {
        let once = resolve_deny_globs(&globs, &cwd);
        assert_eq!(once.len(), globs.len());
        for (glob, was) in once.iter().zip(&globs) {
            assert!(glob.starts_with('/') && glob.ends_with(was.as_str()));
        }
        assert_eq!(once[1], "/b");
        assert_eq!(resolve_deny_globs(&once, &os("/elsewhere")), once);
    }
    let odd = OsText::from_bytes(vec![b'/', b'w', 0xff, b'/']);
    assert_eq!(resolve_deny_globs(&globs, &odd)[0], "/w\u{FFFD}/a");
}

#[test]
fn output_is_capped_at_the_limit() {
    assert_eq!(cap(b"abcdefgh".to_vec(), 4), b"abcd");
    assert_eq!(cap(b"abcdefgh".to_vec(), 8), b"abcdefgh");
    assert_eq!(cap(b"abcdefgh".to_vec(), 0), b"abcdefgh");
    let mut c = Capture::new(4);
    for chunk in ["ab", "", "cdef", "gh"] {
        c.absorb(chunk.as_bytes());
    }
    assert_eq!(c.finish(), b"abcd");
    let mut all = Capture::new(0);
    all.absorb(&[7u8; 1000]);
    all.absorb(&[8u8; 1000]);
    assert_eq!(all.finish().len(), 2000);
}

#[test]
fn the_exit_codes_of_the_helper_are_errors_only_for_the_helper() {
    let streams = || {
        let mut out = Capture::new(0);
        out.absorb(b"o");
        let mut err = Capture::new(0);
        err.absorb(b"e");
        (out, err)
    };
    let (o, e) = streams();
    let r = finish_run(Some(121), None, o, e, StopReason::Exited, true);
    assert!(matches!(r, Err(Error::NotEnforced(_))));
    let (o, e) = streams();
    let out = finish_run(Some(121), None, o, e, StopReason::Exited, false).unwrap();
    assert_eq!(out.exit_code, Some(121));
    assert_eq!(out.stdout, b"o");
    assert_eq!(out.stderr, b"e");
    assert!(!out.timed_out);
    let (o, e) = streams();
    let out = finish_run(None, Some(9), o, e, StopReason::Timeout, true).unwrap();
    assert_eq!((out.exit_code, out.signal, out.timed_out), (None, Some(9), true));
    let (o, e) = streams();
    let out = finish_run(None, Some(9), o, e, StopReason::Cancelled, true).unwrap();
    assert!(!out.timed_out);
    assert!(StopReason::Timeout.kills() && StopReason::Cancelled.kills());
    assert!(!StopReason::Exited.kills());
}

#[test]
fn routes_match_env_keys_in_order() {
    let keys = routed_proxy_env_keys();
    assert_eq!(keys, vec!["HTTP_PROXY", "HTTPS_PROXY", "ALL_PROXY"]);
    let spec = route_spec(&os("/tmp/d"), &keys);
    let got: Vec<&str> = spec.routes.iter().map(|r| r.env_key.as_str()).collect();
    assert_eq!(got, keys);
    let mut paths: Vec<String> = spec
        .routes
        .iter()
        .map(|r| r.uds_path.to_string_lossy())
        .collect();
    assert_eq!(paths[1], "/tmp/d/route-1.sock");
    paths.sort();
    paths.dedup();
    assert_eq!(paths.len(), keys.len());
}

#[test]
fn set_iface_name_pads_and_truncates() {
    let mut field = [0u8; 16];
    set_iface_name(&mut field, b"lo");
    assert_eq!(field[0], b'l');
    assert_eq!(field[1], b'o');
    assert_eq!(field[2], 0);
    let mut long = [0u8; 16];
    set_iface_name(&mut long, b"abcdefghijklmnopqrst");
    assert_eq!(&long, b"abcdefghijklmno\0");
}

#[test]
fn the_loopback_device_is_brought_up() {
    let flags = raised_flags(0x8, libc::IFF_UP as i16, libc::IFF_RUNNING as i16);
    assert_eq!(flags, 0x8 | 0x1 | 0x40);
    assert!(!address_failure_matters(Some(libc::EEXIST), libc::EEXIST));
    assert!(address_failure_matters(Some(libc::EPERM), libc::EEXIST));
    assert!(address_failure_matters(None, libc::EEXIST));
}

#[test]
fn requests_and_results_can_be_copied() {
    let req = ready(Sandbox::new().transform(
        &cmd(),
        &read_only(NetworkPolicy::Blocked),
        &TransformCtx::default(),
        &host(SandboxKind::Unsandboxed),
    ));
    assert_eq!(req.clone(), req);
    let mut err = Capture::new(0);
    err.absorb(b"e");
    let out = finish_run(Some(3), None, Capture::new(0), err, StopReason::Exited, false).unwrap();
    assert_eq!(out.clone(), out);
    assert_eq!(out.clone().stderr, b"e");
}
