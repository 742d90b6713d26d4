use motosan_sandbox::bwrap::{
    build_bwrap_argv, bwrap_candidates, expand_deny_read_masks, find_bwrap, masks_from_verdicts,
    static_prefix_dir, MaskError, WalkEntry,
};
use motosan_sandbox::transform::resolve_deny_globs;
use motosan_sandbox::OsText;

fn os(s: &str) -> OsText {
    OsText::new(s)
}

fn found(path: &str, is_dir: bool) -> WalkEntry {
    WalkEntry {
        path: os(path),
        is_dir,
    }
}

#[test]
fn expand_deny_read_masks_files_and_dirs() {
    let root = "/tmp/root";
    let tree = || {
        vec![
            found(root, true),
            found("/tmp/root/sub", true),
            found("/tmp/root/sub/.env", false),
            found("/tmp/root/secretdir", true),
        ]
    };
    let globs = vec![format!("{}/**/.env", root), format!("{}/secretdir", root)];
    let masks = expand_deny_read_masks(&globs, &vec![tree(), tree()]).unwrap();
    let file = "/tmp/root/sub/.env".to_string();
    let dir = "/tmp/root/secretdir".to_string();
    assert!(masks
        .windows(3)
        .any(|w| w == ["--ro-bind", "/dev/null", &file]));
    assert!(masks.windows(2).any(|w| w == ["--tmpfs", &dir]));
    assert_eq!(masks.len(), 5);
}

#[test]
fn build_bwrap_argv_emits_masks_after_writable_binds() {
    let argv = build_bwrap_argv(
        &vec![os("/ws")],
        &vec![],
        &vec!["--tmpfs".to_string(), "/ws/secret".to_string()],
        &vec!["/inner".to_string()],
    );
    let s = argv.join(" ");
    let writable_idx = s.find("--bind /ws /ws").unwrap();
    let mask_idx = s.find("--tmpfs /ws/secret").unwrap();
    assert!(
        mask_idx > writable_idx,
        "masks must come after writable binds"
    );
}

#[test]
fn argv_has_ro_root_writable_bind_and_unshare_net() {
    let argv = build_bwrap_argv(
        &vec![os("/ws")],
        &vec![os("/ws/secret")],
        &vec![],
        &vec![
            "/inner".into(),
            "--mode=proxied-inner".into(),
            "--".into(),
            "/bin/true".into(),
        ],
    );
    let s = argv.join(" ");
    assert!(s.contains("--ro-bind / /"));
    assert!(s.contains("--bind /ws /ws"));
    assert!(s.contains("--ro-bind /ws/secret /ws/secret"));
    assert!(s.contains("--unshare-net"));
    assert!(s.contains("--unshare-pid"));
    assert!(s.contains("--unshare-user"));
    assert!(s.contains("--proc /proc"));
    assert!(s.contains("--dev /dev"));
    let dd = argv.iter().position(|x| x == "--").unwrap();
    assert_eq!(argv[dd + 1], "/inner");
    assert_eq!(argv[dd + 2], "--mode=proxied-inner");
}

#[test]
fn writable_roots_are_sorted_shallow_to_deep() {
    let argv = build_bwrap_argv(
        &vec![os("/a/b/c"), os("/a"), os("/a/b")],
        &vec![],
        &vec![],
        &vec!["/inner".into()],
    );
    let pos = |needle: &str| {
        argv.iter()
            .position(|w| w == needle)
            .unwrap_or_else(|| panic!("missing {needle}"))
    };
    assert!(pos("/a") < pos("/a/b"));
    assert!(pos("/a/b") < pos("/a/b/c"));
}

#[test]
fn ro_carveouts_emitted_after_writable_binds() {
    let argv = build_bwrap_argv(
        &vec![os("/ws")],
        &vec![os("/ws/secret")],
        &vec![],
        &vec!["/inner".into()],
    );
    let writable_idx = argv
        .windows(3)
        .position(|w| w[0] == "--bind" && w[1] == "/ws" && w[2] == "/ws")
        .expect("missing writable /ws bind");
    let ro_idx = argv
        .windows(3)
        .position(|w| w[0] == "--ro-bind" && w[1] == "/ws/secret" && w[2] == "/ws/secret")
        .expect("missing ro-bind /ws/secret");
    assert!(ro_idx > writable_idx);
}

#[test]
fn no_extra_flags_when_no_roots() {
    let argv = build_bwrap_argv(&vec![], &vec![], &vec![], &vec!["/bin/true".into()]);
    let s = argv.join(" ");
    assert!(s.contains("--new-session"));
    assert!(s.contains("--die-with-parent"));
    assert!(s.contains("--ro-bind / /"));
    assert!(s.contains("--unshare-user"));
    assert!(s.contains("--unshare-pid"));
    assert!(s.contains("--unshare-net"));
    let dd = argv.iter().position(|x| x == "--").unwrap();
    assert_eq!(argv[dd + 1], "/bin/true");
}

#[test]
fn find_bwrap_returns_path_or_none() {
    let candidates = bwrap_candidates(&os("/usr/bin:/bin"));
    let _ = find_bwrap(&candidates, &vec![false, false]);
    assert_eq!(find_bwrap(&candidates, &vec![false, false]), None);
    assert_eq!(
        find_bwrap(&candidates, &vec![false, true]),
        Some(os("/bin/bwrap"))
    );
    assert_eq!(
        find_bwrap(&candidates, &vec![true, true]),
        Some(os("/usr/bin/bwrap"))
    );
}

#[test]
fn empty_directories_of_the_search_path_are_the_current_one() {
    assert_eq!(
        bwrap_candidates(&os("/a/:")),
        vec![os("/a/bwrap"), os("bwrap")]
    );
    assert_eq!(bwrap_candidates(&os("")), vec![os("bwrap")]);
}

#[test]
fn argv_is_exact() {
    let argv = build_bwrap_argv(
        &vec![os("/x/y"), os("/w"), os("/v")],
        &vec![os("/w/r")],
        &vec!["--tmpfs".into(), "/w/s".into()],
        &vec!["/h".into(), "p".into()],
    );
    let want = "--new-session --die-with-parent --ro-bind / / --dev /dev --proc /proc \
        --bind /w /w --bind /v /v --bind /x/y /x/y --ro-bind /w/r /w/r --tmpfs /w/s \
        --unshare-user --unshare-pid --unshare-net -- /h p";
    assert_eq!(argv.join(" "), want);
}

#[test]
fn paths_that_are_no_text_are_passed_with_replacement_characters() {
    let argv = build_bwrap_argv(
        &vec![OsText::from_bytes(b"/w\xff".to_vec())],
        &vec![],
        &vec![],
        &vec![],
    );
    assert_eq!(argv[9..12], ["--bind", "/w\u{FFFD}", "/w\u{FFFD}"]);
}

#[test]
fn the_walk_starts_before_the_first_wildcard() {
    assert_eq!(static_prefix_dir("/a/b/**"), os("/a/b"));
    assert_eq!(static_prefix_dir("/a/*.pem"), os("/a"));
    assert_eq!(static_prefix_dir("/a/b"), os("/a"));
    assert_eq!(static_prefix_dir("/a?/b"), os("/"));
    assert_eq!(static_prefix_dir("/*"), os("/"));
    assert_eq!(static_prefix_dir("**/.env"), os("/"));
    assert_eq!(static_prefix_dir(""), os("/"));
}

#[test]
fn a_glob_that_cannot_be_read_is_an_error() {
    let globs = vec!["/a/[".to_string()];
    match expand_deny_read_masks(&globs, &vec![vec![]]) {
        Err(MaskError::BadGlob { glob, why }) => {
            assert_eq!(glob, "/a/[");
            assert_eq!(
                why,
                "error parsing glob '/a/[': unclosed character class; missing ']'"
            );
        }
        other => panic!("expected BadGlob, got {:?}", other),
    }
}

#[test]
fn globs_match_as_globset_says() {
    let globs = vec!["/w/*.pem".to_string()];
    let walk = vec![
        found("/w", true),
        found("/w/a.pem", false),
        found("/w/a.pe", false),
        found("/w/d/b.pem", false),
        WalkEntry {
            path: OsText::from_bytes(b"/w/\xff.pem".to_vec()),
            is_dir: false,
        },
    ];
    let masks = expand_deny_read_masks(&globs, &vec![walk]).unwrap();
    let want = vec![
        "--ro-bind",
        "/dev/null",
        "/w/a.pem",
        "--ro-bind",
        "/dev/null",
        "/w/d/b.pem",
        "--ro-bind",
        "/dev/null",
        "/w/\u{FFFD}.pem",
    ];
    assert_eq!(masks, want);
}

#[test]
fn too_many_matches_are_refused() {
    let globs = vec!["/a".to_string(), "/b".to_string()];
    let walk = |n: usize| (0..n).map(|_| found("/x", false)).collect::<Vec<_>>();
    let walks = vec![walk(8000), walk(193)];
    let all = |n: usize| Ok(vec![true; n]);
    match masks_from_verdicts(&globs, &walks, &vec![all(8000), all(193)]) {
        Err(MaskError::TooMany { glob }) => assert_eq!(glob, "/b"),
        other => panic!("expected TooMany, got {:?}", other.map(|m| m.len())),
    }
    let mut fewer = vec![true; 193];
    fewer[7] = false;
    let masks = masks_from_verdicts(&globs, &walks, &vec![all(8000), Ok(fewer)]).unwrap();
    assert_eq!(masks.len(), 3 * 8192);
}

#[test]
fn the_first_failure_counts() {
    let globs = vec!["/a".to_string(), "/b".to_string()];
    let walks = vec![vec![], vec![]];
    let r = masks_from_verdicts(
        &globs,
        &walks,
        &vec![Err("one".to_string()), Err("two".to_string())],
    );
    assert_eq!(
        r,
        Err(MaskError::BadGlob {
            glob: "/a".to_string(),
            why: "one".to_string()
        })
    );
}

#[test]
fn simple_globs_match_what_they_spell_and_what_lies_below() {
    let paths = [
        "/",
        "/a",
        "/a/b",
        "/a/b/c",
        "/a/bc",
        "/a/b c]!^$.+(|)",
        "/a/\u{e4}/x",
        "/A/b",
        "/a/b/../b",
    ];
    for glob in paths {
        let walk = paths.iter().map(|p| found(p, false)).collect();
        let masks = expand_deny_read_masks(&vec![glob.to_string()], &vec![walk]).unwrap();
        assert_eq!(masks, vec!["--ro-bind", "/dev/null", glob]);
    }
    for dir in ["", "/a", "/a/b", "/a/\u{e4}"] {
        let tree = format!("{}/**", dir);
        let start = format!("{}/", dir);
        let walk = paths.iter().map(|p| found(p, true)).collect();
        let masks = expand_deny_read_masks(&vec![tree], &vec![walk]).unwrap();
        let mut want = vec![];
        for path in paths.iter().filter(|p| p.starts_with(&start)) {
            want.push("--tmpfs".to_string());
            want.push(path.to_string());
        }
        assert_eq!(masks, want);
    }
}

#[test]
fn the_search_starts_before_every_kind_of_mark() {
    for (glob, dir) in [
        ("/a/[bc]/key.pem", "/a"),
        ("/a/{b,c}/key.pem", "/a"),
        ("/a/b\\*/key.pem", "/a/b*"),
        ("/a/\\[b]/*", "/a/[b]"),
        ("/a/b?/c", "/a"),
        ("/a/b/*", "/a/b"),
        ("/[ab]/c", "/"),
        ("[ab]/c", "/"),
        ("/a/b],c/d", "/a/b],c"),
    ] {
        assert_eq!(static_prefix_dir(glob), os(dir));
    }
}

#[test]
fn classes_and_groups_are_masked() {
    let walk = || {
        vec![
            found("/a", true),
            found("/a/b", true),
            found("/a/b/key.pem", false),
            found("/a/c/key.pem", false),
            found("/a/d/key.pem", false),
        ]
    };
    for glob in ["/a/[bc]/key.pem", "/a/{b,c}/key.pem", "/a/[!d]/key.p\\em"] {
        let masks = expand_deny_read_masks(&vec![glob.to_string()], &vec![walk()]).unwrap();
        assert_eq!(
            masks,
            vec![
                "--ro-bind",
                "/dev/null",
                "/a/b/key.pem",
                "--ro-bind",
                "/dev/null",
                "/a/c/key.pem"
            ]
        );
    }
}

#[test]
fn globs_nested_too_deep_are_refused() {
    let nested = |open: usize| format!("/a/{}x{}", "{".repeat(open), "}".repeat(open));
    let masks = |glob: String| expand_deny_read_masks(&vec![glob], &vec![vec![found("/a/x", false)]]);
    assert_eq!(masks(nested(3)).unwrap(), vec!["--ro-bind", "/dev/null", "/a/x"]);
    for open in [251, 1_000_000] {
        match masks(nested(open)) {
            Err(MaskError::BadGlob { why, .. }) => assert_eq!(why, "groups are nested too deep"),
            other => panic!("expected BadGlob, got {:?}", other),
        }
    }
    // As deep as is handed on: `globset` gives its own answer.
    assert!(!matches!(
        masks(nested(250)),
        Err(MaskError::BadGlob { why, .. }) if why == "groups are nested too deep"
    ));
    // Braces in classes and after backslashes open and close nothing.
    let flat = format!("/a/{}x", "{x,[}]}\\}[{]".repeat(300));
    assert!(!matches!(
        masks(flat),
        Err(MaskError::BadGlob { why, .. }) if why == "groups are nested too deep"
    ));
    let deep = format!("/a/{}x", "{[}]\\}[]}][!]}]".repeat(300));
    assert!(matches!(
        masks(deep),
        Err(MaskError::BadGlob { why, .. }) if why == "groups are nested too deep"
    ));
}

#[test]
fn the_marks_of_a_directory_stand_for_themselves() {
    let cwd = os("/h/[p]");
    let globs: Vec<String> = [".env", "k/**", "*.pem", "{a,b}/c"].map(String::from).to_vec();
    let globs = resolve_deny_globs(&globs, &cwd);
    let paths = ["/.env", "/k/x", "/y.pem", "/a/c", "/b/c"];
    for (glob, want) in globs.iter().zip([
        vec!["/h/[p]/.env"],
        vec!["/h/[p]/k/x"],
        vec!["/h/[p]/y.pem"],
        vec!["/h/[p]/a/c", "/h/[p]/b/c"],
    ]) {
        assert!(static_prefix_dir(glob).to_string_lossy().starts_with("/h/[p]"));
        let walk: Vec<WalkEntry> = ["/h/p", "/h/[p]"]
            .iter()
            .flat_map(|dir| paths.iter().map(move |path| found(&format!("{dir}{path}"), true)))
            .collect();
        let masks = expand_deny_read_masks(&vec![glob.clone()], &vec![walk]).unwrap();
        let want: Vec<&str> = want.iter().flat_map(|path| ["--tmpfs", *path]).collect();
        assert_eq!(masks, want);
    }
}

#[test]
fn escaped_globs_match_what_they_spell() {
    let walk = || vec![found("/a/*", true), found("/a/b", true), found("/a/*/c", true)];
    let masks = |glob: &str| expand_deny_read_masks(&vec![glob.to_string()], &vec![walk()]).unwrap();
    assert_eq!(masks(r"/a/\*"), vec!["--tmpfs", "/a/*"]);
    assert_eq!(masks(r"\/\a/b"), vec!["--tmpfs", "/a/b"]);
    assert_eq!(masks(r"/a/\*/**"), vec!["--tmpfs", "/a/*/c"]);
    assert_eq!(masks(r"/a/\*\/**"), vec!["--tmpfs", "/a/*/c"]);
    assert!(masks(r"/a/\\").is_empty());
}

#[test]
fn masks_come_last_without_any_other_mount() {
    let argv = build_bwrap_argv(
        &vec![],
        &vec![],
        &vec!["--tmpfs".to_string(), "/k".to_string()],
        &vec!["/i".to_string()],
    );
    assert_eq!(argv[9..11], ["--tmpfs", "/k"]);
    assert_eq!(argv[11..], ["--unshare-user", "--unshare-pid", "--unshare-net", "--", "/i"]);
}
