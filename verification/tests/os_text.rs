use motosan_sandbox::text::is_white_space;
use motosan_sandbox::{EnvMap, OsText};
use std::path::Path;

const PATHS: [&str; 34] = [
    "", "/", "//", ".", "..", "./", "../", "/.", "/..", "a", "a/", "a//", "/a", "//a", "./a", "a/.",
    "a/./", "a/..", "a/../", "a/b", "a/./b", "a//b", "/a/b/c", "/a/b/c/", "/a/./b", "./.", "././a",
    ".a", "a.", "...", "/...", "a/b/..", "/usr/bin/env", "\u{e4}/\u{f6}",
];

#[test]
fn file_names_are_those_of_std() {
    for p in PATHS {
        let want = Path::new(p).file_name().map(|n| n.to_str().unwrap().to_string());
        let got = OsText::new(p).file_name().map(|n| n.to_str().unwrap());
        assert_eq!(got, want, "{:?}", p);
    }
}

#[test]
fn depths_are_those_of_std() {
    for p in PATHS {
        assert_eq!(OsText::new(p).depth(), Path::new(p).components().count(), "{:?}", p);
    }
}

#[test]
fn joins_are_those_of_std() {
    for dir in PATHS {
        for name in ["bwrap", "/bwrap", "a/b", ""] {
            let want = Path::new(dir).join(name);
            let got = OsText::new(dir).join(&OsText::new(name));
            assert_eq!(got.to_str().unwrap(), want.to_str().unwrap(), "{:?} {:?}", dir, name);
        }
    }
}

#[test]
fn white_space_is_that_of_std() {
    for n in 0..=0x10FFFFu32 {
        if let Some(c) = char::from_u32(n) {
            assert_eq!(is_white_space(c), c.is_whitespace(), "U+{:04X}", n);
        }
    }
}

#[test]
fn text_is_read_back() {
    let t = OsText::new("gr\u{fc}n");
    assert_eq!(t.to_string_lossy(), "gr\u{fc}n");
    assert_eq!(t.to_str(), Some("gr\u{fc}n".to_string()));
    let b = OsText::from_bytes(vec![b'a', 0xC3]);
    assert_eq!(b.to_string_lossy(), "a\u{FFFD}");
    assert_eq!(b.to_str(), None);
}

#[test]
fn environment_keeps_its_names_in_order() {
    let mut env = EnvMap::new();
    for k in ["b", "a", "ab", "", "c", "a"] {
        env.insert(OsText::new(k), OsText::new(&format!("v{}", k)));
    }
    env.insert(OsText::new("c"), OsText::new("new"));
    let keys: Vec<String> = env.pairs().iter().map(|p| p.0.to_string_lossy()).collect();
    assert_eq!(keys, vec!["", "a", "ab", "b", "c"]);
    assert_eq!(env.get(&OsText::new("c")), Some(OsText::new("new")));
    assert_eq!(env.get(&OsText::new("d")), None);
    env.remove(&OsText::new("ab"));
    env.remove(&OsText::new("zz"));
    assert!(!env.contains_key(&OsText::new("ab")));
    assert!(env.contains_key(&OsText::new("a")));
    assert_eq!(env.clone().pairs().len(), 4);
}

#[test]
fn environments_with_the_same_entries_are_equal() {
    let mut a = EnvMap::new();
    a.insert(OsText::new("x"), OsText::new("1"));
    a.insert(OsText::new("y"), OsText::new("2"));
    let mut b = EnvMap::new();
    b.insert(OsText::new("y"), OsText::new("2"));
    b.insert(OsText::new("x"), OsText::new("0"));
    assert!(a != b);
    b.insert(OsText::new("x"), OsText::new("1"));
    assert_eq!(a, b);
}
