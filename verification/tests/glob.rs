use motosan_sandbox::glob::{glob_body_to_regex, guard, literal_lead, regex_escape, MAX_GROUPS};

fn chars(s: &str) -> Vec<char> {
    s.chars().collect()
}

fn regex(glob: &str) -> Option<String> {
    glob_body_to_regex(&chars(glob))
}

fn read_as(glob: &str, want: &str) {
    assert_eq!(regex(glob).as_deref(), Some(want), "glob {glob}");
}

#[test]
fn globs_are_translated_part_by_part() {
    read_as("/a/**/b", "/a/.*b");
    read_as("**", ".*");
    read_as("***", ".*[^/]*");
    read_as("a?c", "a[^/]c");
    read_as("x*", "x[^/]*");
    read_as("\u{e4}+", "\u{e4}\\+");
    read_as("", "");
    read_as("a,b]c", "a,b\\]c");
    assert_eq!(
        regex_escape(&chars(r".+*?()|[]{}^$\a/")),
        r"\.\+\*\?\(\)\|\[\]\{\}\^\$\\a/"
    );
}

#[test]
fn a_backslash_makes_a_character_stand_for_itself() {
    read_as(r"\*\?\[\{\}\\", r"\*\?\[\{\}\\");
    read_as(r"\a\,\/", "a,/");
    read_as(r"{\,,\}}", r"(,|\})");
}

#[test]
fn classes_hold_their_ranges() {
    read_as("[abc]", "[abc]");
    read_as("[a-z0-9_]", "[a-z0-9_]");
    read_as("[!a-z]", "[^a-z]");
    read_as("[^a-z]x", "[^a-z]x");
    read_as("[a-c-e]", "[a-e]");
    read_as("[*?{}/]", "[*?{}/]");
}

#[test]
fn marks_of_a_class_are_written_where_they_mean_themselves() {
    read_as("[]a]", "[]a]");
    read_as("[!]a]", "[^]a]");
    read_as("[a-]", "[a-]");
    read_as("[-a]", "[a-]");
    read_as("[+--]", "[+-,-]");
    read_as("[a^]", "[a^]");
    read_as("[!^]", "[^^]");
    read_as("[[]", "[[]");
    read_as(r"[\]", r"[\\]");
    read_as("[[:]", "[:[]");
    read_as("[A-]]", "[A-]\\]");
    read_as("[]-a]", "[]_-a^]");
    read_as("[X-^]", r"[]X-Z[\\^]");
    read_as("[A-z]", r"[]A-z[\\^]");
}

#[test]
fn a_caret_never_negates_by_accident() {
    read_as("[-^]", "[-^]");
    read_as("[--^-^]", r"[].-Z[\\^-]");
    read_as("[!!^]", "[^!^]");
    read_as("[]^]", "[]^]");
}

#[test]
fn groups_hold_their_alternatives() {
    read_as("{a,b,c}", "(a|b|c)");
    read_as("x{a*,[bc]?}y", "x(a[^/]*|[bc][^/])y");
    read_as("{a,{b,c}d}", "(a|(b|c)d)");
    read_as("{**/a,b}", "(.*a|b)");
}

#[test]
fn empty_alternatives_do_not_count() {
    read_as("{a,}", "(a)");
    read_as("{,a,,b}", "(a|b)");
    read_as("x{}y", "xy");
    read_as("x{,{},}y", "xy");
    read_as("{{},a}", "(a)");
}

#[test]
fn unfinished_globs_are_not_read() {
    for glob in ["[", "[a", "[]", "[!]", "[!", "{", "{a", "{a,", "{a,{b}", "}", "a}", "\\", "a\\"] {
        assert_eq!(regex(glob), None, "glob {glob}");
    }
}

#[test]
fn reversed_ranges_are_not_read() {
    for glob in ["[b-a]", "[a-c-b]x[z-a]", "[9-0]", "{[b-a],x}"] {
        assert_eq!(regex(glob), None, "glob {glob}");
    }
    read_as("[a-a]", "[a]");
}

#[test]
fn groups_may_lie_in_one_another_up_to_a_depth() {
    let nested = |n: usize| format!("{}a{}", "{".repeat(n), "}".repeat(n));
    assert_eq!(
        regex(&nested(MAX_GROUPS)),
        Some(format!("{}a{}", "(".repeat(MAX_GROUPS), ")".repeat(MAX_GROUPS)))
    );
    assert_eq!(regex(&nested(MAX_GROUPS + 1)), None);
    let row = "{a}".repeat(MAX_GROUPS + 1);
    assert_eq!(regex(&row), Some("(a)".repeat(MAX_GROUPS + 1)));
}

#[test]
fn a_glob_spells_its_front() {
    let lead = |glob: &str| {
        let (front, n) = literal_lead(&chars(glob));
        (front.into_iter().collect::<String>(), n)
    };
    assert_eq!(lead("/a/b*"), ("/a/b".to_string(), 4));
    assert_eq!(lead(r"/a\*b/[c]"), ("/a*b/".to_string(), 6));
    assert_eq!(lead("a,]b"), ("a,]b".to_string(), 4));
    assert_eq!(lead("a}"), ("a".to_string(), 1));
    assert_eq!(lead("a\\"), ("a".to_string(), 1));
    assert_eq!(lead(""), (String::new(), 0));
}

#[test]
fn guarded_text_is_read_as_itself() {
    assert_eq!(guard(&chars("/h/a.b")), "/h/a.b");
    assert_eq!(guard(&chars(r"*?[]{},\")), r"\*\?\[]\{\}\,\\");
    for text in ["/h/[p]", "{a,b}", r"a\b", "**/x?"] {
        let guarded = guard(&chars(text));
        assert_eq!(regex(&guarded), Some(regex_escape(&chars(text))));
        let (front, n) = literal_lead(&chars(&guarded));
        assert_eq!(front, chars(text));
        assert_eq!(n, guarded.chars().count());
    }
}
