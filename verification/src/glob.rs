//! Deny-read globs: how they are read, which paths they match, and the regular expressions that
//! match the same paths.
//!
//! `?` is one character of a name, `*` any characters of a name, and `**` anything at all.
//! `[...]` is one character out of a set, `{...,...}` one of several alternatives, and a backslash
//! makes the character after it stand for itself. So reads the macOS backend; on Linux `globset`
//! does the matching, and reads the same marks in the same places.

use vstd::prelude::*;

use crate::text;

verus! {

/// How deep the groups of a glob may lie in one another.
pub const MAX_GROUPS: usize = 250;

// ---------------------------------------------------------------------------
// Reading
// ---------------------------------------------------------------------------

/// A part of a glob.
pub enum GlobPart {
    /// One character that stands for itself.
    Literal(char),
    /// `?`: any one character within a name.
    One,
    /// `*`: any characters within a name.
    Within,
    /// `**`, with a slash after it where there is one: anything at all.
    Across,
    /// `[...]`: one character that lies in one of the ranges, or with `!` or `^` in none of them.
    /// A slash is a character like any other here.
    Class { negated: bool, ranges: Seq<(char, char)> },
    /// `{...,...}`: one of several alternatives.
    Either(Seq<Seq<GlobPart>>),
}

/// The part that is one character.
pub open spec fn literal(c: char) -> GlobPart {
    GlobPart::Literal(c)
}

/// The range that is one character.
pub open spec fn only(c: char) -> (char, char) {
    (c, c)
}

/// The ranges that the characters between the brackets of a class make up, and whether a hyphen
/// waits for the end of a range. A hyphen that comes first is a character, and a second end
/// replaces the first: `a-c-e` is `a-e`. `None` where a range ends before it starts.
pub open spec fn ranges_of(inner: Seq<char>) -> Option<(Seq<(char, char)>, bool)>
    decreases inner.len(),
{
    if inner.len() == 0 {
        Some((Seq::empty(), false))
    } else {
        let c = inner.last();
        match ranges_of(inner.drop_last()) {
            None => None,
            Some((ranges, waits)) => if waits {
                if c < ranges.last().0 {
                    None
                } else {
                    Some((ranges.drop_last().push((ranges.last().0, c)), false))
                }
            } else if c == '-' && ranges.len() > 0 {
                Some((ranges, true))
            } else {
                Some((ranges.push(only(c)), false))
            },
        }
    }
}

/// The class that starts after a bracket: whether it is negated, its ranges, and how many
/// characters it takes up. A closing bracket that comes first is a character of the class, and so
/// is a hyphen that comes last. `None` where the class is not closed or a range is reversed.
pub open spec fn read_class(s: Seq<char>) -> Option<(bool, Seq<(char, char)>, int)> {
    let negated = s.len() > 0 && (s[0] == '!' || s[0] == '^');
    let from: int = if negated {
        1
    } else {
        0
    };
    let end: int = from + 1 + text::lead(s.skip(from + 1), text::other_than(']'));
    if end >= s.len() {
        None
    } else {
        match ranges_of(s.subrange(from, end)) {
            None => None,
            Some((ranges, waits)) => Some(
                (
                    negated,
                    if waits {
                        ranges.push(only('-'))
                    } else {
                        ranges
                    },
                    end + 1,
                ),
            ),
        }
    }
}

/// The first part of a glob that starts with no brace, and how many characters it takes up.
pub open spec fn read_part(s: Seq<char>) -> Option<(GlobPart, int)> {
    if s[0] == '*' && s.len() > 1 && s[1] == '*' {
        if s.len() > 2 && s[2] == '/' {
            Some((GlobPart::Across, 3))
        } else {
            Some((GlobPart::Across, 2))
        }
    } else if s[0] == '*' {
        Some((GlobPart::Within, 1))
    } else if s[0] == '?' {
        Some((GlobPart::One, 1))
    } else if s[0] == '\\' {
        if s.len() > 1 {
            Some((literal(s[1]), 2))
        } else {
            None
        }
    } else if s[0] == '[' {
        match read_class(s.skip(1)) {
            None => None,
            Some((negated, ranges, n)) => Some((GlobPart::Class { negated, ranges }, 1 + n)),
        }
    } else {
        Some((literal(s[0]), 1))
    }
}

/// What comes of reading some parts and then the rest.
pub open spec fn after_parts(
    parts: Seq<GlobPart>,
    rest: Option<(Seq<GlobPart>, Seq<char>)>,
) -> Option<(Seq<GlobPart>, Seq<char>)> {
    match rest {
        None => None,
        Some((more, left)) => Some((parts + more, left)),
    }
}

/// A group as parts: none where all of its alternatives are empty.
pub open spec fn group_parts(branches: Seq<Seq<GlobPart>>) -> Seq<GlobPart> {
    if branches.len() == 0 {
        Seq::empty()
    } else {
        seq![GlobPart::Either(branches)]
    }
}

/// An alternative of a group. An empty one does not count.
pub open spec fn branch(parts: Seq<GlobPart>) -> Seq<Seq<GlobPart>> {
    if parts.len() == 0 {
        Seq::empty()
    } else {
        seq![parts]
    }
}

/// The parts of a glob, and what is left of it: nothing, or inside a group what starts with the
/// comma or the brace that ends the alternative. `None` where a class or a group is not closed, a
/// group is not opened, a backslash comes last, a range is reversed, or groups lie in one another
/// more than `depth` times.
pub open spec fn read_parts(s: Seq<char>, inside: bool, depth: nat) -> Option<
    (Seq<GlobPart>, Seq<char>),
>
    decreases depth, s.len(), 0nat,
{
    if s.len() == 0 {
        if inside {
            None
        } else {
            Some((Seq::empty(), s))
        }
    } else if inside && (s[0] == ',' || s[0] == '}') {
        Some((Seq::empty(), s))
    } else if s[0] == '}' {
        None
    } else if s[0] == '{' {
        if depth == 0 {
            None
        } else {
            match read_group(s.skip(1), (depth - 1) as nat) {
                None => None,
                Some((branches, rest)) => if rest.len() < s.len() {
                    after_parts(group_parts(branches), read_parts(rest, inside, depth))
                } else {
                    None
                },
            }
        }
    } else {
        match read_part(s) {
            None => None,
            Some((part, n)) => if 0 < n <= s.len() {
                after_parts(seq![part], read_parts(s.skip(n), inside, depth))
            } else {
                None
            },
        }
    }
}

/// The alternatives of the group that starts after a brace, and what is left behind it.
pub open spec fn read_group(s: Seq<char>, depth: nat) -> Option<
    (Seq<Seq<GlobPart>>, Seq<char>),
>
    decreases depth, s.len(), 1nat,
{
    match read_parts(s, true, depth) {
        None => None,
        Some((parts, rest)) => if rest.len() == 0 || rest.len() > s.len() {
            None
        } else if rest[0] == '}' {
            Some((branch(parts), rest.skip(1)))
        } else {
            match read_group(rest.skip(1), depth) {
                None => None,
                Some((more, left)) => Some((branch(parts) + more, left)),
            }
        },
    }
}

/// The parts of a glob, from left to right.
pub open spec fn glob_parts(glob: Seq<char>) -> Option<Seq<GlobPart>> {
    match read_parts(glob, false, MAX_GROUPS as nat) {
        None => None,
        Some((parts, _)) => Some(parts),
    }
}

/// A glob that can be read: its classes and groups are closed, its groups opened and not too deep
/// in one another, no backslash comes last and no range is reversed.
pub open spec fn well_formed(glob: Seq<char>) -> bool {
    glob_parts(glob) is Some
}

// ---------------------------------------------------------------------------
// Matching
// ---------------------------------------------------------------------------

/// Whether a character lies in one of the ranges.
pub open spec fn in_ranges(ranges: Seq<(char, char)>, c: char) -> bool {
    exists|i: int| 0 <= i < ranges.len() && (#[trigger] ranges[i]).0 <= c && c <= ranges[i].1
}

/// Whether the parts of a glob, read as their names say, make up a whole path.
pub open spec fn fits(parts: Seq<GlobPart>, path: Seq<char>) -> bool
    decreases parts,
{
    if parts.len() == 0 {
        path.len() == 0
    } else {
        let rest = parts.skip(1);
        match parts[0] {
            GlobPart::Literal(c) => path.len() > 0 && path[0] == c && fits(rest, path.skip(1)),
            GlobPart::One => path.len() > 0 && path[0] != '/' && fits(rest, path.skip(1)),
            GlobPart::Within => exists|n: int|
                0 <= n <= path.len() && !path.take(n).contains('/') && fits(
                    rest,
                    #[trigger] path.skip(n),
                ),
            GlobPart::Across => exists|n: int|
                0 <= n <= path.len() && fits(rest, #[trigger] path.skip(n)),
            GlobPart::Class { negated, ranges } => path.len() > 0 && in_ranges(ranges, path[0])
                != negated && fits(rest, path.skip(1)),
            GlobPart::Either(branches) => exists|k: int, n: int|
                #![trigger branches[k], path.skip(n)]
                0 <= k < branches.len() && 0 <= n <= path.len() && fits(branches[k], path.take(n))
                    && fits(rest, path.skip(n)),
        }
    }
}

// ---------------------------------------------------------------------------
// Regular expressions
// ---------------------------------------------------------------------------

/// The characters that a regular expression gives a meaning of its own.
pub open spec fn is_meta(c: char) -> bool {
    ||| c == '.'
    ||| c == '+'
    ||| c == '*'
    ||| c == '?'
    ||| c == '('
    ||| c == ')'
    ||| c == '|'
    ||| c == '['
    ||| c == ']'
    ||| c == '{'
    ||| c == '}'
    ||| c == '^'
    ||| c == '$'
    ||| c == '\\'
}

/// A character as a regular expression that matches it alone.
pub open spec fn escaped(c: char) -> Seq<char> {
    if is_meta(c) {
        seq!['\\', c]
    } else {
        seq![c]
    }
}

/// The start of a range without the characters that mean something between brackets: `-`, and
/// the four from `[` to `^`, which follow one another.
pub open spec fn range_start(c: char) -> char {
    if c == '-' {
        '.'
    } else if '[' <= c && c <= '^' {
        '_'
    } else {
        c
    }
}

/// The end of a range without the characters that mean something between brackets.
pub open spec fn range_end(c: char) -> char {
    if c == '-' {
        ','
    } else if '[' <= c && c <= '^' {
        'Z'
    } else {
        c
    }
}

/// A range as it stands between brackets, but for the characters that mean something there.
pub open spec fn range_text(range: (char, char)) -> Seq<char> {
    let a = range_start(range.0);
    let b = range_end(range.1);
    if a > b {
        Seq::empty()
    } else if a == b {
        seq![a]
    } else {
        seq![a, '-', b]
    }
}

/// All ranges as they stand between brackets.
pub open spec fn ranges_text(ranges: Seq<(char, char)>) -> Seq<char>
    decreases ranges.len(),
{
    if ranges.len() == 0 {
        Seq::empty()
    } else {
        ranges_text(ranges.drop_last()) + range_text(ranges.last())
    }
}

/// A text where one character lies in the ranges, and nothing elsewhere.
pub open spec fn where_in(ranges: Seq<(char, char)>, c: char, t: Seq<char>) -> Seq<char> {
    if in_ranges(ranges, c) {
        t
    } else {
        Seq::empty()
    }
}

/// What stands between the brackets before a caret: a closing bracket first, where it is a
/// character; then the ranges, an opening bracket and a backslash. The backslash is doubled, which
/// is one backslash both to a reader that takes it for itself and to one that takes it for an
/// escape.
pub open spec fn class_front(ranges: Seq<(char, char)>) -> Seq<char> {
    where_in(ranges, ']', seq![']']) + ranges_text(ranges) + where_in(ranges, '[', seq!['['])
        + where_in(ranges, '\\', seq!['\\', '\\'])
}

/// A class as a regular expression. A hyphen comes last. A caret comes first only where it
/// negates, so one with nothing before it stands behind the hyphen or outside brackets.
pub open spec fn class_regex(negated: bool, ranges: Seq<(char, char)>) -> Seq<char> {
    let front = class_front(ranges);
    if !negated && front.len() == 0 && in_ranges(ranges, '^') {
        if in_ranges(ranges, '-') {
            "[-^]"@
        } else {
            escaped('^')
        }
    } else {
        (if negated {
            seq!['[', '^']
        } else {
            seq!['[']
        }) + front + where_in(ranges, '^', seq!['^']) + where_in(ranges, '-', seq!['-']) + seq![']']
    }
}

/// A part of a glob as a regular expression.
pub open spec fn part_regex(part: GlobPart) -> Seq<char>
    decreases part,
{
    match part {
        GlobPart::Literal(c) => escaped(c),
        GlobPart::One => "[^/]"@,
        GlobPart::Within => "[^/]*"@,
        GlobPart::Across => ".*"@,
        GlobPart::Class { negated, ranges } => class_regex(negated, ranges),
        GlobPart::Either(branches) => seq!['('] + branches_regex(branches) + seq![')'],
    }
}

/// Alternatives as a regular expression.
pub open spec fn branches_regex(branches: Seq<Seq<GlobPart>>) -> Seq<char>
    decreases branches,
{
    if branches.len() == 0 {
        Seq::empty()
    } else if branches.len() == 1 {
        parts_regex(branches[0])
    } else {
        branches_regex(branches.drop_last()) + seq!['|'] + parts_regex(branches.last())
    }
}

/// The parts of a glob as a regular expression.
pub open spec fn parts_regex(parts: Seq<GlobPart>) -> Seq<char>
    decreases parts,
{
    if parts.len() == 0 {
        Seq::empty()
    } else {
        part_regex(parts[0]) + parts_regex(parts.skip(1))
    }
}

/// A text as parts that all stand for themselves.
pub open spec fn literal_parts(s: Seq<char>) -> Seq<GlobPart> {
    Seq::new(s.len(), |i: int| literal(s[i]))
}

/// Whether a character has a meaning in a regular expression.
fn has_meaning(c: char) -> (r: bool)
    ensures
        r == is_meta(c),
{
    c == '.' || c == '+' || c == '*' || c == '?' || c == '(' || c == ')' || c == '|' || c == '['
        || c == ']' || c == '{' || c == '}' || c == '^' || c == '$' || c == '\\'
}

/// Appends a character so that it stands for itself.
fn push_escaped(out: &mut String, c: char)
    ensures
        final(out)@ == old(out)@ + escaped(c),
{
    let ghost start = out@;
    if has_meaning(c) {
        out.push('\\');
    }
    out.push(c);
    assert(out@ =~= start + escaped(c));
}

/// Writes a text as a regular expression for that text.
pub fn regex_escape(cs: &[char]) -> (r: String)
    ensures
        r@ == parts_regex(literal_parts(cs@)),
{
    let mut out: String = String::new();
    let mut i: usize = 0;
    proof {
        assert(cs@.skip(0) =~= cs@);
        assert(Seq::<char>::empty() + parts_regex(literal_parts(cs@)) =~= parts_regex(
            literal_parts(cs@),
        ));
    }
    while i < cs.len()
        invariant
            i <= cs@.len(),
            out@ + parts_regex(literal_parts(cs@.skip(i as int))) == parts_regex(
                literal_parts(cs@),
            ),
        decreases cs@.len() - i,
    {
        let ghost before = out@;
        push_escaped(&mut out, cs[i]);
        proof {
            let rest = literal_parts(cs@.skip(i as int));
            assert(rest.skip(1) =~= literal_parts(cs@.skip(i + 1)));
            assert(rest[0] == GlobPart::Literal(cs@[i as int]));
            assert(part_regex(rest[0]) == escaped(cs@[i as int]));
            assert(out@ + parts_regex(rest.skip(1)) =~= before + parts_regex(rest));
        }
        i = i + 1;
    }
    assert(literal_parts(cs@.skip(cs@.len() as int)) =~= Seq::<GlobPart>::empty());
    assert(out@ + Seq::<char>::empty() =~= out@);
    out
}

/// A reversed range among the first characters of a class stays one.
proof fn lemma_reversed_stays(inner: Seq<char>, n: int)
    requires
        0 <= n <= inner.len(),
        ranges_of(inner.take(n)) is None,
    ensures
        ranges_of(inner) is None,
    decreases inner.len(),
{
    if n == inner.len() {
        assert(inner.take(n) =~= inner);
    } else {
        assert(inner.drop_last().take(n) =~= inner.take(n));
        lemma_reversed_stays(inner.drop_last(), n);
    }
}

/// Reads the characters from `from` to `end` as the ranges of a class.
fn ranges_at(cs: &[char], from: usize, end: usize) -> (r: Option<Vec<(char, char)>>)
    requires
        from <= end <= cs@.len(),
    ensures
        match ranges_of(cs@.subrange(from as int, end as int)) {
            None => r is None,
            Some((ranges, waits)) => r matches Some(v) && v@ == (if waits {
                ranges.push(only('-'))
            } else {
                ranges
            }),
        },
{
    let mut ranges: Vec<(char, char)> = Vec::new();
    let mut waits: bool = false;
    let mut i: usize = from;
    let ghost inner = cs@.subrange(from as int, end as int);
    assert(cs@.subrange(from as int, from as int) =~= Seq::<char>::empty());
    while i < end
        invariant
            from <= i <= end <= cs@.len(),
            inner == cs@.subrange(from as int, end as int),
            ranges_of(cs@.subrange(from as int, i as int)) == Some((ranges@, waits)),
            waits ==> ranges@.len() > 0,
        decreases end - i,
    {
        let c: char = cs[i];
        let ghost now = cs@.subrange(from as int, i + 1);
        let ghost before = ranges@;
        assert(now.drop_last() =~= cs@.subrange(from as int, i as int));
        assert(now.last() == c);
        if waits {
            let n: usize = ranges.len();
            let last: (char, char) = ranges[n - 1];
            if c < last.0 {
                proof {
                    assert(inner.take(i + 1 - from) =~= now);
                    lemma_reversed_stays(inner, i + 1 - from);
                }
                return None;
            }
            ranges.set(n - 1, (last.0, c));
            assert(ranges@ =~= before.drop_last().push((before.last().0, c)));
            waits = false;
        } else if c == '-' && ranges.len() > 0 {
            waits = true;
        } else {
            ranges.push((c, c));
        }
        i = i + 1;
    }
    if waits {
        ranges.push(('-', '-'));
    }
    Some(ranges)
}

/// Reads the class that starts at `at`, after its bracket: whether it is negated, its ranges and
/// where it ends.
fn class_at(cs: &[char], at: usize) -> (r: Option<(bool, Vec<(char, char)>, usize)>)
    requires
        at <= cs@.len(),
    ensures
        match read_class(cs@.skip(at as int)) {
            None => r is None,
            Some((negated, ranges, n)) => r matches Some((neg, v, end)) && neg == negated && v@
                == ranges && end == at + n && at < end <= cs@.len(),
        },
{
    let ghost s = cs@.skip(at as int);
    let negated: bool = at < cs.len() && (cs[at] == '!' || cs[at] == '^');
    let from: usize = if negated {
        at + 1
    } else {
        at
    };
    if from >= cs.len() {
        return None;
    }
    let mut end: usize = from + 1;
    let ghost tail = s.skip(from - at + 1);
    while end < cs.len() && cs[end] != ']'
        invariant
            at <= from < end <= cs@.len(),
            tail == cs@.skip(from + 1),
            forall|k: int| 0 <= k < end - from - 1 ==> (#[trigger] tail[k]) != ']',
        decreases cs@.len() - end,
    {
        assert(tail[end - from - 1] == cs@[end as int]);
        end = end + 1;
    }
    proof {
        if end < cs@.len() {
            assert(tail[end - from - 1] == cs@[end as int]);
        }
        text::lemma_lead(tail, text::other_than(']'), (end - from - 1) as nat);
        assert(s.subrange(from - at, end - at) =~= cs@.subrange(from as int, end as int));
    }
    if end >= cs.len() {
        return None;
    }
    match ranges_at(cs, from, end) {
        None => None,
        Some(ranges) => Some((negated, ranges, end + 1)),
    }
}

/// Whether a character lies in one of the ranges.
fn lies_in(ranges: &Vec<(char, char)>, c: char) -> (r: bool)
    ensures
        r == in_ranges(ranges@, c),
{
    let mut i: usize = 0;
    while i < ranges.len()
        invariant
            i <= ranges@.len(),
            forall|k: int|
                0 <= k < i ==> !((#[trigger] ranges@[k]).0 <= c && c <= ranges@[k].1),
        decreases ranges@.len() - i,
    {
        if ranges[i].0 <= c && c <= ranges[i].1 {
            return true;
        }
        i = i + 1;
    }
    false
}

/// Appends the ranges as they stand between brackets.
fn push_ranges(out: &mut String, ranges: &Vec<(char, char)>)
    ensures
        final(out)@ == old(out)@ + ranges_text(ranges@),
{
    let ghost start = out@;
    let mut i: usize = 0;
    assert(start + ranges_text(ranges@.take(0)) =~= start);
    while i < ranges.len()
        invariant
            i <= ranges@.len(),
            out@ == start + ranges_text(ranges@.take(i as int)),
        decreases ranges@.len() - i,
    {
        let ghost before = out@;
        let (first, last): (char, char) = ranges[i];
        let a: char = if first == '-' {
            '.'
        } else if '[' <= first && first <= '^' {
            '_'
        } else {
            first
        };
        let b: char = if last == '-' {
            ','
        } else if '[' <= last && last <= '^' {
            'Z'
        } else {
            last
        };
        if a <= b {
            out.push(a);
            if a < b {
                out.push('-');
                out.push(b);
            }
        }
        i = i + 1;
        proof {
            let now = ranges@.take(i as int);
            assert(now.drop_last() =~= ranges@.take(i - 1));
            assert(now.last() == ranges@[i - 1]);
            assert(out@ =~= before + range_text(now.last()));
            assert(out@ =~= start + ranges_text(now));
        }
    }
    assert(ranges@.take(ranges@.len() as int) =~= ranges@);
}

/// Appends a text where one character lies in the ranges.
fn push_where_in(out: &mut String, ranges: &Vec<(char, char)>, c: char, t: &str)
    ensures
        final(out)@ == old(out)@ + where_in(ranges@, c, t@),
{
    let ghost start = out@;
    if lies_in(ranges, c) {
        out.append(t);
    }
    assert(out@ =~= start + where_in(ranges@, c, t@));
}

/// Writes what stands between the brackets of a class before a caret.
fn write_front(ranges: &Vec<(char, char)>) -> (r: String)
    ensures
        r@ == class_front(ranges@),
{
    let mut out: String = String::new();
    proof {
        reveal_strlit("]");
        reveal_strlit("[");
        reveal_strlit("\\\\");
        assert("]"@ =~= seq![']']);
        assert("["@ =~= seq!['[']);
        assert("\\\\"@ =~= seq!['\\', '\\']);
    }
    push_where_in(&mut out, ranges, ']', "]");
    assert(out@ =~= where_in(ranges@, ']', seq![']']));
    push_ranges(&mut out, ranges);
    push_where_in(&mut out, ranges, '[', "[");
    push_where_in(&mut out, ranges, '\\', "\\\\");
    out
}

/// Writes a class as a regular expression.
fn write_class(negated: bool, ranges: &Vec<(char, char)>) -> (r: String)
    ensures
        r@ == class_regex(negated, ranges@),
{
    let front: String = write_front(ranges);
    let mut out: String = String::new();
    proof {
        reveal_strlit("");
        reveal_strlit("^");
        reveal_strlit("-");
        assert("^"@ =~= seq!['^']);
        assert("-"@ =~= seq!['-']);
        assert(front@.len() == 0 ==> front@ =~= ""@);
    }
    if !negated && text::same_text(front.as_str(), "") && lies_in(ranges, '^') {
        if lies_in(ranges, '-') {
            out.append("[-^]");
            assert(out@ =~= "[-^]"@);
        } else {
            push_escaped(&mut out, '^');
            assert(out@ =~= escaped('^'));
        }
        return out;
    }
    out.push('[');
    if negated {
        out.push('^');
    }
    let ghost head = if negated {
        seq!['[', '^']
    } else {
        seq!['[']
    };
    assert(out@ =~= head);
    out.append(front.as_str());
    push_where_in(&mut out, ranges, '^', "^");
    push_where_in(&mut out, ranges, '-', "-");
    let ghost before = out@;
    out.push(']');
    assert(out@ =~= before + seq![']']);
    out
}

/// Reads the part that starts at `at` and no brace, and writes it as a regular expression. Also
/// tells where the part ends.
fn part_at(cs: &[char], at: usize) -> (r: Option<(String, usize)>)
    requires
        at < cs@.len(),
    ensures
        match read_part(cs@.skip(at as int)) {
            None => r is None,
            Some((part, n)) => r matches Some((text, end)) && text@ == part_regex(part) && end == at
                + n && at < end <= cs@.len(),
        },
{
    let ghost s = cs@.skip(at as int);
    let c: char = cs[at];
    assert(s[0] == c);
    let mut out: String = String::new();
    if c == '*' && cs.len() - at > 1 && cs[at + 1] == '*' {
        out.append(".*");
        assert(out@ =~= ".*"@);
        if cs.len() - at > 2 && cs[at + 2] == '/' {
            return Some((out, at + 3));
        }
        return Some((out, at + 2));
    }
    if c == '*' {
        out.append("[^/]*");
        assert(out@ =~= "[^/]*"@);
        return Some((out, at + 1));
    }
    if c == '?' {
        out.append("[^/]");
        assert(out@ =~= "[^/]"@);
        return Some((out, at + 1));
    }
    if c == '\\' {
        if cs.len() - at < 2 {
            return None;
        }
        push_escaped(&mut out, cs[at + 1]);
        assert(out@ =~= escaped(s[1]));
        return Some((out, at + 2));
    }
    if c == '[' {
        assert(s.skip(1) =~= cs@.skip(at + 1));
        return match class_at(cs, at + 1) {
            None => None,
            Some((negated, ranges, end)) => Some((write_class(negated, &ranges), end)),
        };
    }
    push_escaped(&mut out, c);
    assert(out@ =~= escaped(c));
    Some((out, at + 1))
}

/// Some parts and then the rest, as a regular expression.
proof fn lemma_regex_joined(parts: Seq<GlobPart>, rest: Seq<GlobPart>)
    ensures
        parts_regex(parts + rest) == parts_regex(parts) + parts_regex(rest),
    decreases parts.len(),
{
    if parts.len() == 0 {
        assert(parts + rest =~= rest);
        assert(parts_regex(parts) + parts_regex(rest) =~= parts_regex(rest));
    } else {
        assert((parts + rest).skip(1) =~= parts.skip(1) + rest);
        lemma_regex_joined(parts.skip(1), rest);
        assert(parts_regex(parts + rest) =~= parts_regex(parts) + parts_regex(rest));
    }
}

/// One part, as a regular expression.
proof fn lemma_regex_single(part: GlobPart)
    ensures
        parts_regex(seq![part]) == part_regex(part),
{
    let parts = seq![part];
    assert(parts.skip(1) =~= Seq::empty());
    assert(parts_regex(parts.skip(1)) == Seq::<char>::empty());
    assert(part_regex(part) + Seq::<char>::empty() =~= part_regex(part));
}

/// No part is written as nothing.
proof fn lemma_regex_nonempty(parts: Seq<GlobPart>)
    ensures
        parts_regex(parts).len() == 0 <==> parts.len() == 0,
{
    if parts.len() > 0 {
        let part = parts[0];
        reveal_strlit("[^/]");
        reveal_strlit("[^/]*");
        reveal_strlit(".*");
        reveal_strlit("[-^]");
        assert(part_regex(part).len() > 0);
    }
}

/// What is read from one place on, where the parts before it are already written.
spec fn goes_on(
    whole: Option<(Seq<GlobPart>, Seq<char>)>,
    written: Seq<char>,
    here: Option<(Seq<GlobPart>, Seq<char>)>,
) -> bool {
    match here {
        None => whole is None,
        Some((more, left)) => whole matches Some((parts, rest)) && rest == left && parts_regex(
            parts,
        ) == written + parts_regex(more),
    }
}

/// More parts are written.
proof fn lemma_goes_on(
    whole: Option<(Seq<GlobPart>, Seq<char>)>,
    written: Seq<char>,
    parts: Seq<GlobPart>,
    next: Option<(Seq<GlobPart>, Seq<char>)>,
)
    requires
        goes_on(whole, written, after_parts(parts, next)),
    ensures
        goes_on(whole, written + parts_regex(parts), next),
{
    match next {
        None => {},
        Some((more, left)) => {
            lemma_regex_joined(parts, more);
            assert(written + parts_regex(parts + more) =~= written + parts_regex(parts)
                + parts_regex(more));
        },
    }
}

/// Reads parts from `at` on and writes them as a regular expression. Also tells where the reading
/// stopped.
fn parts_at(cs: &[char], at: usize, inside: bool, depth: usize) -> (r: Option<(String, usize)>)
    requires
        at <= cs@.len(),
    ensures
        match read_parts(cs@.skip(at as int), inside, depth as nat) {
            None => r is None,
            Some((parts, rest)) => r matches Some((text, end)) && text@ == parts_regex(parts) && at
                <= end <= cs@.len() && rest == cs@.skip(end as int),
        },
    decreases depth, 0nat,
{
    let mut out: String = String::new();
    let mut i: usize = at;
    let ghost whole = read_parts(cs@.skip(at as int), inside, depth as nat);
    proof {
        match whole {
            None => {},
            Some((parts, _)) => {
                assert(out@ + parts_regex(parts) =~= parts_regex(parts));
            },
        }
    }
    while i < cs.len() && !(inside && (cs[i] == ',' || cs[i] == '}'))
        invariant
            at <= i <= cs@.len(),
            whole == read_parts(cs@.skip(at as int), inside, depth as nat),
            goes_on(whole, out@, read_parts(cs@.skip(i as int), inside, depth as nat)),
        decreases cs@.len() - i,
    {
        let ghost s = cs@.skip(i as int);
        let ghost before = out@;
        assert(s[0] == cs@[i as int]);
        if cs[i] == '}' {
            return None;
        }
        if cs[i] == '{' {
            if depth == 0 {
                return None;
            }
            assert(s.skip(1) =~= cs@.skip(i + 1));
            match group_at(cs, i + 1, depth - 1) {
                None => {
                    return None;
                },
                Some((text, end)) => {
                    let ghost branches = (read_group(s.skip(1), (depth - 1) as nat)->0).0;
                    if !text::same_text(text.as_str(), "") {
                        out.push('(');
                        out.append(text.as_str());
                        out.push(')');
                    }
                    proof {
                        reveal_strlit("");
                        assert(text@.len() == 0 ==> text@ =~= ""@);
                        if branches.len() > 0 {
                            lemma_regex_single(GlobPart::Either(branches));
                            assert(out@ =~= before + part_regex(GlobPart::Either(branches)));
                        } else {
                            assert(out@ =~= before + parts_regex(group_parts(branches)));
                        }
                        lemma_goes_on(
                            whole,
                            before,
                            group_parts(branches),
                            read_parts(cs@.skip(end as int), inside, depth as nat),
                        );
                    }
                    i = end;
                },
            }
        } else {
            match part_at(cs, i) {
                None => {
                    return None;
                },
                Some((text, end)) => {
                    let ghost part = (read_part(s)->0).0;
                    out.append(text.as_str());
                    proof {
                        assert(s.skip(end - i) =~= cs@.skip(end as int));
                        lemma_regex_single(part);
                        lemma_goes_on(
                            whole,
                            before,
                            seq![part],
                            read_parts(cs@.skip(end as int), inside, depth as nat),
                        );
                    }
                    i = end;
                },
            }
        }
    }
    proof {
        let s = cs@.skip(i as int);
        if i < cs@.len() {
            assert(s[0] == cs@[i as int]);
        }
        assert(out@ + Seq::<char>::empty() =~= out@);
    }
    if inside && i >= cs.len() {
        return None;
    }
    Some((out, i))
}

/// Reads the alternatives of the group that starts at `at`, after its brace, and writes them as a
/// regular expression. Also tells where the group ends.
fn group_at(cs: &[char], at: usize, depth: usize) -> (r: Option<(String, usize)>)
    requires
        at <= cs@.len(),
    ensures
        match read_group(cs@.skip(at as int), depth as nat) {
            None => r is None,
            Some((branches, rest)) => r matches Some((text, end)) && text@ == branches_regex(
                branches,
            ) && (text@.len() == 0 <==> branches.len() == 0) && at < end <= cs@.len() && rest
                == cs@.skip(end as int),
        },
    decreases depth, 1nat,
{
    let mut out: String = String::new();
    let mut i: usize = at;
    let ghost mut done: Seq<Seq<GlobPart>> = Seq::empty();
    let ghost whole = read_group(cs@.skip(at as int), depth as nat);
    proof {
        match whole {
            None => {},
            Some((branches, _)) => {
                assert(done + branches =~= branches);
            },
        }
    }
    loop
        invariant
            at <= i <= cs@.len(),
            whole == read_group(cs@.skip(at as int), depth as nat),
            out@ == branches_regex(done),
            out@.len() == 0 <==> done.len() == 0,
            match read_group(cs@.skip(i as int), depth as nat) {
                None => whole is None,
                Some((more, left)) => whole matches Some((branches, rest)) && rest == left
                    && branches == done + more,
            },
        decreases cs@.len() - i,
    {
        match parts_at(cs, i, true, depth) {
            None => {
                return None;
            },
            Some((text, end)) => {
                let ghost parts = (read_parts(cs@.skip(i as int), true, depth as nat)->0).0;
                let ghost before = out@;
                if !text::same_text(text.as_str(), "") {
                    if !text::same_text(out.as_str(), "") {
                        out.push('|');
                    }
                    out.append(text.as_str());
                }
                proof {
                    lemma_regex_nonempty(parts);
                    reveal_strlit("");
                    assert(text@.len() == 0 ==> text@ =~= ""@);
                    assert(before.len() == 0 ==> before =~= ""@);
                    if parts.len() > 0 {
                        let now = done.push(parts);
                        assert(now.drop_last() =~= done);
                        assert(now.last() == parts);
                        assert(out@ =~= branches_regex(now));
                        assert(done + branch(parts) =~= now);
                    } else {
                        assert(done + branch(parts) =~= done);
                    }
                }
                if end >= cs.len() {
                    return None;
                }
                assert(cs@.skip(end as int)[0] == cs@[end as int]);
                assert(cs@.skip(end as int).skip(1) =~= cs@.skip(end + 1));
                if cs[end] == '}' {
                    return Some((out, end + 1));
                }
                proof {
                    match read_group(cs@.skip(end + 1), depth as nat) {
                        None => {},
                        Some((more, _)) => {
                            assert(done + (branch(parts) + more) =~= done + branch(parts) + more);
                        },
                    }
                    done = done + branch(parts);
                }
                i = end + 1;
            },
        }
    }
}

/// Writes a glob as a regular expression, or nothing where it cannot be read.
pub fn glob_body_to_regex(cs: &[char]) -> (r: Option<String>)
    ensures
        match glob_parts(cs@) {
            None => r is None,
            Some(parts) => r matches Some(text) && text@ == parts_regex(parts),
        },
{
    assert(cs@.skip(0) =~= cs@);
    match parts_at(cs, 0, false, MAX_GROUPS) {
        None => None,
        Some((text, _)) => Some(text),
    }
}

// ---------------------------------------------------------------------------
// Text that stands for itself
// ---------------------------------------------------------------------------

/// The characters that may stand for something else than themselves, but for the backslash.
pub open spec fn is_wild(c: char) -> bool {
    c == '*' || c == '?' || c == '[' || c == '{' || c == '}'
}

/// The text that a glob spells up to the first character that stands for something else.
pub open spec fn lead_text(glob: Seq<char>) -> Seq<char>
    decreases glob.len(),
{
    if glob.len() == 0 || is_wild(glob[0]) {
        Seq::empty()
    } else if glob[0] != '\\' {
        seq![glob[0]] + lead_text(glob.skip(1))
    } else if glob.len() > 1 {
        seq![glob[1]] + lead_text(glob.skip(2))
    } else {
        Seq::empty()
    }
}

/// How many characters of a glob spell that text.
pub open spec fn lead_len(glob: Seq<char>) -> nat
    decreases glob.len(),
{
    if glob.len() == 0 || is_wild(glob[0]) {
        0
    } else if glob[0] != '\\' {
        1 + lead_len(glob.skip(1))
    } else if glob.len() > 1 {
        2 + lead_len(glob.skip(2))
    } else {
        0
    }
}

/// A glob that spells one text: nothing in it stands for something else.
pub open spec fn is_spelled(glob: Seq<char>) -> bool {
    lead_len(glob) == glob.len()
}

/// A glob that starts at the root.
pub open spec fn is_absolute(glob: Seq<char>) -> bool {
    glob.len() > 0 && glob[0] == '/'
}

/// The characters that stand for themselves everywhere only behind a backslash.
pub open spec fn needs_guard(c: char) -> bool {
    is_wild(c) || c == ',' || c == '\\'
}

/// A text with a backslash before each such character.
pub open spec fn guarded(s: Seq<char>) -> Seq<char>
    decreases s.len(),
{
    if s.len() == 0 {
        Seq::empty()
    } else if needs_guard(s[0]) {
        seq!['\\', s[0]] + guarded(s.skip(1))
    } else {
        seq![s[0]] + guarded(s.skip(1))
    }
}

/// Reads the text that a glob spells up to the first character that stands for something else,
/// and how many characters spell it.
pub fn literal_lead(cs: &[char]) -> (r: (Vec<char>, usize))
    ensures
        r.0@ == lead_text(cs@),
        r.1 == lead_len(cs@),
        r.1 <= cs@.len(),
{
    let mut out: Vec<char> = Vec::new();
    let mut i: usize = 0;
    proof {
        assert(cs@.skip(0) =~= cs@);
        assert(out@ + lead_text(cs@) =~= lead_text(cs@));
    }
    while i < cs.len() && !(cs[i] == '*' || cs[i] == '?' || cs[i] == '[' || cs[i] == '{' || cs[i]
        == '}') && (cs[i] != '\\' || cs.len() - i > 1)
        invariant
            i <= cs@.len(),
            out@ + lead_text(cs@.skip(i as int)) == lead_text(cs@),
            i + lead_len(cs@.skip(i as int)) == lead_len(cs@),
        decreases cs@.len() - i,
    {
        let ghost s = cs@.skip(i as int);
        let ghost before = out@;
        assert(s[0] == cs@[i as int]);
        if cs[i] == '\\' {
            assert(s.skip(2) =~= cs@.skip(i + 2));
            assert(s[1] == cs@[i + 1]);
            out.push(cs[i + 1]);
            assert(out@ + lead_text(s.skip(2)) =~= before + lead_text(s));
            i = i + 2;
        } else {
            assert(s.skip(1) =~= cs@.skip(i + 1));
            out.push(cs[i]);
            assert(out@ + lead_text(s.skip(1)) =~= before + lead_text(s));
            i = i + 1;
        }
    }
    proof {
        let s = cs@.skip(i as int);
        if i < cs@.len() {
            assert(s[0] == cs@[i as int]);
        }
        assert(out@ + Seq::<char>::empty() =~= out@);
    }
    (out, i)
}

/// Puts a backslash before each character that may stand for something else than itself.
pub fn guard(cs: &[char]) -> (r: String)
    ensures
        r@ == guarded(cs@),
{
    let mut out: String = String::new();
    let mut i: usize = 0;
    proof {
        assert(cs@.skip(0) =~= cs@);
        assert(out@ + guarded(cs@) =~= guarded(cs@));
    }
    while i < cs.len()
        invariant
            i <= cs@.len(),
            out@ + guarded(cs@.skip(i as int)) == guarded(cs@),
        decreases cs@.len() - i,
    {
        let ghost s = cs@.skip(i as int);
        let ghost before = out@;
        let c: char = cs[i];
        if c == '*' || c == '?' || c == '[' || c == '{' || c == '}' || c == ',' || c == '\\' {
            out.push('\\');
        }
        out.push(c);
        proof {
            assert(s[0] == c);
            assert(s.skip(1) =~= cs@.skip(i + 1));
            assert(out@ + guarded(s.skip(1)) =~= before + guarded(s));
        }
        i = i + 1;
    }
    assert(out@ + Seq::<char>::empty() =~= out@);
    out
}

// ---------------------------------------------------------------------------
// Laws
// ---------------------------------------------------------------------------

/// A glob that can be read and whose parts make up a path.
pub open spec fn covers(glob: Seq<char>, path: Seq<char>) -> bool {
    glob_parts(glob) matches Some(parts) && fits(parts, path)
}

/// A text without characters that may stand for something else.
pub open spec fn plain(s: Seq<char>) -> bool {
    forall|i: int| 0 <= i < s.len() ==> !needs_guard(#[trigger] s[i])
}

/// A text without such characters needs no backslash, so what holds of guarded text holds of it
/// as it stands.
pub proof fn plain_text_is_unchanged(s: Seq<char>)
    requires
        plain(s),
    ensures
        guarded(s) == s,
    decreases s.len(),
{
    if s.len() > 0 {
        let rest = s.skip(1);
        assert forall|i: int| 0 <= i < rest.len() implies !needs_guard(#[trigger] rest[i]) by {
            assert(rest[i] == s[i + 1]);
        }
        plain_text_is_unchanged(rest);
        assert(seq![s[0]] + rest =~= s);
    } else {
        assert(guarded(s) =~= s);
    }
}

/// Guarded text at the front of a glob is what the glob spells there, whatever follows.
pub proof fn guarded_text_is_spelled(s: Seq<char>, tail: Seq<char>)
    ensures
        lead_text(guarded(s) + tail) == s + lead_text(tail),
        lead_len(guarded(s) + tail) == guarded(s).len() + lead_len(tail),
    decreases s.len(),
{
    let glob = guarded(s) + tail;
    if s.len() == 0 {
        assert(glob =~= tail);
        assert(s + lead_text(tail) =~= lead_text(tail));
    } else {
        let rest = s.skip(1);
        guarded_text_is_spelled(rest, tail);
        if needs_guard(s[0]) {
            assert(glob.skip(2) =~= guarded(rest) + tail);
            assert(glob[0] == '\\' && glob[1] == s[0]);
        } else {
            assert(glob.skip(1) =~= guarded(rest) + tail);
            assert(glob[0] == s[0]);
        }
        assert(seq![s[0]] + (rest + lead_text(tail)) =~= s + lead_text(tail));
    }
}

/// A glob that spells one text spells it at the front of a longer glob too.
pub proof fn spelled_front_is_kept(front: Seq<char>, tail: Seq<char>)
    requires
        is_spelled(front),
    ensures
        lead_text(front + tail) == lead_text(front) + lead_text(tail),
        lead_len(front + tail) == front.len() + lead_len(tail),
    decreases front.len(),
{
    let whole = front + tail;
    if front.len() == 0 {
        assert(whole =~= tail);
        assert(lead_text(front) + lead_text(tail) =~= lead_text(tail));
    } else {
        let n: int = if front[0] == '\\' {
            2
        } else {
            1
        };
        let rest = front.skip(n);
        spelled_front_is_kept(rest, tail);
        assert(whole.skip(n) =~= rest + tail);
        assert(whole[0] == front[0] && whole[n - 1] == front[n - 1]);
        assert(lead_text(whole) =~= lead_text(front) + lead_text(tail));
    }
}

/// Guarded text at the front of a glob, or of an alternative, is read as itself.
proof fn lemma_read_guarded(s: Seq<char>, tail: Seq<char>, inside: bool, depth: nat)
    ensures
        read_parts(guarded(s) + tail, inside, depth) == after_parts(
            literal_parts(s),
            read_parts(tail, inside, depth),
        ),
    decreases s.len(),
{
    let glob = guarded(s) + tail;
    let last = read_parts(tail, inside, depth);
    if s.len() == 0 {
        assert(glob =~= tail);
        match last {
            None => {},
            Some((more, _)) => {
                assert(literal_parts(s) + more =~= more);
            },
        }
    } else {
        let rest = s.skip(1);
        lemma_read_guarded(rest, tail, inside, depth);
        if needs_guard(s[0]) {
            assert(glob.skip(2) =~= guarded(rest) + tail);
            assert(glob[0] == '\\' && glob[1] == s[0]);
        } else {
            assert(glob.skip(1) =~= guarded(rest) + tail);
            assert(glob[0] == s[0]);
        }
        match last {
            None => {},
            Some((more, _)) => {
                assert(seq![literal(s[0])] + (literal_parts(rest) + more) =~= literal_parts(s)
                    + more);
            },
        }
    }
}

/// The text that a glob spells at its front comes out as its first parts.
proof fn lemma_read_lead(glob: Seq<char>, depth: nat)
    ensures
        lead_len(glob) <= glob.len(),
        read_parts(glob, false, depth) == after_parts(
            literal_parts(lead_text(glob)),
            read_parts(glob.skip(lead_len(glob) as int), false, depth),
        ),
    decreases glob.len(),
{
    let spelled = lead_text(glob);
    if glob.len() > 0 && !is_wild(glob[0]) && (glob[0] != '\\' || glob.len() > 1) {
        let n: int = if glob[0] == '\\' {
            2
        } else {
            1
        };
        let rest = glob.skip(n);
        lemma_read_lead(rest, depth);
        assert(rest.skip(lead_len(rest) as int) =~= glob.skip(lead_len(glob) as int));
        match read_parts(glob.skip(lead_len(glob) as int), false, depth) {
            None => {},
            Some((more, _)) => {
                assert(seq![literal(spelled[0])] + (literal_parts(lead_text(rest)) + more)
                    =~= literal_parts(spelled) + more);
            },
        }
    } else {
        assert(glob.skip(0) =~= glob);
        match read_parts(glob, false, depth) {
            None => {},
            Some((more, _)) => {
                assert(literal_parts(spelled) + more =~= more);
            },
        }
    }
}

/// Parts that stand for themselves fit exactly what they spell.
proof fn lemma_literal_front(s: Seq<char>, parts: Seq<GlobPart>, path: Seq<char>)
    ensures
        fits(literal_parts(s) + parts, path) <==> s.is_prefix_of(path) && fits(
            parts,
            path.skip(s.len() as int),
        ),
    decreases s.len(),
{
    let all = literal_parts(s) + parts;
    if s.len() == 0 {
        assert(all =~= parts);
        assert(path.skip(0) =~= path);
        assert(path.subrange(0, 0) =~= s);
    } else {
        let rest = s.skip(1);
        assert(all[0] == literal(s[0]));
        assert(all.skip(1) =~= literal_parts(rest) + parts);
        if path.len() > 0 {
            lemma_literal_front(rest, parts, path.skip(1));
            if s.len() <= path.len() {
                assert(path.skip(1).skip(rest.len() as int) =~= path.skip(s.len() as int));
            }
            if s.is_prefix_of(path) {
                assert(s[0] == path[0]);
                assert(path.skip(1).subrange(0, rest.len() as int) =~= rest);
            }
            if path[0] == s[0] && rest.is_prefix_of(path.skip(1)) {
                assert forall|i: int| 0 <= i < s.len() implies s[i] == path[i] by {
                    if i > 0 {
                        assert(rest[i - 1] == path.skip(1)[i - 1]);
                    }
                }
                assert(path.subrange(0, s.len() as int) =~= s);
            }
        }
    }
}

/// Parts that stand for themselves, and nothing behind them, fit what they spell alone.
proof fn lemma_literal_alone(s: Seq<char>, path: Seq<char>)
    ensures
        fits(literal_parts(s), path) <==> path == s,
{
    lemma_literal_front(s, Seq::empty(), path);
    assert(literal_parts(s) + Seq::<GlobPart>::empty() =~= literal_parts(s));
    if s.is_prefix_of(path) && path.skip(s.len() as int).len() == 0 {
        assert(path =~= s);
    }
    assert(s.subrange(0, s.len() as int) =~= s);
}

/// Guarded text and nothing else is read as itself.
proof fn lemma_guarded_alone(s: Seq<char>, depth: nat)
    ensures
        read_parts(guarded(s), false, depth) == Some((literal_parts(s), Seq::<char>::empty())),
{
    lemma_read_guarded(s, Seq::empty(), false, depth);
    assert(guarded(s) + Seq::<char>::empty() =~= guarded(s));
    assert(literal_parts(s) + Seq::<GlobPart>::empty() =~= literal_parts(s));
}

/// Guarded text is a glob for that text alone: behind a backslash every character stands for
/// itself.
pub proof fn guarded_text_is_literal(s: Seq<char>, path: Seq<char>)
    ensures
        covers(guarded(s), path) <==> path == s,
        glob_parts(guarded(s)) == Some(literal_parts(s)),
{
    lemma_guarded_alone(s, MAX_GROUPS as nat);
    lemma_literal_alone(s, path);
}

/// A glob behind the guarded name of a directory covers what the glob covers below that
/// directory, and nothing elsewhere.
pub proof fn glob_is_rebased(dir: Seq<char>, glob: Seq<char>, path: Seq<char>)
    ensures
        well_formed(guarded(dir) + "/"@ + glob) <==> well_formed(glob),
        covers(guarded(dir) + "/"@ + glob, path) <==> (dir + "/"@).is_prefix_of(path) && covers(
            glob,
            path.skip((dir + "/"@).len() as int),
        ),
{
    reveal_strlit("/");
    let front = dir + "/"@;
    let whole = guarded(dir) + "/"@ + glob;
    assert(whole =~= guarded(dir) + ("/"@ + glob));
    lemma_read_guarded(dir, "/"@ + glob, false, MAX_GROUPS as nat);
    assert(("/"@ + glob).skip(1) =~= glob);
    match glob_parts(glob) {
        None => {},
        Some(parts) => {
            assert(literal_parts(dir) + (seq![literal('/')] + parts) =~= literal_parts(front)
                + parts);
            lemma_literal_front(front, parts, path);
        },
    }
}

/// A glob between guarded texts, where what stands between them is read as some parts.
proof fn lemma_read_between(
    before: Seq<char>,
    between: Seq<char>,
    parts: Seq<GlobPart>,
    after: Seq<char>,
)
    requires
        read_parts(between + guarded(after), false, MAX_GROUPS as nat) == after_parts(
            parts,
            read_parts(guarded(after), false, MAX_GROUPS as nat),
        ),
    ensures
        glob_parts(guarded(before) + between + guarded(after)) == Some(
            literal_parts(before) + (parts + literal_parts(after)),
        ),
{
    let tail = between + guarded(after);
    assert(guarded(before) + between + guarded(after) =~= guarded(before) + tail);
    lemma_read_guarded(before, tail, false, MAX_GROUPS as nat);
    lemma_guarded_alone(after, MAX_GROUPS as nat);
}

/// One part between two texts fits what stands between them in a path, where that fits the part.
proof fn lemma_fits_between(before: Seq<char>, part: GlobPart, after: Seq<char>, path: Seq<char>)
    ensures
        fits(literal_parts(before) + (seq![part] + literal_parts(after)), path)
            <==> exists|between: Seq<char>|
            path == #[trigger] (before + between + after) && fits(seq![part], between),
{
    let parts = seq![part] + literal_parts(after);
    let rest = path.skip(before.len() as int);
    let one = seq![part];
    lemma_literal_front(before, parts, path);
    assert(parts.skip(1) =~= literal_parts(after));
    assert(parts[0] == part);
    assert(one.skip(1) =~= Seq::<GlobPart>::empty());
    if before.is_prefix_of(path) && fits(parts, rest) {
        let n: int = match part {
            GlobPart::Literal(_) => 1,
            GlobPart::One => 1,
            GlobPart::Class { .. } => 1,
            GlobPart::Within => choose|n: int|
                0 <= n <= rest.len() && !rest.take(n).contains('/') && fits(
                    parts.skip(1),
                    #[trigger] rest.skip(n),
                ),
            GlobPart::Across => choose|n: int|
                0 <= n <= rest.len() && fits(parts.skip(1), #[trigger] rest.skip(n)),
            GlobPart::Either(branches) => {
                let (_, n) = choose|k: int, n: int|
                    #![trigger branches[k], rest.skip(n)]
                    0 <= k < branches.len() && 0 <= n <= rest.len() && fits(
                        branches[k],
                        rest.take(n),
                    ) && fits(parts.skip(1), rest.skip(n));
                n
            },
        };
        lemma_literal_alone(after, rest.skip(n));
        let between = rest.take(n);
        assert(path =~= before + between + after);
        lemma_fits_one(part, between);
        if part is Either {
            let branches = part->Either_0;
            let (k, _) = choose|k: int, n: int|
                #![trigger branches[k], rest.skip(n)]
                0 <= k < branches.len() && 0 <= n <= rest.len() && fits(branches[k], rest.take(n))
                    && fits(parts.skip(1), rest.skip(n));
            assert(fits(branches[k], between));
        }
        assert(fits(one, between));
    }
    if exists|between: Seq<char>|
        path == #[trigger] (before + between + after) && fits(seq![part], between) {
        let between = choose|between: Seq<char>|
            path == #[trigger] (before + between + after) && fits(seq![part], between);
        let n = between.len() as int;
        lemma_fits_one(part, between);
        assert(path.subrange(0, before.len() as int) =~= before);
        assert(rest.take(n) =~= between);
        assert(rest.skip(n) =~= after);
        lemma_literal_alone(after, after);
        assert(fits(parts.skip(1), rest.skip(n)));
        if part is Either {
            let branches = part->Either_0;
            let k = choose|k: int| 0 <= k < branches.len() && fits(#[trigger] branches[k], between);
            assert(fits(branches[k], rest.take(n)));
        }
        assert(fits(parts, rest));
    }
}

/// What one part fits.
proof fn lemma_fits_one(part: GlobPart, text: Seq<char>)
    ensures
        fits(seq![part], text) == (match part {
            GlobPart::Literal(c) => text.len() == 1 && text[0] == c,
            GlobPart::One => text.len() == 1 && text[0] != '/',
            GlobPart::Within => !text.contains('/'),
            GlobPart::Across => true,
            GlobPart::Class { negated, ranges } => text.len() == 1 && in_ranges(ranges, text[0])
                != negated,
            GlobPart::Either(branches) => exists|k: int|
                0 <= k < branches.len() && fits(#[trigger] branches[k], text),
        }),
{
    let one = seq![part];
    let none = Seq::<GlobPart>::empty();
    let n = text.len() as int;
    assert(one.skip(1) =~= none);
    assert(text.take(n) =~= text);
    assert(fits(none, text.skip(n)));
    assert forall|m: int| 0 <= m <= n && fits(none, #[trigger] text.skip(m)) implies m == n by {}
    if part is Either {
        let branches = part->Either_0;
        if fits(one, text) {
            let (k, m) = choose|k: int, m: int|
                #![trigger branches[k], text.skip(m)]
                0 <= k < branches.len() && 0 <= m <= text.len() && fits(branches[k], text.take(m))
                    && fits(one.skip(1), text.skip(m));
            assert(m == n);
            assert(fits(branches[k], text));
        }
        if exists|k: int| 0 <= k < branches.len() && fits(#[trigger] branches[k], text) {
            let k = choose|k: int| 0 <= k < branches.len() && fits(#[trigger] branches[k], text);
            assert(fits(branches[k], text.take(n)));
        }
    }
}

/// A `?` stands for one character of a name: between the texts before and after it, any one
/// character but a slash is covered.
pub proof fn question_mark_is_one_character(before: Seq<char>, after: Seq<char>, path: Seq<char>)
    ensures
        covers(guarded(before) + "?"@ + guarded(after), path) <==> exists|c: char|
            c != '/' && path == #[trigger] (before + seq![c] + after),
{
    reveal_strlit("?");
    assert(("?"@ + guarded(after)).skip(1) =~= guarded(after));
    lemma_read_between(before, "?"@, seq![GlobPart::One], after);
    lemma_one_character(before, GlobPart::One, after, path);
}

/// A part that fits single characters only, between two texts.
proof fn lemma_one_character(before: Seq<char>, part: GlobPart, after: Seq<char>, path: Seq<char>)
    requires
        part is One || part is Class,
    ensures
        fits(literal_parts(before) + (seq![part] + literal_parts(after)), path) <==> exists|c: char|
            path == #[trigger] (before + seq![c] + after) && (match part {
                GlobPart::Class { negated, ranges } => in_ranges(ranges, c) != negated,
                _ => c != '/',
            }),
{
    lemma_fits_between(before, part, after, path);
    if exists|between: Seq<char>|
        path == #[trigger] (before + between + after) && fits(seq![part], between) {
        let between = choose|between: Seq<char>|
            path == #[trigger] (before + between + after) && fits(seq![part], between);
        lemma_fits_one(part, between);
        assert(between =~= seq![between[0]]);
        assert(path == before + seq![between[0]] + after);
    }
    assert forall|c: char|
        path == #[trigger] (before + seq![c] + after) && (match part {
            GlobPart::Class { negated, ranges } => in_ranges(ranges, c) != negated,
            _ => c != '/',
        }) implies fits(seq![part], seq![c]) by {
        lemma_fits_one(part, seq![c]);
    }
}

/// A `*` stands for characters within one name: between the texts before and after it, any text
/// without a slash is covered.
pub proof fn star_stays_within_a_name(before: Seq<char>, after: Seq<char>, path: Seq<char>)
    ensures
        covers(guarded(before) + "*"@ + guarded(after), path) <==> exists|name: Seq<char>|
            !name.contains('/') && path == #[trigger] (before + name + after),
{
    reveal_strlit("*");
    let tail = "*"@ + guarded(after);
    assert(tail.skip(1) =~= guarded(after));
    assert(tail.len() > 1 ==> tail[1] == guarded(after)[0]);
    lemma_read_between(before, "*"@, seq![GlobPart::Within], after);
    lemma_fits_between(before, GlobPart::Within, after, path);
    assert forall|name: Seq<char>|
        path == #[trigger] (before + name + after) implies fits(seq![GlobPart::Within], name)
        == !name.contains('/') by {
        lemma_fits_one(GlobPart::Within, name);
    }
}

/// `**/` stands for any text, whether or not it has slashes, and also for none: what follows it is
/// found at any depth below what stands before it, and right there too.
pub proof fn double_star_reaches_any_depth(before: Seq<char>, after: Seq<char>, path: Seq<char>)
    ensures
        covers(guarded(before) + "**/"@ + guarded(after), path) <==> exists|between: Seq<char>|
            path == #[trigger] (before + between + after),
        covers(guarded(before) + "**/"@ + guarded(after), before + after),
{
    reveal_strlit("**/");
    assert(("**/"@ + guarded(after)).skip(3) =~= guarded(after));
    lemma_read_between(before, "**/"@, seq![GlobPart::Across], after);
    lemma_fits_between(before, GlobPart::Across, after, path);
    assert forall|between: Seq<char>| path == #[trigger] (before + between + after) implies fits(
        seq![GlobPart::Across],
        between,
    ) by {
        lemma_fits_one(GlobPart::Across, between);
    }
    lemma_fits_between(before, GlobPart::Across, after, before + after);
    lemma_fits_one(GlobPart::Across, Seq::empty());
    assert(before + after =~= before + Seq::<char>::empty() + after);
}

/// A glob that ends in `/**` covers everything below the directory before it, at any depth, and
/// nothing else.
pub proof fn tree_is_covered(dir: Seq<char>, path: Seq<char>)
    ensures
        covers(guarded(dir) + "/**"@, path) <==> (dir + "/"@).is_prefix_of(path),
{
    reveal_strlit("/**");
    reveal_strlit("/");
    let front = dir + "/"@;
    let tail = seq!['*', '*'];
    assert(guarded(dir) + "/**"@ =~= guarded(dir) + "/"@ + tail);
    glob_is_rebased(dir, tail, path);
    assert(tail.skip(2) =~= Seq::<char>::empty());
    assert(read_parts(Seq::<char>::empty(), false, MAX_GROUPS as nat) == Some(
        (Seq::<GlobPart>::empty(), Seq::<char>::empty()),
    ));
    assert(seq![GlobPart::Across] + Seq::<GlobPart>::empty() =~= seq![GlobPart::Across]);
    lemma_fits_one(GlobPart::Across, path.skip(front.len() as int));
}

/// A class stands for one character: one that lies in the ranges between its brackets or, after
/// `!`, one that lies in none of them.
pub proof fn class_is_one_character(
    before: Seq<char>,
    inner: Seq<char>,
    after: Seq<char>,
    path: Seq<char>,
)
    requires
        inner.len() > 0,
        inner[0] != '!' && inner[0] != '^',
        !inner.contains(']'),
        ranges_of(inner) matches Some((_, waits)) && !waits,
    ensures
        covers(guarded(before) + ("["@ + inner + "]"@) + guarded(after), path) <==> exists|c: char|
            in_ranges((ranges_of(inner)->0).0, c) && path == #[trigger] (before + seq![c] + after),
        covers(guarded(before) + ("[!"@ + inner + "]"@) + guarded(after), path) <==> exists|c: char|
            !in_ranges((ranges_of(inner)->0).0, c) && path == #[trigger] (before + seq![c] + after),
{
    reveal_strlit("[");
    reveal_strlit("[!");
    reveal_strlit("]");
    let ranges = (ranges_of(inner)->0).0;
    let part = GlobPart::Class { negated: false, ranges };
    let opposite = GlobPart::Class { negated: true, ranges };
    assert("["@ + inner + "]"@ =~= seq!['['] + inner + seq![']']);
    assert("[!"@ + inner + "]"@ =~= seq!['[', '!'] + inner + seq![']']);
    lemma_read_class(before, inner, after);
    lemma_one_character(before, part, after, path);
    lemma_one_character(before, opposite, after, path);
}

/// How a class between guarded texts is read.
proof fn lemma_read_class(before: Seq<char>, inner: Seq<char>, after: Seq<char>)
    requires
        inner.len() > 0,
        inner[0] != '!' && inner[0] != '^',
        !inner.contains(']'),
        ranges_of(inner) matches Some((_, waits)) && !waits,
    ensures
        ({
            let ranges = (ranges_of(inner)->0).0;
            let plain = seq!['['] + inner + seq![']'];
            let turned = seq!['[', '!'] + inner + seq![']'];
            &&& glob_parts(guarded(before) + plain + guarded(after)) == Some(
                literal_parts(before) + (seq![GlobPart::Class { negated: false, ranges }]
                    + literal_parts(after)),
            )
            &&& glob_parts(guarded(before) + turned + guarded(after)) == Some(
                literal_parts(before) + (seq![GlobPart::Class { negated: true, ranges }]
                    + literal_parts(after)),
            )
        }),
{
    let rest = guarded(after);
    let ranges = (ranges_of(inner)->0).0;
    let n = inner.len() as int;
    let plain = seq!['['] + inner + seq![']'];
    let turned = seq!['[', '!'] + inner + seq![']'];
    assert(read_part(plain + rest) == Some((GlobPart::Class { negated: false, ranges }, n + 2)))
        by {
        let body = (plain + rest).skip(1);
        lemma_class_end(body, inner, rest, 0);
        assert(body[0] == inner[0]);
    }
    assert(read_part(turned + rest) == Some((GlobPart::Class { negated: true, ranges }, n + 3)))
        by {
        let body = (turned + rest).skip(1);
        lemma_class_end(body, inner, rest, 1);
        assert(body[0] == '!');
    }
    assert((plain + rest).skip(n + 2) =~= rest);
    assert((turned + rest).skip(n + 3) =~= rest);
    lemma_read_between(before, plain, seq![GlobPart::Class { negated: false, ranges }], after);
    lemma_read_between(before, turned, seq![GlobPart::Class { negated: true, ranges }], after);
}

/// Where the characters of a class end.
proof fn lemma_class_end(s: Seq<char>, inner: Seq<char>, rest: Seq<char>, from: int)
    requires
        from == 0 || from == 1,
        inner.len() > 0,
        !inner.contains(']'),
        s.len() == from + inner.len() + 1 + rest.len(),
        s.skip(from) =~= inner + seq![']'] + rest,
    ensures
        text::lead(s.skip(from + 1), text::other_than(']')) == inner.len() - 1,
        s.subrange(from, from + inner.len()) == inner,
{
    let body = s.skip(from);
    let tail = s.skip(from + 1);
    assert forall|i: int| 0 <= i < tail.len() implies #[trigger] tail[i] == body[i + 1] by {}
    assert forall|i: int| 0 <= i < inner.len() - 1 implies (text::other_than(']'))(
        #[trigger] tail[i],
    ) by {
        assert(tail[i] == inner[i + 1]);
        assert(inner.contains(inner[i + 1]));
    }
    assert(tail[inner.len() - 1] == body[inner.len() as int]);
    text::lemma_lead(tail, text::other_than(']'), (inner.len() - 1) as nat);
    assert forall|i: int| 0 <= i < inner.len() implies #[trigger] s.subrange(
        from,
        from + inner.len(),
    )[i] == inner[i] by {
        assert(body[i] == s[from + i]);
    }
    assert(s.subrange(from, from + inner.len()) =~= inner);
}

/// A group stands for one of its alternatives. An empty alternative does not count, and a group
/// of empty alternatives stands for nothing.
pub proof fn group_is_one_alternative(
    before: Seq<char>,
    a: Seq<char>,
    b: Seq<char>,
    after: Seq<char>,
    path: Seq<char>,
)
    ensures
        covers(
            guarded(before) + ("{"@ + guarded(a) + ","@ + guarded(b) + "}"@) + guarded(after),
            path,
        ) <==> {
            ||| a.len() > 0 && path == before + a + after
            ||| b.len() > 0 && path == before + b + after
            ||| a.len() == 0 && b.len() == 0 && path == before + after
        },
{
    reveal_strlit("{");
    reveal_strlit(",");
    reveal_strlit("}");
    let depth = (MAX_GROUPS - 1) as nat;
    let group = "{"@ + guarded(a) + ","@ + guarded(b) + "}"@;
    let tail = group + guarded(after);
    let second = "}"@ + guarded(after);
    let first = ","@ + (guarded(b) + second);
    let branches = branch(literal_parts(a)) + branch(literal_parts(b));
    let none = Seq::<GlobPart>::empty();
    assert(tail.skip(1) =~= guarded(a) + first);
    assert(first.skip(1) =~= guarded(b) + second);
    assert(second.skip(1) =~= guarded(after));
    lemma_read_guarded(a, first, true, depth);
    lemma_read_guarded(b, second, true, depth);
    assert(read_parts(first, true, depth) == Some((none, first)));
    assert(read_parts(second, true, depth) == Some((none, second)));
    assert(literal_parts(a) + none =~= literal_parts(a));
    assert(literal_parts(b) + none =~= literal_parts(b));
    assert(read_group(guarded(b) + second, depth) == Some(
        (branch(literal_parts(b)), guarded(after)),
    ));
    assert(read_group(tail.skip(1), depth) == Some((branches, guarded(after))));
    lemma_read_between(before, group, group_parts(branches), after);
    if branches.len() == 0 {
        assert(literal_parts(before) + (group_parts(branches) + literal_parts(after))
            =~= literal_parts(before + after));
        lemma_literal_alone(before + after, path);
    } else {
        let part = GlobPart::Either(branches);
        lemma_fits_between(before, part, after, path);
        assert forall|between: Seq<char>|
            path == #[trigger] (before + between + after) implies fits(seq![part], between) == ((
        a.len() > 0 && between == a) || (b.len() > 0 && between == b)) by {
            lemma_fits_one(part, between);
            lemma_literal_alone(a, between);
            lemma_literal_alone(b, between);
            if a.len() > 0 {
                assert(branches[0] == literal_parts(a));
            }
            if b.len() > 0 {
                assert(branches[branches.len() - 1] == literal_parts(b));
            }
            assert forall|k: int| 0 <= k < branches.len() implies #[trigger] branches[k]
                == literal_parts(a) || branches[k] == literal_parts(b) by {}
        }
    }
}

/// A glob without brackets, braces and backslashes can always be read.
pub proof fn unmarked_globs_are_read(glob: Seq<char>)
    requires
        forall|i: int|
            0 <= i < glob.len() ==> (#[trigger] glob[i]) != '[' && glob[i] != '{' && glob[i] != '}'
                && glob[i] != '\\',
    ensures
        well_formed(glob),
    decreases glob.len(),
{
    if glob.len() > 0 {
        let n = (read_part(glob)->0).1;
        let rest = glob.skip(n);
        assert forall|i: int| 0 <= i < rest.len() implies (#[trigger] rest[i]) != '[' && rest[i]
            != '{' && rest[i] != '}' && rest[i] != '\\' by {
            assert(rest[i] == glob[n + i]);
        }
        unmarked_globs_are_read(rest);
    }
}

/// Whatever a glob covers starts with the text that the glob spells at its front; and a glob that
/// spells one text covers that text alone.
pub proof fn covered_paths_start_alike(glob: Seq<char>, path: Seq<char>)
    ensures
        covers(glob, path) ==> lead_text(glob).is_prefix_of(path),
        is_spelled(glob) ==> (covers(glob, path) <==> path == lead_text(glob)),
{
    let spelled = lead_text(glob);
    let rest = glob.skip(lead_len(glob) as int);
    lemma_read_lead(glob, MAX_GROUPS as nat);
    match glob_parts(rest) {
        None => {},
        Some(parts) => {
            lemma_literal_front(spelled, parts, path);
        },
    }
    if is_spelled(glob) {
        spelled_glob_is_literal(glob);
        lemma_literal_alone(spelled, path);
    }
}

/// A glob that spells one text is read as that text.
pub proof fn spelled_glob_is_literal(glob: Seq<char>)
    requires
        is_spelled(glob),
    ensures
        glob_parts(glob) == Some(literal_parts(lead_text(glob))),
{
    let spelled = lead_text(glob);
    lemma_read_lead(glob, MAX_GROUPS as nat);
    assert(glob.skip(lead_len(glob) as int) =~= Seq::<char>::empty());
    assert(literal_parts(spelled) + Seq::<GlobPart>::empty() =~= literal_parts(spelled));
}

/// The characters that mean something between the brackets of a regular expression.
pub open spec fn is_bracket_mark(c: char) -> bool {
    c == '-' || c == '[' || c == '\\' || c == ']' || c == '^'
}

/// A range loses no character when it is written between brackets, and gains none: only the ones
/// that mean something there are left to be written apart.
pub proof fn range_keeps_its_characters(range: (char, char), c: char)
    requires
        !is_bracket_mark(c),
    ensures
        range.0 <= c && c <= range.1 <==> range_start(range.0) <= c && c <= range_end(range.1),
{
}

/// A part that is no class and no group.
pub open spec fn is_flat(part: GlobPart) -> bool {
    !(part is Class) && !(part is Either)
}

/// What the regular expression of such a part starts with.
proof fn lemma_regex_starts(part: GlobPart)
    requires
        is_flat(part),
    ensures
        ({
            let re = part_regex(part);
            &&& re.len() > 0
            &&& re[0] != '*'
            &&& re[0] == '\\' <==> (part matches GlobPart::Literal(c) && is_meta(c))
            &&& re[0] == '[' <==> part is One || part is Within
            &&& re[0] == '.' <==> part is Across
            &&& part matches GlobPart::Literal(c) ==> re.last() == c && (is_meta(c) ==> re.len()
                == 2) && (!is_meta(c) ==> re.len() == 1)
            &&& part is One ==> re.len() == 4
            &&& part is Within ==> re.len() == 5 && re[4] == '*'
        }),
{
    reveal_strlit("[^/]");
    reveal_strlit("[^/]*");
    reveal_strlit(".*");
}

/// Where no class and no group occurs, a regular expression keeps the parts of its glob apart: no
/// other such parts are written the same way, so a character that stands for itself is never taken
/// for a wildcard.
pub proof fn regex_tells_parts_apart(a: Seq<GlobPart>, b: Seq<GlobPart>)
    requires
        forall|i: int| 0 <= i < a.len() ==> is_flat(#[trigger] a[i]),
        forall|i: int| 0 <= i < b.len() ==> is_flat(#[trigger] b[i]),
        parts_regex(a) == parts_regex(b),
    ensures
        a == b,
    decreases a.len(),
{
    if a.len() > 0 {
        lemma_regex_starts(a[0]);
    }
    if b.len() > 0 {
        lemma_regex_starts(b[0]);
    }
    if a.len() == 0 || b.len() == 0 {
        assert(a.len() > 0 ==> parts_regex(a).len() >= part_regex(a[0]).len());
        assert(b.len() > 0 ==> parts_regex(b).len() >= part_regex(b[0]).len());
        assert(a =~= b);
    } else {
        let x = part_regex(a[0]);
        let y = part_regex(b[0]);
        let ra = parts_regex(a.skip(1));
        let rb = parts_regex(b.skip(1));
        let all = parts_regex(a);
        assert(all == x + ra && all == y + rb);
        assert(all[0] == x[0] && all[0] == y[0]);
        if a.len() > 1 {
            lemma_regex_starts(a[1]);
            assert(a.skip(1)[0] == a[1]);
            assert(ra[0] == part_regex(a[1])[0]);
        }
        if b.len() > 1 {
            lemma_regex_starts(b[1]);
            assert(b.skip(1)[0] == b[1]);
            assert(rb[0] == part_regex(b[1])[0]);
        }
        assert(x.len() > 1 && y.len() > 1 ==> x[1] == y[1]) by {
            if x.len() > 1 && y.len() > 1 {
                assert(all[1] == x[1] && all[1] == y[1]);
            }
        }
        if a[0] is One && b[0] is Within {
            assert(all[4] == y[4]);
            assert(all[4] == ra[0]);
        }
        if b[0] is One && a[0] is Within {
            assert(all[4] == x[4]);
            assert(all[4] == rb[0]);
        }
        assert(a[0] == b[0]);
        assert(ra =~= all.skip(x.len() as int));
        assert(rb =~= all.skip(x.len() as int));
        assert forall|i: int| 0 <= i < a.skip(1).len() implies is_flat(#[trigger] a.skip(1)[i]) by {
            assert(a.skip(1)[i] == a[i + 1]);
        }
        assert forall|i: int| 0 <= i < b.skip(1).len() implies is_flat(#[trigger] b.skip(1)[i]) by {
            assert(b.skip(1)[i] == b[i + 1]);
        }
        regex_tells_parts_apart(a.skip(1), b.skip(1));
        assert(a =~= seq![a[0]] + a.skip(1));
        assert(b =~= seq![b[0]] + b.skip(1));
    }
}

/// A text is written character by character: one that a regular expression gives a meaning stands
/// behind a backslash, and any other stands for itself.
pub proof fn text_is_written_as_itself(s: Seq<char>, c: char)
    ensures
        parts_regex(literal_parts(s.push(c))) == parts_regex(literal_parts(s)) + (if c == '.' || c
            == '+' || c == '*' || c == '?' || c == '(' || c == ')' || c == '|' || c == '[' || c
            == ']' || c == '{' || c == '}' || c == '^' || c == '$' || c == '\\' {
            seq!['\\', c]
        } else {
            seq![c]
        }),
{
    assert(literal_parts(s.push(c)) =~= literal_parts(s) + seq![literal(c)]);
    lemma_regex_joined(literal_parts(s), seq![literal(c)]);
    lemma_regex_single(literal(c));
}

/// Wildcards and groups are written where they stand, whatever is around them: `?` as any
/// character but a slash, `*` as any number of these, `**` as anything, and a group of two as
/// either of its alternatives.
pub proof fn wildcards_are_written_in_place(
    a: Seq<GlobPart>,
    b: Seq<GlobPart>,
    x: Seq<GlobPart>,
    y: Seq<GlobPart>,
)
    ensures
        parts_regex(a + seq![GlobPart::One] + b) == parts_regex(a) + "[^/]"@ + parts_regex(b),
        parts_regex(a + seq![GlobPart::Within] + b) == parts_regex(a) + "[^/]*"@ + parts_regex(b),
        parts_regex(a + seq![GlobPart::Across] + b) == parts_regex(a) + ".*"@ + parts_regex(b),
        parts_regex(a + seq![GlobPart::Either(seq![x, y])] + b) == parts_regex(a) + (seq!['(']
            + parts_regex(x) + seq!['|'] + parts_regex(y) + seq![')']) + parts_regex(b),
{
    let either = GlobPart::Either(seq![x, y]);
    lemma_regex_joined(a + seq![GlobPart::One], b);
    lemma_regex_joined(a + seq![GlobPart::Within], b);
    lemma_regex_joined(a + seq![GlobPart::Across], b);
    lemma_regex_joined(a + seq![either], b);
    lemma_regex_joined(a, seq![GlobPart::One]);
    lemma_regex_joined(a, seq![GlobPart::Within]);
    lemma_regex_joined(a, seq![GlobPart::Across]);
    lemma_regex_joined(a, seq![either]);
    lemma_regex_single(GlobPart::One);
    lemma_regex_single(GlobPart::Within);
    lemma_regex_single(GlobPart::Across);
    lemma_regex_single(either);
    assert(seq![x, y].drop_last() =~= seq![x]);
    assert(branches_regex(seq![x]) == parts_regex(x));
    assert(branches_regex(seq![x, y]) == parts_regex(x) + seq!['|'] + parts_regex(y));
    assert(part_regex(either) =~= seq!['('] + parts_regex(x) + seq!['|'] + parts_regex(y)
        + seq![')']);
}

/// A class of one range is written between brackets, and behind a caret where it is negated, if
/// nothing in the range means something there.
pub proof fn range_is_written_between_brackets(a: char, b: char)
    requires
        a < b,
        b < '-' || '-' < a,
        b < '[' || '^' < a,
    ensures
        class_regex(false, seq![(a, b)]) == seq!['[', a, '-', b, ']'],
        class_regex(true, seq![(a, b)]) == seq!['[', '^', a, '-', b, ']'],
{
    let ranges = seq![(a, b)];
    assert(ranges.drop_last() =~= Seq::<(char, char)>::empty());
    assert(ranges_text(Seq::<(char, char)>::empty()) == Seq::<char>::empty());
    assert(ranges_text(ranges) =~= seq![a, '-', b]);
    assert(ranges[0] == (a, b));
    assert(!in_ranges(ranges, '-') && !in_ranges(ranges, '[') && !in_ranges(ranges, '\\')
        && !in_ranges(ranges, ']') && !in_ranges(ranges, '^'));
    assert(class_front(ranges) =~= seq![a, '-', b]);
    assert(class_regex(false, ranges) =~= seq!['[', a, '-', b, ']']);
    assert(class_regex(true, ranges) =~= seq!['[', '^', a, '-', b, ']']);
}

/// What comes of reading one part and then the rest of a glob.
pub open spec fn part_then(part: GlobPart, rest: Option<Seq<GlobPart>>) -> Option<Seq<GlobPart>> {
    match rest {
        None => None,
        Some(parts) => Some(seq![part] + parts),
    }
}

/// A glob is read from left to right: each wildcard is a part of its own, a backslash makes a part
/// of the character behind it, a character without a meaning is a part, and what follows is read as
/// if it stood alone.
pub proof fn globs_are_read_from_left_to_right(glob: Seq<char>, c: char)
    ensures
        glob_parts(seq!['?'] + glob) == part_then(GlobPart::One, glob_parts(glob)),
        glob.len() == 0 || glob[0] != '*' ==> glob_parts(seq!['*'] + glob) == part_then(
            GlobPart::Within,
            glob_parts(glob),
        ),
        glob.len() == 0 || glob[0] != '/' ==> glob_parts(seq!['*', '*'] + glob) == part_then(
            GlobPart::Across,
            glob_parts(glob),
        ),
        glob_parts(seq!['*', '*', '/'] + glob) == part_then(GlobPart::Across, glob_parts(glob)),
        glob_parts(seq!['\\', c] + glob) == part_then(GlobPart::Literal(c), glob_parts(glob)),
        c != '?' && c != '*' && c != '\\' && c != '[' && c != '{' && c != '}' ==> glob_parts(
            seq![c] + glob,
        ) == part_then(GlobPart::Literal(c), glob_parts(glob)),
        glob_parts(Seq::<char>::empty()) == Some(Seq::<GlobPart>::empty()),
        glob_parts(seq!['\\']) is None,
        glob_parts(seq!['}'] + glob) is None,
{
    assert((seq!['?'] + glob).skip(1) =~= glob);
    assert((seq!['*'] + glob).skip(1) =~= glob);
    assert((seq!['*', '*'] + glob).skip(2) =~= glob);
    assert((seq!['*', '*', '/'] + glob).skip(3) =~= glob);
    assert((seq!['\\', c] + glob).skip(2) =~= glob);
    assert((seq![c] + glob).skip(1) =~= glob);
}

/// What a glob spells at its front, where it is a directory, a slash, a name and then something
/// that stands for something else.
pub proof fn front_of_a_wild_glob(dir: Seq<char>, name: Seq<char>, wild: Seq<char>)
    requires
        wild.len() > 0,
        wild[0] == '*' || wild[0] == '?' || wild[0] == '[' || wild[0] == '{',
    ensures
        lead_text(guarded(dir) + "/"@ + guarded(name) + wild) == dir + "/"@ + name,
        !is_spelled(guarded(dir) + "/"@ + guarded(name) + wild),
{
    reveal_strlit("/");
    let middle = guarded(name) + wild;
    let whole = guarded(dir) + "/"@ + guarded(name) + wild;
    assert(whole =~= guarded(dir) + ("/"@ + middle));
    guarded_text_is_spelled(dir, "/"@ + middle);
    assert(("/"@ + middle).skip(1) =~= middle);
    guarded_text_is_spelled(name, wild);
    assert(lead_text(wild) =~= Seq::<char>::empty());
    assert(lead_text(whole) =~= dir + "/"@ + name);
}

} // verus!
