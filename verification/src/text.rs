//! Text as sequences of characters: the scanning, trimming and searching that the policies,
//! the allowlist and the profile writer are built from.

use vstd::prelude::*;

verus! {

/// `String::push` appends one character to the end of the string.
pub assume_specification[ String::push ](s: &mut String, c: char)
    ensures
        final(s)@ == old(s)@.push(c),
;

// ---------------------------------------------------------------------------
// Leading and trailing runs
// ---------------------------------------------------------------------------

/// How many elements at the front of `s` satisfy `p` before the first that does not.
pub open spec fn lead<T>(s: Seq<T>, p: spec_fn(T) -> bool) -> nat
    decreases s.len(),
{
    if s.len() == 0 || !p(s[0]) {
        0
    } else {
        1 + lead(s.drop_first(), p)
    }
}

/// How many elements at the end of `s` satisfy `p` after the last that does not.
pub open spec fn trail<T>(s: Seq<T>, p: spec_fn(T) -> bool) -> nat
    decreases s.len(),
{
    if s.len() == 0 || !p(s.last()) {
        0
    } else {
        1 + trail(s.drop_last(), p)
    }
}

/// `lead` is the one count whose elements all satisfy `p` and that stops at one that does not.
pub proof fn lemma_lead<T>(s: Seq<T>, p: spec_fn(T) -> bool, n: nat)
    requires
        n <= s.len(),
        forall|i: int| 0 <= i < n ==> p(#[trigger] s[i]),
        n < s.len() ==> !p(s[n as int]),
    ensures
        lead(s, p) == n,
    decreases s.len(),
{
    if s.len() > 0 && n > 0 {
        let rest = s.drop_first();
        assert forall|i: int| 0 <= i < n - 1 implies p(#[trigger] rest[i]) by {
            assert(rest[i] == s[i + 1]);
        }
        assert(p(s[0]));
        lemma_lead(rest, p, (n - 1) as nat);
    }
}

/// What `lead` counts: a prefix of elements that satisfy `p`, cut off by one that does not.
pub proof fn lemma_lead_bounds<T>(s: Seq<T>, p: spec_fn(T) -> bool)
    ensures
        lead(s, p) <= s.len(),
        forall|i: int| 0 <= i < lead(s, p) ==> p(#[trigger] s[i]),
        lead(s, p) < s.len() ==> !p(s[lead(s, p) as int]),
    decreases s.len(),
{
    if s.len() > 0 && p(s[0]) {
        let rest = s.drop_first();
        lemma_lead_bounds(rest, p);
        assert forall|i: int| 0 <= i < lead(s, p) implies p(#[trigger] s[i]) by {
            if i > 0 {
                assert(s[i] == rest[i - 1]);
            }
        }
    }
}

/// `trail` is the one count whose elements all satisfy `p` and that stops at one that does not.
pub proof fn lemma_trail<T>(s: Seq<T>, p: spec_fn(T) -> bool, n: nat)
    requires
        n <= s.len(),
        forall|i: int| s.len() - n <= i < s.len() ==> p(#[trigger] s[i]),
        n < s.len() ==> !p(s[s.len() - n - 1]),
    ensures
        trail(s, p) == n,
    decreases s.len(),
{
    if s.len() > 0 && n > 0 {
        assert(p(s[s.len() - 1]));
        lemma_trail(s.drop_last(), p, (n - 1) as nat);
    }
}

/// What `trail` counts: a suffix of elements that satisfy `p`, cut off by one that does not.
pub proof fn lemma_trail_bounds<T>(s: Seq<T>, p: spec_fn(T) -> bool)
    ensures
        trail(s, p) <= s.len(),
        forall|i: int| s.len() - trail(s, p) <= i < s.len() ==> p(#[trigger] s[i]),
        trail(s, p) < s.len() ==> !p(s[s.len() - trail(s, p) - 1]),
    decreases s.len(),
{
    if s.len() > 0 && p(s.last()) {
        let rest = s.drop_last();
        lemma_trail_bounds(rest, p);
        assert forall|i: int| s.len() - trail(s, p) <= i < s.len() implies p(#[trigger] s[i]) by {
            if i < s.len() - 1 {
                assert(s[i] == rest[i]);
            }
        }
    }
}

/// The predicate "is not `x`".
pub open spec fn other_than<T>(x: T) -> spec_fn(T) -> bool {
    |c: T| c != x
}

/// The predicate "is `x`".
pub open spec fn equal_to<T>(x: T) -> spec_fn(T) -> bool {
    |c: T| c == x
}

/// `s` without the run of elements satisfying `p` at its front.
pub open spec fn drop_lead<T>(s: Seq<T>, p: spec_fn(T) -> bool) -> Seq<T> {
    s.skip(lead(s, p) as int)
}

/// The run of elements satisfying `p` at the front of `s`.
pub open spec fn take_lead<T>(s: Seq<T>, p: spec_fn(T) -> bool) -> Seq<T> {
    s.take(lead(s, p) as int)
}

/// `s` without the run of elements satisfying `p` at its end.
pub open spec fn drop_trail<T>(s: Seq<T>, p: spec_fn(T) -> bool) -> Seq<T> {
    s.take(s.len() - trail(s, p))
}

/// What stands before the last `x` in `s`, or `None` where there is no `x`.
pub open spec fn before_last<T>(s: Seq<T>, x: T) -> Option<Seq<T>> {
    if s.contains(x) {
        Some(s.take(s.len() - trail(s, other_than(x)) - 1))
    } else {
        None
    }
}

// ---------------------------------------------------------------------------
// Strings and character vectors
// ---------------------------------------------------------------------------

/// The characters of a string.
pub fn chars_of(s: &str) -> (r: Vec<char>)
    ensures
        r@ == s@,
{
    let mut out: Vec<char> = Vec::new();
    for c in it: s.chars()
        invariant
            out@ == it.seq().take(it.index() as int),
            it.seq() == s@,
    {
        out.push(c);
        assert(out@ =~= it.seq().take(it.index() as int + 1));
    }
    assert(s@.take(s@.len() as int) =~= s@);
    out
}

/// The string with the given characters.
pub fn string_of(cs: &[char]) -> (r: String)
    ensures
        r@ == cs@,
{
    let mut out: String = String::new();
    let mut i: usize = 0;
    while i < cs.len()
        invariant
            i <= cs@.len(),
            out@ == cs@.take(i as int),
        decreases cs@.len() - i,
    {
        out.push(cs[i]);
        i = i + 1;
        assert(cs@.take(i as int) =~= cs@.take(i - 1).push(cs@[i - 1]));
    }
    assert(cs@.take(cs@.len() as int) =~= cs@);
    out
}

/// One string after the other.
pub fn join2(a: &str, b: &str) -> (r: String)
    ensures
        r@ == a@ + b@,
{
    let mut out: String = a.to_owned();
    out.append(b);
    out
}

/// Three strings one after the other.
pub fn join3(a: &str, b: &str, c: &str) -> (r: String)
    ensures
        r@ == a@ + b@ + c@,
{
    let mut out: String = a.to_owned();
    out.append(b);
    out.append(c);
    out
}

/// The strings of `parts` with `sep` between each two of them.
pub open spec fn joined(parts: Seq<Seq<char>>, sep: Seq<char>) -> Seq<char>
    decreases parts.len(),
{
    if parts.len() == 0 {
        Seq::empty()
    } else if parts.len() == 1 {
        parts[0]
    } else {
        joined(parts.drop_last(), sep) + sep + parts.last()
    }
}

/// Joins strings with a separator between each two of them.
pub fn join_with(parts: &Vec<String>, sep: &str) -> (r: String)
    ensures
        r@ == joined(parts.deep_view(), sep@),
{
    let mut out: String = String::new();
    let ghost all = parts.deep_view();
    let mut i: usize = 0;
    while i < parts.len()
        invariant
            i <= parts@.len(),
            all == parts.deep_view(),
            out@ == joined(all.take(i as int), sep@),
        decreases parts@.len() - i,
    {
        let ghost before = all.take(i as int);
        if i > 0 {
            out.append(sep);
        }
        out.append(parts[i].as_str());
        i = i + 1;
        proof {
            let now = all.take(i as int);
            assert(now.drop_last() =~= before);
            assert(now.last() == parts@[i - 1]@);
            assert(Seq::<char>::empty() + now.last() =~= now.last());
        }
    }
    assert(all.take(parts@.len() as int) =~= all);
    out
}

// ---------------------------------------------------------------------------
// Case and white space
// ---------------------------------------------------------------------------

/// The lower-case form of an ASCII letter; any other character is kept.
pub open spec fn ascii_lower_char(c: char) -> char {
    if 'A' <= c && c <= 'Z' {
        ((c as u32) + 32) as char
    } else {
        c
    }
}

/// `s` with its ASCII letters in lower case.
pub open spec fn ascii_lower(s: Seq<char>) -> Seq<char> {
    Seq::new(s.len(), |i: int| ascii_lower_char(s[i]))
}

/// Lower-cases one ASCII letter.
fn lower_char(c: char) -> (r: char)
    ensures
        r == ascii_lower_char(c),
{
    if 'A' <= c && c <= 'Z' {
        ((c as u8) + 32) as char
    } else {
        c
    }
}

/// Lower-cases the ASCII letters.
pub fn to_ascii_lower(cs: &[char]) -> (r: Vec<char>)
    ensures
        r@ == ascii_lower(cs@),
{
    let mut out: Vec<char> = Vec::new();
    let mut i: usize = 0;
    while i < cs.len()
        invariant
            i <= cs@.len(),
            out@.len() == i,
            forall|k: int| 0 <= k < i ==> out@[k] == ascii_lower_char(#[trigger] cs@[k]),
        decreases cs@.len() - i,
    {
        out.push(lower_char(cs[i]));
        i = i + 1;
    }
    assert(out@ =~= ascii_lower(cs@));
    out
}

/// The characters with the Unicode `White_Space` property.
pub open spec fn is_white(c: char) -> bool {
    let n = c as u32;
    ||| 0x09 <= n <= 0x0D
    ||| n == 0x20
    ||| n == 0x85
    ||| n == 0xA0
    ||| n == 0x1680
    ||| 0x2000 <= n <= 0x200A
    ||| n == 0x2028
    ||| n == 0x2029
    ||| n == 0x202F
    ||| n == 0x205F
    ||| n == 0x3000
}

/// Whether a character is white space.
pub fn is_white_space(c: char) -> (r: bool)
    ensures
        r == is_white(c),
{
    let n: u32 = c as u32;
    (0x09 <= n && n <= 0x0D) || n == 0x20 || n == 0x85 || n == 0xA0 || n == 0x1680 || (0x2000 <= n
        && n <= 0x200A) || n == 0x2028 || n == 0x2029 || n == 0x202F || n == 0x205F || n == 0x3000
}

/// The predicate "is white space".
pub open spec fn white() -> spec_fn(char) -> bool {
    |c: char| is_white(c)
}

/// The predicate "is not white space".
pub open spec fn inked() -> spec_fn(char) -> bool {
    |c: char| !is_white(c)
}

/// `s` without the white space at its two ends.
pub open spec fn trimmed(s: Seq<char>) -> Seq<char> {
    drop_trail(drop_lead(s, white()), white())
}

/// Drops the white space at both ends.
pub fn trim(cs: &[char]) -> (r: Vec<char>)
    ensures
        r@ == trimmed(cs@),
{
    let mut a: usize = 0;
    while a < cs.len() && is_white_space(cs[a])
        invariant
            a <= cs@.len(),
            forall|i: int| 0 <= i < a ==> is_white(#[trigger] cs@[i]),
        decreases cs@.len() - a,
    {
        a = a + 1;
    }
    proof {
        lemma_lead(cs@, white(), a as nat);
    }
    let ghost tail = cs@.skip(a as int);
    let mut b: usize = cs.len();
    while a < b && is_white_space(cs[b - 1])
        invariant
            a <= b <= cs@.len(),
            forall|i: int| b <= i < cs@.len() ==> is_white(#[trigger] cs@[i]),
        decreases b,
    {
        b = b - 1;
    }
    proof {
        assert forall|i: int| tail.len() - (cs@.len() - b) <= i < tail.len() implies (white())(
            #[trigger] tail[i],
        ) by {
            assert(tail[i] == cs@[i + a]);
        }
        lemma_trail(tail, white(), (cs@.len() - b) as nat);
        assert(tail.take(b - a) =~= cs@.subrange(a as int, b as int));
    }
    copy_range(cs, a, b)
}

/// No white space at either end.
pub open spec fn tight(s: Seq<char>) -> bool {
    s.len() > 0 ==> !is_white(s[0]) && !is_white(s.last())
}

/// What was trimmed has no white space at its ends.
pub proof fn lemma_trimmed_tight(s: Seq<char>)
    ensures
        tight(trimmed(s)),
        trimmed(s).len() <= s.len(),
        trimmed(s).len() == s.len() ==> trimmed(s) == s,
{
    let a = drop_lead(s, white());
    lemma_lead_bounds(s, white());
    lemma_trail_bounds(a, white());
    let t = trimmed(s);
    if t.len() > 0 {
        assert((white())(s[lead(s, white()) as int]) == is_white(t[0]));
        assert(t.last() == a[a.len() - trail(a, white()) - 1]);
        assert(!(white())(t.last()));
    }
    if t.len() == s.len() {
        assert(t =~= s);
    }
}

/// Trimming changes nothing where there is no white space at the ends.
pub proof fn lemma_tight_trimmed(s: Seq<char>)
    requires
        tight(s),
    ensures
        trimmed(s) == s,
{
    lemma_lead(s, white(), 0);
    assert(drop_lead(s, white()) =~= s);
    lemma_trail(s, white(), 0);
    assert(trimmed(s) =~= s);
}

/// Lower-casing is done at once, and moves no white space.
pub proof fn lemma_lower_stable(s: Seq<char>)
    ensures
        ascii_lower(ascii_lower(s)) == ascii_lower(s),
        tight(s) ==> tight(ascii_lower(s)),
{
    assert(ascii_lower(ascii_lower(s)) =~= ascii_lower(s));
}

/// The characters from `a` up to but not including `b`.
pub fn copy_range(cs: &[char], a: usize, b: usize) -> (r: Vec<char>)
    requires
        a <= b <= cs@.len(),
    ensures
        r@ == cs@.subrange(a as int, b as int),
{
    let mut out: Vec<char> = Vec::new();
    let mut i: usize = a;
    while i < b
        invariant
            a <= i <= b <= cs@.len(),
            out@ == cs@.subrange(a as int, i as int),
        decreases b - i,
    {
        out.push(cs[i]);
        i = i + 1;
        assert(cs@.subrange(a as int, i as int) =~= cs@.subrange(a as int, i - 1).push(cs@[i - 1]));
    }
    out
}

/// How many characters stand before the first `x`; all of them where there is none.
pub fn lead_before(cs: &[char], x: char) -> (r: usize)
    ensures
        r <= cs@.len(),
        r == lead(cs@, other_than(x)),
{
    let mut i: usize = 0;
    while i < cs.len() && cs[i] != x
        invariant
            i <= cs@.len(),
            forall|k: int| 0 <= k < i ==> (#[trigger] cs@[k]) != x,
        decreases cs@.len() - i,
    {
        i = i + 1;
    }
    proof {
        lemma_lead(cs@, other_than(x), i as nat);
    }
    i
}

/// How many copies of `x` stand at the front.
pub fn lead_of(cs: &[char], x: char) -> (r: usize)
    ensures
        r <= cs@.len(),
        r == lead(cs@, equal_to(x)),
{
    let mut i: usize = 0;
    while i < cs.len() && cs[i] == x
        invariant
            i <= cs@.len(),
            forall|k: int| 0 <= k < i ==> (#[trigger] cs@[k]) == x,
        decreases cs@.len() - i,
    {
        i = i + 1;
    }
    proof {
        lemma_lead(cs@, equal_to(x), i as nat);
    }
    i
}

/// The text before the last `x`, or `None` where there is no `x`.
pub fn cut_at_last(cs: &[char], x: char) -> (r: Option<Vec<char>>)
    ensures
        r.deep_view() == before_last(cs@, x),
{
    let mut n: usize = cs.len();
    while n > 0 && cs[n - 1] != x
        invariant
            n <= cs@.len(),
            forall|k: int| n <= k < cs@.len() ==> (#[trigger] cs@[k]) != x,
        decreases n,
    {
        n = n - 1;
    }
    if n == 0 {
        assert(!cs@.contains(x));
        None
    } else {
        proof {
            assert(cs@[n - 1] == x);
            lemma_trail(cs@, other_than(x), (cs@.len() - n) as nat);
            assert(cs@.take(n - 1) =~= cs@.subrange(0, n - 1));
        }
        let head: Vec<char> = copy_range(cs, 0, n - 1);
        assert(head.deep_view() =~= head@);
        Some(head)
    }
}

/// Drops every `x` at the end.
pub fn trim_end_of(cs: &[char], x: char) -> (r: Vec<char>)
    ensures
        r@ == drop_trail(cs@, equal_to(x)),
{
    let mut n: usize = cs.len();
    while n > 0 && cs[n - 1] == x
        invariant
            n <= cs@.len(),
            forall|k: int| n <= k < cs@.len() ==> (#[trigger] cs@[k]) == x,
        decreases n,
    {
        n = n - 1;
    }
    proof {
        lemma_trail(cs@, equal_to(x), (cs@.len() - n) as nat);
        assert(cs@.take(n as int) =~= cs@.subrange(0, n as int));
    }
    copy_range(cs, 0, n)
}

// ---------------------------------------------------------------------------
// Comparing and searching
// ---------------------------------------------------------------------------

/// Whether two character sequences are the same.
pub fn same_chars(a: &[char], b: &[char]) -> (r: bool)
    ensures
        r == (a@ == b@),
{
    if a.len() != b.len() {
        return false;
    }
    let mut i: usize = 0;
    while i < a.len()
        invariant
            i <= a@.len(),
            a@.len() == b@.len(),
            forall|k: int| 0 <= k < i ==> a@[k] == b@[k],
        decreases a@.len() - i,
    {
        if a[i] != b[i] {
            return false;
        }
        i = i + 1;
    }
    assert(a@ =~= b@);
    true
}

/// Whether two strings hold the same characters.
pub fn same_text(a: &str, b: &str) -> (r: bool)
    ensures
        r == (a@ == b@),
{
    same_chars(chars_of(a).as_slice(), chars_of(b).as_slice())
}

/// `needle` stands in `hay` at position `at`.
pub open spec fn occurs_at<T>(hay: Seq<T>, needle: Seq<T>, at: int) -> bool {
    &&& 0 <= at
    &&& at + needle.len() <= hay.len()
    &&& hay.subrange(at, at + needle.len()) == needle
}

/// `needle` stands somewhere in `hay`.
pub open spec fn occurs<T>(hay: Seq<T>, needle: Seq<T>) -> bool {
    exists|at: int| occurs_at(hay, needle, at)
}

/// Whether `needle` stands in `hay` at position `at`.
pub fn stands_at(hay: &[char], needle: &[char], at: usize) -> (r: bool)
    ensures
        r == occurs_at(hay@, needle@, at as int),
{
    let end: usize = hay.len();
    if at > end || needle.len() > end - at {
        return false;
    }
    let mut i: usize = 0;
    while i < needle.len()
        invariant
            i <= needle@.len(),
            end == hay@.len(),
            at + needle@.len() <= end,
            forall|k: int| 0 <= k < i ==> hay@[at + k] == #[trigger] needle@[k],
        decreases needle@.len() - i,
    {
        if hay[at + i] != needle[i] {
            assert(hay@.subrange(at as int, at + needle@.len())[i as int] != needle@[i as int]);
            return false;
        }
        i = i + 1;
    }
    assert(hay@.subrange(at as int, at + needle@.len()) =~= needle@);
    true
}

/// Whether `hay` holds `needle`.
pub fn contains_chars(hay: &[char], needle: &[char]) -> (r: bool)
    ensures
        r == occurs(hay@, needle@),
{
    let mut at: usize = 0;
    while at < hay.len()
        invariant
            at <= hay@.len(),
            forall|k: int| 0 <= k < at ==> !occurs_at(hay@, needle@, k),
        decreases hay@.len() - at,
    {
        if stands_at(hay, needle, at) {
            return true;
        }
        at = at + 1;
    }
    stands_at(hay, needle, at)
}

/// The first of two texts is a prefix of both put together.
pub proof fn lemma_prefix_of_sum<T>(a: Seq<T>, b: Seq<T>)
    ensures
        a.is_prefix_of(a + b),
{
    assert((a + b).subrange(0, a.len() as int) =~= a);
}

/// Whether `cs` begins with `prefix`.
pub fn starts_with(cs: &[char], prefix: &[char]) -> (r: bool)
    ensures
        r == prefix@.is_prefix_of(cs@),
{
    stands_at(cs, prefix, 0)
}

/// Whether `cs` ends with `suffix`.
pub fn ends_with(cs: &[char], suffix: &[char]) -> (r: bool)
    ensures
        r == suffix@.is_suffix_of(cs@),
{
    if suffix.len() > cs.len() {
        return false;
    }
    stands_at(cs, suffix, cs.len() - suffix.len())
}

// ---------------------------------------------------------------------------
// Numbers
// ---------------------------------------------------------------------------

/// The decimal digit for `n`, which is below ten.
pub open spec fn digit(n: nat) -> char {
    (n + 48) as char
}

/// `n` in decimal notation, without leading zeros.
pub open spec fn decimal(n: nat) -> Seq<char>
    decreases n,
{
    if n < 10 {
        seq![digit(n)]
    } else {
        decimal(n / 10).push(digit(n % 10))
    }
}

/// Writes a number in decimal notation.
pub fn to_decimal(n: u64) -> (r: String)
    ensures
        r@ == decimal(n as nat),
    decreases n,
{
    let last: char = ((n % 10) as u8 + 48) as char;
    if n < 10 {
        let mut out: String = String::new();
        out.push(last);
        assert(out@ =~= seq![digit(n as nat)]);
        out
    } else {
        let mut out: String = to_decimal(n / 10);
        out.push(last);
        out
    }
}

/// Different numbers are written differently.
pub proof fn lemma_decimal_injective(a: nat, b: nat)
    requires
        decimal(a) == decimal(b),
    ensures
        a == b,
    decreases a,
{
    lemma_decimal_nonempty(a);
    lemma_decimal_nonempty(b);
    assert(decimal(a).last() == digit(a % 10));
    assert(decimal(b).last() == digit(b % 10));
    assert(a % 10 == b % 10);
    if a < 10 && b >= 10 {
        lemma_decimal_nonempty(b / 10);
    } else if a >= 10 && b < 10 {
        lemma_decimal_nonempty(a / 10);
    } else if a >= 10 && b >= 10 {
        assert(decimal(a).drop_last() =~= decimal(a / 10));
        assert(decimal(b).drop_last() =~= decimal(b / 10));
        lemma_decimal_injective(a / 10, b / 10);
    }
}

/// A number is written with at least one digit, and with digits only.
pub proof fn lemma_decimal_nonempty(n: nat)
    ensures
        decimal(n).len() > 0,
        forall|i: int| 0 <= i < decimal(n).len() ==> '0' <= #[trigger] decimal(n)[i] <= '9',
    decreases n,
{
    if n >= 10 {
        lemma_decimal_nonempty(n / 10);
    }
}

/// White space around a text is dropped, and nothing else is: what a text is without it does not
/// depend on how much of it there is.
pub proof fn white_space_around_is_dropped(a: Seq<char>, s: Seq<char>, b: Seq<char>)
    requires
        forall|i: int| 0 <= i < a.len() ==> is_white(#[trigger] a[i]),
        forall|i: int| 0 <= i < b.len() ==> is_white(#[trigger] b[i]),
    ensures
        trimmed(a + s + b) == trimmed(s),
        tight(s) ==> trimmed(a + s + b) == s,
{
    let whole = a + s + b;
    let n = lead(s, white());
    lemma_lead_bounds(s, white());
    if n == s.len() {
        assert forall|i: int| 0 <= i < whole.len() implies (white())(#[trigger] whole[i]) by {
            if i < a.len() {
                assert(whole[i] == a[i]);
            } else if i < a.len() + s.len() {
                assert((white())(s[i - a.len()]));
                assert(whole[i] == s[i - a.len()]);
            } else {
                assert(whole[i] == b[i - a.len() - s.len()]);
            }
        }
        lemma_lead(whole, white(), whole.len());
        assert(trimmed(whole) =~= trimmed(s));
    } else {
        assert forall|i: int| 0 <= i < a.len() + n implies (white())(#[trigger] whole[i]) by {
            if i < a.len() {
                assert(whole[i] == a[i]);
            } else {
                assert(whole[i] == s[i - a.len()]);
            }
        }
        assert(whole[a.len() + n as int] == s[n as int]);
        lemma_lead(whole, white(), a.len() + n);
        let u = drop_lead(s, white());
        let v = drop_lead(whole, white());
        assert(v =~= u + b);
        let m = trail(u, white());
        lemma_trail_bounds(u, white());
        assert(u[0] == s[n as int]);
        assert(m < u.len()) by {
            if m == u.len() {
                assert((white())(u[0]));
            }
        }
        assert forall|i: int| v.len() - (m + b.len()) <= i < v.len() implies (white())(
            #[trigger] v[i],
        ) by {
            if i < u.len() {
                assert(v[i] == u[i]);
            } else {
                assert(v[i] == b[i - u.len()]);
            }
        }
        assert(v[u.len() - m - 1] == u[u.len() - m - 1]);
        lemma_trail(v, white(), m + b.len());
        assert(trimmed(whole) =~= trimmed(s));
    }
    if tight(s) {
        lemma_tight_trimmed(s);
    }
}

/// Lower case changes the letters `A` to `Z` to `a` to `z`, each to its own, and no other
/// character.
pub proof fn lower_case_changes_capitals_only(s: Seq<char>, i: int)
    requires
        0 <= i < s.len(),
    ensures
        ascii_lower(s).len() == s.len(),
        'A' <= s[i] && s[i] <= 'Z' ==> ascii_lower(s)[i] as int == s[i] as int + 32,
        !('A' <= s[i] && s[i] <= 'Z') ==> ascii_lower(s)[i] == s[i],
{
}

/// The number that a text of digits stands for.
pub open spec fn number_of(s: Seq<char>) -> int
    decreases s.len(),
{
    if s.len() == 0 {
        0
    } else {
        number_of(s.drop_last()) * 10 + (s.last() as int - '0' as int)
    }
}

/// The decimal text of a number is made of digits, stands for that number, and has no needless
/// zero in front.
pub proof fn decimal_stands_for_its_number(n: nat)
    ensures
        number_of(decimal(n)) == n,
        forall|i: int| 0 <= i < decimal(n).len() ==> '0' <= #[trigger] decimal(n)[i] <= '9',
        decimal(n).len() > 0,
        n > 0 ==> decimal(n)[0] != '0',
    decreases n,
{
    let s = decimal(n);
    if n < 10 {
        assert(s.drop_last() =~= Seq::<char>::empty());
        assert(number_of(Seq::<char>::empty()) == 0);
    } else {
        decimal_stands_for_its_number(n / 10);
        assert(s.drop_last() =~= decimal(n / 10));
        assert(s[0] == decimal(n / 10)[0]);
    }
}

/// Joined texts stand one after the other, with the separator between each two of them and nowhere
/// else.
pub proof fn joined_texts_stand_in_order(parts: Seq<Seq<char>>, last: Seq<char>, sep: Seq<char>)
    ensures
        parts.len() == 0 ==> joined(parts.push(last), sep) == last,
        parts.len() > 0 ==> joined(parts.push(last), sep) == joined(parts, sep) + sep + last,
{
    assert(parts.push(last).drop_last() =~= parts);
}

} // verus!
