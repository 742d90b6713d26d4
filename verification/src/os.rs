//! Operating-system strings and paths: any bytes, as Unix passes them to a program.

use vstd::prelude::*;
use vstd::utf8::*;

use crate::text;

verus! {

/// A program name, an argument, an environment entry or a path, as the bytes that the
/// operating system sees. The bytes need not be UTF-8.
#[derive(Debug, PartialEq, Eq, PartialOrd, Ord, Hash)]
pub struct OsText {
    pub bytes: Vec<u8>,
}

impl View for OsText {
    type V = Seq<u8>;

    open spec fn view(&self) -> Seq<u8> {
        self.bytes@
    }
}

impl DeepView for OsText {
    type V = Seq<u8>;

    open spec fn deep_view(&self) -> Seq<u8> {
        self.bytes@
    }
}

impl Clone for OsText {
    fn clone(&self) -> (r: Self)
        ensures
            r@ == self@,
    {
        OsText { bytes: copy_bytes(self.bytes.as_slice(), 0, self.bytes.len()) }
    }
}

/// The bytes from `a` up to but not including `b`.
pub fn copy_bytes(bs: &[u8], a: usize, b: usize) -> (r: Vec<u8>)
    requires
        a <= b <= bs@.len(),
    ensures
        r@ == bs@.subrange(a as int, b as int),
        a == 0 && b == bs@.len() ==> r@ == bs@,
{
    let mut out: Vec<u8> = Vec::new();
    let mut i: usize = a;
    while i < b
        invariant
            a <= i <= b <= bs@.len(),
            out@ == bs@.subrange(a as int, i as int),
        decreases b - i,
    {
        out.push(bs[i]);
        i = i + 1;
        assert(bs@.subrange(a as int, i as int) =~= bs@.subrange(a as int, i - 1).push(bs@[i - 1]));
    }
    assert(a == 0 && b == bs@.len() ==> bs@.subrange(a as int, b as int) =~= bs@);
    out
}

/// Whether two byte sequences are the same.
pub fn same_bytes(a: &[u8], b: &[u8]) -> (r: bool)
    ensures
        r == (a@ == b@),
{
    if a.len() != b.len() {
        return false;
    }
    let mut i: usize = 0;
    while i < a.len()
        invariant
            i <= a@.len(),
            a@.len() == b@.len(),
            forall|k: int| 0 <= k < i ==> a@[k] == b@[k],
        decreases a@.len() - i,
    {
        if a[i] != b[i] {
            return false;
        }
        i = i + 1;
    }
    assert(a@ =~= b@);
    true
}

// ---------------------------------------------------------------------------
// Bytes as text
// ---------------------------------------------------------------------------

/// What `String::from_utf8_lossy` makes of bytes.
pub uninterp spec fn lossy_text(bytes: Seq<u8>) -> Seq<char>;

/// The predicate "is ASCII".
pub open spec fn below_128() -> spec_fn(u8) -> bool {
    |b: u8| b < 128
}

/// How many ASCII bytes stand at the front.
pub open spec fn ascii_lead(bytes: Seq<u8>) -> nat {
    text::lead(bytes, below_128())
}

/// Bytes read as text: decoded where they are valid UTF-8, else with replacement characters
/// behind the ASCII bytes at the front.
pub open spec fn text_of(bytes: Seq<u8>) -> Seq<char> {
    if valid_utf8(bytes) {
        decode_utf8(bytes)
    } else {
        let n = ascii_lead(bytes) as int;
        ascii_text(bytes.take(n)) + lossy_text(bytes.skip(n))
    }
}

/// A rooted path is shown with its slash in front, even where its bytes are no text.
pub proof fn rooted_text(path: Seq<u8>)
    requires
        is_rooted(path),
    ensures
        text_of(path).len() > 0,
        text_of(path)[0] == '/',
{
    if valid_utf8(path) {
        assert(47u8 & 0x7f == 47u8) by (bit_vector);
        assert(decode_first_scalar(path) == 47u32);
    } else {
        text::lemma_lead_bounds(path, below_128());
        assert((below_128())(path[0]));
    }
}

/// Two texts one after the other are written as their bytes one after the other.
pub proof fn encode_joined(a: Seq<char>, b: Seq<char>)
    ensures
        encode_utf8(a + b) == encode_utf8(a) + encode_utf8(b),
    decreases a.len(),
{
    if a.len() == 0 {
        assert(a + b =~= b);
        assert(encode_utf8(a) + encode_utf8(b) =~= encode_utf8(b));
    } else {
        let rest = a.drop_first();
        encode_joined(rest, b);
        assert((a + b).drop_first() =~= rest + b);
        assert(encode_utf8(a + b) =~= encode_utf8(a) + encode_utf8(b));
    }
}

/// Bytes that are all ASCII.
pub open spec fn is_ascii(bytes: Seq<u8>) -> bool {
    forall|i: int| 0 <= i < bytes.len() ==> (#[trigger] bytes[i]) < 128
}

/// The text that ASCII bytes stand for.
pub open spec fn ascii_text(bytes: Seq<u8>) -> Seq<char> {
    Seq::new(bytes.len(), |i: int| bytes[i] as char)
}

/// A text holds every run of ASCII bytes, as it stands.
pub open spec fn holds_ascii_of(text: Seq<char>, bytes: Seq<u8>) -> bool {
    forall|a: int, b: int|
        0 <= a <= b <= bytes.len() && is_ascii(bytes.subrange(a, b)) ==> text::occurs(
            text,
            ascii_text(#[trigger] bytes.subrange(a, b)),
        )
}

/// `String::from_utf8_lossy` decodes valid UTF-8 as it is. In place of what is not UTF-8 it puts
/// replacement characters, and it keeps all the rest: so ASCII bytes come out as they are, and
/// those at the front come out in front of what it makes of the others. What that is depends on
/// those bytes alone, and is named here and not described.
#[verifier::external_body]
fn from_utf8_lossy(bytes: &[u8]) -> (r: String)
    ensures
        valid_utf8(bytes@) ==> r@ == decode_utf8(bytes@),
        !valid_utf8(bytes@) ==> r@ == ascii_text(bytes@.take(ascii_lead(bytes@) as int))
            + lossy_text(bytes@.skip(ascii_lead(bytes@) as int)),
        holds_ascii_of(r@, bytes@),
{
    String::from_utf8_lossy(bytes).into_owned()
}

/// `String::from_utf8` gives the text that the bytes encode, and fails exactly where they are
/// not valid UTF-8.
#[verifier::external_body]
fn from_utf8(bytes: Vec<u8>) -> (r: Option<String>)
    ensures
        r is Some <==> valid_utf8(bytes@),
        r matches Some(s) ==> s@ == decode_utf8(bytes@),
{
    String::from_utf8(bytes).ok()
}

/// Reads bytes as text, with replacement characters where they are not UTF-8.
pub fn bytes_to_text(bytes: &[u8]) -> (r: String)
    ensures
        r@ == text_of(bytes@),
        holds_ascii_of(r@, bytes@),
{
    from_utf8_lossy(bytes)
}

/// A text survives being written as bytes and read back.
pub proof fn text_of_encoded(s: Seq<char>)
    ensures
        valid_utf8(encode_utf8(s)),
        text_of(encode_utf8(s)) == s,
{
    encode_utf8_valid_utf8(s);
    encode_utf8_decode_utf8(s);
}

impl OsText {
    /// The bytes of a text in UTF-8.
    pub fn new(s: &str) -> (r: Self)
        ensures
            r@ == encode_utf8(s@),
            valid_utf8(r@),
            text_of(r@) == s@,
    {
        let bytes = s.as_bytes();
        proof {
            text_of_encoded(s@);
        }
        OsText { bytes: copy_bytes(bytes, 0, bytes.len()) }
    }

    /// An operating-system string with these bytes.
    pub fn from_bytes(bytes: Vec<u8>) -> (r: Self)
        ensures
            r@ == bytes@,
    {
        OsText { bytes }
    }

    /// The text, with replacement characters where the bytes are not UTF-8.
    pub fn to_string_lossy(&self) -> (r: String)
        ensures
            r@ == text_of(self@),
    {
        bytes_to_text(self.bytes.as_slice())
    }

    /// The text, or `None` where the bytes are not UTF-8.
    pub fn to_str(&self) -> (r: Option<String>)
        ensures
            r.deep_view() == (if valid_utf8(self@) {
                Some(decode_utf8(self@))
            } else {
                None
            }),
    {
        from_utf8(copy_bytes(self.bytes.as_slice(), 0, self.bytes.len()))
    }

    /// Whether two operating-system strings have the same bytes.
    pub fn same(&self, other: &OsText) -> (r: bool)
        ensures
            r == (self@ == other@),
    {
        same_bytes(self.bytes.as_slice(), other.bytes.as_slice())
    }

    /// Whether the bytes are those of a text.
    pub fn is_text(&self, s: &str) -> (r: bool)
        ensures
            r == (self@ == encode_utf8(s@)),
    {
        same_bytes(self.bytes.as_slice(), s.as_bytes())
    }
}

/// A copy of a list of operating-system strings.
pub fn copy_all(list: &Vec<OsText>) -> (r: Vec<OsText>)
    ensures
        r.deep_view() == list.deep_view(),
{
    let mut out: Vec<OsText> = Vec::new();
    push_all(&mut out, list);
    assert(out.deep_view() =~= list.deep_view());
    out
}

/// Appends copies of all of `list`.
pub fn push_all(out: &mut Vec<OsText>, list: &Vec<OsText>)
    ensures
        final(out).deep_view() == old(out).deep_view() + list.deep_view(),
{
    let ghost start = out.deep_view();
    let mut i: usize = 0;
    while i < list.len()
        invariant
            i <= list@.len(),
            out.deep_view() == start + list.deep_view().take(i as int),
        decreases list@.len() - i,
    {
        let ghost before = out.deep_view();
        let copy: OsText = list[i].clone();
        out.push(copy);
        i = i + 1;
        proof {
            assert(out.deep_view() =~= before.push(list@[i - 1]@));
            assert(list.deep_view().take(i as int) =~= list.deep_view().take(i - 1).push(
                list.deep_view()[i - 1],
            ));
        }
    }
    assert(list.deep_view().take(list@.len() as int) =~= list.deep_view());
}

// ---------------------------------------------------------------------------
// Paths
// ---------------------------------------------------------------------------

/// The byte that separates the names in a path.
pub const SLASH: u8 = 47;

/// The byte that a relative name for the current directory is made of.
pub const DOT: u8 = 46;

/// The parts of `b` between the separators, empty ones too.
pub open spec fn pieces(b: Seq<u8>, sep: u8) -> Seq<Seq<u8>>
    decreases b.len(),
{
    let k = text::lead(b, text::other_than(sep)) as int;
    if 0 <= k < b.len() {
        seq![b.take(k)] + pieces(b.skip(k + 1), sep)
    } else {
        seq![b]
    }
}

/// Cuts bytes at every separator.
pub fn split(b: &[u8], sep: u8) -> (r: Vec<OsText>)
    ensures
        r.deep_view() == pieces(b@, sep),
{
    let mut out: Vec<OsText> = Vec::new();
    let mut start: usize = 0;
    let mut i: usize = 0;
    assert(b@.skip(0) =~= b@);
    assert(out.deep_view() + pieces(b@, sep) =~= pieces(b@, sep));
    while i < b.len()
        invariant
            start <= i <= b@.len(),
            forall|k: int| start <= k < i ==> (#[trigger] b@[k]) != sep,
            out.deep_view() + pieces(b@.skip(start as int), sep) == pieces(b@, sep),
        decreases b@.len() - i,
    {
        if b[i] == sep {
            let ghost rest = b@.skip(start as int);
            let ghost before = out.deep_view();
            proof {
                text::lemma_lead(rest, text::other_than(sep), (i - start) as nat);
                assert(rest.take(i - start) =~= b@.subrange(start as int, i as int));
                assert(rest.skip(i - start + 1) =~= b@.skip(i + 1));
            }
            out.push(OsText { bytes: copy_bytes(b, start, i) });
            proof {
                assert(out.deep_view() =~= before.push(rest.take(i - start)));
                assert(out.deep_view() + pieces(b@.skip(i + 1), sep) =~= before + (seq![
                    rest.take(i - start),
                ] + pieces(b@.skip(i + 1), sep)));
            }
            start = i + 1;
        }
        i = i + 1;
    }
    let ghost before = out.deep_view();
    proof {
        let rest = b@.skip(start as int);
        text::lemma_lead(rest, text::other_than(sep), rest.len());
        assert(rest =~= b@.subrange(start as int, b@.len() as int));
    }
    out.push(OsText { bytes: copy_bytes(b, start, b.len()) });
    assert(out.deep_view() =~= before + seq![b@.skip(start as int)]);
    out
}

/// A part of a path that names something: not empty, and not `.`.
pub open spec fn names_something(part: Seq<u8>) -> bool {
    part.len() > 0 && part != seq![DOT]
}

/// The names in a path, in order: what stands between slashes, without `.`.
pub open spec fn path_names(path: Seq<u8>) -> Seq<Seq<u8>> {
    pieces(path, SLASH).filter(|part: Seq<u8>| names_something(part))
}

/// Whether a path starts at the root.
pub open spec fn is_rooted(path: Seq<u8>) -> bool {
    path.len() > 0 && path[0] == SLASH
}

/// Whether a relative path starts with `.`.
pub open spec fn starts_here(path: Seq<u8>) -> bool {
    path == seq![DOT] || (path.len() > 1 && path[0] == DOT && path[1] == SLASH)
}

/// How many components a path has: its names, and its root or leading `.` where it has one.
pub open spec fn path_depth(path: Seq<u8>) -> nat {
    path_names(path).len() + (if is_rooted(path) || starts_here(path) {
        1nat
    } else {
        0nat
    })
}

/// The last name in a path, or `None` where there is none or it is `..`.
pub open spec fn path_file_name(path: Seq<u8>) -> Option<Seq<u8>> {
    let names = path_names(path);
    if names.len() > 0 && names.last() != seq![DOT, DOT] {
        Some(names.last())
    } else {
        None
    }
}

/// `name` inside the directory `dir`. A rooted name stands for itself.
pub open spec fn path_join(dir: Seq<u8>, name: Seq<u8>) -> Seq<u8> {
    if is_rooted(name) {
        name
    } else if dir.len() == 0 || dir.last() == SLASH {
        dir + name
    } else {
        dir.push(SLASH) + name
    }
}

impl OsText {
    /// The names in the path.
    fn names(&self) -> (r: Vec<OsText>)
        ensures
            r.deep_view() == path_names(self@),
    {
        let parts: Vec<OsText> = split(self.bytes.as_slice(), SLASH);
        let ghost all = parts.deep_view();
        let ghost keep = |part: Seq<u8>| names_something(part);
        let mut out: Vec<OsText> = Vec::new();
        let mut i: usize = 0;
        proof {
            reveal(Seq::filter);
            assert(out.deep_view() =~= all.take(0).filter(keep));
        }
        while i < parts.len()
            invariant
                i <= parts@.len(),
                all == parts.deep_view(),
                keep == (|part: Seq<u8>| names_something(part)),
                out.deep_view() == all.take(i as int).filter(keep),
            decreases parts@.len() - i,
        {
            let ghost before = out.deep_view();
            let part: &OsText = &parts[i];
            if part.bytes.len() > 0 && !(part.bytes.len() == 1 && part.bytes[0] == DOT) {
                assert(part@ != seq![DOT]) by {
                    if part@ == seq![DOT] {
                        assert(part@[0] == DOT);
                    }
                }
                out.push(part.clone());
                assert(out.deep_view() =~= before.push(part@));
            } else {
                assert(part@.len() == 1 ==> part@ =~= seq![DOT]);
            }
            i = i + 1;
            proof {
                assert(all.take(i as int) =~= all.take(i - 1).push(all[i - 1]));
                all.take(i - 1).lemma_filter_push(all[i - 1], keep);
            }
        }
        assert(all.take(parts@.len() as int) =~= all);
        out
    }

    /// How many components the path has.
    pub fn depth(&self) -> (r: usize)
        ensures
            r == path_depth(self@),
    {
        let n: usize = self.names().len();
        proof {
            lemma_names_len(self@);
        }
        let b: &Vec<u8> = &self.bytes;
        let size: usize = b.len();
        assert(size == self@.len());
        let rooted: bool = b.len() > 0 && b[0] == SLASH;
        let here: bool = (b.len() == 1 && b[0] == DOT) || (b.len() > 1 && b[0] == DOT && b[1]
            == SLASH);
        proof {
            if self@.len() == 1 && self@[0] == DOT {
                assert(self@ =~= seq![DOT]);
            }
            if self@ == seq![DOT] {
                assert(self@[0] == DOT);
            }
            assert(here == starts_here(self@));
        }
        if rooted || here {
            n + 1
        } else {
            n
        }
    }

    /// The last name in the path.
    pub fn file_name(&self) -> (r: Option<OsText>)
        ensures
            r.deep_view() == path_file_name(self@),
    {
        let mut names: Vec<OsText> = self.names();
        let ghost all = names.deep_view();
        match names.pop() {
            None => None,
            Some(last) => {
                assert(last@ == all.last());
                if last.bytes.len() == 2 && last.bytes[0] == DOT && last.bytes[1] == DOT {
                    assert(last@ =~= seq![DOT, DOT]);
                    None
                } else {
                    assert(last@ != seq![DOT, DOT]) by {
                        if last@ == seq![DOT, DOT] {
                            assert(last@.len() == 2 && last@[0] == DOT && last@[1] == DOT);
                        }
                    }
                    Some(last)
                }
            },
        }
    }

    /// `name` inside this directory.
    pub fn join(&self, name: &OsText) -> (r: OsText)
        ensures
            r@ == path_join(self@, name@),
    {
        let mut out: Vec<u8> = Vec::new();
        let rooted: bool = name.bytes.len() > 0 && name.bytes[0] == SLASH;
        if !rooted {
            append_bytes(&mut out, self.bytes.as_slice());
            if self.bytes.len() > 0 && self.bytes[self.bytes.len() - 1] != SLASH {
                out.push(SLASH);
            }
        }
        append_bytes(&mut out, name.bytes.as_slice());
        assert(out@ =~= path_join(self@, name@));
        OsText { bytes: out }
    }
}

/// Appends bytes.
pub fn append_bytes(out: &mut Vec<u8>, bs: &[u8])
    ensures
        final(out)@ == old(out)@ + bs@,
{
    let ghost start = out@;
    let mut i: usize = 0;
    while i < bs.len()
        invariant
            i <= bs@.len(),
            out@ == start + bs@.take(i as int),
        decreases bs@.len() - i,
    {
        out.push(bs[i]);
        i = i + 1;
        assert(start + bs@.take(i as int) =~= (start + bs@.take(i - 1)).push(bs@[i - 1]));
    }
    assert(bs@.take(bs@.len() as int) =~= bs@);
}

/// A name takes at least one byte and a separator, so a path has at most half as many names.
proof fn lemma_names_len(path: Seq<u8>)
    ensures
        path_names(path).len() * 2 <= path.len() + 1,
    decreases path.len(),
{
    let keep = |part: Seq<u8>| names_something(part);
    let k = text::lead(path, text::other_than(SLASH)) as int;
    text::lemma_lead_bounds(path, text::other_than(SLASH));
    reveal_with_fuel(Seq::filter, 2);
    if k < path.len() {
        let first = seq![path.take(k)];
        lemma_names_len(path.skip(k + 1));
        Seq::filter_distributes_over_add(first, pieces(path.skip(k + 1), SLASH), keep);
        assert(first.drop_last() =~= Seq::<Seq<u8>>::empty());
        assert(first.filter(keep).len() <= 1);
        assert(k == 0 ==> first.filter(keep).len() == 0);
    } else {
        let only = seq![path];
        assert(only.drop_last() =~= Seq::<Seq<u8>>::empty());
        assert(only.filter(keep).len() <= 1);
        assert(path.len() == 0 ==> only.filter(keep).len() == 0);
    }
}

/// Cutting after one more separator adds one more piece.
pub proof fn lemma_pieces_append(a: Seq<u8>, b: Seq<u8>, sep: u8)
    requires
        !b.contains(sep),
    ensures
        pieces(b, sep) == seq![b],
        pieces(a.push(sep) + b, sep) == pieces(a, sep).push(b),
    decreases a.len(),
{
    assert forall|i: int| 0 <= i < b.len() implies (text::other_than(sep))(#[trigger] b[i]) by {
        assert(b.contains(b[i]));
    }
    text::lemma_lead(b, text::other_than(sep), b.len());
    let whole = a.push(sep) + b;
    let k = text::lead(a, text::other_than(sep));
    text::lemma_lead_bounds(a, text::other_than(sep));
    assert forall|i: int| 0 <= i < k implies (text::other_than(sep))(#[trigger] whole[i]) by {
        assert((text::other_than(sep))(a[i]));
    }
    text::lemma_lead(whole, text::other_than(sep), k);
    assert(whole.take(k as int) =~= a.take(k as int));
    if k < a.len() {
        let rest = a.skip(k as int + 1);
        lemma_pieces_append(rest, b, sep);
        assert(whole.skip(k as int + 1) =~= rest.push(sep) + b);
        assert(pieces(whole, sep) =~= pieces(a, sep).push(b));
    } else {
        assert(a.take(k as int) =~= a);
        assert(whole.skip(k as int + 1) =~= b);
        assert(pieces(b, sep) == seq![b]);
        assert(pieces(a, sep) == seq![a]);
        assert(pieces(whole, sep) == seq![a] + seq![b]);
        assert(pieces(whole, sep) =~= pieces(a, sep).push(b));
    }
}

/// The last name of a path is what stands after its last slash, where that names something.
pub proof fn file_name_of_joined(dir: Seq<u8>, name: Seq<u8>)
    requires
        !name.contains(SLASH),
        names_something(name),
        name != seq![DOT, DOT],
    ensures
        path_file_name(name) == Some(name),
        path_file_name(dir.push(SLASH) + name) == Some(name),
{
    reveal(Seq::filter);
    let keep = |part: Seq<u8>| names_something(part);
    lemma_pieces_append(dir, name, SLASH);
    pieces(dir, SLASH).lemma_filter_push(name, keep);
    Seq::<Seq<u8>>::empty().lemma_filter_push(name, keep);
    assert(seq![name] =~= Seq::<Seq<u8>>::empty().push(name));
}

/// A slash in a text is a slash in its bytes.
pub proof fn lemma_slash_encoded(s: Seq<char>)
    requires
        s.contains('/'),
    ensures
        encode_utf8(s).contains(SLASH),
    decreases s.len(),
{
    let rest = s.drop_first();
    let first = encode_scalar(s[0] as u32);
    if s[0] == '/' {
        assert(first =~= seq![SLASH]) by {
            assert(0x2Fu32 & 0x7F == 0x2F) by (bit_vector);
        }
        assert(encode_utf8(s)[0] == SLASH);
    } else {
        let k = choose|k: int| 0 <= k < s.len() && s[k] == '/';
        assert(rest[k - 1] == '/');
        lemma_slash_encoded(rest);
        let j = choose|j: int| 0 <= j < encode_utf8(rest).len() && encode_utf8(rest)[j] == SLASH;
        assert(encode_utf8(s)[first.len() + j] == SLASH);
    }
}

/// A slash at the end of a path, with or without a dot after it, does not change its last name; a
/// path that ends in `..` has none.
pub proof fn file_name_is_before_the_end(path: Seq<u8>)
    ensures
        path_file_name(path.push(47u8)) == path_file_name(path),
        path_file_name(path.push(47u8).push(46u8)) == path_file_name(path),
        path_file_name(path.push(47u8) + seq![46u8, 46u8]) is None,
{
    reveal(Seq::filter);
    let keep = |part: Seq<u8>| names_something(part);
    let none = Seq::<u8>::empty();
    let here = seq![46u8];
    let up = seq![46u8, 46u8];
    lemma_pieces_append(path, none, SLASH);
    lemma_pieces_append(path, here, SLASH);
    lemma_pieces_append(path, up, SLASH);
    pieces(path, SLASH).lemma_filter_push(none, keep);
    pieces(path, SLASH).lemma_filter_push(here, keep);
    pieces(path, SLASH).lemma_filter_push(up, keep);
    assert(path.push(47u8) + none =~= path.push(47u8));
    assert(path.push(47u8) + here =~= path.push(47u8).push(46u8));
    assert(up.len() == 2);
}

/// A last name has no slash in it, is not empty and is neither of the names for a directory and
/// the one above it.
pub proof fn file_name_is_a_name(path: Seq<u8>)
    ensures
        path_file_name(path) matches Some(name) ==> {
            &&& name.len() > 0
            &&& !name.contains(47u8)
            &&& name != seq![46u8]
            &&& name != seq![46u8, 46u8]
        },
{
    let keep = |part: Seq<u8>| names_something(part);
    let names = path_names(path);
    if names.len() > 0 {
        let all = pieces(path, SLASH);
        all.lemma_filter_pred(keep, names.len() - 1);
        all.lemma_filter_contains_rev(keep, names.last());
        let k = choose|k: int| 0 <= k < all.len() && all[k] == names.last();
        lemma_pieces_whole(path, SLASH, k);
    }
}

/// What stands between separators has none in it.
proof fn lemma_pieces_whole(b: Seq<u8>, sep: u8, k: int)
    requires
        0 <= k < pieces(b, sep).len(),
    ensures
        !pieces(b, sep)[k].contains(sep),
    decreases b.len(),
{
    let n = text::lead(b, text::other_than(sep)) as int;
    text::lemma_lead_bounds(b, text::other_than(sep));
    let first = b.take(n);
    assert forall|i: int| 0 <= i < first.len() implies first[i] != sep by {
        assert((text::other_than(sep))(b[i]));
    }
    if n < b.len() {
        if k > 0 {
            lemma_pieces_whole(b.skip(n + 1), sep, k - 1);
        }
    } else {
        assert(first =~= b);
    }
}

/// A name inside a directory lies one level deeper than the directory.
pub proof fn name_lies_one_deeper(dir: Seq<u8>, name: Seq<u8>)
    requires
        dir.len() > 0,
        !name.contains(47u8),
        name.len() > 0,
        name != seq![46u8],
    ensures
        path_depth(dir.push(47u8) + name) == path_depth(dir) + 1,
{
    reveal(Seq::filter);
    let keep = |part: Seq<u8>| names_something(part);
    let whole = dir.push(47u8) + name;
    lemma_pieces_append(dir, name, SLASH);
    pieces(dir, SLASH).lemma_filter_push(name, keep);
    assert(whole[0] == dir[0]);
    if dir.len() == 1 {
        assert(whole[1] == 47u8);
        if dir[0] == DOT {
            assert(dir =~= seq![DOT]);
        }
    } else {
        assert(whole[1] == dir[1]);
    }
    assert(dir == seq![DOT] ==> dir[0] == DOT && dir.len() == 1);
    assert(whole.len() > 1);
}

/// A relative name is put behind a directory with one slash between them; a rooted one stands for
/// itself.
pub proof fn joined_by_one_slash(dir: Seq<u8>, name: Seq<u8>)
    requires
        dir.len() > 0,
        dir.last() != 47u8,
    ensures
        name.len() > 0 && name[0] == 47u8 ==> path_join(dir, name) == name,
        name.len() == 0 || name[0] != 47u8 ==> path_join(dir, name) == dir + seq![47u8] + name
            && path_join(dir.push(47u8), name) == dir + seq![47u8] + name,
{
    assert(dir.push(47u8) =~= dir + seq![47u8]);
}

} // verus!
