//! Whether a failed run looks like the sandbox denied it something. Consumers use this to
//! decide whether to offer an escalation.

use vstd::prelude::*;
use vstd::utf8::*;

use crate::os;
use crate::text;
use crate::types::{ExecOutput, SandboxKind};

verus! {

/// What `str::to_lowercase` makes of a text that is not all ASCII.
pub uninterp spec fn unicode_lower(s: Seq<char>) -> Seq<char>;

/// A text in lower case.
pub open spec fn lowered(s: Seq<char>) -> Seq<char> {
    if is_ascii_chars(s) {
        text::ascii_lower(s)
    } else {
        unicode_lower(s)
    }
}

/// A text holds every ASCII piece of another, in lower case.
pub open spec fn holds_lowered(lower: Seq<char>, s: Seq<char>) -> bool {
    forall|a: int, b: int|
        0 <= a <= b <= s.len() && is_ascii_chars(s.subrange(a, b)) ==> text::occurs(
            lower,
            text::ascii_lower(#[trigger] s.subrange(a, b)),
        )
}

/// `str::to_lowercase` lower-cases by the Unicode tables, one character after the other. Of ASCII
/// text this changes the letters `A` to `Z` and nothing else, wherever the text stands. What it
/// makes of any other text depends on the text alone, and is only named. Only the sigma at the
/// end of a word depends on its neighbours, and a line break ends a word as the end of the text
/// does: so what stands before and after a line break is lower-cased as if it stood alone.
#[verifier::external_body]
fn to_lowercase(s: &str) -> (r: String)
    ensures
        is_ascii_chars(s@) ==> r@ == text::ascii_lower(s@),
        !is_ascii_chars(s@) ==> r@ == unicode_lower(s@),
        holds_lowered(r@, s@),
        forall|i: int|
            0 <= i < s@.len() && #[trigger] s@[i] == '\n' ==> r@ == lowered(s@.take(i)) + "\n"@
                + lowered(s@.skip(i + 1)),
{
    s.to_lowercase()
}

/// The texts that failures of the sandboxed kind show, in lower case. The last two are what a
/// dial out of an empty network namespace ends in; a refused connection to a host that is
/// merely down is not among them.
pub open spec fn denial_markers() -> Seq<Seq<char>> {
    seq![
        "operation not permitted"@,
        "permission denied"@,
        "read-only file system"@,
        "seccomp"@,
        "sandbox"@,
        "landlock"@,
        "network is unreachable"@,
        "no route to host"@,
    ]
}

/// A text holds one of the markers.
pub open spec fn marked(s: Seq<char>) -> bool {
    exists|i: int| 0 <= i < denial_markers().len() && text::occurs(s, #[trigger] denial_markers()[i])
}

/// Exit codes with a meaning of their own: misuse, not executable, not found.
pub open spec fn is_plain_failure(code: i32) -> bool {
    code == 2 || code == 126 || code == 127
}

/// The signal that a seccomp filter kills with.
pub const SIGSYS: i32 = 31;

/// What can be a denial at all: there is a backend, and the command failed in no way that has a
/// meaning of its own.
pub open spec fn can_be_denial(out: ExecOutput, kind: SandboxKind) -> bool {
    &&& kind != SandboxKind::Unsandboxed
    &&& out.exit_code matches Some(code) ==> code != 0 && !is_plain_failure(code)
}

/// A marker stands in an output, with its letters in whatever case.
pub open spec fn shows_marker(output: Seq<u8>) -> bool {
    exists|i: int, a: int, b: int|
        {
            &&& 0 <= i < denial_markers().len()
            &&& 0 <= a <= b <= output.len()
            &&& os::is_ascii(output.subrange(a, b))
            &&& text::ascii_lower(os::ascii_text(#[trigger] output.subrange(a, b)))
                == #[trigger] denial_markers()[i]
        }
}

/// A stream as text in lower case.
pub open spec fn stream_text(output: Seq<u8>) -> Seq<char> {
    lowered(os::text_of(output))
}

/// What looks like a denial: a death by the filter's signal, or a marker in one of the streams.
pub open spec fn looks_denied(out: ExecOutput, kind: SandboxKind) -> bool {
    &&& can_be_denial(out, kind)
    &&& {
        ||| kind == SandboxKind::LinuxSeccomp && out.signal == Some(SIGSYS)
        ||| marked(stream_text(out.stdout@))
        ||| marked(stream_text(out.stderr@))
    }
}

/// Whether a text, which is in lower case, holds one of the markers.
pub fn has_denial_marker(haystack: &str) -> (r: bool)
    ensures
        r == marked(haystack@),
{
    let hay: Vec<char> = text::chars_of(haystack);
    let a: bool = text::contains_chars(hay.as_slice(), text::chars_of("operation not permitted").as_slice());
    let b: bool = text::contains_chars(hay.as_slice(), text::chars_of("permission denied").as_slice());
    let c: bool = text::contains_chars(hay.as_slice(), text::chars_of("read-only file system").as_slice());
    let d: bool = text::contains_chars(hay.as_slice(), text::chars_of("seccomp").as_slice());
    let e: bool = text::contains_chars(hay.as_slice(), text::chars_of("sandbox").as_slice());
    let f: bool = text::contains_chars(hay.as_slice(), text::chars_of("landlock").as_slice());
    let g: bool = text::contains_chars(hay.as_slice(), text::chars_of("network is unreachable").as_slice());
    let h: bool = text::contains_chars(hay.as_slice(), text::chars_of("no route to host").as_slice());
    let r: bool = a || b || c || d || e || f || g || h;
    proof {
        let m = denial_markers();
        assert(m[0] == "operation not permitted"@ && m[1] == "permission denied"@ && m[2]
            == "read-only file system"@ && m[3] == "seccomp"@ && m[4] == "sandbox"@ && m[5]
            == "landlock"@ && m[6] == "network is unreachable"@ && m[7] == "no route to host"@);
    }
    r
}

/// Whether the output looks like the command was blocked by the sandbox. Never so without a
/// backend, after a clean exit, or for an exit code with a meaning of its own; but else always
/// where a marker stands in one of the streams, whatever surrounds it.
pub fn is_likely_sandbox_denied(out: &ExecOutput, kind: SandboxKind) -> (r: bool)
    ensures
        r == looks_denied(*out, kind),
        can_be_denial(*out, kind) && (shows_marker(out.stdout@) || shows_marker(out.stderr@)) ==> r,
        kind == SandboxKind::Unsandboxed || out.exit_code == Some(0i32) || out.exit_code == Some(
            2i32,
        ) || out.exit_code == Some(126i32) || out.exit_code == Some(127i32) ==> !r,
        kind != SandboxKind::Unsandboxed && out.exit_code != Some(0i32) && out.exit_code != Some(
            2i32,
        ) && out.exit_code != Some(126i32) && out.exit_code != Some(127i32) && (shows_marker(
            out.stdout@,
        ) || shows_marker(out.stderr@)) ==> r,
{
    if kind == SandboxKind::Unsandboxed {
        return false;
    }
    match out.exit_code {
        Some(code) => {
            if code == 0 || code == 2 || code == 126 || code == 127 {
                return false;
            }
        },
        None => {},
    }
    if kind == SandboxKind::LinuxSeccomp {
        match out.signal {
            Some(signal) => {
                if signal == SIGSYS {
                    return true;
                }
            },
            None => {},
        }
    }
    let stdout: String = os::bytes_to_text(out.stdout.as_slice());
    let stderr: String = os::bytes_to_text(out.stderr.as_slice());
    let both: String = text::join3(stdout.as_str(), "\n", stderr.as_str());
    let haystack: String = to_lowercase(both.as_str());
    proof {
        reveal_strlit("\n");
        let gap = stdout@ + "\n"@;
        assert(both@ =~= Seq::<char>::empty() + stdout@ + ("\n"@ + stderr@));
        assert(both@ =~= gap + stderr@ + Seq::<char>::empty());
        if shows_marker(out.stdout@) {
            lemma_marker_found(out.stdout@, stdout@, Seq::empty(), "\n"@ + stderr@, haystack@);
        }
        if shows_marker(out.stderr@) {
            lemma_marker_found(out.stderr@, stderr@, gap, Seq::empty(), haystack@);
        }
        let at = stdout@.len() as int;
        assert(both@[at] == '\n');
        assert(both@.take(at) =~= stdout@);
        assert(both@.skip(at + 1) =~= stderr@);
        lemma_marked_lines(stream_text(out.stdout@), stream_text(out.stderr@));
    }
    has_denial_marker(haystack.as_str())
}

/// No marker has a line break in it.
proof fn lemma_markers_one_line(i: int)
    requires
        0 <= i < denial_markers().len(),
    ensures
        !denial_markers()[i].contains('\n'),
{
    reveal_strlit("operation not permitted");
    reveal_strlit("permission denied");
    reveal_strlit("read-only file system");
    reveal_strlit("seccomp");
    reveal_strlit("sandbox");
    reveal_strlit("landlock");
    reveal_strlit("network is unreachable");
    reveal_strlit("no route to host");
    let m = denial_markers();
    assert(m[0] == "operation not permitted"@ && m[1] == "permission denied"@ && m[2]
        == "read-only file system"@ && m[3] == "seccomp"@ && m[4] == "sandbox"@ && m[5]
        == "landlock"@ && m[6] == "network is unreachable"@ && m[7] == "no route to host"@);
}

/// A marker in two lines stands in one of them.
proof fn lemma_marked_lines(a: Seq<char>, b: Seq<char>)
    ensures
        marked(a + "\n"@ + b) <==> marked(a) || marked(b),
{
    reveal_strlit("\n");
    let whole = a + "\n"@ + b;
    if marked(a) {
        marks_survive_more_text(Seq::empty(), a, "\n"@ + b);
        assert(Seq::<char>::empty() + a + ("\n"@ + b) =~= whole);
    }
    if marked(b) {
        marks_survive_more_text(a + "\n"@, b, Seq::empty());
        assert(a + "\n"@ + b + Seq::<char>::empty() =~= whole);
    }
    if marked(whole) {
        let i = choose|i: int|
            0 <= i < denial_markers().len() && text::occurs(whole, #[trigger] denial_markers()[i]);
        let m = denial_markers()[i];
        let at = choose|at: int| text::occurs_at(whole, m, at);
        let n = a.len() as int;
        lemma_markers_one_line(i);
        if at + m.len() <= n {
            assert(a.subrange(at, at + m.len()) =~= whole.subrange(at, at + m.len()));
            assert(text::occurs_at(a, m, at));
            assert(text::occurs(a, denial_markers()[i]));
        } else if at > n {
            assert(b.subrange(at - n - 1, at - n - 1 + m.len()) =~= whole.subrange(
                at,
                at + m.len(),
            ));
            assert(text::occurs_at(b, m, at - n - 1));
            assert(text::occurs(b, denial_markers()[i]));
        } else {
            assert(whole[n] == '\n');
            assert(m[n - at] == whole.subrange(at, at + m.len())[n - at]);
            assert(m.contains('\n'));
        }
    }
}

/// A marker in an output is still there after the output was read as text, put between others
/// and lower-cased.
proof fn lemma_marker_found(
    output: Seq<u8>,
    shown: Seq<char>,
    before: Seq<char>,
    after: Seq<char>,
    lower: Seq<char>,
)
    requires
        shows_marker(output),
        os::holds_ascii_of(shown, output),
        holds_lowered(lower, before + shown + after),
    ensures
        marked(lower),
{
    let (i, a, b) = choose|i: int, a: int, b: int|
        {
            &&& 0 <= i < denial_markers().len()
            &&& 0 <= a <= b <= output.len()
            &&& os::is_ascii(output.subrange(a, b))
            &&& text::ascii_lower(os::ascii_text(#[trigger] output.subrange(a, b)))
                == #[trigger] denial_markers()[i]
        };
    let piece = os::ascii_text(output.subrange(a, b));
    let at = choose|at: int| text::occurs_at(shown, piece, at);
    let whole = before + shown + after;
    let from = before.len() + at;
    let to = from + piece.len();
    assert(whole.subrange(from, to) =~= shown.subrange(at, at + piece.len()));
    assert(is_ascii_chars(piece)) by {
        assert forall|k: int| 0 <= k < piece.len() implies '\0' <= #[trigger] piece[k]
            <= '\u{7f}' by {
            assert(output.subrange(a, b)[k] < 128);
        }
    }
    assert(text::occurs(lower, text::ascii_lower(whole.subrange(from, to))));
    assert(text::occurs(lower, denial_markers()[i]));
}

// ---------------------------------------------------------------------------
// Laws
// ---------------------------------------------------------------------------

/// Without a backend nothing is ever a denial, and a clean exit is none on any backend.
pub proof fn no_denial_unsandboxed_or_clean(out: ExecOutput, kind: SandboxKind)
    requires
        kind == SandboxKind::Unsandboxed || out.exit_code == Some(0i32),
    ensures
        !looks_denied(out, kind),
{
}

/// More output never hides a denial: what was marked stays marked with any text around it.
pub proof fn marks_survive_more_text(before: Seq<char>, s: Seq<char>, after: Seq<char>)
    requires
        marked(s),
    ensures
        marked(before + s + after),
{
    let i = choose|i: int|
        0 <= i < denial_markers().len() && text::occurs(s, #[trigger] denial_markers()[i]);
    let m = denial_markers()[i];
    let at = choose|at: int| text::occurs_at(s, m, at);
    let whole = before + s + after;
    assert(whole.subrange(before.len() + at, before.len() + at + m.len()) =~= s.subrange(
        at,
        at + m.len(),
    ));
    assert(text::occurs_at(whole, m, before.len() + at));
    assert(text::occurs(whole, denial_markers()[i]));
}

/// Both streams count alike: what came out on one may as well have come out on the other. Nothing
/// else than the exit code, the signal and the streams is looked at.
pub proof fn streams_count_alike(a: ExecOutput, b: ExecOutput, kind: SandboxKind)
    requires
        a.exit_code == b.exit_code,
        a.signal == b.signal,
        a.stdout@ == b.stderr@,
        a.stderr@ == b.stdout@,
    ensures
        looks_denied(a, kind) == looks_denied(b, kind),
{
}

/// The texts that are looked for are these eight, wherever they stand.
pub proof fn markers_are_these(s: Seq<char>)
    ensures
        marked(s) <==> {
            ||| text::occurs(s, "operation not permitted"@)
            ||| text::occurs(s, "permission denied"@)
            ||| text::occurs(s, "read-only file system"@)
            ||| text::occurs(s, "seccomp"@)
            ||| text::occurs(s, "sandbox"@)
            ||| text::occurs(s, "landlock"@)
            ||| text::occurs(s, "network is unreachable"@)
            ||| text::occurs(s, "no route to host"@)
        },
{
    let m = denial_markers();
    assert(m[0] == "operation not permitted"@ && m[1] == "permission denied"@ && m[2]
        == "read-only file system"@ && m[3] == "seccomp"@ && m[4] == "sandbox"@ && m[5]
        == "landlock"@ && m[6] == "network is unreachable"@ && m[7] == "no route to host"@);
}

/// With a backend, a marker in either stream is a denial for every exit code but 0, 2, 126 and
/// 127, and for a run that has no exit code; for those four codes nothing ever is, and without a
/// backend nothing is. Where no marker stands in either stream, only a death by signal 31 on
/// Linux is one.
pub proof fn exit_codes_decide(out: ExecOutput, kind: SandboxKind)
    ensures
        ({
            let own = out.exit_code == Some(0i32) || out.exit_code == Some(2i32) || out.exit_code
                == Some(126i32) || out.exit_code == Some(127i32);
            let shown = marked(lowered(os::text_of(out.stdout@))) || marked(
                lowered(os::text_of(out.stderr@)),
            );
            let killed = kind == SandboxKind::LinuxSeccomp && out.signal == Some(31i32);
            &&& own ==> !looks_denied(out, kind)
            &&& kind == SandboxKind::Unsandboxed ==> !looks_denied(out, kind)
            &&& !own && kind != SandboxKind::Unsandboxed && shown ==> looks_denied(out, kind)
            &&& !own && kind != SandboxKind::Unsandboxed && killed ==> looks_denied(out, kind)
            &&& !shown && !killed ==> !looks_denied(out, kind)
        }),
{
}

/// The verdict does not depend on which code a failure ended with: any two codes besides 0, 2,
/// 126 and 127 count alike, and like no code at all.
pub proof fn other_codes_count_alike(a: ExecOutput, b: ExecOutput, kind: SandboxKind)
    requires
        a.exit_code matches Some(c) ==> c != 0 && c != 2 && c != 126 && c != 127,
        b.exit_code matches Some(c) ==> c != 0 && c != 2 && c != 126 && c != 127,
        a.signal == b.signal,
        a.stdout@ == b.stdout@,
        a.stderr@ == b.stderr@,
    ensures
        looks_denied(a, kind) == looks_denied(b, kind),
{
}

/// A marker in an output, in whatever case and with whatever bytes around it, is shown there.
pub proof fn marker_is_shown(before: Seq<u8>, shown: Seq<u8>, after: Seq<u8>)
    requires
        os::is_ascii(shown),
        ({
            let m = text::ascii_lower(os::ascii_text(shown));
            ||| m == "operation not permitted"@
            ||| m == "permission denied"@
            ||| m == "read-only file system"@
            ||| m == "seccomp"@
            ||| m == "sandbox"@
            ||| m == "landlock"@
            ||| m == "network is unreachable"@
            ||| m == "no route to host"@
        }),
    ensures
        shows_marker(before + shown + after),
{
    let whole = before + shown + after;
    let a = before.len() as int;
    let b = a + shown.len();
    assert(whole.subrange(a, b) =~= shown);
    let m = denial_markers();
    assert(m[0] == "operation not permitted"@ && m[1] == "permission denied"@ && m[2]
        == "read-only file system"@ && m[3] == "seccomp"@ && m[4] == "sandbox"@ && m[5]
        == "landlock"@ && m[6] == "network is unreachable"@ && m[7] == "no route to host"@);
    let low = text::ascii_lower(os::ascii_text(whole.subrange(a, b)));
    assert(exists|i: int| 0 <= i < m.len() && low == #[trigger] m[i]);
}

/// A failed run whose output is plain text is a denial wherever a marker stands in it, in whatever
/// case and on either stream, for every exit code but 0, 2, 126 and 127.
pub proof fn marked_failure_is_a_denial(
    out: ExecOutput,
    kind: SandboxKind,
    before: Seq<char>,
    shown: Seq<char>,
    after: Seq<char>,
)
    requires
        kind != SandboxKind::Unsandboxed,
        out.exit_code matches Some(c) ==> c != 0 && c != 2 && c != 126 && c != 127,
        is_ascii_chars(before + shown + after),
        out.stdout@ == encode_utf8(before + shown + after) || out.stderr@ == encode_utf8(
            before + shown + after,
        ),
        ({
            let m = text::ascii_lower(shown);
            ||| m == "operation not permitted"@
            ||| m == "permission denied"@
            ||| m == "read-only file system"@
            ||| m == "seccomp"@
            ||| m == "sandbox"@
            ||| m == "landlock"@
            ||| m == "network is unreachable"@
            ||| m == "no route to host"@
        }),
    ensures
        looks_denied(out, kind),
{
    let whole = before + shown + after;
    let low = text::ascii_lower(whole);
    let m = text::ascii_lower(shown);
    os::text_of_encoded(whole);
    let at = before.len() as int;
    assert(low.subrange(at, at + m.len()) =~= m);
    assert(text::occurs_at(low, m, at));
    assert(text::occurs(low, m));
    markers_are_these(low);
}

} // verus!
