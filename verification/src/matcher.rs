//! The allowlist of the proxy: which hosts a set of patterns lets through.

use vstd::prelude::*;

use crate::policy;
use crate::policy::HostPattern;
use crate::policy::HostShape;
use crate::text;

verus! {

// ---------------------------------------------------------------------------
// What the allowlist means
// ---------------------------------------------------------------------------

/// `host` is `domain` with a dot, and whatever comes before the dot, in front of it.
pub open spec fn is_below(host: Seq<char>, domain: Seq<char>) -> bool {
    ("."@ + domain).is_suffix_of(host)
}

/// Whether a pattern lets a normalized host through.
pub open spec fn shape_matches(p: HostShape, host: Seq<char>) -> bool {
    match p {
        HostShape::Any => true,
        HostShape::Exact(h) => host == h,
        HostShape::ApexAndSubdomains(h) => host == h || is_below(host, h),
        HostShape::SubdomainsOnly(h) => is_below(host, h),
    }
}

/// The host part of a proxy target: without white space around it, without an opening bracket
/// or what follows a closing one, without the last colon and what follows it, in lower case.
/// A literal IPv6 address loses its last group this way.
pub open spec fn host_of(target: Seq<char>) -> Seq<char> {
    let opened = text::drop_lead(text::trimmed(target), text::equal_to('['));
    let inner = text::take_lead(opened, text::other_than(']'));
    text::ascii_lower(
        match text::before_last(inner, ':') {
            Some(name) => name,
            None => inner,
        },
    )
}

/// Whether some pattern of the list lets a proxy target through.
pub open spec fn list_allows(patterns: Seq<HostShape>, target: Seq<char>) -> bool {
    exists|i: int| 0 <= i < patterns.len() && shape_matches(#[trigger] patterns[i], host_of(target))
}

/// The patterns that a list of texts stands for.
pub open spec fn shapes_of(texts: Seq<Seq<char>>) -> Seq<HostShape> {
    Seq::new(texts.len(), |i: int| policy::host_shape(texts[i]))
}

// ---------------------------------------------------------------------------
// The allowlist
// ---------------------------------------------------------------------------

/// The host part of a proxy target.
pub fn normalize(target: &str) -> (r: Vec<char>)
    ensures
        r@ == host_of(target@),
{
    let cs: Vec<char> = text::chars_of(target);
    let t: Vec<char> = text::trim(cs.as_slice());
    let open: usize = text::lead_of(t.as_slice(), '[');
    let opened: Vec<char> = text::copy_range(t.as_slice(), open, t.len());
    assert(opened@ =~= text::drop_lead(t@, text::equal_to('[')));
    let close: usize = text::lead_before(opened.as_slice(), ']');
    let inner: Vec<char> = text::copy_range(opened.as_slice(), 0, close);
    assert(inner@ =~= text::take_lead(opened@, text::other_than(']')));
    match text::cut_at_last(inner.as_slice(), ':') {
        Some(name) => {
            assert(name.deep_view() =~= name@);
            text::to_ascii_lower(name.as_slice())
        },
        None => text::to_ascii_lower(inner.as_slice()),
    }
}

/// Whether `host` ends with a dot and `domain`.
fn below(host: &[char], domain: &str) -> (r: bool)
    ensures
        r == is_below(host@, domain@),
{
    let dotted: Vec<char> = text::chars_of(text::join2(".", domain).as_str());
    text::ends_with(host, dotted.as_slice())
}

/// Whether a pattern lets a normalized host through.
fn matches_host(p: &HostPattern, host: &[char]) -> (r: bool)
    ensures
        r == shape_matches(p.deep_view(), host@),
{
    match p {
        HostPattern::Any => true,
        HostPattern::Exact(h) => text::same_chars(host, text::chars_of(h.as_str()).as_slice()),
        HostPattern::ApexAndSubdomains(h) => {
            text::same_chars(host, text::chars_of(h.as_str()).as_slice()) || below(host, h.as_str())
        },
        HostPattern::SubdomainsOnly(h) => below(host, h.as_str()),
    }
}

/// The hosts that the proxy connects to. What no pattern matches is blocked.
#[derive(Debug)]
pub struct Allowlist {
    pub patterns: Vec<HostPattern>,
}

impl DeepView for Allowlist {
    type V = Seq<HostShape>;

    open spec fn deep_view(&self) -> Seq<HostShape> {
        self.patterns.deep_view()
    }
}

impl Allowlist {
    /// Reads a list of patterns.
    pub fn parse(patterns: &[String]) -> (r: Self)
        ensures
            r.deep_view() == shapes_of(patterns.deep_view()),
    {
        let mut out: Vec<HostPattern> = Vec::new();
        let mut i: usize = 0;
        while i < patterns.len()
            invariant
                i <= patterns@.len(),
                out@.len() == i,
                forall|k: int|
                    0 <= k < i ==> (#[trigger] out@[k]).deep_view() == policy::host_shape(
                        patterns@[k]@,
                    ),
            decreases patterns@.len() - i,
        {
            out.push(HostPattern::parse(patterns[i].as_str()));
            i = i + 1;
        }
        assert(out.deep_view() =~= shapes_of(patterns.deep_view()));
        Allowlist { patterns: out }
    }

    /// Whether some pattern lets the target, a host with or without a port, through.
    pub fn allows(&self, host: &str) -> (r: bool)
        ensures
            r == list_allows(self.deep_view(), host@),
    {
        let name: Vec<char> = normalize(host);
        let mut i: usize = 0;
        while i < self.patterns.len()
            invariant
                i <= self.patterns@.len(),
                name@ == host_of(host@),
                forall|k: int|
                    0 <= k < i ==> !shape_matches(#[trigger] self.deep_view()[k], name@),
            decreases self.patterns@.len() - i,
        {
            if matches_host(&self.patterns[i], name.as_slice()) {
                assert(shape_matches(self.deep_view()[i as int], host_of(host@)));
                return true;
            }
            i = i + 1;
        }
        false
    }
}

// ---------------------------------------------------------------------------
// Laws
// ---------------------------------------------------------------------------

/// An empty allowlist blocks every host.
pub proof fn empty_list_blocks(target: Seq<char>)
    ensures
        !list_allows(Seq::empty(), target),
{
}

/// A list with the any-host pattern lets every host through.
pub proof fn any_allows_all(patterns: Seq<HostShape>, target: Seq<char>)
    requires
        patterns.contains(HostShape::Any),
    ensures
        list_allows(patterns, target),
{
    let i = choose|i: int| 0 <= i < patterns.len() && patterns[i] == HostShape::Any;
    assert(shape_matches(patterns[i], host_of(target)));
}

/// More patterns let more hosts through, and each pattern counts by itself: a host passes two
/// lists put together exactly if it passes one of them.
pub proof fn lists_add_up(a: Seq<HostShape>, b: Seq<HostShape>, target: Seq<char>)
    ensures
        list_allows(a + b, target) <==> list_allows(a, target) || list_allows(b, target),
{
    let host = host_of(target);
    if list_allows(a, target) {
        let i = choose|i: int| 0 <= i < a.len() && shape_matches(#[trigger] a[i], host);
        assert((a + b)[i] == a[i]);
    }
    if list_allows(b, target) {
        let i = choose|i: int| 0 <= i < b.len() && shape_matches(#[trigger] b[i], host);
        assert((a + b)[a.len() + i] == b[i]);
    }
    if list_allows(a + b, target) {
        let i = choose|i: int| 0 <= i < (a + b).len() && shape_matches(#[trigger] (a + b)[i], host);
        if i < a.len() {
            assert(shape_matches(a[i], host));
        } else {
            assert(shape_matches(b[i - a.len()], host));
        }
    }
}

/// A subdomain pattern never matches the apex itself; the apex pattern always does.
pub proof fn apex_only_by_apex_pattern(domain: Seq<char>)
    ensures
        !shape_matches(HostShape::SubdomainsOnly(domain), domain),
        shape_matches(HostShape::ApexAndSubdomains(domain), domain),
        shape_matches(HostShape::Exact(domain), domain),
{
    reveal_strlit(".");
}

/// A host below the domain is matched by both subdomain patterns, and not by the exact one.
pub proof fn subdomains_match(label: Seq<char>, domain: Seq<char>)
    ensures
        shape_matches(HostShape::SubdomainsOnly(domain), label + "."@ + domain),
        shape_matches(HostShape::ApexAndSubdomains(domain), label + "."@ + domain),
        !shape_matches(HostShape::Exact(domain), label + "."@ + domain),
{
    reveal_strlit(".");
    let host = label + "."@ + domain;
    assert(host.len() > domain.len());
    assert(host.subrange(host.len() - domain.len() - 1, host.len() as int) =~= "."@ + domain);
}

/// A host that merely ends in the letters of the domain, without a dot before them, is
/// matched by none of the patterns for that domain.
pub proof fn lookalike_blocked(prefix: Seq<char>, domain: Seq<char>)
    requires
        prefix.len() > 0,
        prefix.last() != '.',
    ensures
        !shape_matches(HostShape::Exact(domain), prefix + domain),
        !shape_matches(HostShape::SubdomainsOnly(domain), prefix + domain),
        !shape_matches(HostShape::ApexAndSubdomains(domain), prefix + domain),
{
    reveal_strlit(".");
    let host = prefix + domain;
    let dotted = "."@ + domain;
    assert(host.len() > domain.len());
    if dotted.is_suffix_of(host) {
        let at = host.len() - dotted.len();
        assert(host.subrange(at, host.len() as int)[0] == dotted[0]);
        assert(host[at] == prefix.last());
    }
}

/// The texts that a list of patterns is written as.
pub open spec fn texts_of(patterns: Seq<HostShape>) -> Seq<Seq<char>> {
    Seq::new(patterns.len(), |i: int| policy::host_text(patterns[i]))
}

/// Patterns lose nothing on their way to the proxy as texts: where every pattern is canonical,
/// as those that were read from a text are, the proxy matches exactly by the given patterns.
pub proof fn patterns_survive_as_texts(patterns: Seq<HostShape>)
    requires
        forall|i: int| 0 <= i < patterns.len() ==> policy::canonical(#[trigger] patterns[i]),
    ensures
        shapes_of(texts_of(patterns)) == patterns,
{
    assert forall|i: int| 0 <= i < patterns.len() implies #[trigger] shapes_of(
        texts_of(patterns),
    )[i] == patterns[i] by {
        policy::writing_round_trips(patterns[i]);
    }
    assert(shapes_of(texts_of(patterns)) =~= patterns);
}

/// What the predicate says of a character does not depend on the case of ASCII letters.
pub open spec fn case_blind(p: spec_fn(char) -> bool) -> bool {
    forall|c: char| p(#[trigger] text::ascii_lower_char(c)) == p(c)
}

proof fn lemma_lead_lower(s: Seq<char>, p: spec_fn(char) -> bool)
    requires
        case_blind(p),
    ensures
        text::lead(text::ascii_lower(s), p) == text::lead(s, p),
        text::trail(text::ascii_lower(s), p) == text::trail(s, p),
{
    let low = text::ascii_lower(s);
    text::lemma_lead_bounds(s, p);
    text::lemma_trail_bounds(s, p);
    assert forall|i: int| 0 <= i < s.len() implies p(#[trigger] low[i]) == p(s[i]) by {
        assert(low[i] == text::ascii_lower_char(s[i]));
    }
    text::lemma_lead(low, p, text::lead(s, p));
    text::lemma_trail(low, p, text::trail(s, p));
}

/// Whether a target passes does not depend on the case of its ASCII letters.
pub proof fn case_does_not_matter(patterns: Seq<HostShape>, target: Seq<char>)
    ensures
        host_of(text::ascii_lower(target)) == host_of(target),
        list_allows(patterns, text::ascii_lower(target)) == list_allows(patterns, target),
{
    let low = text::ascii_lower(target);
    let a = text::drop_lead(target, text::white());
    let b = text::drop_lead(low, text::white());
    lemma_lead_lower(target, text::white());
    text::lemma_lead_bounds(target, text::white());
    assert(b =~= text::ascii_lower(a));
    let at = text::trimmed(target);
    let bt = text::trimmed(low);
    lemma_lead_lower(a, text::white());
    text::lemma_trail_bounds(a, text::white());
    assert(bt =~= text::ascii_lower(at));
    let ao = text::drop_lead(at, text::equal_to('['));
    let bo = text::drop_lead(bt, text::equal_to('['));
    lemma_lead_lower(at, text::equal_to('['));
    text::lemma_lead_bounds(at, text::equal_to('['));
    assert(bo =~= text::ascii_lower(ao));
    let ai = text::take_lead(ao, text::other_than(']'));
    let bi = text::take_lead(bo, text::other_than(']'));
    lemma_lead_lower(ao, text::other_than(']'));
    text::lemma_lead_bounds(ao, text::other_than(']'));
    assert(bi =~= text::ascii_lower(ai));
    lemma_lead_lower(ai, text::other_than(':'));
    text::lemma_trail_bounds(ai, text::other_than(':'));
    assert(ai.contains(':') == bi.contains(':')) by {
        if ai.contains(':') {
            let k = choose|k: int| 0 <= k < ai.len() && ai[k] == ':';
            assert(bi[k] == ':');
        }
        if bi.contains(':') {
            let k = choose|k: int| 0 <= k < bi.len() && bi[k] == ':';
            assert(ai[k] == ':');
        }
    }
    if ai.contains(':') {
        let k = choose|k: int| 0 <= k < ai.len() && ai[k] == ':';
        assert(text::trail(ai, text::other_than(':')) < ai.len());
        assert(text::before_last(bi, ':').unwrap() =~= text::ascii_lower(
            text::before_last(ai, ':').unwrap(),
        ));
        assert(host_of(low) =~= host_of(target));
    } else {
        assert(host_of(low) =~= host_of(target));
    }
}

/// A host name as a client writes it: no colon, no brackets and no white space in it.
pub open spec fn plain_name(s: Seq<char>) -> bool {
    forall|i: int|
        0 <= i < s.len() ==> {
            let c = #[trigger] s[i];
            c != ':' && c != '[' && c != ']' && !text::is_white(c)
        }
}

/// A port after the host makes no difference: `name` and `name:port` are the same host, which
/// is `name` in lower case.
pub proof fn port_does_not_matter(patterns: Seq<HostShape>, name: Seq<char>, port: Seq<char>)
    requires
        plain_name(name),
        plain_name(port),
    ensures
        host_of(name) == text::ascii_lower(name),
        host_of(name + ":"@ + port) == text::ascii_lower(name),
        list_allows(patterns, name + ":"@ + port) == list_allows(patterns, name),
{
    reveal_strlit(":");
    let full = name + ":"@ + port;
    lemma_stays_whole(name);
    assert(!name.contains(':'));
    assert forall|i: int| 0 <= i < full.len() implies {
        let c = #[trigger] full[i];
        c != '[' && c != ']' && !text::is_white(c)
    } by {
        if i < name.len() {
            assert(full[i] == name[i]);
        } else if i > name.len() {
            assert(full[i] == port[i - name.len() - 1]);
        }
    }
    lemma_stays_whole(full);
    assert(full[name.len() as int] == ':');
    assert forall|i: int| full.len() - port.len() <= i < full.len() implies (text::other_than(':'))(
        #[trigger] full[i],
    ) by {
        assert(full[i] == port[i - name.len() - 1]);
    }
    text::lemma_trail(full, text::other_than(':'), port.len());
    assert(full.take(name.len() as int) =~= name);
}

/// Without white space and brackets nothing is cut off before the colon is looked for.
proof fn lemma_stays_whole(s: Seq<char>)
    requires
        forall|i: int|
            0 <= i < s.len() ==> {
                let c = #[trigger] s[i];
                c != '[' && c != ']' && !text::is_white(c)
            },
    ensures
        text::take_lead(
            text::drop_lead(text::trimmed(s), text::equal_to('[')),
            text::other_than(']'),
        ) == s,
{
    text::lemma_lead(s, text::white(), 0);
    assert(text::drop_lead(s, text::white()) =~= s);
    text::lemma_trail(s, text::white(), 0);
    assert(text::trimmed(s) =~= s);
    text::lemma_lead(s, text::equal_to('['), 0);
    assert(text::drop_lead(s, text::equal_to('[')) =~= s);
    text::lemma_lead(s, text::other_than(']'), s.len());
    assert(text::take_lead(s, text::other_than(']')) =~= s);
}

/// Each pattern matches its own hosts and no other: an exact one the host itself; one for
/// subdomains what stands before a dot and the domain; one for both these and the domain.
pub proof fn patterns_match_their_hosts(domain: Seq<char>, host: Seq<char>)
    ensures
        shape_matches(HostShape::Exact(domain), host) <==> host == domain,
        shape_matches(HostShape::SubdomainsOnly(domain), host) <==> exists|label: Seq<char>|
            host == #[trigger] (label + "."@ + domain),
        shape_matches(HostShape::ApexAndSubdomains(domain), host) <==> host == domain || exists|
            label: Seq<char>,
        |
            host == #[trigger] (label + "."@ + domain),
        shape_matches(HostShape::Any, host),
{
    reveal_strlit(".");
    let dotted = "."@ + domain;
    if dotted.is_suffix_of(host) {
        let label = host.take(host.len() - dotted.len());
        let end = host.subrange(host.len() - dotted.len(), host.len() as int);
        assert(end == dotted);
        assert(host =~= label + end);
        assert(host =~= label + "."@ + domain);
    }
    assert forall|label: Seq<char>| host == #[trigger] (label + "."@ + domain) implies shape_matches(
        HostShape::SubdomainsOnly(domain),
        host,
    ) by {
        subdomains_match(label, domain);
    }
}

/// A host that passes a list passes by one pattern alone, and a pattern that lets it through does
/// so in every list.
pub proof fn one_pattern_decides(patterns: Seq<HostShape>, target: Seq<char>)
    ensures
        list_allows(patterns, target) <==> exists|i: int|
            0 <= i < patterns.len() && list_allows(seq![#[trigger] patterns[i]], target),
{
    let host = host_of(target);
    if list_allows(patterns, target) {
        let i = choose|i: int| 0 <= i < patterns.len() && shape_matches(#[trigger] patterns[i], host);
        assert(seq![patterns[i]][0] == patterns[i]);
        assert(list_allows(seq![patterns[i]], target));
    }
    if exists|i: int| 0 <= i < patterns.len() && list_allows(seq![#[trigger] patterns[i]], target) {
        let i = choose|i: int|
            0 <= i < patterns.len() && list_allows(seq![#[trigger] patterns[i]], target);
        assert(shape_matches(patterns[i], host));
    }
}

/// What an entry of the allowlist lets through, by its text. Without a star it is the one host of
/// that name. With `*.` in front it is every host below the domain and not the domain; with `**.`
/// it is both; and `*` alone is every host. Neither a port nor the case of letters matters.
pub proof fn entries_mean_what_they_say(entry: Seq<char>, name: Seq<char>, port: Seq<char>)
    requires
        plain_name(entry),
        entry.len() > 0 ==> entry[0] != '*',
        plain_name(name),
        plain_name(port),
    ensures
        ({
            let host = text::ascii_lower(name);
            let domain = text::ascii_lower(entry);
            let below = exists|label: Seq<char>| host == #[trigger] (label + "."@ + domain);
            let target = name + ":"@ + port;
            &&& list_allows(shapes_of(seq![entry]), target) <==> host == domain
            &&& list_allows(shapes_of(seq!["*."@ + entry]), target) <==> below
            &&& list_allows(shapes_of(seq!["**."@ + entry]), target) <==> host == domain || below
            &&& list_allows(shapes_of(seq!["*"@]), target)
        }),
{
    reveal_strlit("*");
    reveal_strlit("*.");
    reveal_strlit("**.");
    let host = text::ascii_lower(name);
    let domain = text::ascii_lower(entry);
    port_does_not_matter(Seq::empty(), name, port);
    patterns_match_their_hosts(domain, host);
    let none = Seq::<char>::empty();
    lemma_untouched(none, entry);
    lemma_untouched("*."@, entry);
    lemma_untouched("**."@, entry);
    lemma_untouched("*"@, none);
    assert(none + entry =~= entry);
    assert("*"@ + none =~= "*"@);
    let sub = "*."@ + entry;
    let apex = "**."@ + entry;
    assert(policy::host_shape(entry) == HostShape::Exact(domain)) by {
        if "*."@.is_prefix_of(entry) {
            assert(entry.subrange(0, 2)[0] == '*');
        }
        if "**."@.is_prefix_of(entry) {
            assert(entry.subrange(0, 3)[0] == '*');
        }
    }
    assert(policy::host_shape(sub) == HostShape::SubdomainsOnly(domain)) by {
        if "**."@.is_prefix_of(sub) {
            assert(sub.subrange(0, 3)[1] == '*');
        }
        assert(sub.subrange(0, 2) =~= "*."@);
        assert(sub.skip(2) =~= entry);
    }
    assert(policy::host_shape(apex) == HostShape::ApexAndSubdomains(domain)) by {
        assert(apex.subrange(0, 3) =~= "**."@);
        assert(apex.skip(3) =~= entry);
    }
    assert(shapes_of(seq![entry]) =~= seq![HostShape::Exact(domain)]);
    assert(shapes_of(seq![sub]) =~= seq![HostShape::SubdomainsOnly(domain)]);
    assert(shapes_of(seq![apex]) =~= seq![HostShape::ApexAndSubdomains(domain)]);
    assert(shapes_of(seq!["*"@]) =~= seq![HostShape::Any]);
    lemma_single(HostShape::Exact(domain), name + ":"@ + port);
    lemma_single(HostShape::SubdomainsOnly(domain), name + ":"@ + port);
    lemma_single(HostShape::ApexAndSubdomains(domain), name + ":"@ + port);
    lemma_single(HostShape::Any, name + ":"@ + port);
}

/// A list of one pattern goes by that pattern.
proof fn lemma_single(p: HostShape, target: Seq<char>)
    ensures
        list_allows(seq![p], target) == shape_matches(p, host_of(target)),
{
    assert(seq![p][0] == p);
}

/// A text without white space is not cut when it is read as a pattern.
proof fn lemma_untouched(stars: Seq<char>, name: Seq<char>)
    requires
        stars == Seq::<char>::empty() || stars == "*"@ || stars == "*."@ || stars == "**."@,
        plain_name(name),
    ensures
        text::trimmed(stars + name) == stars + name,
{
    reveal_strlit("*");
    reveal_strlit("*.");
    reveal_strlit("**.");
    let s = stars + name;
    assert forall|i: int| 0 <= i < s.len() implies {
        let c = #[trigger] s[i];
        !text::is_white(c)
    } by {
        if i >= stars.len() {
            assert(s[i] == name[i - stars.len()]);
        }
    }
    text::lemma_lead(s, text::white(), 0);
    assert(text::drop_lead(s, text::white()) =~= s);
    text::lemma_trail(s, text::white(), 0);
    assert(text::trimmed(s) =~= s);
}

/// White space around a target, and around the text of a pattern, makes no difference.
pub proof fn white_space_does_not_matter(a: Seq<char>, s: Seq<char>, b: Seq<char>)
    requires
        forall|i: int| 0 <= i < a.len() ==> text::is_white(#[trigger] a[i]),
        forall|i: int| 0 <= i < b.len() ==> text::is_white(#[trigger] b[i]),
    ensures
        host_of(a + s + b) == host_of(s),
        policy::host_shape(a + s + b) == policy::host_shape(s),
{
    text::white_space_around_is_dropped(a, s, b);
}

/// Brackets around a host are dropped, and so is all that follows them: what stands between them
/// is read as it would be without them.
pub proof fn brackets_are_dropped(opens: Seq<char>, inner: Seq<char>, rest: Seq<char>)
    requires
        forall|i: int| 0 <= i < opens.len() ==> #[trigger] opens[i] == '[',
        forall|i: int|
            0 <= i < inner.len() ==> {
                let c = #[trigger] inner[i];
                c != '[' && c != ']' && !text::is_white(c)
            },
    ensures
        host_of(opens + inner + "]"@ + rest) == host_of(inner),
{
    reveal_strlit("]");
    let s = opens + inner + "]"@ + rest;
    let n = inner.len() as int;
    let o = opens.len() as int;
    lemma_stays_whole(inner);
    assert(s[0] == (if o > 0 {
        opens[0]
    } else if n > 0 {
        inner[0]
    } else {
        ']'
    }));
    text::lemma_lead(s, text::white(), 0);
    assert(text::drop_lead(s, text::white()) =~= s);
    text::lemma_trail_bounds(s, text::white());
    let m = text::trail(s, text::white());
    assert(s[o + n] == ']');
    assert(s.len() - m > o + n) by {
        if s.len() - m <= o + n {
            assert((text::white())(s[o + n]));
        }
    }
    let t = text::trimmed(s);
    assert(t =~= s.take(s.len() - m));
    assert forall|i: int| 0 <= i < o implies (text::equal_to('['))(#[trigger] t[i]) by {
        assert(t[i] == opens[i]);
    }
    assert(t[o] == (if n > 0 {
        inner[0]
    } else {
        ']'
    }));
    text::lemma_lead(t, text::equal_to('['), o as nat);
    let opened = text::drop_lead(t, text::equal_to('['));
    assert forall|i: int| 0 <= i < n implies (text::other_than(']'))(#[trigger] opened[i]) by {
        assert(opened[i] == inner[i]);
    }
    assert(opened[n] == ']');
    text::lemma_lead(opened, text::other_than(']'), n as nat);
    assert(text::take_lead(opened, text::other_than(']')) =~= inner);
}

/// Only the last colon of a target ends its host: what stands before it belongs to the host, even
/// where there are colons in it.
pub proof fn last_colon_ends_the_host(name: Seq<char>, port: Seq<char>)
    requires
        forall|i: int|
            0 <= i < name.len() ==> {
                let c = #[trigger] name[i];
                c != '[' && c != ']' && !text::is_white(c)
            },
        plain_name(port),
    ensures
        host_of(name + ":"@ + port) == text::ascii_lower(name),
{
    reveal_strlit(":");
    let full = name + ":"@ + port;
    assert forall|i: int| 0 <= i < full.len() implies {
        let c = #[trigger] full[i];
        c != '[' && c != ']' && !text::is_white(c)
    } by {
        if i < name.len() {
            assert(full[i] == name[i]);
        } else if i > name.len() {
            assert(full[i] == port[i - name.len() - 1]);
        }
    }
    lemma_stays_whole(full);
    assert(full[name.len() as int] == ':');
    assert forall|i: int| full.len() - port.len() <= i < full.len() implies (text::other_than(':'))(
        #[trigger] full[i],
    ) by {
        assert(full[i] == port[i - name.len() - 1]);
    }
    text::lemma_trail(full, text::other_than(':'), port.len());
    assert(full.take(name.len() as int) =~= name);
}

/// Nothing of a target counts but its host: two targets with the same host pass the same lists.
pub proof fn only_the_host_counts(patterns: Seq<HostShape>, a: Seq<char>, b: Seq<char>)
    requires
        host_of(a) == host_of(b),
    ensures
        list_allows(patterns, a) == list_allows(patterns, b),
        list_allows(patterns, a) <==> exists|i: int|
            0 <= i < patterns.len() && shape_matches(#[trigger] patterns[i], host_of(a)),
{
}

/// How the host of any target is read: opening brackets in front are dropped; a closing bracket
/// ends it, and so does the last colon before that; and what is left is taken in lower case.
pub proof fn host_is_read(
    opens: Seq<char>,
    name: Seq<char>,
    port: Seq<char>,
    closing: Seq<char>,
)
    requires
        forall|i: int| 0 <= i < opens.len() ==> #[trigger] opens[i] == '[',
        name.len() > 0 ==> name[0] != '[',
        !name.contains(']'),
        !port.contains(']'),
        !port.contains(':'),
        closing.len() > 0 ==> closing[0] == ']',
    ensures
        text::tight(opens + name + ":"@ + port + closing) ==> host_of(
            opens + name + ":"@ + port + closing,
        ) == text::ascii_lower(name),
        text::tight(opens + name + closing) && !name.contains(':') ==> host_of(
            opens + name + closing,
        ) == text::ascii_lower(name),
{
    reveal_strlit(":");
    let inner = name + ":"@ + port;
    if text::tight(opens + name + ":"@ + port + closing) {
        assert(opens + name + ":"@ + port + closing =~= opens + inner + closing);
        assert forall|i: int| 0 <= i < inner.len() implies inner[i] != ']' by {
            if i < name.len() {
                assert(name.contains(name[i]));
            } else if i > name.len() {
                assert(port.contains(port[i - name.len() - 1]));
            }
        }
        lemma_inner(opens, inner, closing);
        assert(inner[name.len() as int] == ':');
        assert forall|i: int| inner.len() - port.len() <= i < inner.len() implies (text::other_than(
            ':',
        ))(#[trigger] inner[i]) by {
            assert(inner[i] == port[i - name.len() - 1]);
            assert(port.contains(port[i - name.len() - 1]));
        }
        text::lemma_trail(inner, text::other_than(':'), port.len());
        assert(inner.take(name.len() as int) =~= name);
    }
    if text::tight(opens + name + closing) && !name.contains(':') {
        assert forall|i: int| 0 <= i < name.len() implies name[i] != ']' by {
            assert(name.contains(name[i]));
        }
        lemma_inner(opens, name, closing);
    }
}

/// What stands between brackets is found there.
proof fn lemma_inner(opens: Seq<char>, inner: Seq<char>, closing: Seq<char>)
    requires
        forall|i: int| 0 <= i < opens.len() ==> #[trigger] opens[i] == '[',
        inner.len() > 0 ==> inner[0] != '[',
        forall|i: int| 0 <= i < inner.len() ==> #[trigger] inner[i] != ']',
        closing.len() > 0 ==> closing[0] == ']',
        text::tight(opens + inner + closing),
    ensures
        text::take_lead(
            text::drop_lead(text::trimmed(opens + inner + closing), text::equal_to('[')),
            text::other_than(']'),
        ) == inner,
{
    let t = opens + inner + closing;
    let o = opens.len() as int;
    let n = inner.len() as int;
    text::lemma_tight_trimmed(t);
    assert forall|i: int| 0 <= i < o implies (text::equal_to('['))(#[trigger] t[i]) by {
        assert(t[i] == opens[i]);
    }
    if o < t.len() {
        assert(t[o] == (if n > 0 {
            inner[0]
        } else {
            closing[0]
        }));
    }
    text::lemma_lead(t, text::equal_to('['), o as nat);
    let opened = text::drop_lead(t, text::equal_to('['));
    assert(opened =~= inner + closing);
    assert forall|i: int| 0 <= i < n implies (text::other_than(']'))(#[trigger] opened[i]) by {
        assert(opened[i] == inner[i]);
    }
    assert(n < opened.len() ==> opened[n] == closing[0]);
    text::lemma_lead(opened, text::other_than(']'), n as nat);
    assert(text::take_lead(opened, text::other_than(']')) =~= inner);
}

} // verus!
