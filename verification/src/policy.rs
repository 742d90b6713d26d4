//! What a sandboxed command may do: the filesystem and network policy.

use vstd::prelude::*;

use crate::os;
use crate::os::OsText;
use crate::text;

verus! {

// ---------------------------------------------------------------------------
// Host patterns
// ---------------------------------------------------------------------------

/// An allowlist entry.
#[derive(Debug, PartialEq, Eq)]
pub enum HostPattern {
    /// Exactly this host (`example.com` matches only `example.com`).
    Exact(String),
    /// Subdomains only (`*.example.com` matches `a.example.com`, not the apex).
    SubdomainsOnly(String),
    /// Apex and subdomains (`**.example.com` matches `example.com` and `a.example.com`).
    ApexAndSubdomains(String),
    /// Any host.
    Any,
}

/// A host pattern as a mathematical value.
pub enum HostShape {
    Exact(Seq<char>),
    SubdomainsOnly(Seq<char>),
    ApexAndSubdomains(Seq<char>),
    Any,
}

impl DeepView for HostPattern {
    type V = HostShape;

    open spec fn deep_view(&self) -> HostShape {
        match self {
            HostPattern::Exact(h) => HostShape::Exact(h@),
            HostPattern::SubdomainsOnly(h) => HostShape::SubdomainsOnly(h@),
            HostPattern::ApexAndSubdomains(h) => HostShape::ApexAndSubdomains(h@),
            HostPattern::Any => HostShape::Any,
        }
    }
}

/// The pattern that a text stands for. White space around it does not count, and the host is
/// taken in lower case.
pub open spec fn host_shape(s: Seq<char>) -> HostShape {
    let t = text::trimmed(s);
    if t == "*"@ {
        HostShape::Any
    } else if "**."@.is_prefix_of(t) {
        HostShape::ApexAndSubdomains(text::ascii_lower(t.skip(3)))
    } else if "*."@.is_prefix_of(t) {
        HostShape::SubdomainsOnly(text::ascii_lower(t.skip(2)))
    } else {
        HostShape::Exact(text::ascii_lower(t))
    }
}

/// The text that a pattern is written as.
pub open spec fn host_text(p: HostShape) -> Seq<char> {
    match p {
        HostShape::Exact(h) => h,
        HostShape::SubdomainsOnly(h) => "*."@ + h,
        HostShape::ApexAndSubdomains(h) => "**."@ + h,
        HostShape::Any => "*"@,
    }
}

impl Clone for HostPattern {
    fn clone(&self) -> (r: Self)
        ensures
            r.deep_view() == self.deep_view(),
    {
        match self {
            HostPattern::Exact(h) => HostPattern::Exact(h.clone()),
            HostPattern::SubdomainsOnly(h) => HostPattern::SubdomainsOnly(h.clone()),
            HostPattern::ApexAndSubdomains(h) => HostPattern::ApexAndSubdomains(h.clone()),
            HostPattern::Any => HostPattern::Any,
        }
    }
}

impl HostPattern {
    /// Reads `"example.com"`, `"*.example.com"`, `"**.example.com"` or `"*"`.
    pub fn parse(s: &str) -> (r: Self)
        ensures
            r.deep_view() == host_shape(s@),
    {
        let cs: Vec<char> = text::chars_of(s);
        let t: Vec<char> = text::trim(cs.as_slice());
        let any: Vec<char> = text::chars_of("*");
        let apex: Vec<char> = text::chars_of("**.");
        let sub: Vec<char> = text::chars_of("*.");
        proof {
            reveal_strlit("**.");
            reveal_strlit("*.");
        }
        if text::same_chars(t.as_slice(), any.as_slice()) {
            HostPattern::Any
        } else if text::starts_with(t.as_slice(), apex.as_slice()) {
            let rest: Vec<char> = text::copy_range(t.as_slice(), 3, t.len());
            assert(rest@ =~= t@.skip(3));
            HostPattern::ApexAndSubdomains(
                text::string_of(text::to_ascii_lower(rest.as_slice()).as_slice()),
            )
        } else if text::starts_with(t.as_slice(), sub.as_slice()) {
            let rest: Vec<char> = text::copy_range(t.as_slice(), 2, t.len());
            assert(rest@ =~= t@.skip(2));
            HostPattern::SubdomainsOnly(
                text::string_of(text::to_ascii_lower(rest.as_slice()).as_slice()),
            )
        } else {
            HostPattern::Exact(text::string_of(text::to_ascii_lower(t.as_slice()).as_slice()))
        }
    }

    /// The canonical text of the pattern.
    pub fn to_pattern_string(&self) -> (r: String)
        ensures
            r@ == host_text(self.deep_view()),
    {
        match self {
            HostPattern::Exact(h) => h.clone(),
            HostPattern::SubdomainsOnly(h) => text::join2("*.", h.as_str()),
            HostPattern::ApexAndSubdomains(h) => text::join2("**.", h.as_str()),
            HostPattern::Any => "*".to_owned(),
        }
    }
}

/// A text in lower case keeps a prefix that holds no letters, and gains none.
proof fn lemma_prefix_lower(prefix: Seq<char>, s: Seq<char>)
    requires
        forall|c: char| prefix.contains(c) ==> !('A' <= c <= 'Z') && !('a' <= c <= 'z'),
    ensures
        prefix.is_prefix_of(text::ascii_lower(s)) == prefix.is_prefix_of(s),
        (prefix == text::ascii_lower(s)) == (prefix == s),
{
    let low = text::ascii_lower(s);
    if prefix.len() <= s.len() {
        assert forall|i: int| 0 <= i < prefix.len() implies (low[i] == #[trigger] prefix[i]) == (s[i]
            == prefix[i]) by {
            assert(prefix.contains(prefix[i]));
        }
        if prefix.is_prefix_of(low) {
            assert forall|i: int| 0 <= i < prefix.len() implies s[i] == #[trigger] prefix[i] by {
                assert(low.subrange(0, prefix.len() as int)[i] == prefix[i]);
            }
            assert(s.subrange(0, prefix.len() as int) =~= prefix);
        }
        if prefix.is_prefix_of(s) {
            assert forall|i: int| 0 <= i < prefix.len() implies low[i] == #[trigger] prefix[i] by {
                assert(s.subrange(0, prefix.len() as int)[i] == prefix[i]);
            }
            assert(low.subrange(0, prefix.len() as int) =~= prefix);
        }
        if prefix.len() == s.len() {
            if prefix == low {
                assert(prefix =~= s);
            }
            if prefix == s {
                assert(prefix =~= low);
            }
        }
    }
}

/// Reading a text as a pattern and writing it again gives the text in lower case, without the
/// white space around it; reading that gives the same pattern.
pub proof fn reading_is_stable(s: Seq<char>)
    ensures
        host_text(host_shape(s)) == text::ascii_lower(text::trimmed(s)),
        host_shape(host_text(host_shape(s))) == host_shape(s),
{
    reveal_strlit("*");
    reveal_strlit("*.");
    reveal_strlit("**.");
    let t = text::trimmed(s);
    let low = text::ascii_lower(t);
    text::lemma_trimmed_tight(s);
    text::lemma_lower_stable(t);
    text::lemma_tight_trimmed(low);
    lemma_prefix_lower("*"@, t);
    lemma_prefix_lower("*."@, t);
    lemma_prefix_lower("**."@, t);
    if t == "*"@ {
        assert(low =~= "*"@);
    } else if "**."@.is_prefix_of(t) {
        assert("**."@.is_prefix_of(low));
        assert(low.subrange(0, 3) =~= "**."@);
        assert("**."@ + text::ascii_lower(t.skip(3)) =~= low);
        assert(low.skip(3) =~= text::ascii_lower(t.skip(3)));
        text::lemma_lower_stable(t.skip(3));
    } else if "*."@.is_prefix_of(t) {
        assert("*."@.is_prefix_of(low));
        assert(low.subrange(0, 2) =~= "*."@);
        assert("*."@ + text::ascii_lower(t.skip(2)) =~= low);
        assert(low.skip(2) =~= text::ascii_lower(t.skip(2)));
        text::lemma_lower_stable(t.skip(2));
    }
}

/// A pattern whose text reads as that pattern: the text is in lower case and has no white space
/// around it, and an exact host does not look like a wildcard.
pub open spec fn canonical(p: HostShape) -> bool {
    let x = host_text(p);
    &&& text::trimmed(x) == x
    &&& text::ascii_lower(x) == x
    &&& p is Exact ==> x != "*"@ && !"*."@.is_prefix_of(x) && !"**."@.is_prefix_of(x)
}

/// Writing a pattern and reading the text gives the pattern back exactly if it is canonical.
pub proof fn writing_round_trips(p: HostShape)
    ensures
        host_shape(host_text(p)) == p <==> canonical(p),
{
    reveal_strlit("*");
    reveal_strlit("*.");
    reveal_strlit("**.");
    let x = host_text(p);
    reading_is_stable(x);
    if host_shape(x) == p {
        text::lemma_trimmed_tight(x);
        assert(x == text::ascii_lower(text::trimmed(x)));
        assert(text::trimmed(x) == x);
    }
    if canonical(p) {
        match p {
            HostShape::Exact(h) => {},
            HostShape::SubdomainsOnly(h) => {
                assert(x[1] == '.');
                assert(!"**."@.is_prefix_of(x)) by {
                    if "**."@.is_prefix_of(x) {
                        assert(x.subrange(0, 3)[1] == "**."@[1]);
                    }
                }
                assert(x.subrange(0, 2) =~= "*."@);
                assert(x.skip(2) =~= h);
                assert(text::ascii_lower(h) =~= h) by {
                    assert forall|i: int| 0 <= i < h.len() implies text::ascii_lower(h)[i] == h[i] by {
                        assert(text::ascii_lower(x)[i + 2] == x[i + 2]);
                    }
                }
            },
            HostShape::ApexAndSubdomains(h) => {
                assert(x.subrange(0, 3) =~= "**."@);
                assert(x.skip(3) =~= h);
                assert(text::ascii_lower(h) =~= h) by {
                    assert forall|i: int| 0 <= i < h.len() implies text::ascii_lower(h)[i] == h[i] by {
                        assert(text::ascii_lower(x)[i + 3] == x[i + 3]);
                    }
                }
            },
            HostShape::Any => {},
        }
    }
}

/// Every pattern that was read from a text is canonical.
pub proof fn read_patterns_are_canonical(s: Seq<char>)
    ensures
        canonical(host_shape(s)),
{
    reading_is_stable(s);
    writing_round_trips(host_shape(s));
}

// ---------------------------------------------------------------------------
// Network
// ---------------------------------------------------------------------------

/// Network access granted to the sandboxed command.
#[derive(Debug, PartialEq, Eq)]
#[non_exhaustive]
pub enum NetworkPolicy {
    /// All network access blocked.
    Blocked,
    /// Full network access.
    Allowed,
    /// Egress only to allowlisted hosts, via a local proxy.
    Proxied { allowlist: Vec<HostPattern> },
}

/// A network policy as a mathematical value.
pub enum NetworkRule {
    Blocked,
    Allowed,
    Proxied { allowlist: Seq<HostShape> },
}

impl DeepView for NetworkPolicy {
    type V = NetworkRule;

    open spec fn deep_view(&self) -> NetworkRule {
        match self {
            NetworkPolicy::Blocked => NetworkRule::Blocked,
            NetworkPolicy::Allowed => NetworkRule::Allowed,
            NetworkPolicy::Proxied { allowlist } => NetworkRule::Proxied {
                allowlist: allowlist.deep_view(),
            },
        }
    }
}

impl Default for NetworkPolicy {
    fn default() -> (r: Self)
        ensures
            r.deep_view() == NetworkRule::Blocked,
    {
        NetworkPolicy::Blocked
    }
}

/// A copy of a list of patterns.
pub fn copy_patterns(list: &Vec<HostPattern>) -> (r: Vec<HostPattern>)
    ensures
        r.deep_view() == list.deep_view(),
{
    let mut out: Vec<HostPattern> = Vec::new();
    let mut i: usize = 0;
    while i < list.len()
        invariant
            i <= list@.len(),
            out@.len() == i,
            forall|k: int| 0 <= k < i ==> (#[trigger] out@[k]).deep_view() == list@[k].deep_view(),
        decreases list@.len() - i,
    {
        out.push(list[i].clone());
        i = i + 1;
    }
    assert(out.deep_view() =~= list.deep_view());
    out
}

impl Clone for NetworkPolicy {
    fn clone(&self) -> (r: Self)
        ensures
            r.deep_view() == self.deep_view(),
    {
        match self {
            NetworkPolicy::Blocked => NetworkPolicy::Blocked,
            NetworkPolicy::Allowed => NetworkPolicy::Allowed,
            NetworkPolicy::Proxied { allowlist } => NetworkPolicy::Proxied {
                allowlist: copy_patterns(allowlist),
            },
        }
    }
}

// ---------------------------------------------------------------------------
// Filesystem
// ---------------------------------------------------------------------------

/// A copy of a list of strings.
pub fn copy_strings(list: &Vec<String>) -> (r: Vec<String>)
    ensures
        r.deep_view() == list.deep_view(),
{
    let mut out: Vec<String> = Vec::new();
    let mut i: usize = 0;
    while i < list.len()
        invariant
            i <= list@.len(),
            out@.len() == i,
            forall|k: int| 0 <= k < i ==> (#[trigger] out@[k])@ == list@[k]@,
        decreases list@.len() - i,
    {
        out.push(list[i].clone());
        i = i + 1;
    }
    assert(out.deep_view() =~= list.deep_view());
    out
}

/// Read-only policy: the whole filesystem is readable but for what `deny_read_globs` hides,
/// and nothing is writable.
#[derive(Debug, PartialEq, Eq)]
#[non_exhaustive]
pub struct ReadOnly {
    pub network: NetworkPolicy,
    pub deny_read_globs: Vec<String>,
}

/// Writable workspace policy: the whole filesystem is readable but for what `deny_read_globs`
/// hides; writes are confined to `writable_roots` minus `read_only_subpaths`.
#[derive(Debug, PartialEq, Eq)]
#[non_exhaustive]
pub struct WorkspaceWrite {
    pub writable_roots: Vec<OsText>,
    pub read_only_subpaths: Vec<OsText>,
    pub exclude_tmp: bool,
    pub network: NetworkPolicy,
    pub deny_read_globs: Vec<String>,
}

/// A filesystem and network policy as a mathematical value. Read-only access is workspace
/// access without a workspace.
pub struct Access {
    pub full: bool,
    pub writable_roots: Seq<Seq<u8>>,
    pub read_only_subpaths: Seq<Seq<u8>>,
    pub exclude_tmp: bool,
    pub network: NetworkRule,
    pub deny_read_globs: Seq<Seq<char>>,
}

impl DeepView for ReadOnly {
    type V = Access;

    open spec fn deep_view(&self) -> Access {
        Access {
            full: false,
            writable_roots: Seq::empty(),
            read_only_subpaths: Seq::empty(),
            exclude_tmp: false,
            network: self.network.deep_view(),
            deny_read_globs: self.deny_read_globs.deep_view(),
        }
    }
}

impl DeepView for WorkspaceWrite {
    type V = Access;

    open spec fn deep_view(&self) -> Access {
        Access {
            full: false,
            writable_roots: self.writable_roots.deep_view(),
            read_only_subpaths: self.read_only_subpaths.deep_view(),
            exclude_tmp: self.exclude_tmp,
            network: self.network.deep_view(),
            deny_read_globs: self.deny_read_globs.deep_view(),
        }
    }
}

impl Clone for ReadOnly {
    fn clone(&self) -> (r: Self)
        ensures
            r.deep_view() == self.deep_view(),
    {
        ReadOnly {
            network: self.network.clone(),
            deny_read_globs: copy_strings(&self.deny_read_globs),
        }
    }
}

impl Clone for WorkspaceWrite {
    fn clone(&self) -> (r: Self)
        ensures
            r.deep_view() == self.deep_view(),
    {
        WorkspaceWrite {
            writable_roots: os::copy_all(&self.writable_roots),
            read_only_subpaths: os::copy_all(&self.read_only_subpaths),
            exclude_tmp: self.exclude_tmp,
            network: self.network.clone(),
            deny_read_globs: copy_strings(&self.deny_read_globs),
        }
    }
}

impl ReadOnly {
    /// Read-only access that hides nothing.
    pub fn new(network: NetworkPolicy) -> (r: Self)
        ensures
            r.deep_view() == (Access {
                full: false,
                writable_roots: Seq::empty(),
                read_only_subpaths: Seq::empty(),
                exclude_tmp: false,
                network: network.deep_view(),
                deny_read_globs: Seq::empty(),
            }),
    {
        let r = ReadOnly { network, deny_read_globs: Vec::new() };
        assert(r.deny_read_globs.deep_view() =~= Seq::<Seq<char>>::empty());
        r
    }

    /// Hides what the glob matches from reading.
    pub fn deny_read(self, glob: &str) -> (r: Self)
        ensures
            r.deep_view() == (Access {
                deny_read_globs: self.deep_view().deny_read_globs.push(glob@),
                ..self.deep_view()
            }),
    {
        let ghost before = self.deny_read_globs.deep_view();
        let mut r = self;
        r.deny_read_globs.push(glob.to_owned());
        assert(r.deny_read_globs.deep_view() =~= before.push(glob@));
        r
    }
}

impl WorkspaceWrite {
    /// Writes are confined to the given roots; no network.
    pub fn new(writable_roots: Vec<OsText>) -> (r: Self)
        ensures
            r.deep_view() == (Access {
                full: false,
                writable_roots: writable_roots.deep_view(),
                read_only_subpaths: Seq::empty(),
                exclude_tmp: false,
                network: NetworkRule::Blocked,
                deny_read_globs: Seq::empty(),
            }),
    {
        let r = WorkspaceWrite {
            writable_roots,
            read_only_subpaths: Vec::new(),
            exclude_tmp: false,
            network: NetworkPolicy::Blocked,
            deny_read_globs: Vec::new(),
        };
        assert(r.read_only_subpaths.deep_view() =~= Seq::<Seq<u8>>::empty());
        assert(r.deny_read_globs.deep_view() =~= Seq::<Seq<char>>::empty());
        r
    }

    /// Marks a subpath read-only even though it lives under a writable root. Meant for secret
    /// material, not for `.git` (that would break `git commit`).
    pub fn read_only(self, p: OsText) -> (r: Self)
        ensures
            r.deep_view() == (Access {
                read_only_subpaths: self.deep_view().read_only_subpaths.push(p@),
                ..self.deep_view()
            }),
    {
        let ghost before = self.read_only_subpaths.deep_view();
        let mut r = self;
        r.read_only_subpaths.push(p);
        assert(r.read_only_subpaths.deep_view() =~= before.push(p@));
        r
    }

    /// Records whether the temporary directory is to be left out. No backend adds that directory
    /// to the writable roots by itself, so the mark changes nothing of what they allow.
    pub fn exclude_tmp(self, yes: bool) -> (r: Self)
        ensures
            r.deep_view() == (Access { exclude_tmp: yes, ..self.deep_view() }),
    {
        let mut r = self;
        r.exclude_tmp = yes;
        r
    }

    /// Sets the network policy.
    pub fn network(self, n: NetworkPolicy) -> (r: Self)
        ensures
            r.deep_view() == (Access { network: n.deep_view(), ..self.deep_view() }),
    {
        let mut r = self;
        r.network = n;
        r
    }

    /// Hides what the glob matches from reading.
    pub fn deny_read(self, glob: &str) -> (r: Self)
        ensures
            r.deep_view() == (Access {
                deny_read_globs: self.deep_view().deny_read_globs.push(glob@),
                ..self.deep_view()
            }),
    {
        let ghost before = self.deny_read_globs.deep_view();
        let mut r = self;
        r.deny_read_globs.push(glob.to_owned());
        assert(r.deny_read_globs.deep_view() =~= before.push(glob@));
        r
    }
}

/// Top-level sandbox policy.
#[derive(Debug, PartialEq, Eq)]
#[non_exhaustive]
pub enum SandboxPolicy {
    /// No sandbox: run unrestricted. Used for escalated retries.
    DangerFullAccess,
    /// Read-only filesystem.
    ReadOnly(ReadOnly),
    /// Writable roots, readable everywhere.
    WorkspaceWrite(WorkspaceWrite),
}

/// Unrestricted access.
pub open spec fn full_access() -> Access {
    Access {
        full: true,
        writable_roots: Seq::empty(),
        read_only_subpaths: Seq::empty(),
        exclude_tmp: false,
        network: NetworkRule::Allowed,
        deny_read_globs: Seq::empty(),
    }
}

impl DeepView for SandboxPolicy {
    type V = Access;

    open spec fn deep_view(&self) -> Access {
        match self {
            SandboxPolicy::DangerFullAccess => full_access(),
            SandboxPolicy::ReadOnly(r) => r.deep_view(),
            SandboxPolicy::WorkspaceWrite(w) => w.deep_view(),
        }
    }
}

impl Clone for SandboxPolicy {
    fn clone(&self) -> (r: Self)
        ensures
            r.deep_view() == self.deep_view(),
            (r is DangerFullAccess) == (self is DangerFullAccess),
            (r is ReadOnly) == (self is ReadOnly),
            (r is WorkspaceWrite) == (self is WorkspaceWrite),
    {
        match self {
            SandboxPolicy::DangerFullAccess => SandboxPolicy::DangerFullAccess,
            SandboxPolicy::ReadOnly(r) => SandboxPolicy::ReadOnly(r.clone()),
            SandboxPolicy::WorkspaceWrite(w) => SandboxPolicy::WorkspaceWrite(w.clone()),
        }
    }
}

impl SandboxPolicy {
    /// The network policy in effect. Full access implies full network.
    pub fn network(&self) -> (r: NetworkPolicy)
        ensures
            r.deep_view() == self.deep_view().network,
    {
        match self {
            SandboxPolicy::DangerFullAccess => NetworkPolicy::Allowed,
            SandboxPolicy::ReadOnly(r) => r.network.clone(),
            SandboxPolicy::WorkspaceWrite(w) => w.network.clone(),
        }
    }

    /// Whether the command runs without any sandbox around it.
    pub fn is_full_access(&self) -> (r: bool)
        ensures
            r == self.deep_view().full,
            r == (self is DangerFullAccess),
    {
        match self {
            SandboxPolicy::DangerFullAccess => true,
            _ => false,
        }
    }

    /// The globs that are hidden from reading.
    pub fn deny_read_globs(&self) -> (r: Vec<String>)
        ensures
            r.deep_view() == self.deep_view().deny_read_globs,
    {
        match self {
            SandboxPolicy::DangerFullAccess => {
                let none: Vec<String> = Vec::new();
                assert(none.deep_view() =~= Seq::<Seq<char>>::empty());
                none
            },
            SandboxPolicy::ReadOnly(r) => copy_strings(&r.deny_read_globs),
            SandboxPolicy::WorkspaceWrite(w) => copy_strings(&w.deny_read_globs),
        }
    }

    /// The directories that the command may write to.
    pub fn writable_roots(&self) -> (r: Vec<OsText>)
        ensures
            r.deep_view() == self.deep_view().writable_roots,
    {
        match self {
            SandboxPolicy::WorkspaceWrite(w) => os::copy_all(&w.writable_roots),
            _ => {
                let none: Vec<OsText> = Vec::new();
                assert(none.deep_view() =~= Seq::<Seq<u8>>::empty());
                none
            },
        }
    }

    /// The paths inside writable roots that stay read-only.
    pub fn read_only_subpaths(&self) -> (r: Vec<OsText>)
        ensures
            r.deep_view() == self.deep_view().read_only_subpaths,
    {
        match self {
            SandboxPolicy::WorkspaceWrite(w) => os::copy_all(&w.read_only_subpaths),
            _ => {
                let none: Vec<OsText> = Vec::new();
                assert(none.deep_view() =~= Seq::<Seq<u8>>::empty());
                none
            },
        }
    }
}

// ---------------------------------------------------------------------------
// Laws
// ---------------------------------------------------------------------------

/// A policy allows what its fields say: full access allows everything; read-only access has no
/// writable root; a workspace has those that it was given, less its read-only paths; and each
/// hides what its globs say and has the network that it was given.
pub proof fn policies_allow_what_they_say(p: SandboxPolicy)
    ensures
        p.deep_view().full <==> p is DangerFullAccess,
        p is DangerFullAccess ==> p.deep_view().network is Allowed
            && p.deep_view().deny_read_globs.len() == 0,
        p matches SandboxPolicy::ReadOnly(r) ==> {
            &&& p.deep_view().writable_roots.len() == 0
            &&& p.deep_view().read_only_subpaths.len() == 0
            &&& p.deep_view().deny_read_globs == r.deny_read_globs.deep_view()
            &&& p.deep_view().network == r.network.deep_view()
        },
        p matches SandboxPolicy::WorkspaceWrite(w) ==> {
            &&& p.deep_view().writable_roots == w.writable_roots.deep_view()
            &&& p.deep_view().read_only_subpaths == w.read_only_subpaths.deep_view()
            &&& p.deep_view().deny_read_globs == w.deny_read_globs.deep_view()
            &&& p.deep_view().network == w.network.deep_view()
        },
{
}

/// A network policy keeps its kind, and a proxied one every pattern of its allowlist, in order.
pub proof fn networks_keep_their_kind(n: NetworkPolicy)
    ensures
        n.deep_view() is Blocked <==> n is Blocked,
        n.deep_view() is Allowed <==> n is Allowed,
        n matches NetworkPolicy::Proxied { allowlist } ==> {
            &&& n.deep_view() matches NetworkRule::Proxied { allowlist: list }
            &&& list.len() == allowlist@.len()
            &&& forall|i: int|
                0 <= i < list.len() ==> #[trigger] list[i] == allowlist@[i].deep_view()
        },
{
}

/// How a pattern is read, whatever white space is around it: by the stars in front of it, and with
/// its host in lower case.
pub proof fn patterns_are_read_by_their_stars(s: Seq<char>, d: Seq<char>)
    ensures
        ({
            let t = text::trimmed(s);
            &&& t == "*"@ ==> host_shape(s) is Any
            &&& t == "**."@ + d ==> host_shape(s) == HostShape::ApexAndSubdomains(
                text::ascii_lower(d),
            )
            &&& t == "*."@ + d ==> host_shape(s) == HostShape::SubdomainsOnly(text::ascii_lower(d))
            &&& t.len() == 0 || t[0] != '*' ==> host_shape(s) == HostShape::Exact(
                text::ascii_lower(t),
            )
            &&& t != "*"@ && !"*."@.is_prefix_of(t) && !"**."@.is_prefix_of(t) ==> host_shape(s)
                == HostShape::Exact(text::ascii_lower(t))
        }),
{
    reveal_strlit("*");
    reveal_strlit("*.");
    reveal_strlit("**.");
    let t = text::trimmed(s);
    if t == "**."@ + d {
        assert(t.subrange(0, 3) =~= "**."@);
        assert(t.skip(3) =~= d);
        assert(t.len() >= 3);
    } else if t == "*."@ + d {
        assert(t.subrange(0, 2) =~= "*."@);
        assert(t.skip(2) =~= d);
        assert(t[1] == '.');
        if "**."@.is_prefix_of(t) {
            assert(t.subrange(0, 3)[1] == '*');
        }
    }
    if "*."@.is_prefix_of(t) {
        assert(t.subrange(0, 2)[0] == '*');
    }
    if "**."@.is_prefix_of(t) {
        assert(t.subrange(0, 3)[0] == '*');
    }
}

/// A pattern is written with the stars of its kind in front of its host, and the host as it is.
pub proof fn patterns_are_written_with_their_stars(h: Seq<char>)
    ensures
        host_text(HostShape::Exact(h)) == h,
        host_text(HostShape::SubdomainsOnly(h)) == "*."@ + h,
        host_text(HostShape::ApexAndSubdomains(h)) == "**."@ + h,
        host_text(HostShape::Any) == "*"@,
{
}

} // verus!
