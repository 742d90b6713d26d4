//! bwrap, which gives a proxied command on Linux its own mount, user, process and network
//! namespaces: where it is found, how it is told what the command may see, and which paths are
//! masked.

use vstd::prelude::*;
use vstd::utf8::*;

use crate::glob;
use crate::os;
use crate::os::OsText;
use crate::text;

verus! {

// ---------------------------------------------------------------------------
// Finding bwrap
// ---------------------------------------------------------------------------

/// The byte between the directories of a search path.
pub const COLON: u8 = 58;

/// The places where bwrap may be, in the order of the search path.
pub open spec fn bwrap_places(path: Seq<u8>) -> Seq<Seq<u8>> {
    let dirs = os::pieces(path, COLON);
    Seq::new(dirs.len(), |i: int| os::path_join(dirs[i], encode_utf8("bwrap"@)))
}

/// The places where bwrap may be, by the search path.
pub fn bwrap_candidates(path: &OsText) -> (r: Vec<OsText>)
    ensures
        r.deep_view() == bwrap_places(path@),
{
    let dirs: Vec<OsText> = os::split(path.bytes.as_slice(), COLON);
    let name: OsText = OsText::new("bwrap");
    let mut out: Vec<OsText> = Vec::new();
    let mut i: usize = 0;
    while i < dirs.len()
        invariant
            i <= dirs@.len(),
            dirs.deep_view() == os::pieces(path@, COLON),
            name@ == encode_utf8("bwrap"@),
            out@.len() == i,
            forall|k: int| 0 <= k < i ==> (#[trigger] out@[k])@ == os::path_join(dirs@[k]@, name@),
        decreases dirs@.len() - i,
    {
        out.push(dirs[i].join(&name));
        i = i + 1;
    }
    assert(out.deep_view() =~= bwrap_places(path@));
    out
}

/// The first of the candidates that is a file. `is_file` says of each whether it is.
pub fn find_bwrap(candidates: &Vec<OsText>, is_file: &Vec<bool>) -> (r: Option<OsText>)
    requires
        is_file@.len() == candidates@.len(),
    ensures
        r is None <==> !is_file@.contains(true),
        r matches Some(p) ==> p@ == candidates@[text::lead(
            is_file@,
            text::equal_to(false),
        ) as int]@,
        r matches Some(p) ==> exists|i: int|
            0 <= i < is_file@.len() && #[trigger] is_file@[i] && p@ == candidates@[i]@ && forall|
                k: int,
            |
                0 <= k < i ==> !(#[trigger] is_file@[k]),
{
    let mut i: usize = 0;
    while i < candidates.len()
        invariant
            i <= candidates@.len(),
            is_file@.len() == candidates@.len(),
            forall|k: int| 0 <= k < i ==> (#[trigger] is_file@[k]) == false,
        decreases candidates@.len() - i,
    {
        if is_file[i] {
            assert(is_file@[i as int] == true);
            proof {
                text::lemma_lead(is_file@, text::equal_to(false), i as nat);
            }
            return Some(candidates[i].clone());
        }
        i = i + 1;
    }
    None
}

// ---------------------------------------------------------------------------
// The order of the writable roots
// ---------------------------------------------------------------------------

/// The paths of one depth.
pub open spec fn of_depth(paths: Seq<Seq<u8>>, depth: nat) -> Seq<Seq<u8>> {
    paths.filter(|p: Seq<u8>| os::path_depth(p) == depth)
}

/// The paths of a depth below `bound`: first those of the least depth, and so on; those of one
/// depth in their own order.
pub open spec fn up_to_depth(paths: Seq<Seq<u8>>, bound: nat) -> Seq<Seq<u8>>
    decreases bound,
{
    if bound == 0 {
        Seq::empty()
    } else {
        up_to_depth(paths, (bound - 1) as nat) + of_depth(paths, (bound - 1) as nat)
    }
}

/// A depth that none of the paths reaches.
pub open spec fn depth_bound(paths: Seq<Seq<u8>>) -> nat
    decreases paths.len(),
{
    if paths.len() == 0 {
        0
    } else if os::path_depth(paths.last()) >= depth_bound(paths.drop_last()) {
        os::path_depth(paths.last()) + 1
    } else {
        depth_bound(paths.drop_last())
    }
}

/// The paths from shallow to deep.
pub open spec fn shallow_to_deep(paths: Seq<Seq<u8>>) -> Seq<Seq<u8>> {
    up_to_depth(paths, depth_bound(paths))
}

/// Sorts paths from shallow to deep, and keeps the order of those of one depth.
pub fn sort_by_depth(paths: &Vec<OsText>) -> (r: Vec<OsText>)
    ensures
        r.deep_view() == shallow_to_deep(paths.deep_view()),
{
    let ghost all = paths.deep_view();
    let mut depths: Vec<usize> = Vec::new();
    let mut deepest: usize = 0;
    let mut i: usize = 0;
    while i < paths.len()
        invariant
            i <= paths@.len(),
            all == paths.deep_view(),
            depths@.len() == i,
            forall|k: int| 0 <= k < i ==> (#[trigger] depths@[k]) == os::path_depth(all[k]),
            i > 0 ==> depth_bound(all.take(i as int)) == deepest + 1,
            i == 0 ==> deepest == 0,
        decreases paths@.len() - i,
    {
        let depth: usize = paths[i].depth();
        let ghost deepest0 = deepest;
        if i == 0 || depth > deepest {
            deepest = depth;
        }
        proof {
            let now = all.take(i + 1);
            assert(now.drop_last() =~= all.take(i as int));
            assert(now.last() == all[i as int]);
            assert(depth == os::path_depth(now.last()));
            if i == 0 {
                assert(depth_bound(now.drop_last()) == 0);
            } else {
                assert(depth_bound(now.drop_last()) == deepest0 + 1);
            }
            assert(depth_bound(now) == deepest + 1);
        }
        depths.push(depth);
        i = i + 1;
    }
    assert(all.take(paths@.len() as int) =~= all);
    let mut out: Vec<OsText> = Vec::new();
    if paths.len() == 0 {
        assert(out.deep_view() =~= shallow_to_deep(all));
        return out;
    }
    let mut d: usize = 0;
    assert(out.deep_view() =~= up_to_depth(all, 0));
    loop
        invariant_except_break
            out.deep_view() == up_to_depth(all, d as nat),
        invariant
            d <= deepest,
            all == paths.deep_view(),
            depths@.len() == paths@.len(),
            forall|k: int|
                0 <= k < paths@.len() ==> (#[trigger] depths@[k]) == os::path_depth(all[k]),
            depth_bound(all) == deepest + 1,
        ensures
            out.deep_view() == up_to_depth(all, depth_bound(all)),
        decreases deepest - d,
    {
        push_depth(&mut out, paths, &depths, d);
        assert(out.deep_view() == up_to_depth(all, (d + 1) as nat));
        if d == deepest {
            break;
        }
        d = d + 1;
    }
    out
}

/// Appends the paths of one depth.
fn push_depth(out: &mut Vec<OsText>, paths: &Vec<OsText>, depths: &Vec<usize>, d: usize)
    requires
        depths@.len() == paths@.len(),
        forall|k: int|
            0 <= k < paths@.len() ==> (#[trigger] depths@[k]) == os::path_depth(
                paths.deep_view()[k],
            ),
    ensures
        final(out).deep_view() == old(out).deep_view() + of_depth(paths.deep_view(), d as nat),
{
    let ghost all = paths.deep_view();
    let ghost start = out.deep_view();
    let ghost keep = |p: Seq<u8>| os::path_depth(p) == d as nat;
    let mut i: usize = 0;
    proof {
        reveal(Seq::filter);
        assert(start + all.take(0).filter(keep) =~= start);
    }
    while i < paths.len()
        invariant
            i <= paths@.len(),
            all == paths.deep_view(),
            keep == (|p: Seq<u8>| os::path_depth(p) == d as nat),
            depths@.len() == paths@.len(),
            forall|k: int|
                0 <= k < paths@.len() ==> (#[trigger] depths@[k]) == os::path_depth(all[k]),
            out.deep_view() == start + all.take(i as int).filter(keep),
        decreases paths@.len() - i,
    {
        let ghost before = out.deep_view();
        if depths[i] == d {
            out.push(paths[i].clone());
            assert(out.deep_view() =~= before.push(all[i as int]));
        }
        i = i + 1;
        proof {
            assert(all.take(i as int) =~= all.take(i - 1).push(all[i - 1]));
            all.take(i - 1).lemma_filter_push(all[i - 1], keep);
            assert(out.deep_view() =~= start + all.take(i as int).filter(keep));
        }
    }
    assert(all.take(paths@.len() as int) =~= all);
}

// ---------------------------------------------------------------------------
// The arguments of bwrap
// ---------------------------------------------------------------------------

/// The arguments that mount each path onto itself.
pub open spec fn mounts(flag: Seq<char>, paths: Seq<Seq<u8>>) -> Seq<Seq<char>>
    decreases paths.len(),
{
    if paths.len() == 0 {
        Seq::empty()
    } else {
        let p = os::text_of(paths.last());
        mounts(flag, paths.drop_last()) + seq![flag, p, p]
    }
}

/// The arguments that every run starts with: a session of its own that ends with its parent,
/// the whole filesystem read-only, and fresh `/dev` and `/proc`.
pub open spec fn common_args() -> Seq<Seq<char>> {
    seq![
        "--new-session"@,
        "--die-with-parent"@,
        "--ro-bind"@,
        "/"@,
        "/"@,
        "--dev"@,
        "/dev"@,
        "--proc"@,
        "/proc"@,
    ]
}

/// The arguments that follow the mounts: namespaces for users, processes and the network, and
/// the end of the options.
pub open spec fn namespace_args() -> Seq<Seq<char>> {
    seq!["--unshare-user"@, "--unshare-pid"@, "--unshare-net"@, "--"@]
}

/// The arguments of bwrap, in the order in which it applies them: the filesystem read-only; the
/// writable roots, from shallow to deep; the paths inside them that stay read-only; the masks;
/// the namespaces; and the command to run.
pub open spec fn bwrap_args(
    writable_roots: Seq<Seq<u8>>,
    read_only_subpaths: Seq<Seq<u8>>,
    masks: Seq<Seq<char>>,
    inner: Seq<Seq<char>>,
) -> Seq<Seq<char>> {
    common_args() + mounts("--bind"@, shallow_to_deep(writable_roots)) + mounts(
        "--ro-bind"@,
        read_only_subpaths,
    ) + masks + namespace_args() + inner
}

/// Appends a literal argument.
fn push_arg(args: &mut Vec<String>, arg: &str)
    ensures
        final(args).deep_view() == old(args).deep_view().push(arg@),
{
    let ghost before = args.deep_view();
    args.push(arg.to_owned());
    assert(args.deep_view() =~= before.push(arg@));
}

/// Appends copies of all of `list`.
fn push_args(args: &mut Vec<String>, list: &Vec<String>)
    ensures
        final(args).deep_view() == old(args).deep_view() + list.deep_view(),
{
    let ghost start = args.deep_view();
    let mut i: usize = 0;
    while i < list.len()
        invariant
            i <= list@.len(),
            args.deep_view() == start + list.deep_view().take(i as int),
        decreases list@.len() - i,
    {
        push_arg(args, list[i].as_str());
        i = i + 1;
        proof {
            assert(list.deep_view()[i - 1] == list@[i - 1]@);
            assert(list.deep_view().take(i as int) =~= list.deep_view().take(i - 1).push(
                list.deep_view()[i - 1],
            ));
            assert(args.deep_view() =~= start + list.deep_view().take(i as int));
        }
    }
    assert(list.deep_view().take(list@.len() as int) =~= list.deep_view());
}

/// Appends the arguments that mount each path onto itself.
fn push_mounts(args: &mut Vec<String>, flag: &str, paths: &Vec<OsText>)
    ensures
        final(args).deep_view() == old(args).deep_view() + mounts(flag@, paths.deep_view()),
{
    let ghost start = args.deep_view();
    let ghost all = paths.deep_view();
    let mut i: usize = 0;
    assert(start + mounts(flag@, all.take(0)) =~= start);
    while i < paths.len()
        invariant
            i <= paths@.len(),
            all == paths.deep_view(),
            args.deep_view() == start + mounts(flag@, all.take(i as int)),
        decreases paths@.len() - i,
    {
        let p: String = paths[i].to_string_lossy();
        push_arg(args, flag);
        push_arg(args, p.as_str());
        push_arg(args, p.as_str());
        i = i + 1;
        proof {
            let now = all.take(i as int);
            assert(now.drop_last() =~= all.take(i - 1));
            assert(now.last() == paths@[i - 1]@);
            assert(args.deep_view() =~= start + mounts(flag@, now));
        }
    }
    assert(all.take(paths@.len() as int) =~= all);
}

/// Builds the arguments of bwrap that run `inner_argv` in fresh namespaces. `deny_read_masks`
/// are ready-made arguments. The working directory is inherited.
pub fn build_bwrap_argv(
    writable_roots: &Vec<OsText>,
    read_only_subpaths: &Vec<OsText>,
    deny_read_masks: &Vec<String>,
    inner_argv: &Vec<String>,
) -> (r: Vec<String>)
    ensures
        r.deep_view() == bwrap_args(
            writable_roots.deep_view(),
            read_only_subpaths.deep_view(),
            deny_read_masks.deep_view(),
            inner_argv.deep_view(),
        ),
{
    let mut args: Vec<String> = Vec::new();
    assert(args.deep_view() =~= Seq::<Seq<char>>::empty());
    push_arg(&mut args, "--new-session");
    push_arg(&mut args, "--die-with-parent");
    push_arg(&mut args, "--ro-bind");
    push_arg(&mut args, "/");
    push_arg(&mut args, "/");
    push_arg(&mut args, "--dev");
    push_arg(&mut args, "/dev");
    push_arg(&mut args, "--proc");
    push_arg(&mut args, "/proc");
    assert(args.deep_view() =~= common_args());
    let roots: Vec<OsText> = sort_by_depth(writable_roots);
    push_mounts(&mut args, "--bind", &roots);
    push_mounts(&mut args, "--ro-bind", read_only_subpaths);
    push_args(&mut args, deny_read_masks);
    let ghost mounted = args.deep_view();
    push_arg(&mut args, "--unshare-user");
    push_arg(&mut args, "--unshare-pid");
    push_arg(&mut args, "--unshare-net");
    push_arg(&mut args, "--");
    assert(args.deep_view() =~= mounted + namespace_args());
    push_args(&mut args, inner_argv);
    args
}

// ---------------------------------------------------------------------------
// Masks
// ---------------------------------------------------------------------------

/// The most paths that are masked. A policy that matches more is refused, not masked in part.
pub const MAX_DENY_READ_GLOB_MATCHES: usize = 8192;

/// The directory that every path that an absolute glob matches lies in: what the glob spells
/// before the last slash ahead of the first character that stands for something else, or the root.
pub open spec fn static_dir(glob: Seq<char>) -> Seq<char> {
    match text::before_last(glob::lead_text(glob), '/') {
        Some(dir) => if dir.len() > 0 {
            dir
        } else {
            "/"@
        },
        None => "/"@,
    }
}

/// The directory to start looking for matches of a glob in: `/a/b` for `/a/b/**`, `/a` for
/// `/a/*.pem` and `/a/[bc]/key`, `/a/[b]` for `/a/\[b]/*`, and the root where the glob spells no
/// directory.
pub fn static_prefix_dir(glob: &str) -> (r: OsText)
    ensures
        r@ == encode_utf8(static_dir(glob@)),
{
    let cs: Vec<char> = text::chars_of(glob);
    let (front, _) = glob::literal_lead(cs.as_slice());
    match text::cut_at_last(front.as_slice(), '/') {
        Some(dir) => {
            assert(dir.deep_view() =~= dir@);
            if dir.len() > 0 {
                return OsText::new(text::string_of(dir.as_slice()).as_str());
            }
        },
        None => {},
    }
    OsText::new("/")
}

/// Where a reader of a glob is.
#[derive(Debug, Clone, Copy, PartialEq, Eq, Structural)]
pub enum Place {
    /// Outside everything below.
    Plain,
    /// After a backslash.
    Escaped,
    /// After the bracket that opens a character class.
    ClassOpen,
    /// After the sign that negates a class.
    ClassFirst,
    /// In a class.
    Class,
}

/// Where the reader is after one more character.
pub open spec fn next_place(at: Place, c: char) -> Place {
    match at {
        Place::Plain => if c == '\\' {
            Place::Escaped
        } else if c == '[' {
            Place::ClassOpen
        } else {
            Place::Plain
        },
        Place::Escaped => Place::Plain,
        Place::ClassOpen => if c == '!' || c == '^' {
            Place::ClassFirst
        } else {
            Place::Class
        },
        Place::ClassFirst => Place::Class,
        Place::Class => if c == ']' {
            Place::Plain
        } else {
            Place::Class
        },
    }
}

/// Where the reader is after a glob.
pub open spec fn place_after(glob: Seq<char>) -> Place
    decreases glob.len(),
{
    if glob.len() == 0 {
        Place::Plain
    } else {
        next_place(place_after(glob.drop_last()), glob.last())
    }
}

/// How many groups of alternatives are open after a glob. A brace after a backslash or in a
/// character class opens and closes nothing.
pub open spec fn open_groups(glob: Seq<char>) -> nat
    decreases glob.len(),
{
    if glob.len() == 0 {
        0
    } else {
        let before = open_groups(glob.drop_last());
        if place_after(glob.drop_last()) != Place::Plain {
            before
        } else if glob.last() == '{' {
            before + 1
        } else if glob.last() == '}' && before > 0 {
            (before - 1) as nat
        } else {
            before
        }
    }
}

/// How deep groups of alternatives are nested in a glob.
pub open spec fn nesting(glob: Seq<char>) -> nat
    decreases glob.len(),
{
    if glob.len() == 0 {
        0
    } else if nesting(glob.drop_last()) >= open_groups(glob) {
        nesting(glob.drop_last())
    } else {
        open_groups(glob)
    }
}

/// The longest glob, in characters, that is handed to `globset`.
pub const MAX_GLOB: usize = 0x0fff_ffff;

/// Why a glob is not even handed to `globset`.
pub open spec fn out_of_bounds(glob: Seq<char>) -> Option<Seq<char>> {
    if glob.len() > MAX_GLOB {
        Some("glob is too long"@)
    } else if nesting(glob) > glob::MAX_GROUPS {
        Some("groups are nested too deep"@)
    } else {
        None
    }
}

/// Why a glob is not even handed to `globset`.
fn bounds_fault(glob: &str) -> (r: Option<String>)
    ensures
        r.deep_view() == out_of_bounds(glob@),
{
    let cs: Vec<char> = text::chars_of(glob);
    if cs.len() > MAX_GLOB {
        return Some("glob is too long".to_owned());
    }
    if deepest_nesting(cs.as_slice()) > glob::MAX_GROUPS {
        return Some("groups are nested too deep".to_owned());
    }
    None
}

/// How deep groups of alternatives are nested in a glob.
fn deepest_nesting(cs: &[char]) -> (r: usize)
    ensures
        r == nesting(cs@),
{
    let mut at: Place = Place::Plain;
    let mut open: usize = 0;
    let mut deepest: usize = 0;
    let mut i: usize = 0;
    while i < cs.len()
        invariant
            i <= cs@.len(),
            at == place_after(cs@.take(i as int)),
            open == open_groups(cs@.take(i as int)),
            deepest == nesting(cs@.take(i as int)),
            open <= i,
        decreases cs@.len() - i,
    {
        let c: char = cs[i];
        if at == Place::Plain {
            if c == '{' {
                open = open + 1;
            } else if c == '}' && open > 0 {
                open = open - 1;
            }
        }
        at = match at {
            Place::Plain => if c == '\\' {
                Place::Escaped
            } else if c == '[' {
                Place::ClassOpen
            } else {
                Place::Plain
            },
            Place::Escaped => Place::Plain,
            Place::ClassOpen => if c == '!' || c == '^' {
                Place::ClassFirst
            } else {
                Place::Class
            },
            Place::ClassFirst => Place::Class,
            Place::Class => if c == ']' {
                Place::Plain
            } else {
                Place::Class
            },
        };
        if open > deepest {
            deepest = open;
        }
        i = i + 1;
        assert(cs@.take(i as int).drop_last() =~= cs@.take(i - 1));
        assert(cs@.take(i as int).last() == c);
    }
    assert(cs@.take(cs@.len() as int) =~= cs@);
    deepest
}

/// Something that was found below the directory of a glob.
#[derive(Debug, PartialEq, Eq)]
pub struct WalkEntry {
    pub path: OsText,
    pub is_dir: bool,
}

/// A found path as a mathematical value: the path, and whether it is a directory.
impl DeepView for WalkEntry {
    type V = (Seq<u8>, bool);

    open spec fn deep_view(&self) -> (Seq<u8>, bool) {
        (self.path@, self.is_dir)
    }
}

/// Why a glob cannot be used, by `globset`: the message of the error that reading it or building
/// a matcher from it ends in.
pub uninterp spec fn glob_fault(glob: Seq<char>) -> Option<Seq<char>>;

/// Whether a glob matches a path, by `globset`.
pub uninterp spec fn glob_accepts(glob: Seq<char>, path: Seq<u8>) -> bool;

/// What is said of a glob and a list of paths: whether each matches, or why the glob cannot be
/// used.
pub open spec fn glob_verdict(glob: Seq<char>, walk: Seq<(Seq<u8>, bool)>) -> Result<
    Seq<bool>,
    Seq<char>,
> {
    match out_of_bounds(glob) {
        Some(why) => Err(why),
        None => match glob_fault(glob) {
            Some(why) => Err(why),
            None => Ok(Seq::new(walk.len(), |k: int| glob_accepts(glob, walk[k].0))),
        },
    }
}

/// A glob that spells a directory and ends in `/**`.
pub open spec fn is_tree(glob: Seq<char>) -> bool {
    "/**"@.is_suffix_of(glob) && glob::is_spelled(glob.take(glob.len() - 2))
}

/// A glob that spells a path, or everything below a directory.
pub open spec fn is_simple(glob: Seq<char>) -> bool {
    glob.len() > 0 && glob::is_spelled(glob) || is_tree(glob)
}

/// Whether such a glob matches a path: it is the path that it spells, or one below.
pub open spec fn simple_match(glob: Seq<char>, path: Seq<u8>) -> bool {
    if is_tree(glob) {
        encode_utf8(glob::lead_text(glob.take(glob.len() - 2))).is_prefix_of(path)
    } else {
        path == encode_utf8(glob::lead_text(glob))
    }
}

/// `globset::Glob::new` reads the glob with default options, `GlobSet::new` builds a matcher for
/// it alone, and `GlobSet::is_match_candidate` asks it about the bytes of each path. Both ways
/// to fail depend on the glob alone, and each answer on the glob and that path. A character
/// without a meaning stands for itself, and so does any character behind a backslash. A glob of
/// such characters alone matches the path that they spell, and with `/**` after them it matches
/// all below the directory that they spell; neither fails. A path that any other glob matches
/// starts with what such characters spell at the front of the glob; more is not said of it.
/// `GlobSet` matches long literals with an automaton whose states are numbered in 31 bits, and
/// `Glob::new` calls itself for every nested group, so the glob's length and nesting are bounded.
#[verifier::external_body]
fn match_all(glob: &str, walk: &Vec<WalkEntry>) -> (r: Result<Vec<bool>, String>)
    requires
        out_of_bounds(glob@) is None,
    ensures
        r matches Ok(hits) ==> glob_fault(glob@) is None && hits@.len() == walk@.len() && forall|
            k: int,
        |
            0 <= k < walk@.len() ==> #[trigger] hits@[k] == glob_accepts(glob@, walk@[k].path@),
        r matches Err(why) ==> glob_fault(glob@) == Some(why@),
        is_simple(glob@) ==> r is Ok,
        r matches Ok(hits) ==> is_simple(glob@) ==> forall|k: int|
            0 <= k < walk@.len() ==> #[trigger] hits@[k] == simple_match(glob@, walk@[k].path@),
        r matches Ok(hits) ==> forall|k: int|
            0 <= k < walk@.len() && #[trigger] hits@[k] ==> encode_utf8(
                glob::lead_text(glob@),
            ).is_prefix_of(walk@[k].path@),
{
    let glob = globset::Glob::new(glob).map_err(|e| e.to_string())?;
    let set = globset::GlobSet::new([glob]).map_err(|e| e.to_string())?;
    Ok(
        walk.iter().map(
            |found| set.is_match_candidate(&globset::Candidate::from_bytes(&found.path.bytes)),
        ).collect(),
    )
}

/// Why no masks were made.
#[derive(Debug, PartialEq, Eq)]
pub enum MaskError {
    /// The glob cannot be used.
    BadGlob { glob: String, why: String },
    /// With this glob more paths match than may be masked.
    TooMany { glob: String },
}

/// The masks, or why there are none, as a mathematical value.
pub enum Masking {
    Masks { args: Seq<Seq<char>>, count: nat },
    BadGlob { glob: Seq<char>, why: Seq<char> },
    TooMany { glob: Seq<char> },
}

/// The arguments that mask a path: a directory by an empty one, a file by the null device.
pub open spec fn mask_args(found: (Seq<u8>, bool)) -> Seq<Seq<char>> {
    if found.1 {
        seq!["--tmpfs"@, os::text_of(found.0)]
    } else {
        seq!["--ro-bind"@, "/dev/null"@, os::text_of(found.0)]
    }
}

/// The arguments that mask those of the first `n` paths that were hit.
pub open spec fn hit_args(walk: Seq<(Seq<u8>, bool)>, hits: Seq<bool>, n: nat) -> Seq<Seq<char>>
    decreases n,
{
    if n == 0 {
        Seq::empty()
    } else if hits[n - 1] {
        hit_args(walk, hits, (n - 1) as nat) + mask_args(walk[n - 1])
    } else {
        hit_args(walk, hits, (n - 1) as nat)
    }
}

/// How many of the first `n` paths were hit.
pub open spec fn hit_count(hits: Seq<bool>, n: nat) -> nat
    decreases n,
{
    if n == 0 {
        0
    } else {
        hit_count(hits, (n - 1) as nat) + (if hits[n - 1] {
            1nat
        } else {
            0nat
        })
    }
}

/// The masks for the first `n` globs, each with what was found below its directory and the
/// verdict on it. The first glob that cannot be used, or that brings the number of matches over
/// the limit, ends it.
pub open spec fn masking(
    globs: Seq<Seq<char>>,
    walks: Seq<Seq<(Seq<u8>, bool)>>,
    verdicts: Seq<Result<Seq<bool>, Seq<char>>>,
    n: nat,
) -> Masking
    decreases n,
{
    if n == 0 {
        Masking::Masks { args: Seq::empty(), count: 0 }
    } else {
        match masking(globs, walks, verdicts, (n - 1) as nat) {
            Masking::Masks { args, count } => match verdicts[n - 1] {
                Err(why) => Masking::BadGlob { glob: globs[n - 1], why },
                Ok(hits) => {
                    let more = hit_count(hits, walks[n - 1].len());
                    if count + more > MAX_DENY_READ_GLOB_MATCHES {
                        Masking::TooMany { glob: globs[n - 1] }
                    } else {
                        Masking::Masks {
                            args: args + hit_args(walks[n - 1], hits, walks[n - 1].len()),
                            count: count + more,
                        }
                    }
                },
            },
            failed => failed,
        }
    }
}

/// A verdict on a list of paths as a mathematical value.
pub open spec fn verdict_view(v: Result<Vec<bool>, String>) -> Result<Seq<bool>, Seq<char>> {
    match v {
        Ok(hits) => Ok(hits@),
        Err(why) => Err(why@),
    }
}

/// Verdicts as mathematical values.
pub open spec fn verdict_views(vs: Seq<Result<Vec<bool>, String>>) -> Seq<
    Result<Seq<bool>, Seq<char>>,
> {
    Seq::new(vs.len(), |i: int| verdict_view(vs[i]))
}

/// Whether a result says what a masking says.
pub open spec fn masked_as(r: Result<Vec<String>, MaskError>, m: Masking) -> bool {
    match m {
        Masking::Masks { args, .. } => r matches Ok(made) && made.deep_view() == args,
        Masking::BadGlob { glob, why } => r matches Err(MaskError::BadGlob { glob: g, why: w })
            && g@ == glob && w@ == why,
        Masking::TooMany { glob } => r matches Err(MaskError::TooMany { glob: g }) && g@ == glob,
    }
}

/// A failure stays the outcome, whatever globs follow.
proof fn lemma_masking_fails(
    globs: Seq<Seq<char>>,
    walks: Seq<Seq<(Seq<u8>, bool)>>,
    verdicts: Seq<Result<Seq<bool>, Seq<char>>>,
    n: nat,
    m: nat,
)
    requires
        n <= m,
        !(masking(globs, walks, verdicts, n) is Masks),
    ensures
        masking(globs, walks, verdicts, m) == masking(globs, walks, verdicts, n),
    decreases m,
{
    if n < m {
        lemma_masking_fails(globs, walks, verdicts, n, (m - 1) as nat);
    }
}

/// Appends the masks of the paths that were hit, as long as there are no more than `room`.
/// Returns how many there were, or `None` where there were more.
fn push_hits(
    args: &mut Vec<String>,
    walk: &Vec<WalkEntry>,
    hits: &Vec<bool>,
    room: usize,
) -> (r: Option<usize>)
    requires
        hits@.len() == walk@.len(),
    ensures
        r is None <==> hit_count(hits@, walk@.len()) > room,
        r matches Some(n) ==> {
            &&& n == hit_count(hits@, walk@.len())
            &&& final(args).deep_view() == old(args).deep_view() + hit_args(
                walk.deep_view(),
                hits@,
                walk@.len(),
            )
        },
{
    let ghost start = args.deep_view();
    let ghost all = walk.deep_view();
    let mut n: usize = 0;
    let mut i: usize = 0;
    assert(start + hit_args(all, hits@, 0) =~= start);
    while i < walk.len()
        invariant
            i <= walk@.len(),
            all == walk.deep_view(),
            hits@.len() == walk@.len(),
            n <= room,
            n == hit_count(hits@, i as nat),
            args.deep_view() == start + hit_args(all, hits@, i as nat),
        decreases walk@.len() - i,
    {
        if hits[i] {
            if n == room {
                proof {
                    lemma_count_grows(hits@, (i + 1) as nat, walk@.len());
                    assert(hit_count(hits@, (i + 1) as nat) == room + 1);
                }
                return None;
            }
            n = n + 1;
            let found: &WalkEntry = &walk[i];
            let p: String = found.path.to_string_lossy();
            if found.is_dir {
                push_arg(args, "--tmpfs");
                push_arg(args, p.as_str());
            } else {
                push_arg(args, "--ro-bind");
                push_arg(args, "/dev/null");
                push_arg(args, p.as_str());
            }
            proof {
                assert(all[i as int] == found.deep_view());
                assert(args.deep_view() =~= start + (hit_args(all, hits@, i as nat) + mask_args(
                    all[i as int],
                )));
            }
        }
        i = i + 1;
        assert(args.deep_view() == start + hit_args(all, hits@, i as nat));
    }
    Some(n)
}

proof fn lemma_count_grows(hits: Seq<bool>, n: nat, m: nat)
    requires
        n <= m,
    ensures
        hit_count(hits, n) <= hit_count(hits, m),
    decreases m,
{
    if n < m {
        lemma_count_grows(hits, n, (m - 1) as nat);
    }
}

/// Makes the masks from what was found below the directory of each glob, and the verdict on it.
pub fn masks_from_verdicts(
    globs: &Vec<String>,
    walks: &Vec<Vec<WalkEntry>>,
    verdicts: &Vec<Result<Vec<bool>, String>>,
) -> (r: Result<Vec<String>, MaskError>)
    requires
        walks@.len() == globs@.len(),
        verdicts@.len() == globs@.len(),
        forall|i: int|
            0 <= i < globs@.len() ==> ((#[trigger] verdicts@[i]) matches Ok(hits) ==> hits@.len()
                == walks@[i]@.len()),
    ensures
        masked_as(
            r,
            masking(
                globs.deep_view(),
                walks.deep_view(),
                verdict_views(verdicts@),
                globs@.len(),
            ),
        ),
{
    let ghost gs = globs.deep_view();
    let ghost ws = walks.deep_view();
    let ghost vs = verdict_views(verdicts@);
    let mut args: Vec<String> = Vec::new();
    let mut count: usize = 0;
    let mut i: usize = 0;
    assert(args.deep_view() =~= Seq::<Seq<char>>::empty());
    while i < globs.len()
        invariant
            i <= globs@.len(),
            walks@.len() == globs@.len(),
            verdicts@.len() == globs@.len(),
            forall|k: int|
                0 <= k < globs@.len() ==> ((#[trigger] verdicts@[k]) matches Ok(hits)
                    ==> hits@.len() == walks@[k]@.len()),
            gs == globs.deep_view(),
            ws == walks.deep_view(),
            vs == verdict_views(verdicts@),
            count <= MAX_DENY_READ_GLOB_MATCHES,
            masking(gs, ws, vs, i as nat) == (Masking::Masks {
                args: args.deep_view(),
                count: count as nat,
            }),
        decreases globs@.len() - i,
    {
        let ghost args0 = args.deep_view();
        assert(gs[i as int] == globs@[i as int]@);
        assert(ws[i as int] == walks@[i as int].deep_view());
        assert(vs[i as int] == verdict_view(verdicts@[i as int]));
        match &verdicts[i] {
            Err(why) => {
                proof {
                    lemma_masking_fails(gs, ws, vs, (i + 1) as nat, globs@.len());
                }
                return Err(MaskError::BadGlob { glob: globs[i].clone(), why: why.clone() });
            },
            Ok(hits) => {
                match push_hits(&mut args, &walks[i], hits, MAX_DENY_READ_GLOB_MATCHES - count) {
                    None => {
                        proof {
                            lemma_masking_fails(gs, ws, vs, (i + 1) as nat, globs@.len());
                        }
                        return Err(MaskError::TooMany { glob: globs[i].clone() });
                    },
                    Some(more) => {
                        count = count + more;
                    },
                }
            },
        }
        i = i + 1;
    }
    Ok(args)
}

/// What is known of the answers of `globset` on a glob: they are those for a simple one, where it
/// is one; what it matches starts with what it spells at its front and, where it is absolute, lies
/// in its directory.
pub open spec fn answers_soundly(glob: Seq<char>, walk: Seq<(Seq<u8>, bool)>) -> bool {
    out_of_bounds(glob) is None ==> {
        &&& is_simple(glob) ==> glob_fault(glob) is None
        &&& is_simple(glob) ==> forall|k: int|
            0 <= k < walk.len() ==> glob_accepts(glob, (#[trigger] walk[k]).0) == simple_match(
                glob,
                walk[k].0,
            )
        &&& glob_fault(glob) is None ==> forall|k: int|
            0 <= k < walk.len() && glob_accepts(glob, (#[trigger] walk[k]).0) ==> {
                &&& encode_utf8(glob::lead_text(glob)).is_prefix_of(walk[k].0)
                &&& glob::is_absolute(glob) ==> lies_below(walk[k].0, static_dir(glob))
            }
    }
}

/// The verdict on one glob and what was found for it.
fn verdict_on(glob: &str, walk: &Vec<WalkEntry>) -> (r: Result<Vec<bool>, String>)
    ensures
        r matches Ok(hits) ==> hits@.len() == walk@.len(),
        verdict_view(r) == glob_verdict(glob@, walk.deep_view()),
        answers_soundly(glob@, walk.deep_view()),
{
    match bounds_fault(glob) {
        Some(why) => {
            return Err(why);
        },
        None => {},
    }
    let verdict: Result<Vec<bool>, String> = match_all(glob, walk);
    proof {
        let all = walk.deep_view();
        if verdict is Ok {
            let hits = verdict->Ok_0@;
            assert(hits =~= Seq::new(all.len(), |k: int| glob_accepts(glob@, all[k].0)));
            assert forall|k: int| is_simple(glob@) && 0 <= k < all.len() implies glob_accepts(
                glob@,
                (#[trigger] all[k]).0,
            ) == simple_match(glob@, all[k].0) by {
                let hit = hits[k];
            }
            assert forall|k: int|
                0 <= k < all.len() && glob_accepts(glob@, (#[trigger] all[k]).0) implies {
                &&& encode_utf8(glob::lead_text(glob@)).is_prefix_of(all[k].0)
                &&& glob::is_absolute(glob@) ==> lies_below(all[k].0, static_dir(glob@))
            } by {
                let hit = hits[k];
                if glob::is_absolute(glob@) {
                    front_lies_below(glob@, all[k].0);
                }
            }
        }
    }
    verdict
}

/// Asks `globset` about every path that was found below the directory of each glob, and makes
/// the masks of those that match. `walks` holds, for each glob, what was found. A path that a
/// glob spells, or that lies below the directory of one that ends in `/**`, is always masked,
/// where masks are made at all. A glob that is too long or nested too deep is an error.
pub fn expand_deny_read_masks(
    globs: &Vec<String>,
    walks: &Vec<Vec<WalkEntry>>,
) -> (r: Result<Vec<String>, MaskError>)
    requires
        walks@.len() == globs@.len(),
    ensures
        masked_as(
            r,
            masking(
                globs.deep_view(),
                walks.deep_view(),
                Seq::new(
                    globs@.len(),
                    |i: int| glob_verdict(globs@[i]@, walks@[i].deep_view()),
                ),
                globs@.len(),
            ),
        ),
        forall|g: int|
            0 <= g < globs@.len() ==> answers_soundly(
                (#[trigger] globs@[g])@,
                walks@[g].deep_view(),
            ),
        r matches Ok(args) ==> forall|g: int, k: int|
            0 <= g < globs@.len() && 0 <= k < walks@[g]@.len() && is_simple(globs@[g]@)
                && simple_match(globs@[g]@, walks@[g]@[k].path@) ==> text::occurs(
                args.deep_view(),
                mask_args((#[trigger] walks@[g]@[k]).deep_view()),
            ),
{
    let mut verdicts: Vec<Result<Vec<bool>, String>> = Vec::new();
    let mut i: usize = 0;
    while i < globs.len()
        invariant
            i <= globs@.len(),
            walks@.len() == globs@.len(),
            verdicts@.len() == i,
            forall|k: int|
                0 <= k < i ==> ((#[trigger] verdicts@[k]) matches Ok(hits) ==> hits@.len()
                    == walks@[k]@.len()),
            forall|k: int|
                0 <= k < i ==> verdict_view(#[trigger] verdicts@[k]) == glob_verdict(
                    globs@[k]@,
                    walks@[k].deep_view(),
                ),
            forall|k: int|
                0 <= k < i ==> answers_soundly((#[trigger] globs@[k])@, walks@[k].deep_view()),
        decreases globs@.len() - i,
    {
        verdicts.push(verdict_on(globs[i].as_str(), &walks[i]));
        i = i + 1;
    }
    assert(verdict_views(verdicts@) =~= Seq::new(
        globs@.len(),
        |i: int| glob_verdict(globs@[i]@, walks@[i].deep_view()),
    ));
    let r: Result<Vec<String>, MaskError> = masks_from_verdicts(globs, walks, &verdicts);
    proof {
        let gs = globs.deep_view();
        let vs = verdict_views(verdicts@);
        let ws = walks.deep_view();
        if r is Ok {
            let args = r->Ok_0.deep_view();
            assert forall|g: int, k: int|
                0 <= g < globs@.len() && 0 <= k < walks@[g]@.len() && is_simple(globs@[g]@)
                    && simple_match(globs@[g]@, walks@[g]@[k].path@) implies text::occurs(
                args,
                mask_args((#[trigger] walks@[g]@[k]).deep_view()),
            ) by {
                let walk = walks@[g].deep_view();
                assert(answers_soundly(globs@[g]@, walk));
                assert(walk[k] == walks@[g]@[k].deep_view());
                assert(ws[g] == walk);
                assert(vs[g] == glob_verdict(globs@[g]@, walk));
                if vs[g] is Err {
                    assert(!(masking(gs, ws, vs, (g + 1) as nat) is Masks));
                    lemma_masking_fails(gs, ws, vs, (g + 1) as nat, globs@.len());
                }
                assert(vs[g]->Ok_0[k]);
                every_hit_is_masked(gs, ws, vs, globs@.len(), g, k);
            }
        }
    }
    r
}

// ---------------------------------------------------------------------------
// Laws
// ---------------------------------------------------------------------------

/// A path that lies below a directory, at any depth.
pub open spec fn lies_below(path: Seq<u8>, dir: Seq<char>) -> bool {
    if dir == "/"@ {
        encode_utf8(dir).is_prefix_of(path)
    } else {
        encode_utf8(dir + "/"@).is_prefix_of(path)
    }
}

/// A path that starts with what an absolute glob spells at its front lies below the directory that
/// the search for the glob starts in.
pub proof fn front_lies_below(glob: Seq<char>, path: Seq<u8>)
    requires
        glob::is_absolute(glob),
        encode_utf8(glob::lead_text(glob)).is_prefix_of(path),
    ensures
        lies_below(path, static_dir(glob)),
{
    reveal_strlit("/");
    let front = glob::lead_text(glob);
    let dir = static_dir(glob);
    assert(front[0] == '/');
    text::lemma_trail_bounds(front, text::other_than('/'));
    let n = text::trail(front, text::other_than('/'));
    if n == front.len() {
        assert((text::other_than('/'))(front[0]));
    }
    let at = front.len() - n - 1;
    assert(front[at] == '/');
    let lead = if dir == "/"@ {
        dir
    } else {
        dir + "/"@
    };
    if at == 0 || dir == "/"@ {
        assert(front.take(1) =~= "/"@);
    } else {
        assert(dir =~= front.take(at));
        assert(front.take(at + 1) =~= dir + "/"@);
    }
    assert(lead == front.take(lead.len() as int));
    assert(front =~= lead + front.skip(lead.len() as int));
    lemma_encoded_prefix(lead, front.skip(lead.len() as int), path);
}

/// What starts with the bytes of a text starts with those of the text's front.
proof fn lemma_encoded_prefix(front: Seq<char>, rest: Seq<char>, path: Seq<u8>)
    requires
        encode_utf8(front + rest).is_prefix_of(path),
    ensures
        encode_utf8(front).is_prefix_of(path),
{
    os::encode_joined(front, rest);
    let code = encode_utf8(front + rest);
    let n = encode_utf8(front).len() as int;
    assert(path.subrange(0, n) =~= code.subrange(0, n));
    assert(code.subrange(0, n) =~= encode_utf8(front));
}

/// What a tree spells at its front is its directory, with a slash.
proof fn lemma_tree_front(glob: Seq<char>)
    requires
        is_tree(glob),
    ensures
        glob::lead_text(glob) == glob::lead_text(glob.take(glob.len() - 2)),
        !glob::is_spelled(glob),
{
    reveal_strlit("/**");
    let front = glob.take(glob.len() - 2);
    let tail = glob.skip(glob.len() - 2);
    assert(glob.subrange(glob.len() - 3, glob.len() as int)[1] == '*');
    assert(glob =~= front + tail);
    glob::spelled_front_is_kept(front, tail);
    assert(glob::lead_text(front) + Seq::<char>::empty() =~= glob::lead_text(front));
}

/// Whatever an absolute simple glob matches lies below the directory that the search for it
/// starts in, so the search misses nothing.
pub proof fn simple_matches_lie_below(glob: Seq<char>, path: Seq<u8>)
    requires
        glob::is_absolute(glob),
        is_simple(glob),
        simple_match(glob, path),
    ensures
        lies_below(path, static_dir(glob)),
{
    if is_tree(glob) {
        lemma_tree_front(glob);
    } else {
        assert(path.subrange(0, path.len() as int) =~= path);
    }
    front_lies_below(glob, path);
}

/// Behind the guarded name of a directory, a glob that spells a relative path is a glob for that
/// path below the directory, and for no other path, whatever characters the directory's name has.
pub proof fn spelled_path_below_directory(dir: Seq<char>, glob: Seq<char>, path: Seq<u8>)
    requires
        glob::is_spelled(glob),
    ensures
        is_simple(glob::guarded(dir) + "/"@ + glob),
        simple_match(glob::guarded(dir) + "/"@ + glob, path) <==> path == encode_utf8(
            dir + "/"@ + glob::lead_text(glob),
        ),
{
    reveal_strlit("/");
    let whole = glob::guarded(dir) + "/"@ + glob;
    assert(whole =~= glob::guarded(dir) + ("/"@ + glob));
    glob::guarded_text_is_spelled(dir, "/"@ + glob);
    assert(("/"@ + glob).skip(1) =~= glob);
    assert(glob::lead_text(whole) =~= dir + "/"@ + glob::lead_text(glob));
    if is_tree(whole) {
        lemma_tree_front(whole);
    }
}

/// Whatever any glob behind the guarded name of a directory matches lies below that directory:
/// a path that starts with what the glob spells starts with the directory and a slash.
pub proof fn matches_lie_below_directory(dir: Seq<char>, glob: Seq<char>, path: Seq<u8>)
    requires
        encode_utf8(glob::lead_text(glob::guarded(dir) + "/"@ + glob)).is_prefix_of(path),
    ensures
        encode_utf8(dir + "/"@).is_prefix_of(path),
{
    reveal_strlit("/");
    let whole = glob::guarded(dir) + "/"@ + glob;
    assert(whole =~= glob::guarded(dir) + ("/"@ + glob));
    glob::guarded_text_is_spelled(dir, "/"@ + glob);
    assert(("/"@ + glob).skip(1) =~= glob);
    assert(glob::lead_text(whole) =~= (dir + "/"@) + glob::lead_text(glob));
    lemma_encoded_prefix(dir + "/"@, glob::lead_text(glob), path);
}

/// The arguments that mount one path onto itself.
pub open spec fn mount_args(flag: Seq<char>, path: Seq<u8>) -> Seq<Seq<char>> {
    seq![flag, os::text_of(path), os::text_of(path)]
}

/// Where the mount of a path stands among the arguments.
pub proof fn mount_positions(flag: Seq<char>, paths: Seq<Seq<u8>>)
    ensures
        mounts(flag, paths).len() == 3 * paths.len(),
        forall|i: int|
            0 <= i < paths.len() ==> text::occurs_at(
                mounts(flag, paths),
                mount_args(flag, #[trigger] paths[i]),
                3 * i,
            ),
    decreases paths.len(),
{
    if paths.len() > 0 {
        let rest = paths.drop_last();
        let all = mounts(flag, paths);
        mount_positions(flag, rest);
        assert forall|i: int| 0 <= i < paths.len() implies text::occurs_at(
            all,
            mount_args(flag, #[trigger] paths[i]),
            3 * i,
        ) by {
            if i < rest.len() {
                assert(rest[i] == paths[i]);
                assert(text::occurs_at(mounts(flag, rest), mount_args(flag, rest[i]), 3 * i));
                assert(all.subrange(3 * i, 3 * i + 3) =~= mounts(flag, rest).subrange(
                    3 * i,
                    3 * i + 3,
                ));
            } else {
                assert(all.subrange(3 * i, 3 * i + 3) =~= mount_args(flag, paths[i]));
            }
        }
    }
}

/// bwrap applies its arguments in order, so a later mount covers an earlier one. Every
/// read-only path is mounted after every writable root; the masks come after all of them; and no
/// mount follows the masks.
pub proof fn later_mounts_restrict(
    roots: Seq<Seq<u8>>,
    carved: Seq<Seq<u8>>,
    masks: Seq<Seq<char>>,
    inner: Seq<Seq<char>>,
)
    ensures
        ({
            let args = bwrap_args(roots, carved, masks, inner);
            let sorted = shallow_to_deep(roots);
            let protect: int = 9 + 3 * sorted.len() as int;
            let mask: int = protect + 3 * carved.len();
            &&& forall|i: int|
                0 <= i < sorted.len() ==> 9 + 3 * i + 3 <= protect && text::occurs_at(
                    args,
                    mount_args("--bind"@, #[trigger] sorted[i]),
                    9 + 3 * i,
                )
            &&& forall|j: int|
                0 <= j < carved.len() ==> protect + 3 * j + 3 <= mask && text::occurs_at(
                    args,
                    mount_args("--ro-bind"@, #[trigger] carved[j]),
                    protect + 3 * j,
                )
            &&& text::occurs_at(args, masks, mask)
            &&& args.skip(mask + masks.len()) == namespace_args() + inner
        }),
{
    let args = bwrap_args(roots, carved, masks, inner);
    let sorted = shallow_to_deep(roots);
    let protect: int = 9 + 3 * sorted.len() as int;
    let mask: int = protect + 3 * carved.len();
    mount_positions("--bind"@, sorted);
    mount_positions("--ro-bind"@, carved);
    let a = mounts("--bind"@, sorted);
    let b = mounts("--ro-bind"@, carved);
    assert forall|i: int| 0 <= i < sorted.len() implies 9 + 3 * i + 3 <= protect
        && text::occurs_at(args, mount_args("--bind"@, #[trigger] sorted[i]), 9 + 3 * i) by {
        assert(text::occurs_at(a, mount_args("--bind"@, sorted[i]), 3 * i));
        assert(args.subrange(9 + 3 * i, 9 + 3 * i + 3) =~= a.subrange(3 * i, 3 * i + 3));
    }
    assert forall|j: int| 0 <= j < carved.len() implies protect + 3 * j + 3 <= mask
        && text::occurs_at(
        args,
        mount_args("--ro-bind"@, #[trigger] carved[j]),
        protect + 3 * j,
    ) by {
        assert(text::occurs_at(b, mount_args("--ro-bind"@, carved[j]), 3 * j));
        assert(args.subrange(protect + 3 * j, protect + 3 * j + 3) =~= b.subrange(
            3 * j,
            3 * j + 3,
        ));
    }
    assert(args.subrange(mask, mask + masks.len()) =~= masks);
    assert(args.skip(mask + masks.len()) =~= namespace_args() + inner);
}

/// The command to run is what follows the end of the options, unchanged, and it always runs
/// with its own user, process and network namespaces.
pub proof fn inner_command_is_kept(
    roots: Seq<Seq<u8>>,
    carved: Seq<Seq<u8>>,
    masks: Seq<Seq<char>>,
    inner: Seq<Seq<char>>,
)
    ensures
        (namespace_args() + inner).is_suffix_of(bwrap_args(roots, carved, masks, inner)),
        namespace_args().contains("--unshare-net"@),
        namespace_args().contains("--unshare-pid"@),
        namespace_args().contains("--unshare-user"@),
        namespace_args().last() == "--"@,
{
    let args = bwrap_args(roots, carved, masks, inner);
    let tail = namespace_args() + inner;
    assert(args.subrange(args.len() - tail.len(), args.len() as int) =~= tail);
    assert(namespace_args()[0] == "--unshare-user"@);
    assert(namespace_args()[1] == "--unshare-pid"@);
    assert(namespace_args()[2] == "--unshare-net"@);
}

/// The paths of a depth below `bound` stay in ascending order of depth.
proof fn lemma_ascending(paths: Seq<Seq<u8>>, bound: nat)
    ensures
        forall|i: int|
            0 <= i < up_to_depth(paths, bound).len() ==> os::path_depth(
                #[trigger] up_to_depth(paths, bound)[i],
            ) < bound,
        forall|i: int, j: int|
            0 <= i <= j < up_to_depth(paths, bound).len() ==> os::path_depth(
                #[trigger] up_to_depth(paths, bound)[i],
            ) <= os::path_depth(#[trigger] up_to_depth(paths, bound)[j]),
    decreases bound,
{
    if bound > 0 {
        let d = (bound - 1) as nat;
        lemma_ascending(paths, d);
        let keep = |p: Seq<u8>| os::path_depth(p) == d;
        let low = up_to_depth(paths, d);
        let high = of_depth(paths, d);
        assert forall|k: int| 0 <= k < high.len() implies os::path_depth(#[trigger] high[k]) == d by {
            paths.lemma_filter_pred(keep, k);
        }
        let all = up_to_depth(paths, bound);
        assert forall|i: int| 0 <= i < all.len() implies os::path_depth(#[trigger] all[i]) < bound by {
            if i < low.len() {
                assert(all[i] == low[i]);
            } else {
                assert(all[i] == high[i - low.len()]);
            }
        }
        assert forall|i: int, j: int| 0 <= i <= j < all.len() implies os::path_depth(
            #[trigger] all[i],
        ) <= os::path_depth(#[trigger] all[j]) by {
            if j < low.len() {
                assert(all[i] == low[i] && all[j] == low[j]);
            } else if i < low.len() {
                assert(all[i] == low[i] && all[j] == high[j - low.len()]);
            } else {
                assert(all[i] == high[i - low.len()] && all[j] == high[j - low.len()]);
            }
        }
    }
}

/// Below a bound, a path occurs as often as among all paths; from the bound on, not at all.
proof fn lemma_counts(paths: Seq<Seq<u8>>, bound: nat, p: Seq<u8>)
    ensures
        up_to_depth(paths, bound).to_multiset().count(p) == (if os::path_depth(p) < bound {
            paths.to_multiset().count(p)
        } else {
            0
        }),
    decreases bound,
{
    broadcast use vstd::seq_lib::group_to_multiset_ensures;

    if bound > 0 {
        let d = (bound - 1) as nat;
        lemma_counts(paths, d, p);
        lemma_filter_count(paths, |q: Seq<u8>| os::path_depth(q) == d, p);
        vstd::seq_lib::lemma_multiset_commutative(up_to_depth(paths, d), of_depth(paths, d));
    }
}

proof fn lemma_filter_count(paths: Seq<Seq<u8>>, keep: spec_fn(Seq<u8>) -> bool, p: Seq<u8>)
    ensures
        paths.filter(keep).to_multiset().count(p) == (if keep(p) {
            paths.to_multiset().count(p)
        } else {
            0
        }),
    decreases paths.len(),
{
    broadcast use vstd::seq_lib::group_to_multiset_ensures;

    reveal(Seq::filter);
    if paths.len() > 0 {
        let rest = paths.drop_last();
        lemma_filter_count(rest, keep, p);
        assert(paths =~= rest.push(paths.last()));
    }
}

/// No path is as deep as the bound.
proof fn lemma_bound(paths: Seq<Seq<u8>>, i: int)
    requires
        0 <= i < paths.len(),
    ensures
        os::path_depth(paths[i]) < depth_bound(paths),
    decreases paths.len(),
{
    if i < paths.len() - 1 {
        lemma_bound(paths.drop_last(), i);
    }
}

/// The writable roots are mounted from shallow to deep, each as often as it was given and none
/// besides.
pub proof fn roots_sorted_and_kept(roots: Seq<Seq<u8>>)
    ensures
        shallow_to_deep(roots).to_multiset() == roots.to_multiset(),
        forall|i: int, j: int|
            0 <= i <= j < shallow_to_deep(roots).len() ==> os::path_depth(
                #[trigger] shallow_to_deep(roots)[i],
            ) <= os::path_depth(#[trigger] shallow_to_deep(roots)[j]),
{
    broadcast use vstd::seq_lib::group_to_multiset_ensures;

    let bound = depth_bound(roots);
    lemma_ascending(roots, bound);
    assert forall|p: Seq<u8>| shallow_to_deep(roots).to_multiset().count(p)
        == roots.to_multiset().count(p) by {
        lemma_counts(roots, bound, p);
        if roots.to_multiset().count(p) > 0 {
            assert(roots.contains(p));
            let i = choose|i: int| 0 <= i < roots.len() && roots[i] == p;
            lemma_bound(roots, i);
        }
    }
    assert(shallow_to_deep(roots).to_multiset() =~= roots.to_multiset());
}

/// Nothing that a glob matches stays unmasked: where masks are made at all, every path that was
/// found below the directory of a glob and that the verdict on the glob hits is masked.
pub proof fn every_hit_is_masked(
    globs: Seq<Seq<char>>,
    walks: Seq<Seq<(Seq<u8>, bool)>>,
    verdicts: Seq<Result<Seq<bool>, Seq<char>>>,
    n: nat,
    g: int,
    k: int,
)
    requires
        masking(globs, walks, verdicts, n) is Masks,
        0 <= g < n,
        0 <= k < walks[g].len(),
        verdicts[g] is Ok,
        verdicts[g]->Ok_0[k],
    ensures
        text::occurs(masking(globs, walks, verdicts, n)->args, mask_args(walks[g][k])),
    decreases n,
{
    let m = (n - 1) as nat;
    let before = masking(globs, walks, verdicts, m);
    let now = masking(globs, walks, verdicts, n);
    assert(before is Masks);
    let hits = verdicts[n - 1]->Ok_0;
    let added = hit_args(walks[n - 1], hits, walks[n - 1].len());
    let needle = mask_args(walks[g][k]);
    assert(now->args == before->args + added);
    if g < m {
        every_hit_is_masked(globs, walks, verdicts, m, g, k);
        let at = choose|at: int| text::occurs_at(before->args, needle, at);
        assert(now->args.subrange(at, at + needle.len()) =~= before->args.subrange(
            at,
            at + needle.len(),
        ));
        assert(text::occurs_at(now->args, needle, at));
    } else {
        lemma_hit_occurs(walks[g], hits, walks[g].len(), k);
        let at = choose|at: int| text::occurs_at(added, needle, at);
        assert(now->args.subrange(
            before->args.len() + at,
            before->args.len() + at + needle.len(),
        ) =~= added.subrange(at, at + needle.len()));
        assert(text::occurs_at(now->args, needle, before->args.len() + at));
    }
}

proof fn lemma_hit_occurs(walk: Seq<(Seq<u8>, bool)>, hits: Seq<bool>, n: nat, k: int)
    requires
        0 <= k < n,
        hits[k],
    ensures
        text::occurs(hit_args(walk, hits, n), mask_args(walk[k])),
    decreases n,
{
    let before = hit_args(walk, hits, (n - 1) as nat);
    let now = hit_args(walk, hits, n);
    let needle = mask_args(walk[k]);
    if k < n - 1 {
        lemma_hit_occurs(walk, hits, (n - 1) as nat, k);
        let at = choose|at: int| text::occurs_at(before, needle, at);
        assert(now.subrange(at, at + needle.len()) =~= before.subrange(at, at + needle.len()));
        assert(text::occurs_at(now, needle, at));
    } else {
        assert(now.subrange(before.len() as int, before.len() as int + needle.len()) =~= needle);
        assert(text::occurs_at(now, needle, before.len() as int));
    }
}

/// No more is masked than the limit allows.
pub proof fn masks_are_limited(
    globs: Seq<Seq<char>>,
    walks: Seq<Seq<(Seq<u8>, bool)>>,
    verdicts: Seq<Result<Seq<bool>, Seq<char>>>,
    n: nat,
)
    ensures
        masking(globs, walks, verdicts, n) matches Masking::Masks { count, .. } ==> count
            <= MAX_DENY_READ_GLOB_MATCHES,
    decreases n,
{
    if n > 0 {
        masks_are_limited(globs, walks, verdicts, (n - 1) as nat);
    }
}

/// Every run starts with the whole filesystem read-only, before anything is mounted over it, in a
/// session of its own that ends with its parent; and it ends with its own user, process and network
/// namespaces and the command.
pub proof fn filesystem_is_read_only_first(
    roots: Seq<Seq<u8>>,
    carved: Seq<Seq<u8>>,
    masks: Seq<Seq<char>>,
    inner: Seq<Seq<char>>,
)
    ensures
        ({
            let args = bwrap_args(roots, carved, masks, inner);
            let end = args.len() - inner.len() - 4;
            &&& args.take(9) == seq![
                "--new-session"@,
                "--die-with-parent"@,
                "--ro-bind"@,
                "/"@,
                "/"@,
                "--dev"@,
                "/dev"@,
                "--proc"@,
                "/proc"@,
            ]
            &&& args.subrange(end, end + 4) == seq![
                "--unshare-user"@,
                "--unshare-pid"@,
                "--unshare-net"@,
                "--"@,
            ]
            &&& args.skip(end + 4) == inner
            &&& args.len() == 9 + 3 * roots.len() + 3 * carved.len() + masks.len() + 4
                + inner.len()
        }),
{
    let args = bwrap_args(roots, carved, masks, inner);
    let end = args.len() - inner.len() - 4;
    mount_positions("--bind"@, shallow_to_deep(roots));
    mount_positions("--ro-bind"@, carved);
    roots_sorted_and_kept(roots);
    assert(shallow_to_deep(roots).len() == roots.len()) by {
        broadcast use vstd::seq_lib::group_to_multiset_ensures;

        assert(shallow_to_deep(roots).to_multiset().len() == roots.to_multiset().len());
    }
    assert(args.take(9) =~= common_args());
    assert(args.subrange(end, end + 4) =~= namespace_args());
    assert(args.skip(end + 4) =~= inner);
}

/// Of the paths of one depth, those of that depth are all, and those of another are none.
proof fn lemma_depth_again(s: Seq<Seq<u8>>, d: nat, e: nat)
    ensures
        of_depth(of_depth(s, d), e) == (if d == e {
            of_depth(s, e)
        } else {
            Seq::<Seq<u8>>::empty()
        }),
    decreases s.len(),
{
    reveal(Seq::filter);
    let p = |x: Seq<u8>| os::path_depth(x) == d;
    let q = |x: Seq<u8>| os::path_depth(x) == e;
    if s.len() > 0 {
        let rest = s.drop_last();
        lemma_depth_again(rest, d, e);
        assert(s =~= rest.push(s.last()));
        rest.lemma_filter_push(s.last(), p);
        rest.lemma_filter_push(s.last(), q);
        rest.filter(p).lemma_filter_push(s.last(), q);
    } else {
        assert(s.filter(p) =~= Seq::<Seq<u8>>::empty());
        assert(s.filter(q) =~= Seq::<Seq<u8>>::empty());
        assert(s.filter(p).filter(q) =~= Seq::<Seq<u8>>::empty());
    }
}

/// What is left of one depth among the paths below a bound.
proof fn lemma_depth_kept(paths: Seq<Seq<u8>>, bound: nat, depth: nat)
    ensures
        of_depth(up_to_depth(paths, bound), depth) == (if depth < bound {
            of_depth(paths, depth)
        } else {
            Seq::<Seq<u8>>::empty()
        }),
    decreases bound,
{
    let keep = |p: Seq<u8>| os::path_depth(p) == depth;
    if bound == 0 {
        reveal(Seq::filter);
        assert(up_to_depth(paths, bound).filter(keep) =~= Seq::<Seq<u8>>::empty());
    } else {
        let d = (bound - 1) as nat;
        let low = up_to_depth(paths, d);
        let high = of_depth(paths, d);
        lemma_depth_kept(paths, d, depth);
        Seq::filter_distributes_over_add(low, high, keep);
        lemma_depth_again(paths, d, depth);
        assert(of_depth(up_to_depth(paths, bound), depth) =~= low.filter(keep) + high.filter(keep));
        if depth == d {
            assert(Seq::<Seq<u8>>::empty() + of_depth(paths, depth) =~= of_depth(paths, depth));
        } else if depth < d {
            assert(of_depth(paths, depth) + Seq::<Seq<u8>>::empty() =~= of_depth(paths, depth));
        }
    }
}

/// Roots of one depth are mounted in the order in which they were given.
pub proof fn roots_of_one_depth_keep_their_order(roots: Seq<Seq<u8>>, depth: nat)
    ensures
        shallow_to_deep(roots).filter(|p: Seq<u8>| os::path_depth(p) == depth) == roots.filter(
            |p: Seq<u8>| os::path_depth(p) == depth,
        ),
{
    let keep = |p: Seq<u8>| os::path_depth(p) == depth;
    let bound = depth_bound(roots);
    lemma_depth_kept(roots, bound, depth);
    if depth >= bound {
        assert(roots.filter(keep).len() == 0) by {
            if roots.filter(keep).len() > 0 {
                roots.lemma_filter_pred(keep, 0);
                roots.lemma_filter_contains_rev(keep, roots.filter(keep)[0]);
                let k = choose|k: int| 0 <= k < roots.len() && roots[k] == roots.filter(keep)[0];
                lemma_bound(roots, k);
            }
        }
        assert(roots.filter(keep) =~= Seq::<Seq<u8>>::empty());
    }
}

/// A directory is masked by an empty one in its place, anything else by the null device.
pub proof fn masks_stand_in_their_places(path: Seq<u8>)
    ensures
        mask_args((path, true)) == seq!["--tmpfs"@, os::text_of(path)],
        mask_args((path, false)) == seq!["--ro-bind"@, "/dev/null"@, os::text_of(path)],
{
}

/// How many of the first `n` globs' paths were hit, in all.
pub open spec fn all_hits(
    walks: Seq<Seq<(Seq<u8>, bool)>>,
    verdicts: Seq<Result<Seq<bool>, Seq<char>>>,
    n: nat,
) -> nat
    decreases n,
{
    if n == 0 {
        0
    } else {
        all_hits(walks, verdicts, (n - 1) as nat) + match verdicts[n - 1] {
            Ok(hits) => hits.take(walks[n - 1].len() as int).filter(|hit: bool| hit).len(),
            Err(_) => 0,
        }
    }
}

/// Hits are counted one by one.
proof fn lemma_hits_counted(hits: Seq<bool>, n: nat)
    requires
        n <= hits.len(),
    ensures
        hit_count(hits, n) == hits.take(n as int).filter(|hit: bool| hit).len(),
    decreases n,
{
    reveal(Seq::filter);
    let keep = |hit: bool| hit;
    if n > 0 {
        lemma_hits_counted(hits, (n - 1) as nat);
        assert(hits.take(n as int) =~= hits.take(n - 1).push(hits[n - 1]));
        hits.take(n - 1).lemma_filter_push(hits[n - 1], keep);
    } else {
        assert(hits.take(0) =~= Seq::<bool>::empty());
    }
}

/// Where every glob can be used, masks are made exactly if no more than 8192 paths were hit in
/// all; else it is refused, and nothing is masked in part.
pub proof fn limit_decides(
    globs: Seq<Seq<char>>,
    walks: Seq<Seq<(Seq<u8>, bool)>>,
    verdicts: Seq<Result<Seq<bool>, Seq<char>>>,
    n: nat,
)
    requires
        forall|g: int|
            0 <= g < n ==> ((#[trigger] verdicts[g]) matches Ok(hits) && hits.len()
                == walks[g].len()),
    ensures
        masking(globs, walks, verdicts, n) is Masks <==> all_hits(walks, verdicts, n) <= 8192,
        masking(globs, walks, verdicts, n) is TooMany <==> all_hits(walks, verdicts, n) > 8192,
        masking(globs, walks, verdicts, n) matches Masking::Masks { count, .. } ==> count
            == all_hits(walks, verdicts, n),
    decreases n,
{
    if n > 0 {
        limit_decides(globs, walks, verdicts, (n - 1) as nat);
        let verdict = verdicts[n - 1];
        assert(verdict is Ok);
        lemma_hits_counted(verdict->Ok_0, walks[n - 1].len());
    }
}

/// The first glob that cannot be used is the outcome, with the reason, whatever globs follow.
pub proof fn bad_glob_is_the_outcome(
    globs: Seq<Seq<char>>,
    walks: Seq<Seq<(Seq<u8>, bool)>>,
    verdicts: Seq<Result<Seq<bool>, Seq<char>>>,
    g: nat,
    n: nat,
)
    requires
        g < n,
        verdicts[g as int] is Err,
        masking(globs, walks, verdicts, g) is Masks,
    ensures
        masking(globs, walks, verdicts, n) == (Masking::BadGlob {
            glob: globs[g as int],
            why: verdicts[g as int]->Err_0,
        }),
{
    lemma_masking_fails(globs, walks, verdicts, g + 1, n);
}

/// Whether an argument is part of how masks are written, or the path of something that was hit.
pub open spec fn is_mask_part(
    arg: Seq<char>,
    walks: Seq<Seq<(Seq<u8>, bool)>>,
    verdicts: Seq<Result<Seq<bool>, Seq<char>>>,
    n: nat,
) -> bool {
    ||| arg == "--tmpfs"@
    ||| arg == "--ro-bind"@
    ||| arg == "/dev/null"@
    ||| exists|g: int, k: int|
        0 <= g < n && 0 <= k < walks[g].len() && (verdicts[g] matches Ok(hits) && hits[k]) && arg
            == os::text_of((#[trigger] walks[g][k]).0)
}

/// Only what was hit is masked: no path stands among the masks but those of hits.
pub proof fn only_hits_are_masked(
    globs: Seq<Seq<char>>,
    walks: Seq<Seq<(Seq<u8>, bool)>>,
    verdicts: Seq<Result<Seq<bool>, Seq<char>>>,
    n: nat,
    j: int,
)
    requires
        masking(globs, walks, verdicts, n) is Masks,
        0 <= j < masking(globs, walks, verdicts, n)->args.len(),
    ensures
        is_mask_part(masking(globs, walks, verdicts, n)->args[j], walks, verdicts, n),
    decreases n,
{
    if n > 0 {
        let m = (n - 1) as nat;
        let before = masking(globs, walks, verdicts, m);
        let now = masking(globs, walks, verdicts, n);
        let hits = verdicts[n - 1]->Ok_0;
        let arg = now->args[j];
        if j < before->args.len() {
            only_hits_are_masked(globs, walks, verdicts, m, j);
            assert(arg == before->args[j]);
            if !(arg == "--tmpfs"@ || arg == "--ro-bind"@ || arg == "/dev/null"@) {
                let (g, k) = choose|g: int, k: int|
                    0 <= g < m && 0 <= k < walks[g].len() && (verdicts[g] matches Ok(hits)
                        && hits[k]) && arg == os::text_of((#[trigger] walks[g][k]).0);
                assert(arg == os::text_of(walks[g][k].0));
            }
        } else {
            let k = lemma_hit_args_hold_hits(
                walks[n - 1],
                hits,
                walks[n - 1].len(),
                j - before->args.len(),
            );
            if !(arg == "--tmpfs"@ || arg == "--ro-bind"@ || arg == "/dev/null"@) {
                assert(arg == os::text_of(walks[n - 1][k].0));
            }
        }
    }
}

/// An argument among the masks of one walk comes from a hit.
proof fn lemma_hit_args_hold_hits(
    walk: Seq<(Seq<u8>, bool)>,
    hits: Seq<bool>,
    n: nat,
    j: int,
) -> (k: int)
    requires
        0 <= j < hit_args(walk, hits, n).len(),
    ensures
        0 <= k < n,
        hits[k],
        ({
            let arg = hit_args(walk, hits, n)[j];
            arg == "--tmpfs"@ || arg == "--ro-bind"@ || arg == "/dev/null"@ || arg == os::text_of(
                walk[k].0,
            )
        }),
    decreases n,
{
    let before = hit_args(walk, hits, (n - 1) as nat);
    if j < before.len() {
        lemma_hit_args_hold_hits(walk, hits, (n - 1) as nat, j)
    } else {
        assert(hit_args(walk, hits, n)[j] == mask_args(walk[n - 1])[j - before.len()]);
        n - 1
    }
}

/// bwrap is looked for in every directory of the search path, in order, under its own name.
pub proof fn search_path_is_searched_in_order(path: Seq<u8>, dir: Seq<u8>)
    requires
        !dir.contains(58u8),
        dir.len() > 0,
        dir.last() != 47u8,
    ensures
        bwrap_places(dir) == seq![dir + seq![47u8] + encode_utf8("bwrap"@)],
        bwrap_places(path.push(58u8) + dir) == bwrap_places(path).push(
            dir + seq![47u8] + encode_utf8("bwrap"@),
        ),
{
    reveal_strlit("bwrap");
    os::lemma_pieces_append(path, dir, COLON);
    let name = encode_utf8("bwrap"@);
    assert(name[0] == 98u8) by {
        assert(0x62u32 & 0x7F == 0x62) by (bit_vector);
        assert("bwrap"@[0] == 'b');
        assert(encode_scalar('b' as u32) =~= seq![98u8]);
    }
    os::joined_by_one_slash(dir, name);
    assert(bwrap_places(dir) =~= seq![dir + seq![47u8] + name]);
    assert(bwrap_places(path.push(58u8) + dir) =~= bwrap_places(path).push(
        dir + seq![47u8] + name,
    ));
}

/// The search for a glob starts in the directory that stands before its first wildcard, or in the
/// root where there is none.
pub proof fn search_starts_before_the_wildcard(dir: Seq<char>, name: Seq<char>, wild: Seq<char>)
    requires
        !name.contains('/'),
        wild.len() > 0,
        wild[0] == '*' || wild[0] == '?' || wild[0] == '[' || wild[0] == '{',
    ensures
        static_dir(glob::guarded(dir) + "/"@ + glob::guarded(name) + wild) == (if dir.len() > 0 {
            dir
        } else {
            "/"@
        }),
{
    reveal_strlit("/");
    let front = dir + "/"@ + name;
    glob::front_of_a_wild_glob(dir, name, wild);
    assert forall|i: int| front.len() - name.len() <= i < front.len() implies (text::other_than(
        '/',
    ))(#[trigger] front[i]) by {
        assert(front[i] == name[i - dir.len() - 1]);
        assert(name.contains(name[i - dir.len() - 1]));
    }
    assert(front[dir.len() as int] == '/');
    text::lemma_trail(front, text::other_than('/'), name.len());
    assert(front.take(dir.len() as int) =~= dir);
}

/// An empty entry of the search path is the current directory, so bwrap is looked for by its bare
/// name there.
pub proof fn empty_entry_is_the_current_directory(path: Seq<u8>)
    ensures
        bwrap_places(path.push(58u8)) == bwrap_places(path).push(encode_utf8("bwrap"@)),
{
    let none = Seq::<u8>::empty();
    os::lemma_pieces_append(path, none, COLON);
    assert(path.push(58u8) + none =~= path.push(58u8));
    assert(none + encode_utf8("bwrap"@) =~= encode_utf8("bwrap"@));
    assert(bwrap_places(path.push(58u8)) =~= bwrap_places(path).push(encode_utf8("bwrap"@)));
}

/// No more groups are open, or lie in one another, than braces open them.
proof fn lemma_nesting_by_braces(glob: Seq<char>)
    ensures
        open_groups(glob) <= glob.filter(|c: char| c == '{').len(),
        nesting(glob) <= glob.filter(|c: char| c == '{').len(),
    decreases glob.len(),
{
    reveal(Seq::filter);
    if glob.len() > 0 {
        let rest = glob.drop_last();
        lemma_nesting_by_braces(rest);
        assert(glob =~= rest.push(glob.last()));
        rest.lemma_filter_push(glob.last(), |c: char| c == '{');
    }
}

/// Every glob that is not beyond reason is asked about: up to 268435455 characters long, with up to
/// 250 opening braces. The answer on each path is then that of `globset`, and a glob that it cannot
/// use is reported in its words.
pub proof fn globs_are_asked_about(glob: Seq<char>, walk: Seq<(Seq<u8>, bool)>)
    requires
        glob.len() <= 268435455,
        glob.filter(|c: char| c == '{').len() <= 250,
    ensures
        glob_fault(glob) matches Some(why) ==> glob_verdict(glob, walk) == Err::<
            Seq<bool>,
            Seq<char>,
        >(why),
        glob_fault(glob) is None ==> (glob_verdict(glob, walk) matches Ok(hits) && hits.len()
            == walk.len() && forall|k: int|
            0 <= k < walk.len() ==> #[trigger] hits[k] == glob_accepts(glob, walk[k].0)),
{
    lemma_nesting_by_braces(glob);
}

} // verus!
