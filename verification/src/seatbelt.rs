//! The macOS backend: the Seatbelt profile of a policy, and the `sandbox-exec` command that
//! runs a program under it.
//!
//! The profile reads everywhere, writes where it is told to, and has no network unless a rule
//! adds it. Of the rules that match an operation, Seatbelt follows the last.

use vstd::prelude::*;
use vstd::utf8::*;

use crate::error::Error;
use crate::glob;
use crate::os;
use crate::os::OsText;
use crate::policy;
use crate::policy::{NetworkPolicy, SandboxPolicy};
use crate::text;
use crate::transform;
use crate::types;
use crate::types::{SandboxCommand, SpawnRequest};

verus! {

/// The program that applies a profile.
pub const SEATBELT_EXE: &'static str = "/usr/bin/sandbox-exec";

/// What every profile starts with: nothing is allowed but to run programs, to use the
/// semaphores that `multiprocessing` needs and the one shared-memory name that OpenMP
/// registers, to read files, and to write to the bit bucket.
pub const BASE_POLICY: &'static str = "(version 1)
(deny default)

; --- process & IPC basics needed to exec almost anything ---
(allow process-exec)
(allow process-fork)
(allow signal (target same-sandbox))
(allow sysctl-read)
(allow mach-lookup)

; --- POSIX IPC. Semaphores: required by all `multiprocessing` locks and queues.
;     Shared memory: only the name that the OpenMP runtime registers; any other
;     name stays denied. ---
(allow ipc-posix-sem)
(allow ipc-posix-shm-read-data
  ipc-posix-shm-write-create
  ipc-posix-shm-write-unlink
  (ipc-posix-name-regex #\"^/__KMP_REGISTERED_LIB_[0-9]+$\"))

; --- whole filesystem is READABLE; writes are governed by appended rules ---
(allow file-read*)

; --- always allow writing to the bit bucket ---
(allow file-write-data (literal \"/dev/null\"))
";

// ---------------------------------------------------------------------------
// Hidden paths
// ---------------------------------------------------------------------------

/// Why a glob is refused.
pub open spec fn malformed_text(glob: Seq<char>) -> Seq<char> {
    "malformed deny-read glob '"@ + glob + "'"@
}

/// The predicate "is well-formed".
pub open spec fn is_well_formed() -> spec_fn(Seq<char>) -> bool {
    |glob: Seq<char>| glob::well_formed(glob)
}

/// The first of the globs that is refused.
pub open spec fn first_malformed(globs: Seq<Seq<char>>) -> Option<Seq<char>> {
    let n = text::lead(globs, is_well_formed());
    if n < globs.len() {
        Some(globs[n as int])
    } else {
        None
    }
}

/// A regular expression for the whole of a path.
pub open spec fn anchored(body: Seq<char>) -> Seq<char> {
    "^"@ + body + "$"@
}

/// The regular expression for what a glob covers.
pub open spec fn covered_regex(glob: Seq<char>) -> Seq<char> {
    match glob::glob_parts(glob) {
        Some(parts) => anchored(glob::parts_regex(parts)),
        None => Seq::empty(),
    }
}

/// The regular expression for one path.
pub open spec fn path_regex(path: Seq<char>) -> Seq<char> {
    anchored(glob::parts_regex(glob::literal_parts(path)))
}

/// The directory that every path that a glob covers lies in, where something in the glob stands
/// for something else than itself: what the glob spells before the last slash ahead of that.
pub open spec fn wild_dir(glob: Seq<char>) -> Option<Seq<char>> {
    if glob::is_spelled(glob) {
        None
    } else {
        text::before_last(glob::lead_text(glob), '/')
    }
}

/// The regular expressions that hide what an absolute glob covers: one for the glob, and one
/// for the directory that it covers paths in, unless that is the root.
pub open spec fn glob_regexes(glob: Seq<char>) -> Seq<Seq<char>> {
    let whole = seq![covered_regex(glob)];
    match wild_dir(glob) {
        Some(dir) => if dir.len() > 0 {
            whole.push(path_regex(dir))
        } else {
            whole
        },
        None => whole,
    }
}

/// The regular expressions that hide what an absolute glob covers, or `None` where it is
/// malformed.
pub fn deny_read_regexes(glob: &str) -> (r: Option<Vec<String>>)
    ensures
        r is Some <==> glob::well_formed(glob@),
        r matches Some(regexes) ==> regexes.deep_view() == glob_regexes(glob@),
{
    let cs: Vec<char> = text::chars_of(glob);
    let mut out: Vec<String> = Vec::new();
    match glob::glob_body_to_regex(cs.as_slice()) {
        None => {
            return None;
        },
        Some(body) => {
            out.push(text::join3("^", body.as_str(), "$"));
        },
    }
    assert(out.deep_view() =~= seq![covered_regex(glob@)]);
    let (front, cut) = glob::literal_lead(cs.as_slice());
    if cut < cs.len() {
        match text::cut_at_last(front.as_slice(), '/') {
            Some(dir) => {
                assert(dir.deep_view() =~= dir@);
                if dir.len() > 0 {
                    let ghost before = out.deep_view();
                    let body: String = glob::regex_escape(dir.as_slice());
                    out.push(text::join3("^", body.as_str(), "$"));
                    assert(out.deep_view() =~= before.push(path_regex(dir@)));
                }
            },
            None => {},
        }
    }
    Some(out)
}

// ---------------------------------------------------------------------------
// The profile
// ---------------------------------------------------------------------------

/// One `-D NAME=VALUE` binding of a profile parameter.
#[derive(Debug, PartialEq, Eq)]
pub struct Param {
    pub name: String,
    pub value: String,
}

/// A parameter as a mathematical value: its name and its value.
impl DeepView for Param {
    type V = (Seq<char>, Seq<char>);

    open spec fn deep_view(&self) -> (Seq<char>, Seq<char>) {
        (self.name@, self.value@)
    }
}

/// The name of the parameter for the `i`-th path of a kind.
pub open spec fn param_name(kind: Seq<char>, i: nat) -> Seq<char> {
    kind + text::decimal(i)
}

/// The rules that allow or deny writing below each of `n` parameters.
pub open spec fn write_rules(verdict: Seq<char>, kind: Seq<char>, n: nat) -> Seq<Seq<char>> {
    Seq::new(
        n,
        |i: int|
            verdict + " file-write* (subpath (param \""@ + param_name(kind, i as nat) + "\")))"@,
    )
}

/// The parameters for a list of paths.
pub open spec fn path_params(kind: Seq<char>, paths: Seq<Seq<u8>>) -> Seq<(Seq<char>, Seq<char>)> {
    Seq::new(paths.len(), |i: int| (param_name(kind, i as nat), os::text_of(paths[i])))
}

/// The rule that allows all network use.
pub open spec fn allow_all_network() -> Seq<char> {
    "(allow network*)"@
}

/// The rule that allows to connect to one port of this machine, and nothing else.
pub open spec fn allow_port(port: u16) -> Seq<char> {
    "(allow network-outbound (remote ip \"localhost:"@ + text::decimal(port as nat) + "\"))"@
}

/// The network rules. A proxied network has one only where the proxy's port is known.
pub open spec fn network_rules(network: policy::NetworkRule, port: Option<u16>) -> Seq<Seq<char>> {
    match network {
        policy::NetworkRule::Blocked => Seq::empty(),
        policy::NetworkRule::Allowed => seq![allow_all_network()],
        policy::NetworkRule::Proxied { .. } => match port {
            Some(p) => seq![allow_port(p)],
            None => Seq::empty(),
        },
    }
}

/// `s` with a backslash before every quotation mark.
pub open spec fn quoted(s: Seq<char>) -> Seq<char>
    decreases s.len(),
{
    if s.len() == 0 {
        Seq::empty()
    } else if s.last() == '"' {
        quoted(s.drop_last()) + seq!['\\', '"']
    } else {
        quoted(s.drop_last()).push(s.last())
    }
}

/// The rule that hides what a regular expression matches.
pub open spec fn hide_rule(regex: Seq<char>) -> Seq<char> {
    "(deny file-read* (regex #\""@ + quoted(regex) + "\"))"@
}

/// The rules that hide what the globs match.
pub open spec fn hide_rules(globs: Seq<Seq<char>>) -> Seq<Seq<char>>
    decreases globs.len(),
{
    if globs.len() == 0 {
        Seq::empty()
    } else {
        let regexes = glob_regexes(globs.last());
        hide_rules(globs.drop_last()) + Seq::new(regexes.len(), |i: int| hide_rule(regexes[i]))
    }
}

/// The rules of a profile, in order: the base; the writable roots; the paths inside them that
/// stay read-only; the network; what is hidden from reading.
pub open spec fn profile_rules(
    access: policy::Access,
    port: Option<u16>,
    globs: Seq<Seq<char>>,
) -> Seq<Seq<char>> {
    seq![BASE_POLICY@] + write_rules("(allow"@, "WRITABLE_ROOT_"@, access.writable_roots.len())
        + write_rules("(deny"@, "READONLY_SUB_"@, access.read_only_subpaths.len())
        + network_rules(access.network, port) + hide_rules(globs)
}

/// The parameters of a profile.
pub open spec fn profile_params(access: policy::Access) -> Seq<(Seq<char>, Seq<char>)> {
    path_params("WRITABLE_ROOT_"@, access.writable_roots) + path_params(
        "READONLY_SUB_"@,
        access.read_only_subpaths,
    )
}

/// Why no profile can be written: a proxied network needs a proxy, and every glob must be
/// well-formed.
pub open spec fn profile_fault(
    network: policy::NetworkRule,
    port: Option<u16>,
    globs: Seq<Seq<char>>,
) -> Option<Seq<char>> {
    if network is Proxied && port is None {
        Some("proxied policy needs a running proxy"@)
    } else {
        match first_malformed(globs) {
            Some(glob) => Some(malformed_text(glob)),
            None => None,
        }
    }
}

/// Appends the rules and parameters for a list of paths.
fn push_paths(
    sections: &mut Vec<String>,
    params: &mut Vec<Param>,
    verdict: &str,
    kind: &str,
    paths: &Vec<OsText>,
)
    ensures
        final(sections).deep_view() == old(sections).deep_view() + write_rules(
            verdict@,
            kind@,
            paths@.len(),
        ),
        final(params).deep_view() == old(params).deep_view() + path_params(kind@, paths.deep_view()),
{
    let ghost sections0 = sections.deep_view();
    let ghost params0 = params.deep_view();
    let ghost rules = write_rules(verdict@, kind@, paths@.len());
    let ghost bindings = path_params(kind@, paths.deep_view());
    let mut i: usize = 0;
    while i < paths.len()
        invariant
            i <= paths@.len(),
            rules == write_rules(verdict@, kind@, paths@.len()),
            bindings == path_params(kind@, paths.deep_view()),
            sections.deep_view() == sections0 + rules.take(i as int),
            params.deep_view() == params0 + bindings.take(i as int),
        decreases paths@.len() - i,
    {
        let ghost sections1 = sections.deep_view();
        let ghost params1 = params.deep_view();
        let name: String = text::join2(kind, text::to_decimal(i as u64).as_str());
        let opened: String = text::join2(verdict, " file-write* (subpath (param \"");
        let rule: String = text::join3(opened.as_str(), name.as_str(), "\")))");
        let ghost rule_text = rule@;
        let ghost name_text = name@;
        sections.push(rule);
        params.push(Param { name, value: path_str(&paths[i]) });
        i = i + 1;
        proof {
            assert(rule_text =~= rules[i - 1]);
            assert(sections.deep_view() =~= sections1.push(rules[i - 1]));
            assert(params.deep_view() =~= params1.push(bindings[i - 1]));
            assert(rules.take(i as int) =~= rules.take(i - 1).push(rules[i - 1]));
            assert(bindings.take(i as int) =~= bindings.take(i - 1).push(bindings[i - 1]));
        }
    }
    assert(rules.take(paths@.len() as int) =~= rules);
    assert(bindings.take(paths@.len() as int) =~= bindings);
}

/// Puts a backslash before every quotation mark.
fn quote(s: &str) -> (r: String)
    ensures
        r@ == quoted(s@),
{
    let cs: Vec<char> = text::chars_of(s);
    let mut out: String = String::new();
    let mut i: usize = 0;
    while i < cs.len()
        invariant
            i <= cs@.len(),
            out@ == quoted(cs@.take(i as int)),
        decreases cs@.len() - i,
    {
        let ghost before = out@;
        if cs[i] == '"' {
            out.push('\\');
        }
        out.push(cs[i]);
        i = i + 1;
        proof {
            let now = cs@.take(i as int);
            assert(now.drop_last() =~= cs@.take(i - 1));
            assert(now.last() == cs@[i - 1]);
            assert(out@ =~= quoted(now));
        }
    }
    assert(cs@.take(cs@.len() as int) =~= cs@);
    out
}

/// Appends the rules that hide what one glob covers. Returns whether it is well-formed.
fn push_hidden(sections: &mut Vec<String>, glob: &str) -> (r: bool)
    ensures
        r == glob::well_formed(glob@),
        r ==> final(sections).deep_view() == old(sections).deep_view() + Seq::new(
            glob_regexes(glob@).len(),
            |i: int| hide_rule(glob_regexes(glob@)[i]),
        ),
{
    let ghost start = sections.deep_view();
    let regexes: Vec<String> = match deny_read_regexes(glob) {
        Some(regexes) => regexes,
        None => {
            return false;
        },
    };
    let ghost rules = Seq::new(
        glob_regexes(glob@).len(),
        |i: int| hide_rule(glob_regexes(glob@)[i]),
    );
    let mut i: usize = 0;
    while i < regexes.len()
        invariant
            i <= regexes@.len(),
            regexes.deep_view() == glob_regexes(glob@),
            rules == Seq::new(
                glob_regexes(glob@).len(),
                |i: int| hide_rule(glob_regexes(glob@)[i]),
            ),
            sections.deep_view() == start + rules.take(i as int),
        decreases regexes@.len() - i,
    {
        let ghost before = sections.deep_view();
        let inside: String = quote(regexes[i].as_str());
        let rule: String = text::join3("(deny file-read* (regex #\"", inside.as_str(), "\"))");
        let ghost rule_text = rule@;
        sections.push(rule);
        i = i + 1;
        proof {
            assert(regexes.deep_view()[i - 1] == regexes@[i - 1]@);
            assert(rule_text == rules[i - 1]);
            assert(sections.deep_view() =~= before.push(rules[i - 1]));
            assert(rules.take(i as int) =~= rules.take(i - 1).push(rules[i - 1]));
        }
    }
    assert(rules.take(regexes@.len() as int) =~= rules);
    true
}

/// Writes the profile of a policy, and the parameters that it refers to. `proxy` is the port of
/// the proxy; a proxied policy without one is refused, so that it is never left without its
/// network rule. `globs` are the absolute globs to hide; a malformed one is refused, so that
/// nothing is left unhidden.
pub fn build_policy(
    policy: &SandboxPolicy,
    proxy: Option<u16>,
    globs: &Vec<String>,
) -> (r: Result<(String, Vec<Param>), Error>)
    ensures
        r is Ok <==> profile_fault(
            policy.deep_view().network,
            proxy,
            globs.deep_view(),
        ) is None,
        r matches Ok((profile, params)) ==> {
            &&& profile@ == text::joined(
                profile_rules(policy.deep_view(), proxy, globs.deep_view()),
                "\n"@,
            )
            &&& params.deep_view() == profile_params(policy.deep_view())
        },
        r matches Err(e) ==> (e matches Error::Transform(why) && profile_fault(
            policy.deep_view().network,
            proxy,
            globs.deep_view(),
        ) == Some(why@)),
{
    let mut sections: Vec<String> = Vec::new();
    let mut params: Vec<Param> = Vec::new();
    let ghost access = policy.deep_view();
    sections.push(BASE_POLICY.to_owned());
    assert(sections.deep_view() =~= seq![BASE_POLICY@]);
    assert(params.deep_view() =~= Seq::<(Seq<char>, Seq<char>)>::empty());
    let roots: Vec<OsText> = policy.writable_roots();
    let carved: Vec<OsText> = policy.read_only_subpaths();
    assert(roots@.len() == access.writable_roots.len());
    assert(carved@.len() == access.read_only_subpaths.len());
    push_paths(&mut sections, &mut params, "(allow", "WRITABLE_ROOT_", &roots);
    push_paths(&mut sections, &mut params, "(deny", "READONLY_SUB_", &carved);
    assert(params.deep_view() =~= profile_params(access));
    let ghost before_network = sections.deep_view();
    match policy.network() {
        NetworkPolicy::Blocked => {},
        NetworkPolicy::Allowed => {
            sections.push("(allow network*)".to_owned());
        },
        NetworkPolicy::Proxied { .. } => {
            match proxy {
                None => {
                    return Err(Error::Transform("proxied policy needs a running proxy".to_owned()));
                },
                Some(port) => {
                    sections.push(
                        text::join3(
                            "(allow network-outbound (remote ip \"localhost:",
                            text::to_decimal(port as u64).as_str(),
                            "\"))",
                        ),
                    );
                },
            }
        },
    }
    let ghost after_network = sections.deep_view();
    assert(after_network =~= before_network + network_rules(access.network, proxy));
    let ghost all = globs.deep_view();
    let mut i: usize = 0;
    assert(after_network + hide_rules(all.take(0)) =~= after_network);
    while i < globs.len()
        invariant
            i <= globs@.len(),
            all == globs.deep_view(),
            access == policy.deep_view(),
            access.network is Proxied ==> proxy is Some,
            forall|k: int| 0 <= k < i ==> (is_well_formed())(#[trigger] all[k]),
            sections.deep_view() == after_network + hide_rules(all.take(i as int)),
        decreases globs@.len() - i,
    {
        let ghost before = sections.deep_view();
        assert(all[i as int] == globs@[i as int]@);
        if !push_hidden(&mut sections, globs[i].as_str()) {
            proof {
                text::lemma_lead(all, is_well_formed(), i as nat);
            }
            return Err(
                Error::Transform(
                    text::join3("malformed deny-read glob '", globs[i].as_str(), "'"),
                ),
            );
        }
        i = i + 1;
        proof {
            let now = all.take(i as int);
            assert(now.drop_last() =~= all.take(i - 1));
            assert(now.last() == globs@[i - 1]@);
            assert(sections.deep_view() =~= after_network + hide_rules(now));
        }
    }
    proof {
        text::lemma_lead(all, is_well_formed(), globs@.len());
        assert(all.take(globs@.len() as int) =~= all);
        assert(sections.deep_view() =~= profile_rules(access, proxy, all));
    }
    Ok((text::join_with(&sections, "\n"), params))
}

/// The path as text.
pub fn path_str(p: &OsText) -> (r: String)
    ensures
        r@ == os::text_of(p@),
{
    p.to_string_lossy()
}

// ---------------------------------------------------------------------------
// The command
// ---------------------------------------------------------------------------

/// The arguments that bind the parameters.
pub open spec fn param_args(params: Seq<(Seq<char>, Seq<char>)>) -> Seq<Seq<u8>>
    decreases params.len(),
{
    if params.len() == 0 {
        Seq::empty()
    } else {
        param_args(params.drop_last()).push(encode_utf8("-D"@)).push(
            encode_utf8(params.last().0 + "="@ + params.last().1),
        )
    }
}

/// The command that runs `cmd` under the profile of a policy.
pub open spec fn under_seatbelt(
    cmd: types::Command,
    access: policy::Access,
    port: Option<u16>,
    globs: Seq<Seq<char>>,
) -> types::Spawn {
    types::Spawn {
        program: encode_utf8(SEATBELT_EXE@),
        args: seq![
            encode_utf8("-p"@),
            encode_utf8(text::joined(profile_rules(access, port, globs), "\n"@)),
        ] + param_args(profile_params(access)) + seq![encode_utf8("--"@), cmd.program] + cmd.args,
        cwd: cmd.cwd,
        env: transform::child_env(cmd.env, access.network),
        arg0: None,
    }
}

/// Wraps a command in `sandbox-exec`.
pub fn transform_seatbelt(
    cmd: &SandboxCommand,
    policy: &SandboxPolicy,
    proxy: Option<u16>,
    globs: &Vec<String>,
) -> (r: Result<SpawnRequest, Error>)
    ensures
        r is Ok <==> profile_fault(
            policy.deep_view().network,
            proxy,
            globs.deep_view(),
        ) is None,
        r matches Ok(req) ==> req.deep_view() == under_seatbelt(
            cmd.deep_view(),
            policy.deep_view(),
            proxy,
            globs.deep_view(),
        ),
        r matches Err(e) ==> (e matches Error::Transform(why) && profile_fault(
            policy.deep_view().network,
            proxy,
            globs.deep_view(),
        ) == Some(why@)),
{
    let (profile, params) = match build_policy(policy, proxy, globs) {
        Ok(built) => built,
        Err(e) => {
            return Err(e);
        },
    };
    let mut args: Vec<OsText> = Vec::new();
    args.push(OsText::new("-p"));
    args.push(OsText::new(profile.as_str()));
    let ghost head = seq![encode_utf8("-p"@), encode_utf8(profile@)];
    assert(args.deep_view() =~= head);
    let ghost all = params.deep_view();
    let mut i: usize = 0;
    assert(head + param_args(all.take(0)) =~= head);
    while i < params.len()
        invariant
            i <= params@.len(),
            all == params.deep_view(),
            args.deep_view() == head + param_args(all.take(i as int)),
        decreases params@.len() - i,
    {
        let ghost before = args.deep_view();
        let binding: String = text::join3(params[i].name.as_str(), "=", params[i].value.as_str());
        args.push(OsText::new("-D"));
        args.push(OsText::new(binding.as_str()));
        i = i + 1;
        proof {
            let now = all.take(i as int);
            assert(now.drop_last() =~= all.take(i - 1));
            assert(now.last() == params@[i - 1].deep_view());
            assert(args.deep_view() =~= before.push(encode_utf8("-D"@)).push(
                encode_utf8(binding@),
            ));
            assert(args.deep_view() =~= head + param_args(now));
        }
    }
    assert(all.take(params@.len() as int) =~= all);
    let ghost bound = args.deep_view();
    args.push(OsText::new("--"));
    args.push(cmd.program.clone());
    assert(args.deep_view() =~= bound + seq![encode_utf8("--"@), cmd.program@]);
    os::push_all(&mut args, &cmd.args);
    Ok(
        SpawnRequest {
            program: OsText::new(SEATBELT_EXE),
            args,
            cwd: cmd.cwd.clone(),
            env: transform::build_env(cmd, policy),
            arg0: None,
        },
    )
}

// ---------------------------------------------------------------------------
// Laws
// ---------------------------------------------------------------------------

/// The rules that a profile adds to the base.
pub open spec fn added_rules(
    access: policy::Access,
    port: Option<u16>,
    globs: Seq<Seq<char>>,
) -> Seq<Seq<char>> {
    profile_rules(access, port, globs).skip(1)
}

/// The rules for writing are none of the network rules.
proof fn lemma_write_rule_differs(verdict: Seq<char>, kind: Seq<char>, n: nat)
    ensures
        forall|i: int|
            0 <= i < n ==> (#[trigger] write_rules(verdict, kind, n)[i]).len() > 16,
        allow_all_network().len() == 16,
{
    reveal_strlit("(allow network*)");
    reveal_strlit(" file-write* (subpath (param \"");
    assert(allow_all_network().len() == 16);
}

proof fn lemma_hide_rules_long(globs: Seq<Seq<char>>)
    ensures
        forall|i: int| 0 <= i < hide_rules(globs).len() ==> (#[trigger] hide_rules(globs)[i]).len() > 16,
    decreases globs.len(),
{
    reveal_strlit("(deny file-read* (regex #\"");
    if globs.len() > 0 {
        lemma_hide_rules_long(globs.drop_last());
        let before = hide_rules(globs.drop_last());
        let regexes = glob_regexes(globs.last());
        assert forall|i: int| 0 <= i < hide_rules(globs).len() implies (
        #[trigger] hide_rules(globs)[i]).len() > 16 by {
            if i < before.len() {
                assert(hide_rules(globs)[i] == before[i]);
            } else {
                assert(hide_rules(globs)[i] == hide_rule(regexes[i - before.len()]));
            }
        }
    }
}

/// The whole network is opened exactly where the policy allows it. A blocked policy adds no
/// network rule at all, and a proxied one only that for the port of its proxy.
pub proof fn network_opened_only_when_allowed(
    access: policy::Access,
    port: Option<u16>,
    globs: Seq<Seq<char>>,
)
    ensures
        added_rules(access, port, globs).contains(allow_all_network())
            <==> access.network is Allowed,
        access.network is Blocked ==> network_rules(access.network, port).len() == 0,
        access.network is Proxied && port is Some ==> network_rules(access.network, port) == seq![
            allow_port(port.unwrap()),
        ] && added_rules(access, port, globs).contains(allow_port(port.unwrap())),
{
    reveal_strlit("(allow network*)");
    reveal_strlit("(allow network-outbound (remote ip \"localhost:");
    let rules = added_rules(access, port, globs);
    let grants = write_rules("(allow"@, "WRITABLE_ROOT_"@, access.writable_roots.len());
    let carved = write_rules("(deny"@, "READONLY_SUB_"@, access.read_only_subpaths.len());
    let net = network_rules(access.network, port);
    let hidden = hide_rules(globs);
    assert(rules =~= grants + carved + net + hidden);
    lemma_write_rule_differs("(allow"@, "WRITABLE_ROOT_"@, access.writable_roots.len());
    lemma_write_rule_differs("(deny"@, "READONLY_SUB_"@, access.read_only_subpaths.len());
    lemma_hide_rules_long(globs);
    let at = (grants.len() + carved.len()) as int;
    assert(net.len() > 0 ==> rules[at] == net[0]);
    assert(allow_all_network().len() == 16);
    assert(port is Some ==> allow_port(port.unwrap()).len() > 16);
    if rules.contains(allow_all_network()) {
        let i = choose|i: int| 0 <= i < rules.len() && rules[i] == allow_all_network();
        if i < grants.len() {
            assert(rules[i] == grants[i]);
        } else if i < at {
            assert(rules[i] == carved[i - grants.len()]);
        } else if i < at + net.len() {
            assert(rules[i] == net[i - at]);
        } else {
            assert(rules[i] == hidden[i - at - net.len()]);
        }
    }
}

/// What is hidden from reading is hidden by the last rules of the profile, so no rule that
/// allows anything comes after them; and the paths that stay read-only are denied after every
/// writable root is allowed.
pub proof fn denials_follow_grants(
    access: policy::Access,
    port: Option<u16>,
    globs: Seq<Seq<char>>,
)
    ensures
        hide_rules(globs).is_suffix_of(profile_rules(access, port, globs)),
        forall|i: int, j: int|
            0 <= i < access.writable_roots.len() && 0 <= j < access.read_only_subpaths.len() ==> {
                let grant = 1 + i;
                let denial = 1 + access.writable_roots.len() + j;
                &&& grant < denial < profile_rules(access, port, globs).len()
                &&& profile_rules(access, port, globs)[grant] == #[trigger] write_rules(
                    "(allow"@,
                    "WRITABLE_ROOT_"@,
                    access.writable_roots.len(),
                )[i]
                &&& profile_rules(access, port, globs)[denial] == #[trigger] write_rules(
                    "(deny"@,
                    "READONLY_SUB_"@,
                    access.read_only_subpaths.len(),
                )[j]
            },
{
    let all = profile_rules(access, port, globs);
    let hidden = hide_rules(globs);
    assert(all.subrange(all.len() - hidden.len(), all.len() as int) =~= hidden);
}

/// No two paths share a parameter: each rule speaks of the one path that it was made for.
pub proof fn parameters_are_distinct(access: policy::Access, i: int, j: int)
    requires
        0 <= i < profile_params(access).len(),
        0 <= j < profile_params(access).len(),
        profile_params(access)[i].0 == profile_params(access)[j].0,
    ensures
        i == j,
{
    reveal_strlit("WRITABLE_ROOT_");
    reveal_strlit("READONLY_SUB_");
    let params = profile_params(access);
    let n = access.writable_roots.len() as int;
    let a = params[i].0;
    let b = params[j].0;
    assert(i < n ==> a[0] == 'W');
    assert(i >= n ==> a[0] == 'R');
    assert(j < n ==> b[0] == 'W');
    assert(j >= n ==> b[0] == 'R');
    let kind = if i < n {
        "WRITABLE_ROOT_"@
    } else {
        "READONLY_SUB_"@
    };
    let x = if i < n {
        i as nat
    } else {
        (i - n) as nat
    };
    let y = if i < n {
        j as nat
    } else {
        (j - n) as nat
    };
    assert(param_name(kind, x).skip(kind.len() as int) =~= text::decimal(x));
    assert(param_name(kind, y).skip(kind.len() as int) =~= text::decimal(y));
    text::lemma_decimal_injective(x, y);
}

/// A glob that spells one path hides that path, and nothing else.
pub proof fn spelled_glob_hides_one_path(glob: Seq<char>, path: Seq<char>)
    requires
        glob::is_spelled(glob),
    ensures
        glob::covers(glob, path) <==> path == glob::lead_text(glob),
        glob_regexes(glob) == seq![path_regex(glob::lead_text(glob))],
{
    glob::covered_paths_start_alike(glob, path);
    glob::spelled_glob_is_literal(glob);
}

/// A glob that ends in `/**` hides everything below the directory before it, at any depth, and
/// nothing else; and the second regular expression hides the directory itself.
pub proof fn tree_is_hidden(dir: Seq<char>, path: Seq<char>)
    ensures
        glob::covers(glob::guarded(dir) + "/**"@, path) <==> (dir + "/"@).is_prefix_of(path),
        dir.len() > 0 ==> glob_regexes(glob::guarded(dir) + "/**"@).contains(path_regex(dir)),
{
    reveal_strlit("/**");
    reveal_strlit("/");
    let front = dir + "/"@;
    let glob = glob::guarded(dir) + "/**"@;
    let stars = seq!['*', '*'];
    glob::tree_is_covered(dir, path);
    assert("/**"@ =~= "/"@ + stars);
    assert("/**"@.skip(1) =~= stars);
    glob::guarded_text_is_spelled(dir, "/**"@);
    assert(glob::lead_text(stars) =~= Seq::<char>::empty());
    assert(glob::lead_len(stars) == 0);
    assert(glob::lead_text(glob) =~= front);
    assert(wild_dir(glob) == Some(dir)) by {
        assert(front[front.len() - 1] == '/');
        text::lemma_trail(front, text::other_than('/'), 0);
        assert(front.take(front.len() - 1) =~= dir);
    }
    if dir.len() > 0 {
        assert(glob_regexes(glob)[1] == path_regex(dir));
    }
}

/// Whatever a glob covers lies in the directory that is hidden with it.
pub proof fn covered_paths_lie_in_directory(glob: Seq<char>, path: Seq<char>)
    requires
        wild_dir(glob) is Some,
        glob::covers(glob, path),
    ensures
        (wild_dir(glob).unwrap() + "/"@).is_prefix_of(path),
{
    reveal_strlit("/");
    let front = glob::lead_text(glob);
    let dir = wild_dir(glob).unwrap();
    glob::covered_paths_start_alike(glob, path);
    text::lemma_trail_bounds(front, text::other_than('/'));
    let n = text::trail(front, text::other_than('/'));
    if n == front.len() {
        let k = choose|k: int| 0 <= k < front.len() && front[k] == '/';
        assert((text::other_than('/'))(front[k]));
    }
    assert(front[front.len() - n - 1] == '/');
    assert(dir + "/"@ =~= front.take(front.len() - n));
    assert(path.subrange(0, (dir + "/"@).len() as int) =~= dir + "/"@);
}

/// A malformed glob never yields a profile, so nothing that it was meant to hide is left
/// readable; and no other glob is refused.
pub proof fn malformed_globs_are_refused(
    network: policy::NetworkRule,
    port: Option<u16>,
    globs: Seq<Seq<char>>,
)
    requires
        network is Proxied ==> port is Some,
    ensures
        profile_fault(network, port, globs) is None <==> forall|i: int|
            0 <= i < globs.len() ==> glob::well_formed(#[trigger] globs[i]),
{
    text::lemma_lead_bounds(globs, is_well_formed());
    let n = text::lead(globs, is_well_formed());
    if n == globs.len() {
        assert forall|i: int| 0 <= i < globs.len() implies glob::well_formed(
            #[trigger] globs[i],
        ) by {
            assert((is_well_formed())(globs[i]));
        }
    } else {
        assert(!(is_well_formed())(globs[n as int]));
        assert(!glob::well_formed(globs[n as int]));
    }
}

/// Every parameter is passed, in order: two arguments each, the option and `name=value`.
pub proof fn parameters_are_passed(params: Seq<(Seq<char>, Seq<char>)>)
    ensures
        param_args(params).len() == 2 * params.len(),
        forall|i: int|
            0 <= i < params.len() ==> text::occurs_at(
                param_args(params),
                seq![
                    encode_utf8("-D"@),
                    encode_utf8((#[trigger] params[i]).0 + "="@ + params[i].1),
                ],
                2 * i,
            ),
    decreases params.len(),
{
    if params.len() > 0 {
        let rest = params.drop_last();
        let all = param_args(params);
        parameters_are_passed(rest);
        assert forall|i: int| 0 <= i < params.len() implies text::occurs_at(
            all,
            seq![encode_utf8("-D"@), encode_utf8((#[trigger] params[i]).0 + "="@ + params[i].1)],
            2 * i,
        ) by {
            if i < rest.len() {
                assert(rest[i] == params[i]);
                assert(all.subrange(2 * i, 2 * i + 2) =~= param_args(rest).subrange(
                    2 * i,
                    2 * i + 2,
                ));
            } else {
                assert(all.subrange(2 * i, 2 * i + 2) =~= seq![
                    encode_utf8("-D"@),
                    encode_utf8(params[i].0 + "="@ + params[i].1),
                ]);
            }
        }
    }
}

/// Every writable root is granted and every read-only path is denied, each by a rule of its own
/// that refers to a parameter, and the parameter is that path. The first rule is the base, and no
/// rules come besides those for paths, for the network and for what is hidden.
pub proof fn paths_have_their_rules(access: policy::Access, port: Option<u16>, globs: Seq<Seq<char>>)
    ensures
        ({
            let rules = profile_rules(access, port, globs);
            let params = profile_params(access);
            let n = access.writable_roots.len() as int;
            let m = access.read_only_subpaths.len() as int;
            &&& rules[0] == BASE_POLICY@
            &&& params.len() == n + m
            &&& rules.len() == 1 + n + m + network_rules(access.network, port).len() + hide_rules(
                globs,
            ).len()
            &&& forall|i: int|
                0 <= i < n ==> {
                    &&& (#[trigger] params[i]).1 == os::text_of(access.writable_roots[i])
                    &&& rules[1 + i] == "(allow file-write* (subpath (param \""@ + params[i].0
                        + "\")))"@
                }
            &&& forall|j: int|
                n <= j < n + m ==> {
                    &&& (#[trigger] params[j]).1 == os::text_of(access.read_only_subpaths[j - n])
                    &&& rules[1 + j] == "(deny file-write* (subpath (param \""@ + params[j].0
                        + "\")))"@
                }
        }),
{
    reveal_strlit("(allow");
    reveal_strlit("(deny");
    reveal_strlit(" file-write* (subpath (param \"");
    reveal_strlit("(allow file-write* (subpath (param \"");
    reveal_strlit("(deny file-write* (subpath (param \"");
    assert("(allow"@ + " file-write* (subpath (param \""@
        =~= "(allow file-write* (subpath (param \""@);
    assert("(deny"@ + " file-write* (subpath (param \""@
        =~= "(deny file-write* (subpath (param \""@);
    let rules = profile_rules(access, port, globs);
    let params = profile_params(access);
    let n = access.writable_roots.len() as int;
    let m = access.read_only_subpaths.len() as int;
    assert forall|i: int| 0 <= i < n implies {
        &&& (#[trigger] params[i]).1 == os::text_of(access.writable_roots[i])
        &&& rules[1 + i] == "(allow file-write* (subpath (param \""@ + params[i].0 + "\")))"@
    } by {
        assert(rules[1 + i] == write_rules("(allow"@, "WRITABLE_ROOT_"@, n as nat)[i]);
        assert(params[i] == path_params("WRITABLE_ROOT_"@, access.writable_roots)[i]);
    }
    assert forall|j: int| n <= j < n + m implies {
        &&& (#[trigger] params[j]).1 == os::text_of(access.read_only_subpaths[j - n])
        &&& rules[1 + j] == "(deny file-write* (subpath (param \""@ + params[j].0 + "\")))"@
    } by {
        assert(rules[1 + j] == write_rules("(deny"@, "READONLY_SUB_"@, m as nat)[j - n]);
        assert(params[j] == path_params("READONLY_SUB_"@, access.read_only_subpaths)[j - n]);
    }
}

/// The network rule of each policy: none where it is blocked, the whole network where it is
/// allowed, and where it is proxied the one port of this machine that the proxy listens on.
pub proof fn networks_have_their_rules(access: policy::Access, port: u16, globs: Seq<Seq<char>>)
    ensures
        ({
            let rules = profile_rules(access, Some(port), globs);
            let at = 1 + access.writable_roots.len() + access.read_only_subpaths.len();
            &&& access.network is Blocked ==> rules.len() == at + hide_rules(globs).len()
            &&& access.network is Allowed ==> rules.len() == at + 1 + hide_rules(globs).len()
                && rules[at as int] == "(allow network*)"@
            &&& access.network is Proxied ==> rules.len() == at + 1 + hide_rules(globs).len()
                && rules[at as int] == "(allow network-outbound (remote ip \"localhost:"@
                + text::decimal(port as nat) + "\"))"@
        }),
{
}

/// Every regular expression of every glob is denied for reading by a rule of its own, among the
/// last rules of the profile.
pub proof fn globs_have_their_rules(globs: Seq<Seq<char>>, i: int, k: int)
    requires
        0 <= i < globs.len(),
        0 <= k < glob_regexes(globs[i]).len(),
    ensures
        hide_rules(globs).contains(
            "(deny file-read* (regex #\""@ + quoted(glob_regexes(globs[i])[k]) + "\"))"@,
        ),
    decreases globs.len(),
{
    let rest = globs.drop_last();
    let before = hide_rules(rest);
    let all = hide_rules(globs);
    let wanted = "(deny file-read* (regex #\""@ + quoted(glob_regexes(globs[i])[k]) + "\"))"@;
    if i < rest.len() {
        globs_have_their_rules(rest, i, k);
        let at = choose|at: int| 0 <= at < before.len() && before[at] == wanted;
        assert(all[at] == wanted);
    } else {
        assert(all[before.len() + k] == wanted);
    }
}

/// Quoting puts a backslash before every quotation mark, and changes nothing else.
pub proof fn quoting_guards_quotation_marks(a: Seq<char>, b: Seq<char>)
    requires
        !b.contains('"'),
    ensures
        quoted(b) == b,
        quoted(a + b) == quoted(a) + b,
        quoted(a.push('"') + b) == quoted(a) + seq!['\\', '"'] + b,
    decreases b.len(),
{
    if b.len() == 0 {
        assert(quoted(b) =~= b);
        assert(a + b =~= a);
        assert(quoted(a) + b =~= quoted(a));
        assert(a.push('"') + b =~= a.push('"'));
        assert(a.push('"').drop_last() =~= a);
        assert(quoted(a) + seq!['\\', '"'] + b =~= quoted(a) + seq!['\\', '"']);
    } else {
        let c = b.drop_last();
        assert(b.contains(b.last()));
        assert forall|x: char| c.contains(x) implies b.contains(x) by {
            let k = choose|k: int| 0 <= k < c.len() && c[k] == x;
            assert(b[k] == x);
        }
        quoting_guards_quotation_marks(a, c);
        assert((a + b).drop_last() =~= a + c);
        assert((a.push('"') + b).drop_last() =~= a.push('"') + c);
        assert((a + b).last() == b.last());
        assert((a.push('"') + b).last() == b.last());
        assert(c.push(b.last()) =~= b);
        assert((quoted(a) + c).push(b.last()) =~= quoted(a) + b);
        assert((quoted(a) + seq!['\\', '"'] + c).push(b.last()) =~= quoted(a) + seq!['\\', '"']
            + b);
    }
}

/// The command under Seatbelt is told the profile, then every parameter, then the end of the
/// options; and the profile is all of its rules, one after the other.
pub proof fn command_carries_the_profile(
    cmd: types::Command,
    access: policy::Access,
    port: Option<u16>,
    globs: Seq<Seq<char>>,
)
    ensures
        ({
            let args = under_seatbelt(cmd, access, port, globs).args;
            let params = profile_params(access);
            &&& args[0] == encode_utf8("-p"@)
            &&& args[1] == encode_utf8(text::joined(profile_rules(access, port, globs), "\n"@))
            &&& args.subrange(2, 2 + 2 * params.len() as int) == param_args(params)
            &&& args[2 + 2 * params.len() as int] == encode_utf8("--"@)
            &&& args[3 + 2 * params.len() as int] == cmd.program
            &&& args.skip(4 + 2 * params.len() as int) == cmd.args
        }),
{
    let args = under_seatbelt(cmd, access, port, globs).args;
    let params = profile_params(access);
    parameters_are_passed(params);
    assert(args.subrange(2, 2 + 2 * params.len() as int) =~= param_args(params));
    assert(args.skip(4 + 2 * params.len() as int) =~= cmd.args);
}

/// Every profile starts by denying everything, and then allows this and no more before the rules
/// of the policy: to run programs and look things up, the semaphores and the one name of shared
/// memory, to read files, and to write to the null device.
pub proof fn profiles_start_by_denying(
    access: policy::Access,
    port: Option<u16>,
    globs: Seq<Seq<char>>,
)
    ensures
        profile_rules(access, port, globs)[0] == "(version 1)
(deny default)

; --- process & IPC basics needed to exec almost anything ---
(allow process-exec)
(allow process-fork)
(allow signal (target same-sandbox))
(allow sysctl-read)
(allow mach-lookup)

; --- POSIX IPC. Semaphores: required by all `multiprocessing` locks and queues.
;     Shared memory: only the name that the OpenMP runtime registers; any other
;     name stays denied. ---
(allow ipc-posix-sem)
(allow ipc-posix-shm-read-data
  ipc-posix-shm-write-create
  ipc-posix-shm-write-unlink
  (ipc-posix-name-regex #\"^/__KMP_REGISTERED_LIB_[0-9]+$\"))

; --- whole filesystem is READABLE; writes are governed by appended rules ---
(allow file-read*)

; --- always allow writing to the bit bucket ---
(allow file-write-data (literal \"/dev/null\"))
"@,
{
}

/// A regular expression is for a whole path: nothing may come before it or after it. The first of
/// a glob is for what the glob covers; the second, where something in the glob stands for
/// something else, is for the directory before that, unless it is the root; and there are no
/// others.
pub proof fn wild_globs_hide_their_directory(dir: Seq<char>, name: Seq<char>, wild: Seq<char>)
    requires
        !name.contains('/'),
        wild.len() > 0,
        wild[0] == '*' || wild[0] == '?' || wild[0] == '[' || wild[0] == '{',
        glob::well_formed(glob::guarded(dir) + "/"@ + glob::guarded(name) + wild),
    ensures
        ({
            let glob = glob::guarded(dir) + "/"@ + glob::guarded(name) + wild;
            let whole = "^"@ + glob::parts_regex(glob::glob_parts(glob).unwrap()) + "$"@;
            glob_regexes(glob) == (if dir.len() > 0 {
                seq![whole, "^"@ + glob::parts_regex(glob::literal_parts(dir)) + "$"@]
            } else {
                seq![whole]
            })
        }),
{
    reveal_strlit("/");
    let glob = glob::guarded(dir) + "/"@ + glob::guarded(name) + wild;
    let front = dir + "/"@ + name;
    glob::front_of_a_wild_glob(dir, name, wild);
    assert forall|i: int| front.len() - name.len() <= i < front.len() implies (text::other_than(
        '/',
    ))(#[trigger] front[i]) by {
        assert(front[i] == name[i - dir.len() - 1]);
        assert(name.contains(name[i - dir.len() - 1]));
    }
    assert(front[dir.len() as int] == '/');
    text::lemma_trail(front, text::other_than('/'), name.len());
    assert(front.take(dir.len() as int) =~= dir);
    assert(wild_dir(glob) == Some(dir));
    if dir.len() > 0 {
        assert(glob_regexes(glob) =~= seq![covered_regex(glob), path_regex(dir)]);
    } else {
        assert(glob_regexes(glob) =~= seq![covered_regex(glob)]);
    }
}

/// A glob that stands for something else before its first slash, or has none, hides no directory
/// with it.
pub proof fn slashless_globs_hide_no_directory(name: Seq<char>, wild: Seq<char>)
    requires
        !name.contains('/'),
        wild.len() > 0,
        wild[0] == '*' || wild[0] == '?' || wild[0] == '[' || wild[0] == '{',
        glob::well_formed(glob::guarded(name) + wild),
    ensures
        ({
            let glob = glob::guarded(name) + wild;
            glob_regexes(glob) == seq![
                "^"@ + glob::parts_regex(glob::glob_parts(glob).unwrap()) + "$"@,
            ]
        }),
{
    let glob = glob::guarded(name) + wild;
    glob::guarded_text_is_spelled(name, wild);
    assert(glob::lead_text(wild) =~= Seq::<char>::empty());
    assert(glob::lead_text(glob) =~= name);
    assert(wild_dir(glob) is None) by {
        assert(text::before_last(name, '/') is None);
    }
    assert(glob_regexes(glob) =~= seq![covered_regex(glob)]);
}

/// What is hidden is hidden glob by glob, in order, by one rule for each of its regular
/// expressions and no other.
pub proof fn hidden_globs_add_up(globs: Seq<Seq<char>>, glob: Seq<char>)
    ensures
        hide_rules(Seq::empty()) == Seq::<Seq<char>>::empty(),
        hide_rules(globs.push(glob)) == hide_rules(globs) + Seq::new(
            glob_regexes(glob).len(),
            |k: int| "(deny file-read* (regex #\""@ + quoted(glob_regexes(glob)[k]) + "\"))"@,
        ),
{
    assert(globs.push(glob).drop_last() =~= globs);
    assert(hide_rules(globs.push(glob)) =~= hide_rules(globs) + Seq::new(
        glob_regexes(glob).len(),
        |k: int| "(deny file-read* (regex #\""@ + quoted(glob_regexes(glob)[k]) + "\"))"@,
    ));
}

} // verus!
