//! A gate on the programs that may be run at all, asked before a command is sandboxed. The
//! sandbox stays the real containment; this is a coarse second gate.

use vstd::prelude::*;
use vstd::utf8::*;

use crate::os;
use crate::os::OsText;
use crate::policy::copy_strings;
use crate::text;
use crate::types::SandboxCommand;

verus! {

/// The last name of a program's path, where there is one and it is text.
pub open spec fn base_name(program: Seq<u8>) -> Option<Seq<char>> {
    match os::path_file_name(program) {
        Some(name) => if valid_utf8(name) {
            Some(decode_utf8(name))
        } else {
            None
        },
        None => None,
    }
}

/// Whether an entry of the allowlist permits a program. An entry with a slash is one exact
/// path; any other is the last name of the path.
pub open spec fn entry_permits(entry: Seq<char>, program: Seq<u8>) -> bool {
    if entry.contains('/') {
        entry == os::text_of(program)
    } else {
        base_name(program) == Some(entry)
    }
}

/// Whether a set of entries permits a program. A program without a name is never permitted.
pub open spec fn permits(entries: Set<Seq<char>>, program: Seq<u8>) -> bool {
    &&& os::text_of(program).len() > 0
    &&& exists|entry: Seq<char>| #[trigger] entries.contains(entry) && entry_permits(entry, program)
}

/// How a denied program is called: by its last name, or whole where it has none.
pub open spec fn denied_name(program: Seq<u8>) -> Seq<char> {
    match base_name(program) {
        Some(base) if os::text_of(program).len() > 0 => base,
        _ => os::text_of(program),
    }
}

/// Why a program is denied.
pub open spec fn denied_reason(program: Seq<u8>) -> Seq<char> {
    if os::text_of(program).len() == 0 {
        "command has no usable program name"@
    } else {
        "program '"@ + denied_name(program) + "' is not in the exec allowlist"@
    }
}

/// The verdict on a command.
#[derive(Debug, PartialEq, Eq)]
pub enum ExecDecision {
    Allow,
    Deny { program: String, reason: String },
}

impl Clone for ExecDecision {
    fn clone(&self) -> (r: Self)
        ensures
            match (*self, r) {
                (ExecDecision::Allow, ExecDecision::Allow) => true,
                (
                    ExecDecision::Deny { program: p, reason: q },
                    ExecDecision::Deny { program, reason },
                ) => program@ == p@ && reason@ == q@,
                _ => false,
            },
    {
        match self {
            ExecDecision::Allow => ExecDecision::Allow,
            ExecDecision::Deny { program, reason } => ExecDecision::Deny {
                program: program.clone(),
                reason: reason.clone(),
            },
        }
    }
}

impl ExecDecision {
    /// Whether the command may run.
    pub fn is_allowed(&self) -> (r: bool)
        ensures
            r == (self is Allow),
    {
        match self {
            ExecDecision::Allow => true,
            _ => false,
        }
    }

    /// Whether the command may not run.
    pub fn is_denied(&self) -> (r: bool)
        ensures
            r == (self is Deny),
    {
        !self.is_allowed()
    }
}

/// The programs that may run, without repetition. What no entry permits is denied.
#[derive(Debug)]
pub struct ExecPolicy {
    allowed: Vec<String>,
}

impl Clone for ExecPolicy {
    fn clone(&self) -> (r: Self)
        ensures
            r@ == self@,
    {
        proof {
            use_type_invariant(self);
        }
        ExecPolicy { allowed: copy_strings(&self.allowed) }
    }
}

impl View for ExecPolicy {
    type V = Set<Seq<char>>;

    closed spec fn view(&self) -> Set<Seq<char>> {
        self.allowed.deep_view().to_set()
    }
}

impl Default for ExecPolicy {
    fn default() -> (r: Self)
        ensures
            r@ == Set::<Seq<char>>::empty(),
    {
        ExecPolicy::new()
    }
}

impl ExecPolicy {
    #[verifier::type_invariant]
    spec fn no_repetition(self) -> bool {
        self.allowed.deep_view().no_duplicates()
    }

    /// A policy that denies every command.
    pub fn new() -> (r: Self)
        ensures
            r@ == Set::<Seq<char>>::empty(),
    {
        let allowed: Vec<String> = Vec::new();
        assert(allowed.deep_view() =~= Seq::<Seq<char>>::empty());
        let r = ExecPolicy { allowed };
        assert(r@ =~= Set::<Seq<char>>::empty());
        r
    }

    /// Permits a program. An entry with a slash permits that exact path only; an entry without
    /// one permits every program of that name, wherever it lies. A path entry keeps a look-alike
    /// at another place from running.
    pub fn allow(self, program: &str) -> (r: Self)
        ensures
            r@ == self@.insert(program@),
    {
        proof {
            use_type_invariant(&self);
        }
        let ghost before = self.allowed.deep_view();
        let mut allowed: Vec<String> = self.allowed;
        let mut i: usize = 0;
        while i < allowed.len()
            invariant
                i <= allowed@.len(),
                before == allowed.deep_view(),
                before.to_set() == self@,
                forall|k: int| 0 <= k < i ==> (#[trigger] before[k]) != program@,
                before.no_duplicates(),
            decreases allowed@.len() - i,
        {
            if text::same_text(allowed[i].as_str(), program) {
                proof {
                    assert(before[i as int] == program@);
                    assert(before.to_set() =~= before.to_set().insert(program@));
                }
                return ExecPolicy { allowed };
            }
            i = i + 1;
        }
        allowed.push(program.to_owned());
        proof {
            assert(allowed.deep_view() =~= before.push(program@));
            before.lemma_push_to_set_commute(program@);
        }
        ExecPolicy { allowed }
    }

    /// Vets a command: it is allowed exactly if some entry permits its program.
    pub fn check(&self, cmd: &SandboxCommand) -> (r: ExecDecision)
        ensures
            r is Allow <==> permits(self@, cmd.program@),
            r matches ExecDecision::Deny { program, reason } ==> {
                &&& program@ == denied_name(cmd.program@)
                &&& reason@ == denied_reason(cmd.program@)
            },
    {
        let full: String = cmd.program.to_string_lossy();
        if full.as_str().is_empty() {
            assert(full@ =~= Seq::<char>::empty());
            return ExecDecision::Deny {
                program: String::new(),
                reason: "command has no usable program name".to_owned(),
            };
        }
        let base: Option<String> = program_basename(&cmd.program);
        let ghost entries = self.allowed.deep_view();
        let mut i: usize = 0;
        while i < self.allowed.len()
            invariant
                i <= self.allowed@.len(),
                entries == self.allowed.deep_view(),
                full@ == os::text_of(cmd.program@),
                full@.len() > 0,
                base.deep_view() == base_name(cmd.program@),
                forall|k: int| 0 <= k < i ==> !entry_permits(#[trigger] entries[k], cmd.program@),
            decreases self.allowed@.len() - i,
        {
            let entry: &String = &self.allowed[i];
            assert(entry@ == entries[i as int]);
            let hit: bool = if has_slash(entry.as_str()) {
                text::same_text(entry.as_str(), full.as_str())
            } else {
                match &base {
                    Some(name) => text::same_text(name.as_str(), entry.as_str()),
                    None => false,
                }
            };
            if hit {
                assert(self@.contains(entries[i as int]));
                return ExecDecision::Allow;
            }
            i = i + 1;
        }
        proof {
            assert forall|entry: Seq<char>| #[trigger] self@.contains(entry) implies !entry_permits(
                entry,
                cmd.program@,
            ) by {
                let k = choose|k: int| 0 <= k < entries.len() && entries[k] == entry;
                assert(!entry_permits(entries[k], cmd.program@));
            }
        }
        let program: String = match base {
            Some(name) => name,
            None => full,
        };
        let reason: String = text::join3(
            "program '",
            program.as_str(),
            "' is not in the exec allowlist",
        );
        ExecDecision::Deny { program, reason }
    }
}

/// Whether a text has a slash in it.
fn has_slash(s: &str) -> (r: bool)
    ensures
        r == s@.contains('/'),
{
    let cs: Vec<char> = text::chars_of(s);
    let n: usize = text::lead_before(cs.as_slice(), '/');
    proof {
        text::lemma_lead_bounds(cs@, text::other_than('/'));
        if n < cs@.len() {
            assert(cs@[n as int] == '/');
        } else {
            assert forall|i: int| 0 <= i < cs@.len() implies cs@[i] != '/' by {
                assert((text::other_than('/'))(cs@[i]));
            }
        }
    }
    n < cs.len()
}

/// The last name of a program's path, where there is one and it is text.
pub fn program_basename(program: &OsText) -> (r: Option<String>)
    ensures
        r.deep_view() == base_name(program@),
{
    match program.file_name() {
        Some(name) => name.to_str(),
        None => None,
    }
}

// ---------------------------------------------------------------------------
// Laws
// ---------------------------------------------------------------------------

/// Without entries every program is denied.
pub proof fn denied_by_default(program: Seq<u8>)
    ensures
        !permits(Set::empty(), program),
{
}

/// Permitting one more program takes no permission away, and adds only what that entry permits.
pub proof fn entries_add_up(entries: Set<Seq<char>>, entry: Seq<char>, program: Seq<u8>)
    ensures
        permits(entries.insert(entry), program) <==> permits(entries, program) || (os::text_of(
            program,
        ).len() > 0 && entry_permits(entry, program)),
{
    let more = entries.insert(entry);
    if permits(entries, program) {
        let e = choose|e: Seq<char>| #[trigger] entries.contains(e) && entry_permits(e, program);
        assert(more.contains(e));
    }
    if os::text_of(program).len() > 0 && entry_permits(entry, program) {
        assert(more.contains(entry));
    }
    if permits(more, program) {
        let e = choose|e: Seq<char>| #[trigger] more.contains(e) && entry_permits(e, program);
        if e != entry {
            assert(entries.contains(e));
        }
    }
}

/// An entry with a slash permits one path and no look-alike: of all programs that are text, the
/// one that the entry spells.
pub proof fn path_entry_pins_one_path(entry: Seq<char>, program: Seq<char>)
    requires
        entry.contains('/'),
    ensures
        entry_permits(entry, encode_utf8(program)) <==> program == entry,
{
    os::text_of_encoded(program);
}

/// An entry without a slash permits the program of that name in every directory, and bare.
pub proof fn name_entry_permits_anywhere(dir: Seq<u8>, name: Seq<u8>)
    requires
        valid_utf8(name),
        !name.contains(os::SLASH),
        os::names_something(name),
        name != seq![os::DOT, os::DOT],
    ensures
        entry_permits(decode_utf8(name), name),
        entry_permits(decode_utf8(name), dir.push(os::SLASH) + name),
{
    os::file_name_of_joined(dir, name);
    if decode_utf8(name).contains('/') {
        decode_utf8_encode_utf8(name);
        os::lemma_slash_encoded(decode_utf8(name));
    }
}

/// An entry without a slash permits programs of exactly that name and no others: in a directory
/// or bare, a program passes by it only if its last name is the entry, letter for letter.
pub proof fn name_entry_pins_one_name(entry: Seq<char>, dir: Seq<u8>, name: Seq<u8>)
    requires
        !entry.contains('/'),
        valid_utf8(name),
        !name.contains(47u8),
        name.len() > 0,
        name != seq![46u8],
        name != seq![46u8, 46u8],
    ensures
        entry_permits(entry, name) <==> entry == decode_utf8(name),
        entry_permits(entry, dir.push(47u8) + name) <==> entry == decode_utf8(name),
{
    os::file_name_of_joined(dir, name);
}

/// Whatever program an entry without a slash permits has that entry as its last name; so no
/// such entry permits two programs of different names.
pub proof fn name_entry_permits_one_name(entry: Seq<char>, a: Seq<u8>, b: Seq<u8>)
    requires
        !entry.contains('/'),
        entry_permits(entry, a),
    ensures
        base_name(a) == Some(entry),
        os::path_file_name(a) == Some(encode_utf8(entry)),
        entry_permits(entry, b) <==> os::path_file_name(b) == os::path_file_name(a),
{
    let name = os::path_file_name(a).unwrap();
    decode_utf8_encode_utf8(name);
    match os::path_file_name(b) {
        Some(other) => {
            if valid_utf8(other) {
                decode_utf8_encode_utf8(other);
            }
        },
        None => {},
    }
}

/// Of all programs that are text and have a plain last name, exactly those pass that the list
/// holds: by their whole path, or by their last name.
pub proof fn list_decides_by_path_or_name(
    entries: Set<Seq<char>>,
    dir: Seq<char>,
    name: Seq<char>,
)
    requires
        !encode_utf8(name).contains(47u8),
        name.len() > 0,
        encode_utf8(name) != seq![46u8],
        encode_utf8(name) != seq![46u8, 46u8],
    ensures
        permits(entries, encode_utf8(dir + "/"@ + name)) <==> entries.contains(dir + "/"@ + name)
            || entries.contains(name),
        permits(entries, encode_utf8(name)) <==> entries.contains(name),
{
    reveal_strlit("/");
    let path = dir + "/"@ + name;
    os::text_of_encoded(path);
    os::text_of_encoded(name);
    assert("/"@ =~= seq!['/']);
    assert(encode_utf8("/"@) == seq![47u8]) by {
        assert(0x2Fu32 & 0x7F == 0x2F) by (bit_vector);
        assert("/"@.drop_first() =~= Seq::<char>::empty());
        assert(encode_utf8(Seq::<char>::empty()) =~= Seq::<u8>::empty());
        assert(encode_scalar('/' as u32) =~= seq![47u8]);
        assert(encode_utf8("/"@) =~= seq![47u8]);
    }
    os::encode_joined(dir + "/"@, name);
    os::encode_joined(dir, "/"@);
    let front = encode_utf8(dir);
    assert(encode_utf8(dir + "/"@) =~= front.push(47u8));
    assert(encode_utf8(path) == front.push(47u8) + encode_utf8(name));
    assert(!name.contains('/')) by {
        if name.contains('/') {
            os::lemma_slash_encoded(name);
        }
    }
    assert(path[dir.len() as int] == '/');
    assert(encode_utf8(name).len() > 0) by {
        if encode_utf8(name).len() == 0 {
            assert(encode_utf8(name) =~= encode_utf8(Seq::<char>::empty()));
            encode_utf8_decode_utf8(Seq::<char>::empty());
            encode_utf8_decode_utf8(name);
        }
    }
    encode_utf8_decode_utf8(name);
    assert forall|entry: Seq<char>| #[trigger] entries.contains(entry) implies entry_permits(
        entry,
        encode_utf8(path),
    ) == (entry == path || entry == name) by {
        if entry.contains('/') {
        } else {
            name_entry_pins_one_name(entry, front, encode_utf8(name));
            assert(path.contains('/'));
        }
    }
    assert forall|entry: Seq<char>| #[trigger] entries.contains(entry) implies entry_permits(
        entry,
        encode_utf8(name),
    ) == (entry == name) by {
        if !entry.contains('/') {
            name_entry_pins_one_name(entry, front, encode_utf8(name));
        }
    }
}

/// A program without a name is denied whatever is permitted.
pub proof fn nameless_program_is_denied(entries: Set<Seq<char>>)
    ensures
        !permits(entries, Seq::empty()),
        denied_reason(Seq::empty()) == "command has no usable program name"@,
{
    os::text_of_encoded(Seq::empty());
    assert(encode_utf8(Seq::<char>::empty()) =~= Seq::<u8>::empty());
}

/// A denied program is called by its last name, wherever it lies, and the reason holds that name.
pub proof fn denial_names_the_program(dir: Seq<u8>, name: Seq<u8>)
    requires
        valid_utf8(name),
        !name.contains(47u8),
        name.len() > 0,
        name != seq![46u8],
        name != seq![46u8, 46u8],
        os::text_of(dir.push(47u8) + name).len() > 0,
    ensures
        denied_name(dir.push(47u8) + name) == decode_utf8(name),
        denied_reason(dir.push(47u8) + name) == "program '"@ + decode_utf8(name)
            + "' is not in the exec allowlist"@,
{
    os::file_name_of_joined(dir, name);
}

/// An entry with a slash goes by the whole path of a program, also of one that is no text: what
/// the path reads as is the entry, or the program is not permitted by it.
pub proof fn path_entry_goes_by_the_whole_path(entry: Seq<char>, program: Seq<u8>)
    requires
        entry.contains('/'),
    ensures
        entry_permits(entry, program) <==> os::text_of(program) == entry,
{
}

/// A program whose path has no last name, or one that is no text, is called by its whole path.
pub proof fn nameless_path_is_named_whole(program: Seq<u8>)
    requires
        os::path_file_name(program) matches Some(name) ==> !valid_utf8(name),
    ensures
        denied_name(program) == os::text_of(program),
{
}

} // verus!
