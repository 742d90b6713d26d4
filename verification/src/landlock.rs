//! What the Linux helper allows with Landlock, which can only allow: reading everywhere, and
//! writing to the bit bucket and below the writable roots.

use vstd::prelude::*;
use vstd::utf8::*;

use crate::os::OsText;

verus! {

/// Access that is allowed below a path.
#[derive(Debug, PartialEq, Eq)]
pub struct LandlockRule {
    pub path: OsText,
    /// Whether writing is allowed too, and not only reading.
    pub write: bool,
}

/// A rule as a mathematical value: the path, and whether writing is allowed.
impl DeepView for LandlockRule {
    type V = (Seq<u8>, bool);

    open spec fn deep_view(&self) -> (Seq<u8>, bool) {
        (self.path@, self.write)
    }
}

/// The rules for a list of writable roots.
pub open spec fn rules_for(roots: Seq<Seq<u8>>) -> Seq<(Seq<u8>, bool)> {
    seq![(encode_utf8("/"@), false), (encode_utf8("/dev/null"@), true)] + Seq::new(
        roots.len(),
        |i: int| (roots[i], true),
    )
}

/// The rules for a list of writable roots.
pub fn landlock_rules(writable_roots: &Vec<OsText>) -> (r: Vec<LandlockRule>)
    ensures
        r.deep_view() == rules_for(writable_roots.deep_view()),
{
    let mut rules: Vec<LandlockRule> = Vec::new();
    rules.push(LandlockRule { path: OsText::new("/"), write: false });
    rules.push(LandlockRule { path: OsText::new("/dev/null"), write: true });
    let mut i: usize = 0;
    while i < writable_roots.len()
        invariant
            i <= writable_roots@.len(),
            rules@.len() == i + 2,
            rules@[0].deep_view() == (encode_utf8("/"@), false),
            rules@[1].deep_view() == (encode_utf8("/dev/null"@), true),
            forall|k: int|
                0 <= k < i ==> (#[trigger] rules@[k + 2]).deep_view() == (
                    writable_roots@[k]@,
                    true,
                ),
        decreases writable_roots@.len() - i,
    {
        rules.push(LandlockRule { path: writable_roots[i].clone(), write: true });
        i = i + 1;
    }
    proof {
        let want = rules_for(writable_roots.deep_view());
        assert forall|j: int| 0 <= j < want.len() implies rules.deep_view()[j] == want[j] by {
            if j >= 2 {
                assert(rules@[(j - 2) + 2].deep_view() == (writable_roots@[j - 2]@, true));
            }
        }
        assert(rules.deep_view() =~= want);
    }
    rules
}

/// How far the kernel enforces a set of rules.
#[derive(Debug, Clone, Copy, PartialEq, Eq, Structural)]
pub enum Enforcement {
    Fully,
    Partially,
    NotAtAll,
}

/// Whether the helper may go on: not where the kernel enforces nothing.
pub fn check_enforced(status: Enforcement) -> (r: Result<(), String>)
    ensures
        r is Ok <==> status != Enforcement::NotAtAll,
        r matches Err(why) ==> why@
            == "Landlock ruleset NotEnforced (kernel too old or disabled)"@,
{
    if status == Enforcement::NotAtAll {
        Err("Landlock ruleset NotEnforced (kernel too old or disabled)".to_owned())
    } else {
        Ok(())
    }
}

/// Writing is allowed below the bit bucket and the writable roots, and nowhere else.
pub proof fn writes_only_below_roots(roots: Seq<Seq<u8>>, path: Seq<u8>)
    ensures
        rules_for(roots).contains((path, true)) <==> path == encode_utf8("/dev/null"@)
            || roots.contains(path),
{
    let rules = rules_for(roots);
    assert(rules[0] == (encode_utf8("/"@), false));
    assert(rules[1] == (encode_utf8("/dev/null"@), true));
    if roots.contains(path) {
        let i = choose|i: int| 0 <= i < roots.len() && roots[i] == path;
        assert(rules[i + 2] == (path, true));
    }
    if rules.contains((path, true)) {
        let j = choose|j: int| 0 <= j < rules.len() && rules[j] == (path, true);
        if j >= 2 {
            assert(roots[j - 2] == path);
        }
    }
}

/// Reading is allowed below the root, by one rule that allows no writing there; so nothing is
/// kept from being read, and the root is writable only where it was given as a writable root.
pub proof fn reads_everywhere(roots: Seq<Seq<u8>>, path: Seq<u8>)
    ensures
        rules_for(roots).contains((encode_utf8("/"@), false)),
        rules_for(roots).contains((path, false)) ==> path == encode_utf8("/"@),
        rules_for(roots).len() == roots.len() + 2,
{
    let rules = rules_for(roots);
    assert(rules[0] == (encode_utf8("/"@), false));
    if rules.contains((path, false)) {
        let j = choose|j: int| 0 <= j < rules.len() && rules[j] == (path, false);
        if j >= 2 {
            assert(rules[j] == (roots[j - 2], true));
        } else if j == 1 {
            assert(rules[1] == (encode_utf8("/dev/null"@), true));
        }
    }
}

} // verus!
