//! A child's environment: names with values, in the order of the names.

use vstd::prelude::*;

use crate::os::OsText;

verus! {

/// `a` comes before `b` in byte order.
pub open spec fn before(a: Seq<u8>, b: Seq<u8>) -> bool
    decreases a.len(),
{
    if b.len() == 0 {
        false
    } else if a.len() == 0 {
        true
    } else if a[0] != b[0] {
        a[0] < b[0]
    } else {
        before(a.drop_first(), b.drop_first())
    }
}

proof fn lemma_before_irreflexive(a: Seq<u8>)
    ensures
        !before(a, a),
    decreases a.len(),
{
    if a.len() > 0 {
        lemma_before_irreflexive(a.drop_first());
    }
}

proof fn lemma_before_transitive(a: Seq<u8>, b: Seq<u8>, c: Seq<u8>)
    requires
        before(a, b),
        before(b, c),
    ensures
        before(a, c),
    decreases a.len(),
{
    if a.len() > 0 && a[0] == b[0] && b[0] == c[0] {
        lemma_before_transitive(a.drop_first(), b.drop_first(), c.drop_first());
    }
}

proof fn lemma_before_total(a: Seq<u8>, b: Seq<u8>)
    ensures
        before(a, b) || before(b, a) || a == b,
    decreases a.len(),
{
    if a.len() == 0 && b.len() == 0 {
        assert(a =~= b);
    } else if a.len() > 0 && b.len() > 0 && a[0] == b[0] {
        lemma_before_total(a.drop_first(), b.drop_first());
        if a.drop_first() == b.drop_first() {
            assert(a =~= seq![a[0]] + a.drop_first());
            assert(b =~= seq![b[0]] + b.drop_first());
        }
    }
}

/// How `before` goes on after a common front of `k` bytes.
proof fn lemma_before_skip(a: Seq<u8>, b: Seq<u8>, k: int)
    requires
        0 <= k <= a.len(),
        k <= b.len(),
        forall|i: int| 0 <= i < k ==> a[i] == b[i],
    ensures
        before(a, b) == before(a.skip(k), b.skip(k)),
    decreases k,
{
    if k == 0 {
        assert(a.skip(0) =~= a);
        assert(b.skip(0) =~= b);
    } else {
        lemma_before_skip(a.drop_first(), b.drop_first(), k - 1);
        assert(a.drop_first().skip(k - 1) =~= a.skip(k));
        assert(b.drop_first().skip(k - 1) =~= b.skip(k));
    }
}

/// Whether `a` comes before `b` in byte order.
fn comes_before(a: &OsText, b: &OsText) -> (r: bool)
    ensures
        r == before(a@, b@),
{
    let mut i: usize = 0;
    while i < a.bytes.len() && i < b.bytes.len()
        invariant
            i <= a@.len(),
            i <= b@.len(),
            forall|k: int| 0 <= k < i ==> a@[k] == b@[k],
        decreases a@.len() - i,
    {
        if a.bytes[i] != b.bytes[i] {
            proof {
                lemma_before_skip(a@, b@, i as int);
            }
            return a.bytes[i] < b.bytes[i];
        }
        i = i + 1;
    }
    proof {
        lemma_before_skip(a@, b@, i as int);
    }
    i < b.bytes.len()
}

/// Environment entries with ascending names, so that no name occurs twice.
#[derive(Debug, PartialEq, Eq)]
pub struct EnvMap {
    entries: Vec<(OsText, OsText)>,
}

/// The names are in ascending order.
spec fn ascending(entries: Seq<(OsText, OsText)>) -> bool {
    forall|i: int, j: int|
        0 <= i < j < entries.len() ==> before(#[trigger] entries[i].0@, #[trigger] entries[j].0@)
}

/// The value of every name that occurs.
spec fn content(entries: Seq<(OsText, OsText)>) -> Map<Seq<u8>, Seq<u8>>
    decreases entries.len(),
{
    if entries.len() == 0 {
        Map::empty()
    } else {
        content(entries.drop_last()).insert(entries.last().0@, entries.last().1@)
    }
}

/// A name is present exactly if some entry has it, and has that entry's value.
proof fn lemma_content(entries: Seq<(OsText, OsText)>)
    requires
        ascending(entries),
    ensures
        forall|k: Seq<u8>| #[trigger]
            content(entries).dom().contains(k) <==> exists|i: int|
                0 <= i < entries.len() && (#[trigger] entries[i]).0@ == k,
        forall|i: int|
            0 <= i < entries.len() ==> content(entries)[(#[trigger] entries[i]).0@]
                == entries[i].1@,
    decreases entries.len(),
{
    if entries.len() > 0 {
        let rest = entries.drop_last();
        assert forall|i: int, j: int| 0 <= i < j < rest.len() implies before(
            #[trigger] rest[i].0@,
            #[trigger] rest[j].0@,
        ) by {
            assert(before(entries[i].0@, entries[j].0@));
        }
        lemma_content(rest);
        assert forall|k: Seq<u8>| #[trigger]
            content(entries).dom().contains(k) <==> exists|i: int|
                0 <= i < entries.len() && (#[trigger] entries[i]).0@ == k by {
            if content(entries).dom().contains(k) {
                if k == entries.last().0@ {
                    assert(entries[entries.len() - 1].0@ == k);
                } else {
                    assert(content(rest).dom().contains(k));
                    let i = choose|i: int| 0 <= i < rest.len() && (#[trigger] rest[i]).0@ == k;
                    assert(entries[i].0@ == k);
                }
            }
            if exists|i: int| 0 <= i < entries.len() && (#[trigger] entries[i]).0@ == k {
                let i = choose|i: int| 0 <= i < entries.len() && (#[trigger] entries[i]).0@ == k;
                if i < rest.len() {
                    assert(rest[i].0@ == k);
                }
            }
        }
        assert forall|i: int| 0 <= i < entries.len() implies content(entries)[(
        #[trigger] entries[i]).0@] == entries[i].1@ by {
            if i < rest.len() {
                assert(rest[i] == entries[i]);
                assert(before(entries[i].0@, entries[entries.len() - 1].0@));
                lemma_before_irreflexive(entries.last().0@);
            }
        }
    }
}

impl DeepView for EnvMap {
    type V = Map<Seq<u8>, Seq<u8>>;

    closed spec fn deep_view(&self) -> Map<Seq<u8>, Seq<u8>> {
        content(self.entries@)
    }
}

impl View for EnvMap {
    type V = Map<Seq<u8>, Seq<u8>>;

    open spec fn view(&self) -> Map<Seq<u8>, Seq<u8>> {
        self.deep_view()
    }
}

impl EnvMap {
    #[verifier::type_invariant]
    spec fn sorted(self) -> bool {
        ascending(self.entries@)
    }

    /// An empty environment.
    pub fn new() -> (r: Self)
        ensures
            r@ == Map::<Seq<u8>, Seq<u8>>::empty(),
    {
        EnvMap { entries: Vec::new() }
    }

    /// How many entries come before `name`.
    fn position(&self, name: &OsText) -> (r: usize)
        ensures
            r <= self.entries@.len(),
            forall|i: int| 0 <= i < r ==> before((#[trigger] self.entries@[i]).0@, name@),
            r < self.entries@.len() ==> !before(self.entries@[r as int].0@, name@),
    {
        let mut i: usize = 0;
        while i < self.entries.len() && comes_before(&self.entries[i].0, name)
            invariant
                i <= self.entries@.len(),
                forall|k: int| 0 <= k < i ==> before((#[trigger] self.entries@[k]).0@, name@),
            decreases self.entries@.len() - i,
        {
            i = i + 1;
        }
        i
    }

    /// The value of a name.
    pub fn get(&self, name: &OsText) -> (r: Option<OsText>)
        ensures
            r.deep_view() == (if self@.dom().contains(name@) {
                Some(self@[name@])
            } else {
                None
            }),
    {
        proof {
            use_type_invariant(self);
            lemma_content(self.entries@);
        }
        let i: usize = self.position(name);
        if i < self.entries.len() && self.entries[i].0.same(name) {
            assert(self.entries@[i as int].0@ == name@);
            Some(self.entries[i].1.clone())
        } else {
            proof {
                if self@.dom().contains(name@) {
                    let k = choose|k: int|
                        0 <= k < self.entries@.len() && (#[trigger] self.entries@[k]).0@ == name@;
                    lemma_before_irreflexive(name@);
                    assert(k >= i);
                    if k > i {
                        assert(before(self.entries@[i as int].0@, self.entries@[k].0@));
                    }
                }
            }
            None
        }
    }

    /// Whether a name is present.
    pub fn contains_key(&self, name: &OsText) -> (r: bool)
        ensures
            r == self@.dom().contains(name@),
    {
        self.get(name).is_some()
    }

    /// Sets the value of a name.
    pub fn insert(&mut self, name: OsText, value: OsText)
        ensures
            final(self)@ == old(self)@.insert(name@, value@),
    {
        proof {
            use_type_invariant(&*self);
        }
        let ghost entries0 = self.entries@;
        let ghost n = name@;
        let ghost v = value@;
        let at: usize = self.position(&name);
        let mut entries: Vec<(OsText, OsText)> = Vec::new();
        std::mem::swap(&mut entries, &mut self.entries);
        if at < entries.len() && entries[at].0.same(&name) {
            let _ = entries.remove(at);
            assert(entries@ =~= entries0.remove(at as int));
        } else {
            proof {
                if at < entries0.len() {
                    lemma_before_total(entries0[at as int].0@, n);
                }
            }
        }
        let ghost entries1 = entries@;
        entries.insert(at, (name, value));
        proof {
            lemma_before_irreflexive(n);
            assert forall|i: int, j: int| 0 <= i < j < entries@.len() implies before(
                #[trigger] entries@[i].0@,
                #[trigger] entries@[j].0@,
            ) by {
                let i0 = if i < at {
                    i
                } else {
                    i + (entries0.len() - entries1.len()) - 1
                };
                let j0 = if j < at {
                    j
                } else {
                    j + (entries0.len() - entries1.len()) - 1
                };
                if j < at {
                    assert(before(entries0[i].0@, entries0[j].0@));
                } else if j == at {
                    assert(before(entries0[i].0@, n));
                } else {
                    assert(entries@[j] == entries0[j0]);
                    if i < at {
                        assert(before(entries0[i].0@, entries0[j0].0@));
                    } else if i == at {
                        if j0 > at {
                            assert(before(entries0[at as int].0@, entries0[j0].0@));
                            if before(n, entries0[at as int].0@) {
                                lemma_before_transitive(
                                    n,
                                    entries0[at as int].0@,
                                    entries0[j0].0@,
                                );
                            }
                        }
                    } else {
                        assert(entries@[i] == entries0[i0]);
                        assert(before(entries0[i0].0@, entries0[j0].0@));
                    }
                }
            }
            lemma_content(entries0);
            lemma_content(entries@);
            let a = content(entries@);
            let b = content(entries0).insert(n, v);
            assert(entries@[at as int].0@ == n);
            assert(a[n] == v);
            assert forall|k: Seq<u8>| #[trigger] a.dom().contains(k) == b.dom().contains(k) by {
                if a.dom().contains(k) && k != n {
                    let i = choose|i: int| 0 <= i < entries@.len() && (#[trigger] entries@[i]).0@ == k;
                    let i0 = if i < at {
                        i
                    } else {
                        i + (entries0.len() - entries1.len()) - 1
                    };
                    assert(entries0[i0].0@ == k);
                }
                if content(entries0).dom().contains(k) && k != n {
                    let i0 = choose|i: int| 0 <= i < entries0.len() && (#[trigger] entries0[i]).0@ == k;
                    let i = if i0 < at {
                        i0
                    } else {
                        i0 - (entries0.len() - entries1.len()) + 1
                    };
                    assert(entries@[i] == entries0[i0]);
                }
            }
            assert forall|k: Seq<u8>| #[trigger] a.dom().contains(k) implies a[k] == b[k] by {
                if k != n {
                    let i = choose|i: int| 0 <= i < entries@.len() && (#[trigger] entries@[i]).0@ == k;
                    let i0 = if i < at {
                        i
                    } else {
                        i + (entries0.len() - entries1.len()) - 1
                    };
                    assert(entries@[i] == entries0[i0]);
                    assert(content(entries0)[entries0[i0].0@] == entries0[i0].1@);
                    assert(content(entries@)[entries@[i].0@] == entries@[i].1@);
                }
            }
            assert(a =~= b);
        }
        self.entries = entries;
    }

    /// Drops a name.
    pub fn remove(&mut self, name: &OsText)
        ensures
            final(self)@ == old(self)@.remove(name@),
    {
        proof {
            use_type_invariant(&*self);
        }
        let ghost entries0 = self.entries@;
        let at: usize = self.position(name);
        let mut entries: Vec<(OsText, OsText)> = Vec::new();
        std::mem::swap(&mut entries, &mut self.entries);
        let found: bool = at < entries.len() && entries[at].0.same(name);
        if found {
            let _ = entries.remove(at);
        }
        proof {
            lemma_before_irreflexive(name@);
            assert forall|i: int, j: int| 0 <= i < j < entries@.len() implies before(
                #[trigger] entries@[i].0@,
                #[trigger] entries@[j].0@,
            ) by {
                let i0 = if found && i >= at {
                    i + 1
                } else {
                    i
                };
                let j0 = if found && j >= at {
                    j + 1
                } else {
                    j
                };
                assert(entries@[i] == entries0[i0]);
                assert(entries@[j] == entries0[j0]);
                assert(before(entries0[i0].0@, entries0[j0].0@));
            }
            lemma_content(entries0);
            lemma_content(entries@);
            let a = content(entries@);
            let b = content(entries0).remove(name@);
            assert forall|i: int| 0 <= i < entries@.len() implies (#[trigger] entries@[i]).0@
                != name@ by {
                let i0 = if found && i >= at {
                    i + 1
                } else {
                    i
                };
                assert(entries@[i] == entries0[i0]);
                if i0 > at {
                    assert(before(entries0[at as int].0@, entries0[i0].0@));
                }
            }
            assert forall|k: Seq<u8>| #[trigger] a.dom().contains(k) == b.dom().contains(k) by {
                if a.dom().contains(k) {
                    let i = choose|i: int| 0 <= i < entries@.len() && (#[trigger] entries@[i]).0@ == k;
                    let i0 = if found && i >= at {
                        i + 1
                    } else {
                        i
                    };
                    assert(entries0[i0].0@ == k);
                }
                if b.dom().contains(k) {
                    let i0 = choose|i: int| 0 <= i < entries0.len() && (#[trigger] entries0[i]).0@ == k;
                    let i = if found && i0 > at {
                        i0 - 1
                    } else {
                        i0
                    };
                    assert(entries@[i] == entries0[i0]);
                }
            }
            assert forall|k: Seq<u8>| #[trigger] a.dom().contains(k) implies a[k] == b[k] by {
                let i = choose|i: int| 0 <= i < entries@.len() && (#[trigger] entries@[i]).0@ == k;
                let i0 = if found && i >= at {
                    i + 1
                } else {
                    i
                };
                assert(entries@[i] == entries0[i0]);
                assert(content(entries0)[entries0[i0].0@] == entries0[i0].1@);
            }
            assert(a =~= b);
        }
        self.entries = entries;
    }

    /// The entries, in the order of the names.
    pub fn pairs(&self) -> (r: Vec<(OsText, OsText)>)
        ensures
            forall|i: int, j: int|
                0 <= i < j < r@.len() ==> before(#[trigger] r@[i].0@, #[trigger] r@[j].0@),
            forall|i: int|
                0 <= i < r@.len() ==> self@.dom().contains((#[trigger] r@[i]).0@)
                    && self@[r@[i].0@] == r@[i].1@,
            forall|k: Seq<u8>| #[trigger]
                self@.dom().contains(k) ==> exists|i: int|
                    0 <= i < r@.len() && (#[trigger] r@[i]).0@ == k,
    {
        proof {
            use_type_invariant(self);
            lemma_content(self.entries@);
        }
        let r: Vec<(OsText, OsText)> = copy_entries(&self.entries);
        proof {
            assert forall|i: int, j: int| 0 <= i < j < r@.len() implies before(
                #[trigger] r@[i].0@,
                #[trigger] r@[j].0@,
            ) by {
                assert(before(self.entries@[i].0@, self.entries@[j].0@));
            }
            assert forall|i: int| 0 <= i < r@.len() implies self@.dom().contains((#[trigger] r@[i]).0@)
                && self@[r@[i].0@] == r@[i].1@ by {
                assert(self.entries@[i].0@ == r@[i].0@);
            }
            assert forall|k: Seq<u8>| #[trigger] self@.dom().contains(k) implies exists|i: int|
                0 <= i < r@.len() && (#[trigger] r@[i]).0@ == k by {
                let i = choose|i: int|
                    0 <= i < self.entries@.len() && (#[trigger] self.entries@[i]).0@ == k;
                assert(r@[i].0@ == k);
            }
        }
        r
    }
}

/// A copy of a list of entries.
fn copy_entries(list: &Vec<(OsText, OsText)>) -> (r: Vec<(OsText, OsText)>)
    ensures
        r@.len() == list@.len(),
        forall|i: int|
            0 <= i < r@.len() ==> (#[trigger] r@[i]).0@ == list@[i].0@ && r@[i].1@ == list@[i].1@,
{
    let mut out: Vec<(OsText, OsText)> = Vec::new();
    let mut i: usize = 0;
    while i < list.len()
        invariant
            i <= list@.len(),
            out@.len() == i,
            forall|k: int|
                0 <= k < i ==> (#[trigger] out@[k]).0@ == list@[k].0@ && out@[k].1@ == list@[k].1@,
        decreases list@.len() - i,
    {
        let entry: &(OsText, OsText) = &list[i];
        out.push((entry.0.clone(), entry.1.clone()));
        i = i + 1;
    }
    out
}

proof fn lemma_content_same(a: Seq<(OsText, OsText)>, b: Seq<(OsText, OsText)>)
    requires
        a.len() == b.len(),
        forall|i: int|
            0 <= i < a.len() ==> (#[trigger] a[i]).0@ == b[i].0@ && a[i].1@ == b[i].1@,
    ensures
        content(a) == content(b),
    decreases a.len(),
{
    if a.len() > 0 {
        assert(a.last() == a[a.len() - 1]);
        assert forall|i: int| 0 <= i < a.drop_last().len() implies (#[trigger] a.drop_last()[i]).0@
            == b.drop_last()[i].0@ && a.drop_last()[i].1@ == b.drop_last()[i].1@ by {
            assert(a[i].0@ == b[i].0@);
        }
        lemma_content_same(a.drop_last(), b.drop_last());
    }
}

impl Clone for EnvMap {
    fn clone(&self) -> (r: Self)
        ensures
            r@ == self@,
    {
        proof {
            use_type_invariant(self);
        }
        let entries: Vec<(OsText, OsText)> = copy_entries(&self.entries);
        proof {
            assert forall|i: int, j: int| 0 <= i < j < entries@.len() implies before(
                #[trigger] entries@[i].0@,
                #[trigger] entries@[j].0@,
            ) by {
                assert(before(self.entries@[i].0@, self.entries@[j].0@));
            }
            lemma_content_same(entries@, self.entries@);
        }
        EnvMap { entries }
    }
}

} // verus!
