//! The registry of programmable completions: for each command name, the
//! path of the program that `complete -C` registered to complete its
//! arguments.

use vstd::prelude::*;

use crate::text::text_eq;

verus! {

/// A map from command names to completer paths, each command at most once.
pub struct Completions {
    entries: Vec<(String, String)>,
}

/// The command names of a list of entries.
pub open spec fn keys_of(entries: Seq<(String, String)>) -> Seq<Seq<char>> {
    entries.map_values(|e: (String, String)| e.0@)
}

/// No command name occurs twice.
pub open spec fn keys_unique(entries: Seq<(String, String)>) -> bool {
    forall|i: int, j: int|
        0 <= i < entries.len() && 0 <= j < entries.len() && i != j ==> (#[trigger] entries[i]).0@
            != (#[trigger] entries[j]).0@
}

/// `k` is the command name of some entry.
pub open spec fn has_key(entries: Seq<(String, String)>, k: Seq<char>) -> bool {
    exists|i: int| 0 <= i < entries.len() && (#[trigger] entries[i]).0@ == k
}

/// The position of the entry for `k`.
pub open spec fn position_of(entries: Seq<(String, String)>, k: Seq<char>) -> int {
    choose|i: int| 0 <= i < entries.len() && (#[trigger] entries[i]).0@ == k
}

/// The map that a list of entries stands for.
pub open spec fn map_of(entries: Seq<(String, String)>) -> Map<Seq<char>, Seq<char>> {
    Map::new(|k: Seq<char>| has_key(entries, k), |k: Seq<char>| entries[position_of(entries, k)].1@)
}

proof fn lemma_position_unique(entries: Seq<(String, String)>, j: int)
    requires
        keys_unique(entries),
        0 <= j < entries.len(),
    ensures
        has_key(entries, entries[j].0@),
        position_of(entries, entries[j].0@) == j,
{
    assert(entries[j].0@ == entries[j].0@);
}

impl Completions {
    #[verifier::type_invariant]
    spec fn unique(self) -> bool {
        keys_unique(self.entries@)
    }

    /// The registered completions, by command name.
    pub closed spec fn view(&self) -> Map<Seq<char>, Seq<char>> {
        map_of(self.entries@)
    }

    /// An empty registry.
    pub fn new() -> (c: Completions)
        ensures
            c.view() == Map::<Seq<char>, Seq<char>>::empty(),
    {
        let c = Completions { entries: Vec::new() };
        assert(c.view() =~= Map::<Seq<char>, Seq<char>>::empty());
        c
    }

    /// The position of the entry for `cmd`, if there is one.
    fn find(&self, cmd: &str) -> (r: Option<usize>)
        ensures
            match r {
                Some(i) => i < self.entries@.len() && self.entries@[i as int].0@ == cmd@,
                None => !has_key(self.entries@, cmd@),
            },
    {
        let mut i: usize = 0;
        while i < self.entries.len()
            invariant
                i <= self.entries@.len(),
                forall|j: int| 0 <= j < i ==> (#[trigger] self.entries@[j]).0@ != cmd@,
            decreases self.entries.len() - i,
        {
            if text_eq(self.entries[i].0.as_str(), cmd) {
                return Some(i);
            }
            i = i + 1;
        }
        None
    }

    /// The completer path registered for `cmd`, if any.
    pub fn get(&self, cmd: &str) -> (r: Option<String>)
        ensures
            match r {
                Some(p) => lookup(self.view(), cmd@) == Some(p@),
                None => lookup(self.view(), cmd@) is None,
            },
    {
        proof {
            use_type_invariant(self);
        }
        match self.find(cmd) {
            Some(i) => {
                proof {
                    lemma_position_unique(self.entries@, i as int);
                }
                Some(self.entries[i].1.clone())
            },
            None => None,
        }
    }

    /// Registers `path` as the completer of `cmd`, replacing any earlier one.
    pub fn register(&mut self, cmd: String, path: String)
        ensures
            final(self).view() == old(self).view().insert(cmd@, path@),
    {
        proof {
            use_type_invariant(&*self);
        }
        let ghost old_entries = self.entries@;
        let ghost target = old(self).view().insert(cmd@, path@);
        match self.find(cmd.as_str()) {
            Some(i) => {
                let mut entries: Vec<(String, String)> = Vec::new();
                std::mem::swap(&mut entries, &mut self.entries);
                let key = entries[i].0.clone();
                entries.set(i, (key, path));
                let ghost ne = entries@;
                proof {
                    assert(keys_unique(ne)) by {
                        assert forall|a: int, b: int|
                            0 <= a < ne.len() && 0 <= b < ne.len() && a != b implies (
                            #[trigger] ne[a]).0@ != (#[trigger] ne[b]).0@ by {
                            assert(ne[a].0@ == old_entries[a].0@);
                            assert(ne[b].0@ == old_entries[b].0@);
                        }
                    }
                    assert forall|k: Seq<char>| has_key(ne, k) <==> target.dom().contains(k) by {
                        if has_key(ne, k) {
                            let j = position_of(ne, k);
                            assert(old_entries[j].0@ == k);
                        }
                        if has_key(old_entries, k) {
                            let j = position_of(old_entries, k);
                            assert(ne[j].0@ == k);
                        }
                        if k == cmd@ {
                            assert(ne[i as int].0@ == k);
                        }
                    }
                    assert forall|k: Seq<char>| has_key(ne, k) implies ne[position_of(ne, k)].1@
                        == target[k] by {
                        let j = position_of(ne, k);
                        lemma_position_unique(ne, j);
                        if k == cmd@ {
                            lemma_position_unique(ne, i as int);
                        } else {
                            lemma_position_unique(old_entries, j);
                            assert(old_entries[j].0@ == k);
                        }
                    }
                    assert(map_of(ne) =~= target);
                }
                self.entries = entries;
            },
            None => {
                let mut entries: Vec<(String, String)> = Vec::new();
                std::mem::swap(&mut entries, &mut self.entries);
                entries.push((cmd, path));
                let ghost ne = entries@;
                let ghost n = old_entries.len() as int;
                proof {
                    assert(ne[n].0@ == cmd@);
                    assert(keys_unique(ne)) by {
                        assert forall|a: int, b: int|
                            0 <= a < ne.len() && 0 <= b < ne.len() && a != b implies (
                            #[trigger] ne[a]).0@ != (#[trigger] ne[b]).0@ by {
                            if a < n && b < n {
                                assert(ne[a] == old_entries[a] && ne[b] == old_entries[b]);
                            } else if a < n {
                                assert(ne[a] == old_entries[a]);
                            } else if b < n {
                                assert(ne[b] == old_entries[b]);
                            }
                        }
                    }
                    assert forall|k: Seq<char>| has_key(ne, k) <==> target.dom().contains(k) by {
                        if has_key(ne, k) {
                            let j = position_of(ne, k);
                            if j < n {
                                assert(old_entries[j].0@ == k);
                            }
                        }
                        if has_key(old_entries, k) {
                            let j = position_of(old_entries, k);
                            assert(ne[j].0@ == k);
                        }
                    }
                    assert forall|k: Seq<char>| has_key(ne, k) implies ne[position_of(ne, k)].1@
                        == target[k] by {
                        let j = position_of(ne, k);
                        lemma_position_unique(ne, j);
                        if j < n {
                            assert(ne[j] == old_entries[j]);
                            lemma_position_unique(old_entries, j);
                        }
                    }
                    assert(map_of(ne) =~= target);
                }
                self.entries = entries;
            },
        }
    }

    /// Forgets the completer of `cmd`, if one is registered.
    pub fn unregister(&mut self, cmd: &str)
        ensures
            final(self).view() == old(self).view().remove(cmd@),
    {
        proof {
            use_type_invariant(&*self);
        }
        let ghost old_entries = self.entries@;
        let ghost target = old(self).view().remove(cmd@);
        match self.find(cmd) {
            Some(i) => {
                let mut entries: Vec<(String, String)> = Vec::new();
                std::mem::swap(&mut entries, &mut self.entries);
                entries.remove(i);
                let ghost ne = entries@;
                let ghost old_index = |j: int| if j < i { j } else { j + 1 };
                proof {
                    assert forall|j: int| 0 <= j < ne.len() implies #[trigger] ne[j]
                        == old_entries[old_index(j)] by {}
                    assert(keys_unique(ne)) by {
                        assert forall|a: int, b: int|
                            0 <= a < ne.len() && 0 <= b < ne.len() && a != b implies (
                            #[trigger] ne[a]).0@ != (#[trigger] ne[b]).0@ by {
                            assert(ne[a] == old_entries[old_index(a)]);
                            assert(ne[b] == old_entries[old_index(b)]);
                        }
                    }
                    assert forall|k: Seq<char>| has_key(ne, k) <==> target.dom().contains(k) by {
                        if has_key(ne, k) {
                            let j = position_of(ne, k);
                            assert(ne[j] == old_entries[old_index(j)]);
                            assert(old_index(j) != i);
                        }
                        if has_key(old_entries, k) && k != cmd@ {
                            let j = position_of(old_entries, k);
                            assert(j != i);
                            if j < i {
                                assert(ne[j] == old_entries[j]);
                                assert(ne[j].0@ == k);
                            } else {
                                assert(ne[j - 1] == old_entries[j]);
                                assert(ne[j - 1].0@ == k);
                            }
                        }
                    }
                    assert forall|k: Seq<char>| has_key(ne, k) implies ne[position_of(ne, k)].1@
                        == target[k] by {
                        let j = position_of(ne, k);
                        lemma_position_unique(ne, j);
                        assert(ne[j] == old_entries[old_index(j)]);
                        lemma_position_unique(old_entries, old_index(j));
                    }
                    assert(map_of(ne) =~= target);
                }
                self.entries = entries;
            },
            None => {
                assert(old(self).view() =~= target);
            },
        }
    }
}

/// What `get` finds for `cmd` in a registry whose view is `m`.
pub open spec fn lookup(m: Map<Seq<char>, Seq<char>>, cmd: Seq<char>) -> Option<Seq<char>> {
    if m.dom().contains(cmd) {
        Some(m[cmd])
    } else {
        None
    }
}

/// `get` right after `register(cmd, path)` finds `path`; every other
/// command is found as before. `after` is any registry that `register`
/// leaves when called on `before` (its `ensures`).
pub proof fn law_get_after_register(
    before: Completions,
    after: Completions,
    cmd: Seq<char>,
    path: Seq<char>,
    other: Seq<char>,
)
    requires
        after.view() == before.view().insert(cmd, path),
    ensures
        lookup(after.view(), cmd) == Some(path),
        other != cmd ==> lookup(after.view(), other) == lookup(before.view(), other),
{
}

/// `get` right after `unregister(cmd)` finds nothing for `cmd`; every other
/// command is found as before. `after` is any registry that `unregister`
/// leaves when called on `before` (its `ensures`).
pub proof fn law_get_after_unregister(
    before: Completions,
    after: Completions,
    cmd: Seq<char>,
    other: Seq<char>,
)
    requires
        after.view() == before.view().remove(cmd),
    ensures
        lookup(after.view(), cmd) is None,
        other != cmd ==> lookup(after.view(), other) == lookup(before.view(), other),
{
}

/// A new registry finds nothing.
pub proof fn law_get_in_new(c: Completions, cmd: Seq<char>)
    requires
        c.view() == Map::<Seq<char>, Seq<char>>::empty(),
    ensures
        lookup(c.view(), cmd) is None,
{
}

} // verus!
