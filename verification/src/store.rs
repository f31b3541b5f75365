//! The scope store: the mapping from directory path to scope.

use crate::assoc::{
    assoc_map, keys_unique, lemma_assoc_map_absent, lemma_assoc_map_index, lemma_assoc_map_push,
    lemma_assoc_map_remove, lemma_keys_unique_remove,
};
use crate::path::DirPath;
use crate::scope::Scope;
use vstd::prelude::*;

verus! {

/// All known directory-scoped settings: each directory path holds at
/// most one scope. Empty scopes may be present; they answer every read
/// as an absent entry would.
pub struct Data {
    entries: Vec<(DirPath, Scope)>,
}

impl View for Data {
    type V = Map<Seq<Seq<char>>, Map<Seq<char>, Seq<char>>>;

    closed spec fn view(&self) -> Map<Seq<Seq<char>>, Map<Seq<char>, Seq<char>>> {
        assoc_map(self.entries.deep_view())
    }
}

impl Data {
    /// Each path is held by at most one entry, and each scope is valid.
    pub closed spec fn wf(&self) -> bool {
        &&& keys_unique(self.entries.deep_view())
        &&& forall|i: int| 0 <= i < self.entries@.len() ==> (#[trigger] self.entries@[i]).1.wf()
    }

    /// The index of the entry holding a path, if any.
    fn find(&self, path: &DirPath) -> (r: Option<usize>)
        ensures
            match r {
                Some(i) => i < self.entries@.len() && self.entries@[i as int].0@ == path@,
                None => forall|i: int| 0 <= i < self.entries@.len() ==> self.entries@[i].0@
                    != path@,
            },
    {
        let n = self.entries.len();
        let mut i: usize = 0;
        while i < n
            invariant
                n == self.entries@.len(),
                i <= n,
                forall|j: int| 0 <= j < i ==> self.entries@[j].0@ != path@,
            decreases n - i,
        {
            if self.entries[i].0.eq_path(path) {
                return Some(i);
            }
            i += 1;
        }
        None
    }

    /// The scope held for an exact directory path, or absence.
    pub fn get_scope(&self, path: &DirPath) -> (r: Option<&Scope>)
        requires
            self.wf(),
        ensures
            match r {
                Some(sc) => self@.contains_key(path@) && self@[path@] == sc@ && sc.wf(),
                None => !self@.contains_key(path@),
            },
    {
        let found = self.find(path);
        match found {
            Some(i) => {
                proof {
                    let dv = self.entries.deep_view();
                    assert(dv[i as int].0 == self.entries@[i as int].0@);
                    assert(dv[i as int].1 == self.entries@[i as int].1@);
                    lemma_assoc_map_index(dv, i as int);
                }
                Some(&self.entries[i].1)
            },
            None => {
                proof {
                    let dv = self.entries.deep_view();
                    assert forall|j: int| 0 <= j < dv.len() implies dv[j].0 != path@ by {
                        assert(dv[j].0 == self.entries@[j].0@);
                    }
                    lemma_assoc_map_absent(dv, path@);
                }
                None
            },
        }
    }

    /// Makes sure a scope exists for the path, creating an empty one
    /// when the path held none.
    pub fn get_or_create_scope(&mut self, path: DirPath)
        requires
            old(self).wf(),
        ensures
            final(self).wf(),
            final(self)@ == if old(self)@.contains_key(path@) {
                old(self)@
            } else {
                old(self)@.insert(path@, Map::<Seq<char>, Seq<char>>::empty())
            },
    {
        let found = self.find(&path);
        match found {
            Some(i) => {
                proof {
                    let dv = self.entries.deep_view();
                    assert(dv[i as int].0 == self.entries@[i as int].0@);
                    lemma_assoc_map_index(dv, i as int);
                }
            },
            None => {
                let ghost odv = self.entries.deep_view();
                let ghost pth = path@;
                let sc = Scope::new();
                self.entries.push((path, sc));
                proof {
                    assert forall|j: int| 0 <= j < odv.len() implies odv[j].0 != pth by {
                        assert(odv[j].0 == old(self).entries@[j].0@);
                    }
                    lemma_assoc_map_absent(odv, pth);
                    self.lemma_after_push(odv, pth, sc@);
                }
            },
        }
    }

    /// After pushing one entry with a key no earlier entry holds, the
    /// store is the old one with that key inserted, and stays valid.
    proof fn lemma_after_push(
        &self,
        odv: Seq<(Seq<Seq<char>>, Map<Seq<char>, Seq<char>>)>,
        pth: Seq<Seq<char>>,
        scv: Map<Seq<char>, Seq<char>>,
    )
        requires
            keys_unique(odv),
            forall|j: int| 0 <= j < odv.len() ==> odv[j].0 != pth,
            self.entries@.len() == odv.len() + 1,
            forall|j: int|
                0 <= j < odv.len() ==> (#[trigger] self.entries@[j].0@, self.entries@[j].1@)
                    == odv[j],
            forall|j: int| 0 <= j < odv.len() ==> (#[trigger] self.entries@[j]).1.wf(),
            self.entries@[odv.len() as int].0@ == pth,
            self.entries@[odv.len() as int].1@ == scv,
            self.entries@[odv.len() as int].1.wf(),
        ensures
            self.wf(),
            self@ == assoc_map(odv).insert(pth, scv),
    {
        let ndv = self.entries.deep_view();
        assert forall|j: int| 0 <= j < ndv.len() implies ndv[j] == odv.push((pth, scv))[j] by {
            assert(ndv[j] == (self.entries@[j].0@, self.entries@[j].1@));
        }
        assert(ndv =~= odv.push((pth, scv)));
        lemma_assoc_map_push(odv, pth, scv);
        assert forall|a: int, b: int| 0 <= a < b < ndv.len() implies ndv[a].0 != ndv[b].0 by {
            if b == ndv.len() - 1 {
                assert(ndv[a] == odv[a]);
            }
        }
    }

    /// Inserts or overwrites a key in the scope at the path, creating
    /// the scope when the path held none.
    pub fn set_key(&mut self, path: DirPath, key: String, value: String)
        requires
            old(self).wf(),
        ensures
            final(self).wf(),
            final(self)@ == old(self)@.insert(
                path@,
                if old(self)@.contains_key(path@) {
                    old(self)@[path@]
                } else {
                    Map::<Seq<char>, Seq<char>>::empty()
                }.insert(key@, value@),
            ),
    {
        let ghost pth = path@;
        let ghost k = key@;
        let ghost v = value@;
        let found = self.find(&path);
        match found {
            Some(i) => {
                let ghost odv = self.entries.deep_view();
                proof {
                    assert(odv[i as int].0 == self.entries@[i as int].0@);
                    assert(odv[i as int].1 == self.entries@[i as int].1@);
                    lemma_assoc_map_index(odv, i as int);
                }
                let (p, mut sc) = self.entries.remove(i);
                sc.insert(key, value);
                self.entries.push((p, sc));
                proof {
                    self.lemma_after_edit(odv, i as int, sc@);
                    assert(old(self)@.remove(pth).insert(pth, old(self)@[pth].insert(k, v))
                        =~= old(self)@.insert(pth, old(self)@[pth].insert(k, v)));
                }
            },
            None => {
                let ghost odv = self.entries.deep_view();
                let mut sc = Scope::new();
                sc.insert(key, value);
                self.entries.push((path, sc));
                proof {
                    assert forall|j: int| 0 <= j < odv.len() implies odv[j].0 != pth by {
                        assert(odv[j].0 == old(self).entries@[j].0@);
                    }
                    lemma_assoc_map_absent(odv, pth);
                    self.lemma_after_push(odv, pth, sc@);
                    assert(sc@ =~= Map::<Seq<char>, Seq<char>>::empty().insert(k, v));
                }
            },
        }
    }

    /// After replacing the scope of the entry at index `i` (the entry
    /// moving to the end of the list), the store is the old one with
    /// that path's scope replaced, and stays valid.
    proof fn lemma_after_edit(
        &self,
        odv: Seq<(Seq<Seq<char>>, Map<Seq<char>, Seq<char>>)>,
        i: int,
        scv: Map<Seq<char>, Seq<char>>,
    )
        requires
            keys_unique(odv),
            0 <= i < odv.len(),
            self.entries@.len() == odv.len(),
            forall|j: int|
                0 <= j < odv.len() - 1 ==> (
                #[trigger] self.entries@[j].0@,
                self.entries@[j].1@,
                ) == odv.remove(i)[j],
            forall|j: int| 0 <= j < odv.len() - 1 ==> (#[trigger] self.entries@[j]).1.wf(),
            self.entries@[odv.len() - 1].0@ == odv[i].0,
            self.entries@[odv.len() - 1].1@ == scv,
            self.entries@[odv.len() - 1].1.wf(),
        ensures
            self.wf(),
            self@ == assoc_map(odv).remove(odv[i].0).insert(odv[i].0, scv),
    {
        let ndv = self.entries.deep_view();
        lemma_keys_unique_remove(odv, i);
        lemma_assoc_map_remove(odv, i);
        assert forall|j: int|
            0 <= j < ndv.len() implies ndv[j] == odv.remove(i).push((odv[i].0, scv))[j] by {
            assert(ndv[j] == (self.entries@[j].0@, self.entries@[j].1@));
        }
        assert(ndv =~= odv.remove(i).push((odv[i].0, scv)));
        lemma_assoc_map_push(odv.remove(i), odv[i].0, scv);
        assert forall|a: int, b: int| 0 <= a < b < ndv.len() implies ndv[a].0 != ndv[b].0 by {
            if b == ndv.len() - 1 {
                assert(ndv[a] == odv.remove(i)[a]);
                let a0: int = if a < i {
                    a
                } else {
                    a + 1
                };
                assert(odv.remove(i)[a] == odv[a0]);
            }
        }
    }

    /// Removes a key from the scope at the path; a no-op when the path
    /// holds no scope or the scope lacks the key.
    pub fn remove_key(&mut self, path: &DirPath, key: &str)
        requires
            old(self).wf(),
        ensures
            final(self).wf(),
            final(self)@ == if old(self)@.contains_key(path@) {
                old(self)@.insert(path@, old(self)@[path@].remove(key@))
            } else {
                old(self)@
            },
    {
        let ghost pth = path@;
        let found = self.find(path);
        match found {
            Some(i) => {
                let ghost odv = self.entries.deep_view();
                proof {
                    assert(odv[i as int].0 == self.entries@[i as int].0@);
                    assert(odv[i as int].1 == self.entries@[i as int].1@);
                    lemma_assoc_map_index(odv, i as int);
                }
                let (p, mut sc) = self.entries.remove(i);
                sc.remove(key);
                self.entries.push((p, sc));
                proof {
                    self.lemma_after_edit(odv, i as int, sc@);
                    assert(old(self)@.remove(pth).insert(pth, old(self)@[pth].remove(key@))
                        =~= old(self)@.insert(pth, old(self)@[pth].remove(key@)));
                }
            },
            None => {
                proof {
                    let dv = self.entries.deep_view();
                    assert forall|j: int| 0 <= j < dv.len() implies dv[j].0 != pth by {
                        assert(dv[j].0 == self.entries@[j].0@);
                    }
                    lemma_assoc_map_absent(dv, pth);
                }
            },
        }
    }

    /// The entries of the store, as one list of path/scope pairs.
    pub fn entries(&self) -> (r: &Vec<(DirPath, Scope)>)
        requires
            self.wf(),
        ensures
            assoc_map(r.deep_view()) == self@,
            keys_unique(r.deep_view()),
            forall|i: int| 0 <= i < r@.len() ==> (#[trigger] r@[i]).1.wf(),
    {
        &self.entries
    }
}

impl Default for Data {
    /// An empty store: no directory holds a scope.
    fn default() -> (r: Data)
        ensures
            r@ == Map::<Seq<Seq<char>>, Map<Seq<char>, Seq<char>>>::empty(),
            r.wf(),
    {
        let r = Data { entries: Vec::new() };
        proof {
            assert(r.entries.deep_view() =~= Seq::<
                (Seq<Seq<char>>, Map<Seq<char>, Seq<char>>),
            >::empty());
            assert(r@ =~= Map::<Seq<Seq<char>>, Map<Seq<char>, Seq<char>>>::empty());
        }
        r
    }
}

} // verus!
