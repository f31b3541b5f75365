//! A scope: the flat key/value mapping attached to one directory.

use crate::assoc::{
    assoc_map, keys_unique, lemma_assoc_map_absent, lemma_assoc_map_dom, lemma_assoc_map_index,
    lemma_assoc_map_push, lemma_assoc_map_remove, lemma_keys_unique_remove,
};
use crate::text::str_eq;
use vstd::prelude::*;

verus! {

/// The key/value settings of one directory. A key appears at most once.
pub struct Scope {
    entries: Vec<(String, String)>,
}

impl View for Scope {
    type V = Map<Seq<char>, Seq<char>>;

    closed spec fn view(&self) -> Map<Seq<char>, Seq<char>> {
        assoc_map(self.entries.deep_view())
    }
}

impl DeepView for Scope {
    type V = Map<Seq<char>, Seq<char>>;

    open spec fn deep_view(&self) -> Map<Seq<char>, Seq<char>> {
        self.view()
    }
}

impl Scope {
    /// Each key is held by at most one entry.
    pub closed spec fn wf(&self) -> bool {
        keys_unique(self.entries.deep_view())
    }

    /// An empty scope.
    pub fn new() -> (r: Scope)
        ensures
            r@ == Map::<Seq<char>, Seq<char>>::empty(),
            r.wf(),
    {
        let r = Scope { entries: Vec::new() };
        proof {
            assert(r.entries.deep_view() =~= Seq::<(Seq<char>, Seq<char>)>::empty());
            assert(r@ =~= Map::<Seq<char>, Seq<char>>::empty());
        }
        r
    }

    /// The index of the entry holding a key, if any.
    fn find(&self, key: &str) -> (r: Option<usize>)
        ensures
            match r {
                Some(i) => i < self.entries@.len() && self.entries@[i as int].0@ == key@,
                None => forall|i: int| 0 <= i < self.entries@.len() ==> self.entries@[i].0@ != key@,
            },
    {
        let n = self.entries.len();
        let mut i: usize = 0;
        while i < n
            invariant
                n == self.entries@.len(),
                i <= n,
                forall|j: int| 0 <= j < i ==> self.entries@[j].0@ != key@,
            decreases n - i,
        {
            if str_eq(self.entries[i].0.as_str(), key) {
                return Some(i);
            }
            i += 1;
        }
        None
    }

    /// The value held for a key, or absence when the scope lacks it.
    pub fn get(&self, key: &str) -> (r: Option<&String>)
        requires
            self.wf(),
        ensures
            match r {
                Some(v) => self@.contains_key(key@) && self@[key@] == v@,
                None => !self@.contains_key(key@),
            },
    {
        let found = self.find(key);
        match found {
            Some(i) => {
                proof {
                    let dv = self.entries.deep_view();
                    assert(dv[i as int].0 == self.entries@[i as int].0@);
                    assert(dv[i as int].1 == self.entries@[i as int].1@);
                    lemma_assoc_map_index(dv, i as int);
                }
                Some(&self.entries[i].1)
            },
            None => {
                proof {
                    let dv = self.entries.deep_view();
                    assert forall|j: int| 0 <= j < dv.len() implies dv[j].0 != key@ by {
                        assert(dv[j].0 == self.entries@[j].0@);
                    }
                    lemma_assoc_map_absent(dv, key@);
                }
                None
            },
        }
    }

    /// Removes a key; a no-op when the scope lacks it.
    pub fn remove(&mut self, key: &str)
        requires
            old(self).wf(),
        ensures
            final(self).wf(),
            final(self)@ == old(self)@.remove(key@),
    {
        let found = self.find(key);
        match found {
            Some(i) => {
                let ghost odv = self.entries.deep_view();
                let _ = self.entries.remove(i);
                proof {
                    let ndv = self.entries.deep_view();
                    assert forall|j: int| 0 <= j < ndv.len() implies ndv[j] == odv.remove(
                        i as int,
                    )[j] by {
                        if j < i {
                            assert(self.entries@[j] == old(self).entries@[j]);
                        } else {
                            assert(self.entries@[j] == old(self).entries@[j + 1]);
                        }
                    }
                    assert(ndv =~= odv.remove(i as int));
                    lemma_assoc_map_remove(odv, i as int);
                    lemma_keys_unique_remove(odv, i as int);
                    assert(odv[i as int].0 == key@);
                }
            },
            None => {
                proof {
                    let dv = self.entries.deep_view();
                    assert forall|j: int| 0 <= j < dv.len() implies dv[j].0 != key@ by {
                        assert(dv[j].0 == self.entries@[j].0@);
                    }
                    lemma_assoc_map_absent(dv, key@);
                    assert(self@ =~= old(self)@.remove(key@));
                }
            },
        }
    }

    /// Sets a key to a value, replacing any earlier value for it.
    pub fn insert(&mut self, key: String, value: String)
        requires
            old(self).wf(),
        ensures
            final(self).wf(),
            final(self)@ == old(self)@.insert(key@, value@),
    {
        let ghost k = key@;
        let ghost v = value@;
        self.remove(key.as_str());
        let ghost mid = self@;
        let ghost mid_dv = self.entries.deep_view();
        self.entries.push((key, value));
        proof {
            let ndv = self.entries.deep_view();
            assert(ndv =~= mid_dv.push((k, v)));
            lemma_assoc_map_push(mid_dv, k, v);
            assert(!mid.contains_key(k)) by {
                assert(mid == old(self)@.remove(k));
            }
            lemma_assoc_map_dom(mid_dv, k);
            assert forall|a: int, b: int| 0 <= a < b < ndv.len() implies ndv[a].0 != ndv[b].0 by {
                if b == ndv.len() - 1 {
                    assert(ndv[a] == mid_dv[a]);
                    assert(ndv[b].0 == k);
                }
            }
            assert(self@ =~= old(self)@.insert(k, v));
        }
    }

    /// Overlays another scope onto this one: every key of `other` is
    /// set here to `other`'s value, keys only held here are kept.
    pub fn merge_from(&mut self, other: &Scope)
        requires
            old(self).wf(),
            other.wf(),
        ensures
            final(self).wf(),
            final(self)@ == old(self)@.union_prefer_right(other@),
    {
        let n = other.entries.len();
        let ghost odv = other.entries.deep_view();
        proof {
            assert(odv.take(0) =~= Seq::<(Seq<char>, Seq<char>)>::empty());
            assert(self@ =~= old(self)@.union_prefer_right(assoc_map(odv.take(0))));
        }
        let mut j: usize = 0;
        while j < n
            invariant
                n == other.entries@.len(),
                odv == other.entries.deep_view(),
                j <= n,
                self.wf(),
                other.wf(),
                self@ == old(self)@.union_prefer_right(assoc_map(odv.take(j as int))),
            decreases n - j,
        {
            let key = other.entries[j].0.clone();
            let value = other.entries[j].1.clone();
            let ghost kv = (key@, value@);
            self.insert(key, value);
            proof {
                assert(odv[j as int] == kv);
                assert(odv.take(j + 1).drop_last() =~= odv.take(j as int));
                assert(odv.take(j + 1).last() == odv[j as int]);
                assert(assoc_map(odv.take(j + 1)) == assoc_map(odv.take(j as int)).insert(
                    kv.0,
                    kv.1,
                ));
                assert(old(self)@.union_prefer_right(assoc_map(odv.take(j as int))).insert(
                    kv.0,
                    kv.1,
                ) =~= old(self)@.union_prefer_right(assoc_map(odv.take(j + 1))));
            }
            j += 1;
        }
        proof {
            assert(odv.take(n as int) =~= odv);
        }
    }

    /// The entries of the scope, as one list of key/value pairs.
    pub fn entries(&self) -> (r: &Vec<(String, String)>)
        requires
            self.wf(),
        ensures
            assoc_map(r.deep_view()) == self@,
            keys_unique(r.deep_view()),
    {
        &self.entries
    }
}

} // verus!
