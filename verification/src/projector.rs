//! The resolver: hierarchy-aware reads and locality-scoped writes
//! against a scope store, bound to one working directory.
//!
//! The ancestor chain of the working directory is the sequence of its
//! prefixes, from the directory itself down to the root. A read walks
//! the chain closest-first; the most specific directory that defines a
//! key always wins.

use crate::path::DirPath;
use crate::scope::Scope;
use crate::store::Data;
use vstd::prelude::*;

verus! {

/// The model of a scope store: directory path to scope contents.
pub type StoreView = Map<Seq<Seq<char>>, Map<Seq<char>, Seq<char>>>;

/// The value a key resolves to from directory `dir`: the value held by
/// the longest prefix of `dir` whose scope defines the key, or absence.
pub open spec fn resolve_at(store: StoreView, dir: Seq<Seq<char>>, key: Seq<char>) -> Option<
    Seq<char>,
>
    decreases dir.len(),
{
    if store.contains_key(dir) && store[dir].contains_key(key) {
        Some(store[dir][key])
    } else if dir.len() == 0 {
        None
    } else {
        resolve_at(store, dir.take(dir.len() - 1), key)
    }
}

/// The merged view from directory `dir`: every key any prefix of `dir`
/// defines, each with the value of its longest defining prefix.
pub open spec fn resolve_all_at(store: StoreView, dir: Seq<Seq<char>>) -> Map<Seq<char>, Seq<char>>
    decreases dir.len(),
{
    let here = if store.contains_key(dir) {
        store[dir]
    } else {
        Map::<Seq<char>, Seq<char>>::empty()
    };
    if dir.len() == 0 {
        here
    } else {
        resolve_all_at(store, dir.take(dir.len() - 1)).union_prefer_right(here)
    }
}

/// The store after a write at `dir`: only `dir`'s own scope changes,
/// gaining `key` with `value`.
pub open spec fn store_write(
    store: StoreView,
    dir: Seq<Seq<char>>,
    key: Seq<char>,
    value: Seq<char>,
) -> StoreView {
    let sc = if store.contains_key(dir) {
        store[dir]
    } else {
        Map::<Seq<char>, Seq<char>>::empty()
    };
    store.insert(dir, sc.insert(key, value))
}

/// The store after a removal at `dir`: only `dir`'s own scope changes,
/// losing `key` if it held it.
pub open spec fn store_remove(store: StoreView, dir: Seq<Seq<char>>, key: Seq<char>) -> StoreView {
    if store.contains_key(dir) {
        store.insert(dir, store[dir].remove(key))
    } else {
        store
    }
}

/// A scope store bound to a working directory.
pub struct Projector {
    data: Data,
    pwd: DirPath,
}

impl Projector {
    /// The store's contents.
    pub closed spec fn store_view(&self) -> StoreView {
        self.data@
    }

    /// The working directory's segments.
    pub closed spec fn pwd_view(&self) -> Seq<Seq<char>> {
        self.pwd@
    }

    /// The store representation is valid.
    pub closed spec fn wf(&self) -> bool {
        self.data.wf()
    }

    /// Binds a scope store to a working directory.
    pub fn new(data: Data, pwd: DirPath) -> (r: Projector)
        requires
            data.wf(),
        ensures
            r.wf(),
            r.store_view() == data@,
            r.pwd_view() == pwd@,
    {
        Projector { data, pwd }
    }

    /// The current store contents, for persisting after a write.
    pub fn data(&self) -> (r: &Data)
        requires
            self.wf(),
        ensures
            r@ == self.store_view(),
            r.wf(),
    {
        &self.data
    }

    /// Resolves a key from the working directory: the first scope along
    /// the chain, walked closest-first, that defines the key gives the
    /// value; absence when no scope in the chain defines it.
    pub fn get_value(&self, key: &str) -> (r: Option<&String>)
        requires
            self.wf(),
        ensures
            match r {
                Some(v) => resolve_at(self.store_view(), self.pwd_view(), key@) == Some(v@),
                None => resolve_at(self.store_view(), self.pwd_view(), key@) is None,
            },
    {
        let mut n = self.pwd.seg_count();
        proof {
            assert(self.pwd@.take(n as int) =~= self.pwd@);
        }
        while n > 0
            invariant
                self.wf(),
                n <= self.pwd@.len(),
                resolve_at(self.store_view(), self.pwd_view(), key@) == resolve_at(
                    self.store_view(),
                    self.pwd@.take(n as int),
                    key@,
                ),
            decreases n,
        {
            let p = self.pwd.prefix(n);
            if let Some(sc) = self.data.get_scope(&p) {
                if let Some(v) = sc.get(key) {
                    return Some(v);
                }
            }
            proof {
                assert(self.pwd@.take(n as int).take(n - 1) =~= self.pwd@.take(n - 1));
            }
            n -= 1;
        }
        let p = self.pwd.prefix(0);
        proof {
            assert(self.pwd@.take(0).len() == 0);
        }
        if let Some(sc) = self.data.get_scope(&p) {
            if let Some(v) = sc.get(key) {
                return Some(v);
            }
        }
        None
    }

    /// The merged view from the working directory: walks the chain
    /// root-first and overlays each scope, so closer directories win.
    pub fn get_value_all(&self) -> (r: Scope)
        requires
            self.wf(),
        ensures
            r.wf(),
            r@ == resolve_all_at(self.store_view(), self.pwd_view()),
    {
        let len = self.pwd.seg_count();
        let mut acc = Scope::new();
        let p0 = self.pwd.prefix(0);
        proof {
            assert(self.pwd@.take(0).len() == 0);
        }
        if let Some(sc) = self.data.get_scope(&p0) {
            acc.merge_from(sc);
            proof {
                assert(acc@ =~= resolve_all_at(self.store_view(), self.pwd@.take(0)));
            }
        } else {
            proof {
                assert(acc@ =~= resolve_all_at(self.store_view(), self.pwd@.take(0)));
            }
        }
        let mut k: usize = 0;
        while k < len
            invariant
                self.wf(),
                len == self.pwd@.len(),
                k <= len,
                acc.wf(),
                acc@ == resolve_all_at(self.store_view(), self.pwd@.take(k as int)),
            decreases len - k,
        {
            let p = self.pwd.prefix(k + 1);
            let ghost prev = acc@;
            proof {
                assert(self.pwd@.take(k + 1).take(k as int) =~= self.pwd@.take(k as int));
            }
            if let Some(sc) = self.data.get_scope(&p) {
                acc.merge_from(sc);
            } else {
                proof {
                    assert(acc@ =~= prev.union_prefer_right(
                        Map::<Seq<char>, Seq<char>>::empty(),
                    ));
                }
            }
            k += 1;
        }
        proof {
            assert(self.pwd@.take(len as int) =~= self.pwd@);
        }
        acc
    }

    /// Sets a key in the working directory's own scope, creating the
    /// scope if it does not exist. Ancestor scopes are never touched.
    pub fn set_value(&mut self, key: String, value: String)
        requires
            old(self).wf(),
        ensures
            final(self).wf(),
            final(self).pwd_view() == old(self).pwd_view(),
            final(self).store_view() == store_write(
                old(self).store_view(),
                old(self).pwd_view(),
                key@,
                value@,
            ),
    {
        let n = self.pwd.seg_count();
        let p = self.pwd.prefix(n);
        proof {
            assert(self.pwd@.take(n as int) =~= self.pwd@);
        }
        self.data.set_key(p, key, value);
    }

    /// Removes a key from the working directory's own scope only; a
    /// no-op when the scope or the key does not exist.
    pub fn remove_value(&mut self, key: &str)
        requires
            old(self).wf(),
        ensures
            final(self).wf(),
            final(self).pwd_view() == old(self).pwd_view(),
            final(self).store_view() == store_remove(
                old(self).store_view(),
                old(self).pwd_view(),
                key@,
            ),
    {
        let n = self.pwd.seg_count();
        let p = self.pwd.prefix(n);
        proof {
            assert(self.pwd@.take(n as int) =~= self.pwd@);
        }
        self.data.remove_key(&p, key);
    }
}

/// Merge completeness: the merged view holds exactly the keys that
/// resolve to a value, each with the value the closest-first walk
/// yields. In particular it is empty when no key resolves.
pub proof fn lemma_resolve_all_complete(store: StoreView, dir: Seq<Seq<char>>, key: Seq<char>)
    ensures
        resolve_all_at(store, dir).contains_key(key) <==> resolve_at(store, dir, key) is Some,
        resolve_at(store, dir, key) matches Some(v) ==> resolve_all_at(store, dir)[key] == v,
    decreases dir.len(),
{
    if dir.len() > 0 {
        lemma_resolve_all_complete(store, dir.take(dir.len() - 1), key);
    }
}

/// A key resolves to a value exactly when some prefix of the working
/// directory defines it: the merged view is the union over the chain.
pub proof fn lemma_resolve_defined(store: StoreView, dir: Seq<Seq<char>>, key: Seq<char>)
    ensures
        resolve_at(store, dir, key) is Some <==> exists|m: int|
            0 <= m <= dir.len() && store.contains_key(#[trigger] dir.take(m))
                && store[dir.take(m)].contains_key(key),
    decreases dir.len(),
{
    assert(dir.take(dir.len() as int) =~= dir);
    if dir.len() > 0 && !(store.contains_key(dir) && store[dir].contains_key(key)) {
        let parent = dir.take(dir.len() - 1);
        lemma_resolve_defined(store, parent, key);
        assert forall|m: int| 0 <= m <= parent.len() implies parent.take(m) == dir.take(m) by {
            assert(parent.take(m) =~= dir.take(m));
        }
        if resolve_at(store, dir, key) is Some {
            let m = choose|m: int|
                0 <= m <= parent.len() && store.contains_key(#[trigger] parent.take(m))
                    && store[parent.take(m)].contains_key(key);
            assert(store.contains_key(dir.take(m)) && store[dir.take(m)].contains_key(key));
        }
        if exists|m: int|
            0 <= m <= dir.len() && store.contains_key(#[trigger] dir.take(m))
                && store[dir.take(m)].contains_key(key) {
            let m = choose|m: int|
                0 <= m <= dir.len() && store.contains_key(#[trigger] dir.take(m))
                    && store[dir.take(m)].contains_key(key);
            assert(m < dir.len());
            assert(store.contains_key(parent.take(m)) && store[parent.take(m)].contains_key(key));
        }
    }
}

/// Specificity precedence: when the prefix of length `n` defines the
/// key and no longer prefix does, both the single resolution and the
/// merged view yield that prefix's value.
pub proof fn lemma_specificity(store: StoreView, dir: Seq<Seq<char>>, n: int, key: Seq<char>)
    requires
        0 <= n <= dir.len(),
        store.contains_key(dir.take(n)),
        store[dir.take(n)].contains_key(key),
        forall|m: int|
            n < m <= dir.len() && store.contains_key(#[trigger] dir.take(m))
                ==> !store[dir.take(m)].contains_key(key),
    ensures
        resolve_at(store, dir, key) == Some(store[dir.take(n)][key]),
        resolve_all_at(store, dir).contains_key(key),
        resolve_all_at(store, dir)[key] == store[dir.take(n)][key],
    decreases dir.len(),
{
    lemma_resolve_all_complete(store, dir, key);
    assert(dir.take(dir.len() as int) =~= dir);
    if n == dir.len() {
        assert(dir.take(n) =~= dir);
    } else {
        assert(!(store.contains_key(dir) && store[dir].contains_key(key)));
        let parent = dir.take(dir.len() - 1);
        assert(parent.take(n) =~= dir.take(n));
        assert forall|m: int|
            n < m <= parent.len() && store.contains_key(#[trigger] parent.take(m))
                implies !store[parent.take(m)].contains_key(key) by {
            assert(parent.take(m) =~= dir.take(m));
        }
        lemma_specificity(store, parent, n, key);
        assert(dir.len() > 0);
    }
}

/// Write locality: a write at the working directory is seen at once by
/// a single resolution of the same key from that directory, whatever
/// any ancestor defines.
pub proof fn lemma_write_locality(
    store: StoreView,
    dir: Seq<Seq<char>>,
    key: Seq<char>,
    value: Seq<char>,
)
    ensures
        resolve_at(store_write(store, dir, key, value), dir, key) == Some(value),
{
}

/// Resolution reads only the scopes at the prefixes of the directory:
/// two stores that agree there resolve every key alike.
pub proof fn lemma_resolve_unaffected(
    s1: StoreView,
    s2: StoreView,
    dir: Seq<Seq<char>>,
    key: Seq<char>,
)
    requires
        forall|m: int|
            0 <= m <= dir.len() ==> {
                &&& s1.contains_key(#[trigger] dir.take(m)) <==> s2.contains_key(dir.take(m))
                &&& s1.contains_key(dir.take(m)) ==> s1[dir.take(m)] == s2[dir.take(m)]
            },
    ensures
        resolve_at(s1, dir, key) == resolve_at(s2, dir, key),
    decreases dir.len(),
{
    assert(dir.take(dir.len() as int) =~= dir);
    if dir.len() > 0 {
        let parent = dir.take(dir.len() - 1);
        assert forall|m: int| 0 <= m <= parent.len() implies {
            &&& s1.contains_key(#[trigger] parent.take(m)) <==> s2.contains_key(parent.take(m))
            &&& s1.contains_key(parent.take(m)) ==> s1[parent.take(m)] == s2[parent.take(m)]
        } by {
            assert(parent.take(m) =~= dir.take(m));
        }
        lemma_resolve_unaffected(s1, s2, parent, key);
    }
}

/// Remove locality: after removing a key at the working directory, a
/// single resolution of that key gives what the parent chain gave
/// before; a definition at an ancestor hence stays visible.
pub proof fn lemma_remove_locality(store: StoreView, dir: Seq<Seq<char>>, key: Seq<char>)
    ensures
        dir.len() == 0 ==> resolve_at(store_remove(store, dir, key), dir, key) is None,
        dir.len() > 0 ==> resolve_at(store_remove(store, dir, key), dir, key) == resolve_at(
            store,
            dir.take(dir.len() - 1),
            key,
        ),
{
    let after = store_remove(store, dir, key);
    assert(!(after.contains_key(dir) && after[dir].contains_key(key)));
    if dir.len() > 0 {
        let parent = dir.take(dir.len() - 1);
        assert forall|m: int| 0 <= m <= parent.len() implies {
            &&& after.contains_key(#[trigger] parent.take(m)) <==> store.contains_key(
                parent.take(m),
            )
            &&& after.contains_key(parent.take(m)) ==> after[parent.take(m)] == store[parent.take(
                m,
            )]
        } by {
            assert(parent.take(m).len() == m);
            assert(parent.take(m) != dir);
        }
        lemma_resolve_unaffected(after, store, parent, key);
    }
}

/// No-op safety: removing a key that the working directory's own scope
/// does not hold leaves the store unchanged.
pub proof fn lemma_remove_noop(store: StoreView, dir: Seq<Seq<char>>, key: Seq<char>)
    requires
        store.contains_key(dir) ==> !store[dir].contains_key(key),
    ensures
        store_remove(store, dir, key) == store,
{
    if store.contains_key(dir) {
        assert(store[dir].remove(key) =~= store[dir]);
        assert(store.insert(dir, store[dir]) =~= store);
    }
}

} // verus!
