//! Absolute directory paths, held as explicit segment sequences.
//!
//! A path is its ordered list of segments; the filesystem root is the
//! empty list. Ancestors of a path are exactly its proper prefixes, so
//! the ancestor chain of a directory is the sequence of its prefixes.

use crate::text::str_eq;
use vstd::prelude::*;
use vstd::string::StrSliceExecFns;

verus! {

/// An absolute, normalized directory path: the sequence of its segments,
/// with the filesystem root as the empty sequence.
#[derive(Debug)]
pub struct DirPath {
    segs: Vec<String>,
}

impl View for DirPath {
    type V = Seq<Seq<char>>;

    closed spec fn view(&self) -> Seq<Seq<char>> {
        self.segs.deep_view()
    }
}

impl DeepView for DirPath {
    type V = Seq<Seq<char>>;

    open spec fn deep_view(&self) -> Seq<Seq<char>> {
        self.view()
    }
}

/// The segments of a path string read left to right: the maximal
/// nonempty runs of characters between `'/'` separators. `cur` is the
/// run read so far and still open.
pub open spec fn split_segs(s: Seq<char>, cur: Seq<char>) -> Seq<Seq<char>>
    decreases s.len(),
{
    if s.len() == 0 {
        if cur.len() == 0 {
            Seq::empty()
        } else {
            seq![cur]
        }
    } else if s[0] == '/' {
        if cur.len() == 0 {
            split_segs(s.skip(1), Seq::empty())
        } else {
            seq![cur] + split_segs(s.skip(1), Seq::empty())
        }
    } else {
        split_segs(s.skip(1), cur.push(s[0]))
    }
}

/// The segment sequence denoted by a whole path string.
pub open spec fn path_segs(s: Seq<char>) -> Seq<Seq<char>> {
    split_segs(s, Seq::empty())
}

impl DirPath {
    /// The filesystem root: the path with no segments.
    pub fn root() -> (r: DirPath)
        ensures
            r@ == Seq::<Seq<char>>::empty(),
    {
        let r = DirPath { segs: Vec::new() };
        proof {
            assert(r@ =~= Seq::<Seq<char>>::empty());
        }
        r
    }

    /// Builds a path from an already-normalized segment list.
    pub fn from_segments(segs: Vec<String>) -> (r: DirPath)
        ensures
            r@ == segs.deep_view(),
    {
        DirPath { segs }
    }

    /// Parses a path string into its segments: separators are `'/'`,
    /// empty runs are dropped, so distinct textual forms of one
    /// directory (trailing or doubled separators) give equal paths.
    pub fn parse(s: &str) -> (r: DirPath)
        ensures
            r@ == path_segs(s@),
    {
        let len = s.unicode_len();
        let mut segs: Vec<String> = Vec::new();
        let mut start: usize = 0;
        let mut i: usize = 0;
        proof {
            assert(s@.skip(0) =~= s@);
            assert(s@.subrange(0, 0) =~= Seq::<char>::empty());
            assert(segs.deep_view() =~= Seq::<Seq<char>>::empty());
            assert(segs.deep_view() + split_segs(s@, Seq::empty()) =~= path_segs(s@));
        }
        while i < len
            invariant
                len == s@.len(),
                start <= i <= len,
                segs.deep_view() + split_segs(
                    s@.skip(i as int),
                    s@.subrange(start as int, i as int),
                ) == path_segs(s@),
            decreases len - i,
        {
            let ghost rest = s@.skip(i as int);
            let ghost cur = s@.subrange(start as int, i as int);
            let c = s.get_char(i);
            proof {
                assert(rest[0] == s@[i as int]);
                assert(rest.skip(1) =~= s@.skip(i + 1));
            }
            if c == '/' {
                if start < i {
                    let seg = s.substring_char(start, i).to_owned();
                    let ghost old_segs = segs.deep_view();
                    segs.push(seg);
                    proof {
                        assert(segs.deep_view() =~= old_segs + seq![cur]);
                        assert(s@.subrange(i + 1, i + 1) =~= Seq::<char>::empty());
                        assert(split_segs(rest, cur) == seq![cur] + split_segs(
                            s@.skip(i + 1),
                            Seq::empty(),
                        ));
                        assert((old_segs + seq![cur]) + split_segs(s@.skip(i + 1), Seq::empty())
                            =~= old_segs + (seq![cur] + split_segs(s@.skip(i + 1), Seq::empty())));
                    }
                } else {
                    proof {
                        assert(cur =~= Seq::<char>::empty());
                        assert(s@.subrange(i + 1, i + 1) =~= Seq::<char>::empty());
                    }
                }
                start = i + 1;
            } else {
                proof {
                    assert(cur.push(s@[i as int]) =~= s@.subrange(start as int, i + 1));
                }
            }
            i += 1;
        }
        proof {
            assert(s@.skip(len as int) =~= Seq::<char>::empty());
        }
        if start < len {
            let seg = s.substring_char(start, len).to_owned();
            let ghost old_segs = segs.deep_view();
            let ghost cur = s@.subrange(start as int, len as int);
            segs.push(seg);
            proof {
                assert(segs.deep_view() =~= old_segs + seq![cur]);
            }
        }
        let r = DirPath { segs };
        proof {
            assert(r@ =~= path_segs(s@));
        }
        r
    }

    /// The number of segments.
    pub fn seg_count(&self) -> (n: usize)
        ensures
            n == self@.len(),
    {
        self.segs.len()
    }

    /// The path made of the first `n` segments: the ancestor of this
    /// path `self@.len() - n` levels up.
    pub fn prefix(&self, n: usize) -> (r: DirPath)
        requires
            n <= self@.len(),
        ensures
            r@ == self@.take(n as int),
    {
        let mut segs: Vec<String> = Vec::new();
        let mut i: usize = 0;
        while i < n
            invariant
                i <= n <= self@.len(),
                self@.len() == self.segs@.len(),
                segs@.len() == i,
                segs.deep_view() == self@.take(i as int),
            decreases n - i,
        {
            let ghost old_segs = segs.deep_view();
            let ghost old_vec = segs@;
            let x = self.segs[i].clone();
            segs.push(x);
            proof {
                let dv = segs.deep_view();
                assert(segs@.len() == i + 1);
                assert(dv.len() == i + 1);
                assert forall|j: int| 0 <= j < i + 1 implies dv[j] == self@.take(i + 1)[j] by {
                    assert(dv[j] == segs@[j]@);
                    if j < i {
                        assert(segs@[j] == old_vec[j]);
                        assert(old_segs[j] == old_vec[j]@);
                        assert(old_segs[j] == self@.take(i as int)[j]);
                    } else {
                        assert(segs@[j]@ == self.segs@[i as int]@);
                        assert(self@[j] == self.segs@[j]@);
                    }
                }
                assert(dv =~= self@.take(i + 1));
            }
            i += 1;
        }
        DirPath { segs }
    }

    /// The segments of the path, root first.
    pub fn segments(&self) -> (r: &Vec<String>)
        ensures
            r.deep_view() == self@,
    {
        &self.segs
    }

    /// Returns whether two paths have the same segments.
    pub fn eq_path(&self, other: &DirPath) -> (r: bool)
        ensures
            r == (self@ == other@),
    {
        proof {
            assert(self@.len() == self.segs@.len());
            assert(other@.len() == other.segs@.len());
        }
        if self.segs.len() != other.segs.len() {
            return false;
        }
        let n = self.segs.len();
        let mut i: usize = 0;
        while i < n
            invariant
                n == self.segs@.len(),
                n == other.segs@.len(),
                i <= n,
                forall|j: int| 0 <= j < i ==> self@[j] == other@[j],
            decreases n - i,
        {
            if !str_eq(self.segs[i].as_str(), other.segs[i].as_str()) {
                proof {
                    assert(self@[i as int] == self.segs@[i as int]@);
                    assert(other@[i as int] == other.segs@[i as int]@);
                }
                return false;
            }
            i += 1;
        }
        proof {
            assert(self@ =~= other@);
        }
        true
    }
}

} // verus!
