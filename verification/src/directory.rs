//! The read-side cache of a remote-backed directory: byte blobs fetched
//! for a path are kept so that each path is fetched at most once per
//! directory handle.  Locking and fetching belong to the surrounding
//! storage layer; this cache only answers hits and records misses.

use vstd::prelude::*;

use crate::term::{bytes_eq, clone_bytes};

verus! {

/// An in-memory map from path bytes to the bytes fetched for that path.
pub struct InnerDirectory {
    pub entries: Vec<(Vec<u8>, Vec<u8>)>,
}

impl InnerDirectory {
    /// The cache holds an entry for the path.
    pub open spec fn has_path(self, p: Seq<u8>) -> bool {
        exists|i: int| 0 <= i < self.entries@.len() && (#[trigger] self.entries@[i]).0@ == p
    }

    /// The index of the path's entry (meaningful when present).
    pub open spec fn path_index(self, p: Seq<u8>) -> int {
        choose|i: int| 0 <= i < self.entries@.len() && (#[trigger] self.entries@[i]).0@ == p
    }

    /// The bytes cached for the path.
    pub open spec fn data_of(self, p: Seq<u8>) -> Seq<u8> {
        self.entries@[self.path_index(p)].1@
    }

    /// No two entries share a path.
    pub open spec fn wf(self) -> bool {
        forall|i: int, j: int|
            0 <= i < j < self.entries@.len() ==> (#[trigger] self.entries@[i]).0@ != (
            #[trigger] self.entries@[j]).0@
    }

    /// Any entry whose path equals `p` is the entry of `p`.
    proof fn lemma_path_index(self, p: Seq<u8>, i: int)
        requires
            self.wf(),
            0 <= i < self.entries@.len(),
            self.entries@[i].0@ == p,
        ensures
            self.has_path(p),
            self.path_index(p) == i,
    {
        assert(self.has_path(p));
        let i0 = self.path_index(p);
        if i0 != i {
            if i0 < i {
                assert(self.entries@[i0].0@ != self.entries@[i].0@);
            } else {
                assert(self.entries@[i].0@ != self.entries@[i0].0@);
            }
        }
    }

    /// A fresh, empty cache.
    pub fn new() -> (d: InnerDirectory)
        ensures
            d.wf(),
            forall|p: Seq<u8>| !(#[trigger] d.has_path(p)),
    {
        InnerDirectory { entries: Vec::new() }
    }

    /// Whether the cache holds the path.
    pub fn contains(&self, path: &Vec<u8>) -> (r: bool)
        ensures
            r == self.has_path(path@),
    {
        let mut i: usize = 0;
        while i < self.entries.len()
            invariant
                i <= self.entries@.len(),
                forall|i2: int| 0 <= i2 < i ==> (#[trigger] self.entries@[i2]).0@ != path@,
            decreases self.entries@.len() - i,
        {
            if bytes_eq(&self.entries[i].0, path) {
                return true;
            }
            i += 1;
        }
        false
    }

    /// The bytes cached for the path, or the explicit miss.
    pub fn get(&self, path: &Vec<u8>) -> (r: Option<Vec<u8>>)
        requires
            self.wf(),
        ensures
            match r {
                Some(data) => self.has_path(path@) && data@ == self.data_of(path@),
                None => !self.has_path(path@),
            },
    {
        let mut i: usize = 0;
        while i < self.entries.len()
            invariant
                self.wf(),
                i <= self.entries@.len(),
                forall|i2: int| 0 <= i2 < i ==> (#[trigger] self.entries@[i2]).0@ != path@,
            decreases self.entries@.len() - i,
        {
            if bytes_eq(&self.entries[i].0, path) {
                proof {
                    self.lemma_path_index(path@, i as int);
                }
                return Some(clone_bytes(&self.entries[i].1));
            }
            i += 1;
        }
        None
    }

    /// Record the bytes fetched for a path the cache does not hold yet.
    pub fn insert(&mut self, path: Vec<u8>, data: Vec<u8>)
        requires
            old(self).wf(),
            !old(self).has_path(path@),
        ensures
            final(self).wf(),
            final(self).has_path(path@),
            final(self).data_of(path@) == data@,
            forall|p: Seq<u8>|
                p != path@ ==> #[trigger] final(self).has_path(p) == old(self).has_path(p),
            forall|p: Seq<u8>|
                p != path@ && old(self).has_path(p) ==> #[trigger] final(self).data_of(p) == old(
                    self,
                ).data_of(p),
    {
        let ghost pre = self.entries@;
        let ghost pv = path@;
        let ghost dv = data@;
        self.entries.push((path, data));
        proof {
            let n = pre.len() as int;
            assert(self.entries@ == pre.push((path, data)));
            assert forall|i: int| 0 <= i < n implies (#[trigger] self.entries@[i]) == pre[i] by {}
            assert forall|i: int, j: int|
                0 <= i < j < self.entries@.len() implies (#[trigger] self.entries@[i]).0@ != (
            #[trigger] self.entries@[j]).0@ by {
                if j == n {
                    if self.entries@[i].0@ == pv {
                        assert(pre[i].0@ == pv);
                    }
                }
            }
            assert(self.entries@[n].0@ == pv);
            self.lemma_path_index(pv, n);
            assert forall|p: Seq<u8>|
                p != pv implies #[trigger] final(self).has_path(p) == old(self).has_path(p) by {
                if old(self).has_path(p) {
                    let i = choose|i: int| 0 <= i < pre.len() && (#[trigger] pre[i]).0@ == p;
                    assert(self.entries@[i].0@ == p);
                    assert(final(self).has_path(p));
                } else if final(self).has_path(p) {
                    let i = choose|i: int|
                        0 <= i < self.entries@.len() && (#[trigger] self.entries@[i]).0@ == p;
                    assert(i < n);
                    assert(pre[i].0@ == p);
                    assert(old(self).has_path(p));
                }
            }
            assert forall|p: Seq<u8>|
                p != pv && old(self).has_path(p) implies #[trigger] final(self).data_of(p) == old(
                self,
            ).data_of(p) by {
                let i = choose|i: int| 0 <= i < pre.len() && (#[trigger] pre[i]).0@ == p;
                assert(self.entries@[i].0@ == p);
                self.lemma_path_index(p, i);
                old(self).lemma_path_index(p, i);
            }
        }
    }
}

} // verus!
