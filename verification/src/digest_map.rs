//! A mapping from file paths to digests.
//!
//! Paths are byte strings; within one map every path occurs at most once.
//! The map is the working form of a manifest: the generate flow fills one
//! from the hashing units' results, the check flow decodes one from the
//! manifest file. Its mathematical view is a `Map<Seq<u8>, u128>`.

use vstd::prelude::*;

verus! {

/// The mapping described by a sequence of `(path, digest)` entries, later
/// entries overwriting earlier ones.
pub open spec fn entries_to_map(s: Seq<(Seq<u8>, u128)>) -> Map<Seq<u8>, u128>
    decreases s.len(),
{
    if s.len() == 0 {
        Map::empty()
    } else {
        entries_to_map(s.drop_last()).insert(s.last().0, s.last().1)
    }
}

/// A key occurs in the mapping of an entry sequence exactly when some entry
/// carries it.
pub proof fn lemma_entries_to_map_contains(s: Seq<(Seq<u8>, u128)>, k: Seq<u8>)
    ensures
        entries_to_map(s).contains_key(k) <==> exists|i: int| 0 <= i < s.len() && s[i].0 == k,
    decreases s.len(),
{
    if s.len() > 0 {
        lemma_entries_to_map_contains(s.drop_last(), k);
        if s.last().0 == k {
            assert(s[s.len() - 1].0 == k);
        } else if entries_to_map(s).contains_key(k) {
            let i = choose|i: int| 0 <= i < s.drop_last().len() && s.drop_last()[i].0 == k;
            assert(s[i].0 == k);
        } else {
            assert(forall|i: int| 0 <= i < s.len() - 1 ==> s.drop_last()[i] == s[i]);
        }
    }
}

/// A mapping from file paths (byte strings) to 128-bit digests.
#[derive(Debug)]
pub struct DigestMap {
    entries: Vec<(Vec<u8>, u128)>,
}

impl DigestMap {
    /// The entries in insertion order, as mathematical values.
    pub closed spec fn contents(&self) -> Seq<(Seq<u8>, u128)> {
        Seq::new(self.entries@.len(), |i: int| (self.entries@[i].0@, self.entries@[i].1))
    }

    /// The path-to-digest mapping this value holds.
    pub open spec fn as_map(&self) -> Map<Seq<u8>, u128> {
        entries_to_map(self.contents())
    }

    /// Every path occurs in at most one entry.
    pub open spec fn wf(&self) -> bool {
        forall|i: int, j: int|
            0 <= i < j < self.contents().len() ==> self.contents()[i].0 != self.contents()[j].0
    }

    /// An empty mapping.
    pub fn new() -> (m: DigestMap)
        ensures
            m.wf(),
            m.as_map() == Map::<Seq<u8>, u128>::empty(),
            m.contents() == Seq::<(Seq<u8>, u128)>::empty(),
    {
        let m = DigestMap { entries: Vec::new() };
        proof {
            assert(m.contents() =~= Seq::<(Seq<u8>, u128)>::empty());
        }
        m
    }

    /// The number of recorded paths.
    pub fn len(&self) -> (n: usize)
        ensures
            n == self.contents().len(),
    {
        self.entries.len()
    }

    /// The index of the entry holding `path`, if any.
    fn find(&self, path: &Vec<u8>) -> (r: Option<usize>)
        ensures
            match r {
                Some(i) => i < self.contents().len() && self.contents()[i as int].0 == path@,
                None => forall|i: int| 0 <= i < self.contents().len() ==> self.contents()[i].0 != path@,
            },
    {
        let mut i: usize = 0;
        while i < self.entries.len()
            invariant
                i <= self.contents().len(),
                self.contents().len() == self.entries@.len(),
                forall|j: int| 0 <= j < i ==> self.contents()[j].0 != path@,
            decreases self.entries@.len() - i,
        {
            if crate::bytes::bytes_eq(self.entries[i].0.as_slice(), path.as_slice()) {
                return Some(i);
            }
            i = i + 1;
        }
        None
    }

    /// Records `digest` under `path`, overwriting any digest recorded for
    /// the same path before.
    pub fn insert(&mut self, path: Vec<u8>, digest: u128)
        requires
            old(self).wf(),
        ensures
            final(self).wf(),
            final(self).as_map() == old(self).as_map().insert(path@, digest),
            final(self).as_map().contains_key(path@),
    {
        let ghost pre = self.contents();
        match self.find(&path) {
            Some(i) => {
                self.entries.set(i, (path, digest));
                proof {
                    lemma_update_entry(pre, self.contents(), i as int);
                }
            },
            None => {
                self.entries.push((path, digest));
                proof {
                    assert(self.contents().drop_last() =~= pre);
                    assert(forall|j: int|
                        0 <= j < pre.len() ==> #[trigger] self.contents()[j] == pre[j]);
                    assert(self.contents().last().0 == path@);
                }
            },
        }
        proof {
            lemma_entries_to_map_contains(self.contents(), path@);
        }
    }

    /// The digest recorded for `path`, if any.
    pub fn get(&self, path: &Vec<u8>) -> (r: Option<u128>)
        requires
            self.wf(),
        ensures
            match r {
                Some(d) => self.as_map().contains_key(path@) && self.as_map()[path@] == d,
                None => !self.as_map().contains_key(path@),
            },
    {
        proof {
            lemma_entries_to_map_contains(self.contents(), path@);
        }
        match self.find(path) {
            Some(i) => {
                proof {
                    lemma_lookup_unique(self.contents(), i as int);
                }
                Some(self.entries[i].1)
            },
            None => None,
        }
    }

    /// The path of the entry at `i`, in insertion order.
    pub fn path_at(&self, i: usize) -> (p: &Vec<u8>)
        requires
            i < self.contents().len(),
        ensures
            p@ == self.contents()[i as int].0,
    {
        &self.entries[i].0
    }

    /// The digest of the entry at `i`, in insertion order.
    pub fn digest_at(&self, i: usize) -> (d: u128)
        requires
            i < self.contents().len(),
        ensures
            d == self.contents()[i as int].1,
            self.wf() ==> self.as_map().contains_key(self.contents()[i as int].0)
                && self.as_map()[self.contents()[i as int].0] == d,
    {
        proof {
            if self.wf() {
                lemma_lookup_unique(self.contents(), i as int);
            }
        }
        self.entries[i].1
    }
}

/// In a well-formed entry sequence, the mapping sends the path of entry `i`
/// to the digest of entry `i`.
proof fn lemma_lookup_unique(s: Seq<(Seq<u8>, u128)>, i: int)
    requires
        0 <= i < s.len(),
        forall|a: int, b: int| 0 <= a < b < s.len() ==> s[a].0 != s[b].0,
    ensures
        entries_to_map(s).contains_key(s[i].0),
        entries_to_map(s)[s[i].0] == s[i].1,
    decreases s.len(),
{
    lemma_entries_to_map_contains(s, s[i].0);
    if i == s.len() - 1 {
    } else {
        assert(forall|a: int| 0 <= a < s.len() - 1 ==> s.drop_last()[a] == s[a]);
        lemma_lookup_unique(s.drop_last(), i);
        assert(s.last().0 != s[i].0);
    }
}

/// Replacing the entry at `i` with one that keeps its path turns the mapping
/// into the mapping of the old sequence with that path freshly inserted.
proof fn lemma_update_entry(pre: Seq<(Seq<u8>, u128)>, post: Seq<(Seq<u8>, u128)>, i: int)
    requires
        0 <= i < pre.len(),
        post.len() == pre.len(),
        post[i].0 == pre[i].0,
        forall|j: int| 0 <= j < pre.len() && j != i ==> post[j] == pre[j],
        forall|a: int, b: int| 0 <= a < b < pre.len() ==> pre[a].0 != pre[b].0,
    ensures
        entries_to_map(post) == entries_to_map(pre).insert(post[i].0, post[i].1),
        forall|a: int, b: int| 0 <= a < b < post.len() ==> post[a].0 != post[b].0,
    decreases pre.len(),
{
    if i == pre.len() - 1 {
        assert(post.drop_last() =~= pre.drop_last());
        assert(entries_to_map(post) == entries_to_map(pre.drop_last()).insert(
            post[i].0,
            post[i].1,
        ));
        assert(entries_to_map(pre).insert(post[i].0, post[i].1) =~= entries_to_map(
            pre.drop_last(),
        ).insert(post[i].0, post[i].1));
    } else {
        assert(forall|j: int| 0 <= j < pre.len() - 1 && j != i ==> post.drop_last()[j]
            == pre.drop_last()[j]);
        assert(post.drop_last()[i] == post[i]);
        assert(forall|a: int| 0 <= a < pre.len() - 1 ==> pre.drop_last()[a] == pre[a]);
        lemma_update_entry(pre.drop_last(), post.drop_last(), i);
        assert(pre.last().0 != post[i].0);
        assert(post.last() == pre.last());
        assert(entries_to_map(post) == entries_to_map(pre.drop_last()).insert(
            post[i].0,
            post[i].1,
        ).insert(pre.last().0, pre.last().1));
        assert(entries_to_map(pre.drop_last()).insert(post[i].0, post[i].1).insert(
            pre.last().0,
            pre.last().1,
        ) =~= entries_to_map(pre).insert(post[i].0, post[i].1));
    }
}

} // verus!
