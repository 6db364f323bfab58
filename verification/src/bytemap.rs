//! Association maps keyed by byte strings, backed by a vector of pairs with
//! pairwise-distinct keys. `ByteMap` maps byte strings to byte strings (used
//! for header tables); `PathMap` maps a path to the `ByteMap` of methods
//! registered under it (used by the route table).

use vstd::prelude::*;
use crate::bytes::bytes_eq;
use crate::bytes::vec_from;

verus! {

/// The finite map that a pair sequence denotes; a later pair with the same
/// key overwrites an earlier one.
pub open spec fn pairs_map<V: View>(s: Seq<(Vec<u8>, V)>) -> Map<Seq<u8>, <V as View>::V>
    decreases s.len(),
{
    if s.len() == 0 {
        Map::empty()
    } else {
        pairs_map(s.drop_last()).insert(s.last().0@, s.last().1@)
    }
}

/// Pairwise-distinct keys.
pub open spec fn keys_distinct<V>(s: Seq<(Vec<u8>, V)>) -> bool {
    forall|i: int, j: int| 0 <= i < j < s.len() ==> s[i].0@ != s[j].0@
}

proof fn lemma_pairs_map_contains<V: View>(s: Seq<(Vec<u8>, V)>, k: Seq<u8>)
    ensures
        pairs_map(s).contains_key(k) <==> exists|i: int| 0 <= i < s.len() && s[i].0@ == k,
    decreases s.len(),
{
    if s.len() > 0 {
        lemma_pairs_map_contains(s.drop_last(), k);
        if pairs_map(s).contains_key(k) {
            if s.last().0@ == k {
                assert(s[s.len() - 1].0@ == k);
            } else {
                let i = choose|i: int|
                    0 <= i < s.drop_last().len() && s.drop_last()[i].0@ == k;
                assert(s[i].0@ == k);
            }
        }
        if exists|i: int| 0 <= i < s.len() && s[i].0@ == k {
            let i = choose|i: int| 0 <= i < s.len() && s[i].0@ == k;
            if i < s.len() - 1 {
                assert(s.drop_last()[i].0@ == k);
            }
        }
    }
}

proof fn lemma_pairs_map_at<V: View>(s: Seq<(Vec<u8>, V)>, i: int)
    requires
        keys_distinct(s),
        0 <= i < s.len(),
    ensures
        pairs_map(s).contains_key(s[i].0@),
        pairs_map(s)[s[i].0@] == s[i].1@,
    decreases s.len(),
{
    if i < s.len() - 1 {
        lemma_pairs_map_at(s.drop_last(), i);
        assert(s[s.len() - 1].0@ != s[i].0@);
    }
}

proof fn lemma_pairs_map_remove<V: View>(s: Seq<(Vec<u8>, V)>, i: int)
    requires
        keys_distinct(s),
        0 <= i < s.len(),
    ensures
        pairs_map(s.remove(i)) == pairs_map(s).remove(s[i].0@),
        keys_distinct(s.remove(i)),
        forall|j: int| 0 <= j < s.remove(i).len() ==> s.remove(i)[j].0@ != s[i].0@,
    decreases s.len(),
{
    let k = s[i].0@;
    if i == s.len() - 1 {
        assert(s.remove(i) =~= s.drop_last());
        assert(forall|j: int| 0 <= j < s.drop_last().len() ==> s.drop_last()[j].0@ != k);
        lemma_pairs_map_contains(s.drop_last(), k);
        assert(pairs_map(s.drop_last()).insert(k, s.last().1@).remove(k)
            =~= pairs_map(s.drop_last()));
    } else {
        lemma_pairs_map_remove(s.drop_last(), i);
        assert(s.remove(i).drop_last() =~= s.drop_last().remove(i));
        assert(s.remove(i).last() == s.last());
        assert(pairs_map(s.remove(i))
            == pairs_map(s.drop_last().remove(i)).insert(s.last().0@, s.last().1@));
        assert(pairs_map(s.drop_last()).remove(k).insert(s.last().0@, s.last().1@)
            =~= pairs_map(s.drop_last()).insert(s.last().0@, s.last().1@).remove(k));
    }
}

/// A map from byte strings to byte strings.
pub struct ByteMap {
    pairs: Vec<(Vec<u8>, Vec<u8>)>,
}

impl View for ByteMap {
    type V = Map<Seq<u8>, Seq<u8>>;

    closed spec fn view(&self) -> Map<Seq<u8>, Seq<u8>> {
        pairs_map(self.pairs@)
    }
}

impl ByteMap {
    /// Internal invariant: no key occurs twice.
    pub closed spec fn wf(&self) -> bool {
        keys_distinct(self.pairs@)
    }

    /// The empty map.
    pub fn new() -> (r: ByteMap)
        ensures
            r@ == Map::<Seq<u8>, Seq<u8>>::empty(),
            r.wf(),
    {
        let r = ByteMap { pairs: Vec::new() };
        r
    }

    fn index_of(&self, key: &[u8]) -> (r: Option<usize>)
        ensures
            match r {
                Some(i) => i < self.pairs@.len() && self.pairs@[i as int].0@ == key@,
                None => forall|k: int| 0 <= k < self.pairs@.len() ==> self.pairs@[k].0@ != key@,
            },
    {
        let n = self.pairs.len();
        let mut i: usize = 0;
        while i < n
            invariant
                n == self.pairs@.len(),
                i <= n,
                forall|k: int| 0 <= k < i ==> self.pairs@[k].0@ != key@,
            decreases n - i,
        {
            if bytes_eq(self.pairs[i].0.as_slice(), key) {
                return Some(i);
            }
            i = i + 1;
        }
        None
    }

    /// Looks the key up.
    pub fn get<'a>(&'a self, key: &[u8]) -> (r: Option<&'a Vec<u8>>)
        requires
            self.wf(),
        ensures
            match r {
                Some(v) => self@.contains_key(key@) && v@ == self@[key@],
                None => !self@.contains_key(key@),
            },
    {
        match self.index_of(key) {
            Some(i) => {
                proof {
                    lemma_pairs_map_at(self.pairs@, i as int);
                }
                Some(&self.pairs[i].1)
            },
            None => {
                proof {
                    lemma_pairs_map_contains(self.pairs@, key@);
                }
                None
            },
        }
    }

    /// Removes the key if present; no-op otherwise.
    pub fn remove(&mut self, key: &[u8])
        requires
            old(self).wf(),
        ensures
            final(self).wf(),
            final(self)@ == old(self)@.remove(key@),
    {
        match self.index_of(key) {
            Some(i) => {
                proof {
                    lemma_pairs_map_remove(self.pairs@, i as int);
                }
                let _ = self.pairs.remove(i);
            },
            None => {
                proof {
                    lemma_pairs_map_contains(self.pairs@, key@);
                    assert(old(self)@.remove(key@) =~= old(self)@);
                }
            },
        }
    }

    /// Binds the key to the value, overwriting any earlier binding.
    pub fn insert(&mut self, key: Vec<u8>, value: Vec<u8>)
        requires
            old(self).wf(),
        ensures
            final(self).wf(),
            final(self)@ == old(self)@.insert(key@, value@),
    {
        self.remove(key.as_slice());
        proof {
            lemma_pairs_map_contains(self.pairs@, key@);
        }
        let ghost mid = self.pairs@;
        self.pairs.push((key, value));
        proof {
            assert(self.pairs@.drop_last() =~= mid);
            assert(self@ =~= old(self)@.insert(self.pairs@.last().0@, self.pairs@.last().1@));
        }
    }
}

/// Which methods a route table binds under a path: the path's entry where
/// the path is bound, the empty map where it is not.
pub open spec fn method_entry(
    routes: Map<Seq<u8>, Map<Seq<u8>, Seq<u8>>>,
    path: Seq<u8>,
) -> Map<Seq<u8>, Seq<u8>> {
    if routes.contains_key(path) {
        routes[path]
    } else {
        Map::empty()
    }
}

/// A map from paths to the method maps registered under them.
pub struct PathMap {
    pairs: Vec<(Vec<u8>, ByteMap)>,
}

impl View for PathMap {
    type V = Map<Seq<u8>, Map<Seq<u8>, Seq<u8>>>;

    closed spec fn view(&self) -> Map<Seq<u8>, Map<Seq<u8>, Seq<u8>>> {
        pairs_map(self.pairs@)
    }
}

impl PathMap {
    /// Internal invariant: distinct paths, each holding a well-formed
    /// method map.
    pub closed spec fn wf(&self) -> bool {
        keys_distinct(self.pairs@) && (forall|i: int|
            0 <= i < self.pairs@.len() ==> self.pairs@[i].1.wf())
    }

    /// The empty map.
    pub fn new() -> (r: PathMap)
        ensures
            r@ == Map::<Seq<u8>, Map<Seq<u8>, Seq<u8>>>::empty(),
            r.wf(),
    {
        let r = PathMap { pairs: Vec::new() };
        r
    }

    fn index_of(&self, key: &[u8]) -> (r: Option<usize>)
        ensures
            match r {
                Some(i) => i < self.pairs@.len() && self.pairs@[i as int].0@ == key@,
                None => forall|k: int| 0 <= k < self.pairs@.len() ==> self.pairs@[k].0@ != key@,
            },
    {
        let n = self.pairs.len();
        let mut i: usize = 0;
        while i < n
            invariant
                n == self.pairs@.len(),
                i <= n,
                forall|k: int| 0 <= k < i ==> self.pairs@[k].0@ != key@,
            decreases n - i,
        {
            if bytes_eq(self.pairs[i].0.as_slice(), key) {
                return Some(i);
            }
            i = i + 1;
        }
        None
    }

    /// Looks the path up.
    pub fn get<'a>(&'a self, key: &[u8]) -> (r: Option<&'a ByteMap>)
        requires
            self.wf(),
        ensures
            match r {
                Some(m) => m.wf() && self@.contains_key(key@) && m@ == self@[key@],
                None => !self@.contains_key(key@),
            },
    {
        match self.index_of(key) {
            Some(i) => {
                proof {
                    lemma_pairs_map_at(self.pairs@, i as int);
                }
                Some(&self.pairs[i].1)
            },
            None => {
                proof {
                    lemma_pairs_map_contains(self.pairs@, key@);
                }
                None
            },
        }
    }

    /// Removes a path and every method under it; no-op where absent.
    pub fn remove(&mut self, key: &[u8])
        requires
            old(self).wf(),
        ensures
            final(self).wf(),
            final(self)@ == old(self)@.remove(key@),
    {
        match self.index_of(key) {
            Some(i) => {
                proof {
                    lemma_pairs_map_remove(self.pairs@, i as int);
                }
                let _ = self.pairs.remove(i);
            },
            None => {
                proof {
                    lemma_pairs_map_contains(self.pairs@, key@);
                    assert(old(self)@.remove(key@) =~= old(self)@);
                }
            },
        }
    }

    /// Binds `method` under `path` to `value`, keeping the path's other
    /// methods and overwriting an earlier binding of the same method.
    pub fn add(&mut self, path: &[u8], method: &[u8], value: Vec<u8>)
        requires
            old(self).wf(),
        ensures
            final(self).wf(),
            final(self)@ == old(self)@.insert(
                path@,
                method_entry(old(self)@, path@).insert(method@, value@),
            ),
    {
        match self.index_of(path) {
            Some(i) => {
                proof {
                    lemma_pairs_map_at(self.pairs@, i as int);
                    lemma_pairs_map_remove(self.pairs@, i as int);
                }
                let (k, mut m) = self.pairs.remove(i);
                m.insert(vec_from(method), value);
                let ghost mid = self.pairs@;
                self.pairs.push((k, m));
                proof {
                    assert(self.pairs@.drop_last() =~= mid);
                    assert(self@ =~= old(self)@.insert(
                        path@,
                        method_entry(old(self)@, path@).insert(method@, value@),
                    ));
                }
            },
            None => {
                proof {
                    lemma_pairs_map_contains(self.pairs@, path@);
                }
                let mut m = ByteMap::new();
                m.insert(vec_from(method), value);
                let ghost mid = self.pairs@;
                self.pairs.push((vec_from(path), m));
                proof {
                    assert(self.pairs@.drop_last() =~= mid);
                    assert(self@ =~= old(self)@.insert(
                        path@,
                        method_entry(old(self)@, path@).insert(method@, value@),
                    ));
                }
            },
        }
    }

    /// Removes one method under a path; no-op where path or method is absent.
    pub fn remove_method(&mut self, path: &[u8], method: &[u8])
        requires
            old(self).wf(),
        ensures
            final(self).wf(),
            final(self)@ == if old(self)@.contains_key(path@) {
                old(self)@.insert(path@, old(self)@[path@].remove(method@))
            } else {
                old(self)@
            },
    {
        match self.index_of(path) {
            Some(i) => {
                proof {
                    lemma_pairs_map_at(self.pairs@, i as int);
                    lemma_pairs_map_remove(self.pairs@, i as int);
                }
                let (k, mut m) = self.pairs.remove(i);
                m.remove(method);
                let ghost mid = self.pairs@;
                self.pairs.push((k, m));
                proof {
                    assert(self.pairs@.drop_last() =~= mid);
                    assert(self@ =~= old(self)@.insert(
                        path@,
                        old(self)@[path@].remove(method@),
                    ));
                }
            },
            None => {
                proof {
                    lemma_pairs_map_contains(self.pairs@, path@);
                }
            },
        }
    }
}

} // verus!
