//! The in-memory key directory: a mapping from key to the disk location
//! of the key's most recent entry.
//!
//! The contract is uniform over implementations: each key directory views
//! as a `Map` from the key's characters to a `MetaData`, and `put`, `get`
//! and `delete` are exactly map insert, lookup and remove. Both provided
//! implementations keep their bindings in a vector of pairs; `assoc_map`
//! below is the map such a vector denotes, later bindings winning.

use vstd::prelude::*;
use vstd::map::*;
use crate::btree::BTree;
use crate::keydir::KeyDir;
use crate::meta_data::MetaData;
use crate::options::IndexType;

verus! {

/// The uniform contract of a key directory.
pub trait Indexer: Sized {
    /// The implementation's internal invariant; constructors establish it
    /// and every operation preserves it.
    spec fn inv(&self) -> bool;

    /// The mapping this directory currently holds.
    spec fn index(&self) -> Map<Seq<char>, MetaData>;

    /// Bind `key` to `meta_data`, replacing any earlier binding.
    fn put(&mut self, key: String, meta_data: MetaData) -> (r: bool)
        requires
            old(self).inv(),
        ensures
            r,
            final(self).inv(),
            final(self).index() == old(self).index().insert(key@, meta_data),
    ;

    /// The binding of `key`, if any.
    fn get(&self, key: &String) -> (r: Option<MetaData>)
        requires
            self.inv(),
        ensures
            r == if self.index().contains_key(key@) {
                Some(self.index()[key@])
            } else {
                None::<MetaData>
            },
    ;

    /// Drop the binding of `key`; reports whether one existed.
    fn delete(&mut self, key: &String) -> (r: bool)
        requires
            old(self).inv(),
        ensures
            final(self).inv(),
            r == old(self).index().contains_key(key@),
            final(self).index() == old(self).index().remove(key@),
    ;
}

/// A key directory of either supported kind, chosen at open time.
pub enum AnyIndexer {
    Hash(KeyDir),
    BTree(BTree),
}

impl Indexer for AnyIndexer {
    closed spec fn inv(&self) -> bool {
        match self {
            AnyIndexer::Hash(k) => k.inv(),
            AnyIndexer::BTree(b) => b.inv(),
        }
    }

    closed spec fn index(&self) -> Map<Seq<char>, MetaData> {
        match self {
            AnyIndexer::Hash(k) => k.index(),
            AnyIndexer::BTree(b) => b.index(),
        }
    }

    fn put(&mut self, key: String, meta_data: MetaData) -> (r: bool) {
        match self {
            AnyIndexer::Hash(k) => k.put(key, meta_data),
            AnyIndexer::BTree(b) => b.put(key, meta_data),
        }
    }

    fn get(&self, key: &String) -> (r: Option<MetaData>) {
        match self {
            AnyIndexer::Hash(k) => k.get(key),
            AnyIndexer::BTree(b) => b.get(key),
        }
    }

    fn delete(&mut self, key: &String) -> (r: bool) {
        match self {
            AnyIndexer::Hash(k) => k.delete(key),
            AnyIndexer::BTree(b) => b.delete(key),
        }
    }
}

/// Choose the key directory implementation from the configuration tag.
/// The skip-list variant is reserved and not yet supported.
pub fn new_indexer(index_type: IndexType) -> (r: AnyIndexer)
    requires
        index_type != IndexType::SkipList,
    ensures
        r.inv(),
        r.index() == Map::<Seq<char>, MetaData>::empty(),
{
    match index_type {
        IndexType::Hash => AnyIndexer::Hash(KeyDir::new()),
        IndexType::BTree => AnyIndexer::BTree(BTree::new()),
        IndexType::SkipList => {
            proof {
                assert(false);
            }
            AnyIndexer::Hash(KeyDir::new())
        },
    }
}

/// The map denoted by a vector of bindings, later bindings winning.
pub open spec fn assoc_map(s: Seq<(String, MetaData)>) -> Map<Seq<char>, MetaData>
    decreases s.len(),
{
    if s.len() == 0 {
        Map::empty()
    } else {
        assoc_map(s.drop_last()).insert(s.last().0@, s.last().1)
    }
}

/// No two bindings share a key.
pub open spec fn keys_distinct(s: Seq<(String, MetaData)>) -> bool {
    forall|i: int, j: int|
        0 <= i < j < s.len() ==> (#[trigger] s[i]).0@ != (#[trigger] s[j]).0@
}

/// The index of the last binding of `k` in `s`, or -1 if there is none.
pub open spec fn find_key(s: Seq<(String, MetaData)>, k: Seq<char>) -> int
    decreases s.len(),
{
    if s.len() == 0 {
        -1
    } else if s.last().0@ == k {
        s.len() - 1
    } else {
        find_key(s.drop_last(), k)
    }
}

/// `find_key` characterizes `assoc_map`: a key is bound exactly when some
/// binding carries it, and then to the value of the last such binding.
pub proof fn lemma_find_key(s: Seq<(String, MetaData)>, k: Seq<char>)
    ensures
        find_key(s, k) == -1 || 0 <= find_key(s, k) < s.len(),
        find_key(s, k) == -1 ==> !assoc_map(s).contains_key(k) && forall|i: int|
            0 <= i < s.len() ==> (#[trigger] s[i]).0@ != k,
        find_key(s, k) >= 0 ==> {
            let f = find_key(s, k);
            &&& 0 <= f < s.len()
            &&& s[f].0@ == k
            &&& assoc_map(s).contains_key(k)
            &&& assoc_map(s)[k] == s[f].1
        },
    decreases s.len(),
{
    if s.len() > 0 {
        let d = s.drop_last();
        lemma_find_key(d, k);
        if s.last().0@ != k {
            if find_key(d, k) == -1 {
                assert forall|i: int| 0 <= i < s.len() implies (#[trigger] s[i]).0@ != k by {
                    if i < s.len() - 1 {
                        assert(s[i] == d[i]);
                    } else {
                        assert(s[i] == s.last());
                    }
                }
            } else {
                let f = find_key(d, k);
                assert(s[f] == d[f]);
            }
        }
    }
}

/// The value bound to the key of binding `i`, when keys are distinct, is
/// the value of binding `i`.
pub proof fn lemma_assoc_value(s: Seq<(String, MetaData)>, i: int)
    requires
        keys_distinct(s),
        0 <= i < s.len(),
    ensures
        assoc_map(s).contains_key(s[i].0@),
        assoc_map(s)[s[i].0@] == s[i].1,
{
    lemma_find_key(s, s[i].0@);
    let f = find_key(s, s[i].0@);
    assert(f >= 0) by {
        if f == -1 {
            assert(s[i].0@ != s[i].0@);
        }
    }
    assert(f == i);
}

/// Appending a binding for a fresh key inserts it into the map and keeps
/// keys distinct.
pub proof fn lemma_assoc_push(s: Seq<(String, MetaData)>, p: (String, MetaData))
    requires
        keys_distinct(s),
        forall|i: int| 0 <= i < s.len() ==> (#[trigger] s[i]).0@ != p.0@,
    ensures
        assoc_map(s.push(p)) == assoc_map(s).insert(p.0@, p.1),
        keys_distinct(s.push(p)),
{
    assert(s.push(p).drop_last() =~= s);
}

/// Replacing the binding at `i` with one for the same key updates the map
/// at that key and keeps keys distinct.
pub proof fn lemma_assoc_update(s: Seq<(String, MetaData)>, i: int, p: (String, MetaData))
    requires
        keys_distinct(s),
        0 <= i < s.len(),
        p.0@ == s[i].0@,
    ensures
        assoc_map(s.update(i, p)) == assoc_map(s).insert(p.0@, p.1),
        keys_distinct(s.update(i, p)),
    decreases s.len(),
{
    let t = s.update(i, p);
    assert forall|m: int, n: int| 0 <= m < n < t.len() implies (#[trigger] t[m]).0@ != (
    #[trigger] t[n]).0@ by {
        assert(s[m].0@ != s[n].0@);
        if m == i {
            assert(t[m] == p && t[n] == s[n]);
        } else if n == i {
            assert(t[m] == s[m] && t[n] == p);
        } else {
            assert(t[m] == s[m] && t[n] == s[n]);
        }
    }
    if i == s.len() - 1 {
        assert(t.drop_last() =~= s.drop_last());
        assert(t.last() == p);
        assert(assoc_map(t) =~= assoc_map(s).insert(p.0@, p.1));
    } else {
        let d = s.drop_last();
        assert(t.drop_last() =~= d.update(i, p));
        assert(d[i] == s[i]);
        lemma_assoc_update(d, i, p);
        assert(t.last() == s.last());
        assert(s[s.len() - 1].0@ != s[i].0@);
        assert(assoc_map(t) =~= assoc_map(s).insert(p.0@, p.1));
    }
}

/// Inserting a binding for a fresh key at any position inserts it into
/// the map and keeps keys distinct.
pub proof fn lemma_assoc_insert_at(s: Seq<(String, MetaData)>, i: int, p: (String, MetaData))
    requires
        keys_distinct(s),
        0 <= i <= s.len(),
        forall|j: int| 0 <= j < s.len() ==> (#[trigger] s[j]).0@ != p.0@,
    ensures
        assoc_map(s.insert(i, p)) == assoc_map(s).insert(p.0@, p.1),
        keys_distinct(s.insert(i, p)),
    decreases s.len(),
{
    let t = s.insert(i, p);
    assert forall|m: int, n: int| 0 <= m < n < t.len() implies (#[trigger] t[m]).0@ != (
    #[trigger] t[n]).0@ by {
        if m == i {
            let n0 = n - 1;
            assert(t[m] == p && t[n] == s[n0]);
        } else if n == i {
            assert(t[n] == p && t[m] == s[m]);
        } else {
            let m0 = if m < i {
                m
            } else {
                m - 1
            };
            let n0 = if n < i {
                n
            } else {
                n - 1
            };
            assert(t[m] == s[m0] && t[n] == s[n0]);
            assert(s[m0].0@ != s[n0].0@);
        }
    }
    if i == s.len() {
        assert(t =~= s.push(p));
        lemma_assoc_push(s, p);
    } else {
        let d = s.drop_last();
        assert(t.drop_last() =~= d.insert(i, p));
        assert(t.last() == s.last());
        assert forall|j: int| 0 <= j < d.len() implies (#[trigger] d[j]).0@ != p.0@ by {
            assert(d[j] == s[j]);
        }
        lemma_assoc_insert_at(d, i, p);
        assert(s[s.len() - 1].0@ != p.0@);
        assert(assoc_map(t) =~= assoc_map(s).insert(p.0@, p.1));
    }
}

/// Removing the binding at `i`, when keys are distinct, removes exactly
/// its key from the map.
pub proof fn lemma_assoc_remove(s: Seq<(String, MetaData)>, i: int)
    requires
        keys_distinct(s),
        0 <= i < s.len(),
    ensures
        assoc_map(s.remove(i)) == assoc_map(s).remove(s[i].0@),
        keys_distinct(s.remove(i)),
    decreases s.len(),
{
    let t = s.remove(i);
    let k = s[i].0@;
    assert forall|m: int, n: int| 0 <= m < n < t.len() implies (#[trigger] t[m]).0@ != (
    #[trigger] t[n]).0@ by {
        let m0 = if m < i {
            m
        } else {
            m + 1
        };
        let n0 = if n < i {
            n
        } else {
            n + 1
        };
        assert(t[m] == s[m0] && t[n] == s[n0]);
        assert(s[m0].0@ != s[n0].0@);
    }
    if i == s.len() - 1 {
        assert(t =~= s.drop_last());
        lemma_find_key(s.drop_last(), k);
        let f = find_key(s.drop_last(), k);
        if f >= 0 {
            assert(s.drop_last()[f] == s[f]);
            assert(false);
        }
        assert(assoc_map(t) =~= assoc_map(s).remove(k));
    } else {
        let d = s.drop_last();
        assert(t.drop_last() =~= d.remove(i));
        assert(d[i] == s[i]);
        lemma_assoc_remove(d, i);
        assert(t.last() == s.last());
        assert(s[s.len() - 1].0@ != k);
        assert(assoc_map(t) =~= assoc_map(s).remove(k));
    }
}

} // verus!
