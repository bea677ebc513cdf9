//! The ordered key directory: bindings kept sorted by the keys' UTF-8
//! bytes, each key bound at most once.

use vstd::prelude::*;
use crate::entry::key_bytes;
use crate::index::assoc_map;
use crate::index::find_key;
use crate::index::keys_distinct;
use crate::index::lemma_assoc_insert_at;
use crate::index::lemma_assoc_remove;
use crate::index::lemma_assoc_update;
use crate::index::lemma_assoc_value;
use crate::index::lemma_find_key;
use crate::index::Indexer;
use crate::meta_data::MetaData;

verus! {

broadcast use vstd::utf8::encode_utf8_decode_utf8;

/// Strict lexicographic order on byte strings.
pub open spec fn bytes_lt(a: Seq<u8>, b: Seq<u8>) -> bool
    decreases a.len(),
{
    if b.len() == 0 {
        false
    } else if a.len() == 0 {
        true
    } else if a[0] < b[0] {
        true
    } else if a[0] > b[0] {
        false
    } else {
        bytes_lt(a.drop_first(), b.drop_first())
    }
}

/// No byte string is below itself.
pub proof fn lemma_bytes_lt_irrefl(a: Seq<u8>)
    ensures
        !bytes_lt(a, a),
    decreases a.len(),
{
    if a.len() > 0 {
        lemma_bytes_lt_irrefl(a.drop_first());
    }
}

/// Two byte strings are ordered one way or the other, or equal.
pub proof fn lemma_bytes_lt_connected(a: Seq<u8>, b: Seq<u8>)
    ensures
        bytes_lt(a, b) || bytes_lt(b, a) || a == b,
    decreases a.len(),
{
    if a.len() > 0 && b.len() > 0 && a[0] == b[0] {
        lemma_bytes_lt_connected(a.drop_first(), b.drop_first());
        if a.drop_first() == b.drop_first() {
            assert forall|i: int| 0 <= i < a.len() implies a[i] == b[i] by {
                if i > 0 {
                    assert(a[i] == a.drop_first()[i - 1]);
                    assert(b[i] == b.drop_first()[i - 1]);
                }
            }
            assert(a =~= b);
        }
    }
}

/// The order is transitive.
pub proof fn lemma_bytes_lt_trans(a: Seq<u8>, b: Seq<u8>, c: Seq<u8>)
    requires
        bytes_lt(a, b),
        bytes_lt(b, c),
    ensures
        bytes_lt(a, c),
    decreases a.len(),
{
    if a.len() > 0 && b.len() > 0 && c.len() > 0 {
        if a[0] == b[0] && b[0] == c[0] {
            lemma_bytes_lt_trans(a.drop_first(), b.drop_first(), c.drop_first());
        }
    }
}

/// The order that sorts the directory: key bytes, lexicographically.
pub open spec fn key_lt(a: Seq<char>, b: Seq<char>) -> bool {
    bytes_lt(key_bytes(a), key_bytes(b))
}

/// Bindings sorted strictly by key order.
pub open spec fn keys_sorted(s: Seq<(String, MetaData)>) -> bool {
    forall|i: int, j: int|
        0 <= i < j < s.len() ==> key_lt((#[trigger] s[i]).0@, (#[trigger] s[j]).0@)
}

/// Strictly sorted bindings have distinct keys.
pub proof fn lemma_sorted_distinct(s: Seq<(String, MetaData)>)
    requires
        keys_sorted(s),
    ensures
        keys_distinct(s),
{
    assert forall|i: int, j: int| 0 <= i < j < s.len() implies (#[trigger] s[i]).0@ != (
    #[trigger] s[j]).0@ by {
        if s[i].0@ == s[j].0@ {
            lemma_bytes_lt_irrefl(key_bytes(s[i].0@));
        }
    }
}

/// Byte-wise comparison of two keys, matching `key_lt` on the views.
fn str_key_lt(a: &String, b: &String) -> (r: bool)
    ensures
        r == key_lt(a@, b@),
{
    let ab = a.as_str().as_bytes();
    let bb = b.as_str().as_bytes();
    let an: usize = ab.len();
    let bn: usize = bb.len();
    let n: usize = if an < bn {
        an
    } else {
        bn
    };
    let mut i: usize = 0;
    proof {
        assert(ab@.skip(0) =~= ab@);
        assert(bb@.skip(0) =~= bb@);
    }
    while i < n
        invariant
            n <= an == ab@.len(),
            n <= bn == bb@.len(),
            0 <= i <= n,
            ab@ == key_bytes(a@),
            bb@ == key_bytes(b@),
            bytes_lt(ab@, bb@) == bytes_lt(ab@.skip(i as int), bb@.skip(i as int)),
        decreases n - i,
    {
        let x = ab[i];
        let y = bb[i];
        proof {
            assert(ab@.skip(i as int)[0] == x);
            assert(bb@.skip(i as int)[0] == y);
        }
        if x < y {
            return true;
        }
        if x > y {
            return false;
        }
        proof {
            assert(ab@.skip(i as int).drop_first() =~= ab@.skip(i as int + 1));
            assert(bb@.skip(i as int).drop_first() =~= bb@.skip(i as int + 1));
        }
        i = i + 1;
    }
    proof {
        if an < bn {
            assert(ab@.skip(i as int).len() == 0);
            assert(bb@.skip(i as int).len() > 0);
        } else {
            assert(bb@.skip(i as int).len() == 0);
        }
    }
    an < bn
}

/// An ordered key directory.
pub struct BTree {
    tree: Vec<(String, MetaData)>,
}

impl BTree {
    /// The bindings the directory holds.
    pub closed spec fn bindings(&self) -> Seq<(String, MetaData)> {
        self.tree@
    }

    /// An empty directory.
    pub fn new() -> (r: Self)
        ensures
            r.inv(),
            r.index() == Map::<Seq<char>, MetaData>::empty(),
    {
        BTree { tree: Vec::new() }
    }

    /// The position of the first binding whose key is not below `key`.
    fn lower_bound(&self, key: &String) -> (r: usize)
        requires
            self.inv(),
        ensures
            r <= self.bindings().len(),
            forall|j: int| 0 <= j < r ==> key_lt((#[trigger] self.bindings()[j]).0@, key@),
            r < self.bindings().len() ==> !key_lt(self.bindings()[r as int].0@, key@),
    {
        let n: usize = self.tree.len();
        let mut i: usize = 0;
        while i < n && str_key_lt(&self.tree[i].0, key)
            invariant
                0 <= i <= n == self.bindings().len(),
                forall|j: int| 0 <= j < i ==> key_lt((#[trigger] self.bindings()[j]).0@, key@),
            decreases n - i,
        {
            i = i + 1;
        }
        i
    }
}

impl Indexer for BTree {
    /// Bindings are kept strictly sorted by key order.
    closed spec fn inv(&self) -> bool {
        keys_sorted(self.tree@)
    }

    closed spec fn index(&self) -> Map<Seq<char>, MetaData> {
        assoc_map(self.tree@)
    }

    fn put(&mut self, key: String, meta_data: MetaData) -> (r: bool) {
        let ghost s = self.bindings();
        proof {
            lemma_sorted_distinct(s);
        }
        let i = self.lower_bound(&key);
        let n: usize = self.tree.len();
        if i < n && self.tree[i].0 == key {
            proof {
                lemma_assoc_update(s, i as int, (key, meta_data));
                let t = s.update(i as int, (key, meta_data));
                assert forall|m: int, j: int| 0 <= m < j < t.len() implies key_lt(
                    (#[trigger] t[m]).0@,
                    (#[trigger] t[j]).0@,
                ) by {
                    assert(key_lt(s[m].0@, s[j].0@));
                    if m == i as int {
                        assert(t[m].0@ == s[m].0@ && t[j] == s[j]);
                    } else if j == i as int {
                        assert(t[j].0@ == s[j].0@ && t[m] == s[m]);
                    } else {
                        assert(t[m] == s[m] && t[j] == s[j]);
                    }
                }
            }
            self.tree[i] = (key, meta_data);
        } else {
            proof {
                assert forall|j: int| 0 <= j < s.len() implies (#[trigger] s[j]).0@ != key@ by {
                    if j < i as int {
                        if s[j].0@ == key@ {
                            lemma_bytes_lt_irrefl(key_bytes(key@));
                        }
                    } else {
                        if s[j].0@ == key@ {
                            if j > i as int {
                                assert(key_lt(s[i as int].0@, s[j].0@));
                            }
                            lemma_bytes_lt_connected(key_bytes(s[i as int].0@), key_bytes(key@));
                            lemma_bytes_lt_irrefl(key_bytes(key@));
                        }
                    }
                }
                assert forall|j: int| i as int <= j < s.len() implies key_lt(
                    key@,
                    (#[trigger] s[j]).0@,
                ) by {
                    lemma_bytes_lt_connected(key_bytes(s[i as int].0@), key_bytes(key@));
                    if key_bytes(s[i as int].0@) == key_bytes(key@) {
                        crate::entry::lemma_key_bytes_injective(s[i as int].0@, key@);
                    }
                    assert(key_lt(key@, s[i as int].0@));
                    if j > i as int {
                        assert(key_lt(s[i as int].0@, s[j].0@));
                        lemma_bytes_lt_trans(
                            key_bytes(key@),
                            key_bytes(s[i as int].0@),
                            key_bytes(s[j].0@),
                        );
                    }
                }
                lemma_assoc_insert_at(s, i as int, (key, meta_data));
                let t = s.insert(i as int, (key, meta_data));
                assert forall|m: int, j: int| 0 <= m < j < t.len() implies key_lt(
                    (#[trigger] t[m]).0@,
                    (#[trigger] t[j]).0@,
                ) by {
                    if m == i as int {
                        assert(t[m].0@ == key@ && t[j] == s[j - 1]);
                    } else if j == i as int {
                        assert(t[j].0@ == key@ && t[m] == s[m]);
                    } else {
                        let m0 = if m < i as int {
                            m
                        } else {
                            m - 1
                        };
                        let j0 = if j < i as int {
                            j
                        } else {
                            j - 1
                        };
                        assert(t[m] == s[m0] && t[j] == s[j0]);
                        assert(key_lt(s[m0].0@, s[j0].0@));
                    }
                }
            }
            self.tree.insert(i, (key, meta_data));
        }
        true
    }

    fn get(&self, key: &String) -> (r: Option<MetaData>) {
        proof {
            lemma_sorted_distinct(self.bindings());
        }
        let n: usize = self.tree.len();
        let mut i: usize = 0;
        while i < n
            invariant
                self.inv(),
                keys_distinct(self.bindings()),
                0 <= i <= n == self.bindings().len(),
                forall|j: int| 0 <= j < i ==> (#[trigger] self.bindings()[j]).0@ != key@,
            decreases n - i,
        {
            if *key == self.tree[i].0 {
                proof {
                    lemma_assoc_value(self.bindings(), i as int);
                }
                return Some(self.tree[i].1);
            }
            i = i + 1;
        }
        proof {
            lemma_find_key(self.bindings(), key@);
            let f = find_key(self.bindings(), key@);
            if f >= 0 {
                assert(false);
            }
        }
        None
    }

    fn delete(&mut self, key: &String) -> (r: bool) {
        let ghost s = self.bindings();
        proof {
            lemma_sorted_distinct(s);
        }
        let n: usize = self.tree.len();
        let mut i: usize = 0;
        while i < n
            invariant
                self.inv(),
                keys_distinct(self.bindings()),
                s == old(self).bindings(),
                self.bindings() == s,
                0 <= i <= n == self.bindings().len(),
                forall|j: int| 0 <= j < i ==> (#[trigger] self.bindings()[j]).0@ != key@,
            decreases n - i,
        {
            if *key == self.tree[i].0 {
                proof {
                    lemma_assoc_value(s, i as int);
                    lemma_assoc_remove(s, i as int);
                    let t = s.remove(i as int);
                    assert forall|m: int, j: int| 0 <= m < j < t.len() implies key_lt(
                        (#[trigger] t[m]).0@,
                        (#[trigger] t[j]).0@,
                    ) by {
                        let m0 = if m < i as int {
                            m
                        } else {
                            m + 1
                        };
                        let j0 = if j < i as int {
                            j
                        } else {
                            j + 1
                        };
                        assert(t[m] == s[m0] && t[j] == s[j0]);
                        assert(key_lt(s[m0].0@, s[j0].0@));
                    }
                }
                self.tree.remove(i);
                proof {
                    assert(old(self).index().remove(key@) =~= self.index());
                }
                return true;
            }
            i = i + 1;
        }
        proof {
            lemma_find_key(s, key@);
            let f = find_key(s, key@);
            if f >= 0 {
                assert(false);
            }
            assert(old(self).index().remove(key@) =~= self.index());
        }
        false
    }
}

} // verus!
