//! The unordered key directory: bindings kept in insertion order, each
//! key bound at most once.

use vstd::prelude::*;
use crate::index::assoc_map;
use crate::index::find_key;
use crate::index::keys_distinct;
use crate::index::lemma_assoc_push;
use crate::index::lemma_assoc_remove;
use crate::index::lemma_assoc_update;
use crate::index::lemma_assoc_value;
use crate::index::lemma_find_key;
use crate::index::Indexer;
use crate::meta_data::MetaData;

verus! {

/// An unordered key directory.
pub struct KeyDir {
    table: Vec<(String, MetaData)>,
}

impl KeyDir {
    /// The bindings the directory holds.
    pub closed spec fn bindings(&self) -> Seq<(String, MetaData)> {
        self.table@
    }

    /// An empty directory.
    pub fn new() -> (r: Self)
        ensures
            r.inv(),
            r.index() == Map::<Seq<char>, MetaData>::empty(),
    {
        KeyDir { table: Vec::new() }
    }

    /// The position of the binding of `key`, if one exists.
    fn position_of(&self, key: &String) -> (r: Option<usize>)
        requires
            self.inv(),
        ensures
            match r {
                Some(i) => i < self.bindings().len() && self.bindings()[i as int].0@ == key@,
                None => !self.index().contains_key(key@),
            },
    {
        let n: usize = self.table.len();
        let mut i: usize = 0;
        while i < n
            invariant
                self.inv(),
                0 <= i <= n == self.bindings().len(),
                forall|j: int| 0 <= j < i ==> (#[trigger] self.bindings()[j]).0@ != key@,
            decreases n - i,
        {
            if *key == self.table[i].0 {
                return Some(i);
            }
            i = i + 1;
        }
        proof {
            lemma_find_key(self.bindings(), key@);
            let f = find_key(self.bindings(), key@);
            if f >= 0 {
                assert(false);
            }
        }
        None
    }
}

impl Indexer for KeyDir {
    /// Each key is bound at most once.
    closed spec fn inv(&self) -> bool {
        keys_distinct(self.bindings())
    }

    closed spec fn index(&self) -> Map<Seq<char>, MetaData> {
        assoc_map(self.table@)
    }

    fn put(&mut self, key: String, meta_data: MetaData) -> (r: bool) {
        match self.position_of(&key) {
            Some(i) => {
                proof {
                    lemma_assoc_update(self.bindings(), i as int, (key, meta_data));
                }
                self.table[i] = (key, meta_data);
            },
            None => {
                proof {
                    lemma_find_key(self.bindings(), key@);
                    let f = find_key(self.bindings(), key@);
                    if f >= 0 {
                        assert(false);
                    }
                    lemma_assoc_push(self.bindings(), (key, meta_data));
                }
                self.table.push((key, meta_data));
            },
        }
        true
    }

    fn get(&self, key: &String) -> (r: Option<MetaData>) {
        match self.position_of(key) {
            Some(i) => {
                proof {
                    lemma_assoc_value(self.bindings(), i as int);
                }
                Some(self.table[i].1)
            },
            None => None,
        }
    }

    fn delete(&mut self, key: &String) -> (r: bool) {
        match self.position_of(key) {
            Some(i) => {
                proof {
                    lemma_assoc_value(self.bindings(), i as int);
                    lemma_assoc_remove(self.bindings(), i as int);
                }
                self.table.remove(i);
                proof {
                    assert(old(self).index().remove(key@) =~= self.index());
                }
                true
            },
            None => {
                proof {
                    assert(old(self).index().remove(key@) =~= self.index());
                }
                false
            },
        }
    }
}

} // verus!
