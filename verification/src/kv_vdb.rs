//! A named collection store: a mapping from string keys to collections, with
//! unique keys and overwrite-on-add semantics. Persistence of a store is one
//! directory per key, each laid out as a collection directory; the store
//! itself only offers the keyed access that such a walk needs, so all
//! file-system work stays outside the library.

use vstd::prelude::*;
use crate::Error;
use crate::vdb::VectorDatabase;
use crate::vector::PointV;

verus! {

/// The first position of `key` in `keys` from index `i` on, or -1.
pub open spec fn find_key_from(keys: Seq<Seq<char>>, key: Seq<char>, i: int) -> int
    decreases keys.len() - i,
{
    if i < 0 || i >= keys.len() {
        -1
    } else if keys[i] == key {
        i
    } else {
        find_key_from(keys, key, i + 1)
    }
}

/// The first position of `key` in `keys`, or -1 when absent.
pub open spec fn find_key(keys: Seq<Seq<char>>, key: Seq<char>) -> int {
    find_key_from(keys, key, 0)
}

/// A store of collections under unique string keys.
#[derive(Debug)]
pub struct KvVectorDatabase {
    items: Vec<(String, VectorDatabase)>,
}

impl KvVectorDatabase {
    /// The keys, in insertion order.
    pub closed spec fn keys(self) -> Seq<Seq<char>> {
        Seq::new(self.items@.len(), |i: int| self.items@[i].0@)
    }

    /// The stored collections' point sequences, in key order.
    pub closed spec fn dbs(self) -> Seq<Seq<PointV>> {
        Seq::new(self.items@.len(), |i: int| self.items@[i].1@)
    }

    /// The invariant: keys are unique and every collection is well formed.
    pub closed spec fn wf(self) -> bool {
        &&& forall|i: int, j: int|
            0 <= i < j < self.items@.len() ==> self.items@[i].0@ != self.items@[j].0@
        &&& forall|i: int| 0 <= i < self.items@.len() ==> (#[trigger] self.items@[i].1).wf()
    }

    /// A new, empty store.
    pub fn new() -> (kv: Self)
        ensures
            kv.wf(),
            kv.keys() == Seq::<Seq<char>>::empty(),
            kv.dbs() == Seq::<Seq<PointV>>::empty(),
    {
        let kv = KvVectorDatabase { items: Vec::new() };
        proof {
            assert(kv.keys() =~= Seq::<Seq<char>>::empty());
            assert(kv.dbs() =~= Seq::<Seq<PointV>>::empty());
        }
        kv
    }

    /// How many collections the store holds.
    pub fn len(&self) -> (n: usize)
        ensures
            n == self.keys().len(),
    {
        self.items.len()
    }

    /// The key at position `i`.
    pub fn key_at(&self, i: usize) -> (r: &String)
        requires
            i < self.keys().len(),
        ensures
            r@ == self.keys()[i as int],
    {
        &self.items[i].0
    }

    /// The collection at position `i`.
    pub fn db_at(&self, i: usize) -> (r: &VectorDatabase)
        requires
            self.wf(),
            i < self.dbs().len(),
        ensures
            r@ == self.dbs()[i as int],
            r.wf(),
    {
        &self.items[i].1
    }

    /// Inserts a collection under `key`, replacing the collection already
    /// held under an equal key, and appending a new entry otherwise.
    pub fn add_db(&mut self, key: String, vdb: VectorDatabase)
        requires
            old(self).wf(),
            vdb.wf(),
        ensures
            final(self).wf(),
            find_key(old(self).keys(), key@) == -1 ==> final(self).keys() == old(
                self,
            ).keys().push(key@) && final(self).dbs() == old(self).dbs().push(vdb@),
            find_key(old(self).keys(), key@) >= 0 ==> final(self).keys() == old(self).keys()
                && final(self).dbs() == old(self).dbs().update(
                find_key(old(self).keys(), key@),
                vdb@,
            ),
    {
        let n = self.items.len();
        let mut i: usize = 0;
        while i < n
            invariant
                0 <= i <= n,
                n == self.items@.len(),
                *self == *old(self),
                self.wf(),
                vdb.wf(),
                find_key_from(self.keys(), key@, 0) == find_key_from(self.keys(), key@, i as int),
                forall|j: int| 0 <= j < i ==> self.keys()[j] != key@,
            decreases n - i,
        {
            if self.items[i].0 == key {
                let ghost pre = *self;
                self.items.set(i, (key, vdb));
                proof {
                    assert(find_key(pre.keys(), key@) == i);
                    assert(self.keys() =~= pre.keys());
                    assert(self.dbs() =~= pre.dbs().update(i as int, vdb@));
                    assert forall|a: int, b: int|
                        0 <= a < b < self.items@.len() implies self.items@[a].0@
                        != self.items@[b].0@ by {
                        assert(pre.items@[a].0@ != pre.items@[b].0@);
                    }
                }
                return ;
            }
            i = i + 1;
            proof {
                assert(find_key_from(self.keys(), key@, i - 1) == find_key_from(
                    self.keys(),
                    key@,
                    i as int,
                ));
            }
        }
        let ghost pre = *self;
        self.items.push((key, vdb));
        proof {
            assert(find_key(pre.keys(), key@) == -1);
            assert(self.keys() =~= pre.keys().push(key@));
            assert(self.dbs() =~= pre.dbs().push(vdb@));
            assert forall|a: int, b: int|
                0 <= a < b < self.items@.len() implies self.items@[a].0@ != self.items@[b].0@ by {
                if b < self.items@.len() - 1 {
                    assert(pre.items@[a].0@ != pre.items@[b].0@);
                } else {
                    assert(pre.keys()[a] != key@);
                }
            }
        }
    }

    /// Returns the collection stored under `key`, or reports that no such
    /// key is held.
    pub fn get(&self, key: &String) -> (r: Result<&VectorDatabase, Error>)
        requires
            self.wf(),
        ensures
            match r {
                Ok(db) => find_key(self.keys(), key@) >= 0 && db@ == self.dbs()[find_key(
                    self.keys(),
                    key@,
                )] && db.wf(),
                Err(e) => e == Error::NotFound && find_key(self.keys(), key@) == -1,
            },
    {
        let n = self.items.len();
        let mut i: usize = 0;
        while i < n
            invariant
                0 <= i <= n,
                n == self.items@.len(),
                self.wf(),
                find_key_from(self.keys(), key@, 0) == find_key_from(self.keys(), key@, i as int),
            decreases n - i,
        {
            if self.items[i].0 == *key {
                proof {
                    assert(find_key(self.keys(), key@) == i);
                }
                return Ok(&self.items[i].1);
            }
            i = i + 1;
            proof {
                assert(find_key_from(self.keys(), key@, i - 1) == find_key_from(
                    self.keys(),
                    key@,
                    i as int,
                ));
            }
        }
        Err(Error::NotFound)
    }
}

} // verus!
