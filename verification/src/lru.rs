//! An LRU page cache: entries are kept in use order, least recently used
//! first; a hit moves the entry to the back, a miss with the cache full
//! evicts the front.

use vstd::prelude::*;
use crate::mem::{Item, lookup, key_index, lemma_key_index_ensures};

verus! {

/// The cache: entries in use order, least recently used first, and the
/// slot count.
pub struct Lru {
    pub storage: Vec<Item>,
    pub cache_size: usize,
}

/// What one store does to the contents: a hit moves the entry, refreshed,
/// to the back; a miss appends, evicting the least recently used entry
/// first if the cache was full.
pub open spec fn lru_insert(s: Seq<Item>, cap: int, key: u32, value: u32) -> Seq<Item> {
    if key_index(s, key) >= 0 {
        s.remove(key_index(s, key)).push(Item { key, value })
    } else if s.len() >= cap {
        s.drop_first().push(Item { key, value })
    } else {
        s.push(Item { key, value })
    }
}

impl Lru {
    /// An empty cache with `size` slots.
    pub fn new(size: usize) -> (r: Lru)
        ensures
            r.storage@ =~= Seq::<Item>::empty(),
            r.cache_size == size,
    {
        Lru { storage: Vec::new(), cache_size: size }
    }

    /// The slot and value stored under `key`, if any.
    pub fn get(&mut self, key: u32) -> (r: Option<(usize, u32)>)
        ensures
            *final(self) == *old(self),
            r is None <==> key_index(old(self).storage@, key) == -1,
            r matches Some(p) ==> p.0 as int == key_index(old(self).storage@, key) && Some(p.1)
                == lookup(old(self).storage@, key),
    {
        let ghost s = self.storage@;
        let mut i: usize = 0;
        while i < self.storage.len()
            invariant
                s == self.storage@,
                i <= s.len(),
                forall|j: int| 0 <= j < i ==> (#[trigger] s[j]).key != key,
            decreases s.len() - i,
        {
            proof {
                lemma_key_index_ensures(s, key);
            }
            if self.storage[i].key == key {
                return Some((i, self.storage[i].value));
            }
            i += 1;
        }
        proof {
            lemma_key_index_ensures(s, key);
        }
        None
    }

    /// Store `value` under `key`; reports whether the access faulted, that
    /// is, whether the key was not cached yet.
    pub fn set(&mut self, key: u32, value: u32) -> (fault: bool)
        requires
            old(self).cache_size > 0,
        ensures
            final(self).cache_size == old(self).cache_size,
            fault == (key_index(old(self).storage@, key) == -1),
            fault == (lookup(old(self).storage@, key) is None),
            final(self).storage@ =~= lru_insert(
                old(self).storage@,
                old(self).cache_size as int,
                key,
                value,
            ),
    {
        let ghost pre = self.storage@;
        proof {
            lemma_key_index_ensures(pre, key);
        }
        let found = self.get(key);
        match found {
            Some((idx, _)) => {
                self.storage.remove(idx);
                self.storage.push(Item { key, value });
                false
            },
            None => {
                if self.storage.len() >= self.cache_size {
                    self.storage.remove(0);
                    proof {
                        assert(self.storage@ =~= pre.drop_first());
                    }
                }
                self.storage.push(Item { key, value });
                true
            },
        }
    }

    /// A snapshot of the cache contents, least recently used first.
    pub fn get_cached(&mut self) -> (r: Vec<Item>)
        ensures
            *final(self) == *old(self),
            r@ =~= old(self).storage@,
    {
        let mut out: Vec<Item> = Vec::new();
        let mut i: usize = 0;
        while i < self.storage.len()
            invariant
                i <= self.storage@.len(),
                out@ =~= self.storage@.take(i as int),
            decreases self.storage@.len() - i,
        {
            out.push(self.storage[i]);
            proof {
                assert(out@ =~= self.storage@.take(i + 1));
            }
            i += 1;
        }
        proof {
            assert(self.storage@.take(self.storage@.len() as int) =~= self.storage@);
        }
        out
    }
}

} // verus!
