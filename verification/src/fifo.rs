//! A FIFO page cache: on a miss with the cache full, the oldest entry
//! leaves.

use vstd::prelude::*;
use crate::mem::{Item, lookup};

verus! {

/// The cache: entries in arrival order, oldest first, and the slot count.
pub struct Fifo {
    pub storage: Vec<Item>,
    pub cache_size: usize,
}

/// What one store does to the contents: nothing on a hit; on a miss the new
/// entry is appended, and if the cache was full the oldest leaves first.
pub open spec fn fifo_insert(s: Seq<Item>, cap: int, key: u32, value: u32) -> Seq<Item> {
    if lookup(s, key) is Some {
        s
    } else if s.len() >= cap {
        s.drop_first().push(Item { key, value })
    } else {
        s.push(Item { key, value })
    }
}

impl Fifo {
    /// An empty cache with `size` slots.
    pub fn new(size: usize) -> (r: Fifo)
        ensures
            r.storage@ =~= Seq::<Item>::empty(),
            r.cache_size == size,
    {
        Fifo { storage: Vec::new(), cache_size: size }
    }

    /// The value stored under `key`, if any.
    pub fn get(&mut self, key: u32) -> (r: Option<u32>)
        ensures
            *final(self) == *old(self),
            r == lookup(old(self).storage@, key),
    {
        let ghost s = self.storage@;
        proof {
            assert(s.skip(0int) =~= s);
        }
        let mut i: usize = 0;
        while i < self.storage.len()
            invariant
                s == self.storage@,
                i <= s.len(),
                lookup(s, key) == lookup(s.skip(i as int), key),
            decreases s.len() - i,
        {
            proof {
                assert(s.skip(i as int)[0] == s[i as int]);
                assert(s.skip(i as int).drop_first() =~= s.skip(i + 1));
            }
            if self.storage[i].key == key {
                return Some(self.storage[i].value);
            }
            i += 1;
        }
        proof {
            assert(s.skip(s.len() as int) =~= Seq::<Item>::empty());
        }
        None
    }

    /// Store `value` under `key`; reports whether the access faulted, that
    /// is, whether the key was not cached yet.
    pub fn set(&mut self, key: u32, value: u32) -> (fault: bool)
        requires
            old(self).cache_size > 0,
        ensures
            final(self).cache_size == old(self).cache_size,
            fault == (lookup(old(self).storage@, key) is None),
            final(self).storage@ =~= fifo_insert(
                old(self).storage@,
                old(self).cache_size as int,
                key,
                value,
            ),
    {
        let found = self.get(key);
        if found.is_none() {
            let ghost pre = self.storage@;
            if self.storage.len() >= self.cache_size {
                self.storage.remove(0);
                proof {
                    assert(self.storage@ =~= pre.drop_first());
                }
            }
            self.storage.push(Item { key, value });
        }
        found.is_none()
    }

    /// A snapshot of the cache contents, oldest first.
    pub fn get_cached(&mut self) -> (r: Vec<Item>)
        ensures
            *final(self) == *old(self),
            r@ =~= old(self).storage@,
    {
        let mut out: Vec<Item> = Vec::new();
        let mut i: usize = 0;
        while i < self.storage.len()
            invariant
                i <= self.storage@.len(),
                out@ =~= self.storage@.take(i as int),
            decreases self.storage@.len() - i,
        {
            out.push(self.storage[i]);
            proof {
                assert(out@ =~= self.storage@.take(i + 1));
            }
            i += 1;
        }
        proof {
            assert(self.storage@.take(self.storage@.len() as int) =~= self.storage@);
        }
        out
    }
}

} // verus!
