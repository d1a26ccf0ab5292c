//! An OPT page cache: on a miss with the cache full, the entry whose next
//! use lies farthest ahead in the given future is replaced.

use vstd::prelude::*;
use crate::mem::{Item, lookup};

verus! {

/// The cache: the cached entries and the slot count.
pub struct Opt {
    pub storage: Vec<Item>,
    pub cache_size: usize,
}

/// Where `k` is used next in the future queries: the index of its first
/// occurrence, or `usize::MAX` when it is never used again.
pub open spec fn next_use(future: Seq<u32>, k: u32) -> int
    decreases future.len(),
{
    if future.len() == 0 {
        usize::MAX as int
    } else if future[0] == k {
        0
    } else {
        let r = next_use(future.drop_first(), k);
        if r == usize::MAX as int {
            r
        } else {
            r + 1
        }
    }
}

/// The slot whose entry is used farthest ahead; the later slot on a tie.
pub open spec fn farthest_idx(s: Seq<Item>, future: Seq<u32>) -> int
    decreases s.len(),
{
    if s.len() <= 1 {
        0
    } else {
        let k = farthest_idx(s.drop_last(), future);
        if next_use(future, s.last().key) >= next_use(future, s[k].key) {
            s.len() - 1
        } else {
            k
        }
    }
}

pub proof fn lemma_farthest_idx_ensures(s: Seq<Item>, future: Seq<u32>)
    requires
        s.len() > 0,
    ensures
        0 <= farthest_idx(s, future) < s.len(),
        forall|j: int|
            0 <= j < s.len() ==> next_use(future, (#[trigger] s[j]).key) <= next_use(
                future,
                s[farthest_idx(s, future)].key,
            ),
        forall|j: int|
            farthest_idx(s, future) < j < s.len() ==> next_use(future, (#[trigger] s[j]).key)
                < next_use(future, s[farthest_idx(s, future)].key),
    decreases s.len(),
{
    if s.len() > 1 {
        lemma_farthest_idx_ensures(s.drop_last(), future);
        assert(forall|j: int| 0 <= j < s.len() - 1 ==> s.drop_last()[j] == #[trigger] s[j]);
    }
}

/// What one store does to the contents: nothing on a hit; on a miss the new
/// entry is appended, or - if the cache was full - put in the slot whose
/// entry is used farthest ahead.
pub open spec fn opt_insert(s: Seq<Item>, cap: int, key: u32, value: u32, future: Seq<u32>) -> Seq<
    Item,
> {
    if lookup(s, key) is Some {
        s
    } else if s.len() >= cap {
        s.update(farthest_idx(s, future), Item { key, value })
    } else {
        s.push(Item { key, value })
    }
}

impl Opt {
    /// An empty cache with `size` slots.
    pub fn new(size: usize) -> (r: Opt)
        ensures
            r.storage@ =~= Seq::<Item>::empty(),
            r.cache_size == size,
    {
        Opt { storage: Vec::new(), cache_size: size }
    }

    /// The value stored under `key`, if any.
    pub fn get(&mut self, key: u32) -> (r: Option<u32>)
        ensures
            *final(self) == *old(self),
            r == lookup(old(self).storage@, key),
    {
        let ghost s = self.storage@;
        proof {
            assert(s.skip(0int) =~= s);
        }
        let mut i: usize = 0;
        while i < self.storage.len()
            invariant
                s == self.storage@,
                i <= s.len(),
                lookup(s, key) == lookup(s.skip(i as int), key),
            decreases s.len() - i,
        {
            proof {
                assert(s.skip(i as int)[0] == s[i as int]);
                assert(s.skip(i as int).drop_first() =~= s.skip(i + 1));
            }
            if self.storage[i].key == key {
                return Some(self.storage[i].value);
            }
            i += 1;
        }
        proof {
            assert(s.skip(s.len() as int) =~= Seq::<Item>::empty());
        }
        None
    }

    /// The slot whose entry is used farthest ahead in `future`; the later
    /// slot on a tie.
    pub fn decide_farthest(&mut self, future: Vec<u32>) -> (r: usize)
        requires
            old(self).storage@.len() > 0,
            future@.len() < usize::MAX,
        ensures
            *final(self) == *old(self),
            r as int == farthest_idx(old(self).storage@, future@),
            (r as int) < old(self).storage@.len(),
    {
        let ghost s = self.storage@;
        proof {
            reveal_with_fuel(farthest_idx, 2);
            assert(s.take(1int).len() == 1);
            assert(farthest_idx(s.take(1int), future@) == 0);
        }
        let mut best: usize = 0;
        let mut best_use: usize = find_next_use(&future, self.storage[0].key);
        let mut i: usize = 1;
        while i < self.storage.len()
            invariant
                s == self.storage@,
                future@.len() < usize::MAX,
                1 <= i <= s.len(),
                (best as int) < i,
                best as int == farthest_idx(s.take(i as int), future@),
                best_use as int == next_use(future@, s[best as int].key),
            decreases s.len() - i,
        {
            proof {
                assert(s.take(i + 1).drop_last() =~= s.take(i as int));
                assert(s.take(i + 1).last() == s[i as int]);
                lemma_farthest_idx_ensures(s.take(i + 1), future@);
            }
            let used = find_next_use(&future, self.storage[i].key);
            if used >= best_use {
                best = i;
                best_use = used;
            }
            i += 1;
        }
        proof {
            assert(s.take(s.len() as int) =~= s);
        }
        best
    }

    /// Store `value` under `key`, given the future queries; reports whether
    /// the access faulted, that is, whether the key was not cached yet.
    pub fn set(&mut self, key: u32, value: u32, future: Vec<u32>) -> (fault: bool)
        requires
            old(self).cache_size > 0,
            future@.len() < usize::MAX,
        ensures
            final(self).cache_size == old(self).cache_size,
            fault == (lookup(old(self).storage@, key) is None),
            final(self).storage@ =~= opt_insert(
                old(self).storage@,
                old(self).cache_size as int,
                key,
                value,
                future@,
            ),
    {
        let found = self.get(key);
        if found.is_none() {
            if self.storage.len() >= self.cache_size {
                let idx = self.decide_farthest(future);
                self.storage[idx] = Item { key, value };
            } else {
                self.storage.push(Item { key, value });
            }
        }
        found.is_none()
    }

    /// A snapshot of the cache contents.
    pub fn get_cached(&mut self) -> (r: Vec<Item>)
        ensures
            *final(self) == *old(self),
            r@ =~= old(self).storage@,
    {
        let mut out: Vec<Item> = Vec::new();
        let mut i: usize = 0;
        while i < self.storage.len()
            invariant
                i <= self.storage@.len(),
                out@ =~= self.storage@.take(i as int),
            decreases self.storage@.len() - i,
        {
            out.push(self.storage[i]);
            proof {
                assert(out@ =~= self.storage@.take(i + 1));
            }
            i += 1;
        }
        proof {
            assert(self.storage@.take(self.storage@.len() as int) =~= self.storage@);
        }
        out
    }
}

/// The position of the next use of `k` in the future queries, or
/// `usize::MAX` when it is never used again.
fn find_next_use(future: &Vec<u32>, k: u32) -> (r: usize)
    requires
        future@.len() < usize::MAX,
    ensures
        r as int == next_use(future@, k),
{
    let ghost f = future@;
    proof {
        assert(f.skip(0int) =~= f);
        lemma_next_use_bounds(f, k);
    }
    let mut i: usize = 0;
    while i < future.len()
        invariant
            f == future@,
            i <= f.len(),
            f.len() < usize::MAX,
            next_use(f, k) == (if next_use(f.skip(i as int), k) == usize::MAX as int {
                usize::MAX as int
            } else {
                i + next_use(f.skip(i as int), k)
            }),
            next_use(f.skip(i as int), k) >= 0,
            next_use(f.skip(i as int), k) == usize::MAX as int || next_use(f.skip(i as int), k)
                <= f.len() - i,
        decreases f.len() - i,
    {
        proof {
            assert(f.skip(i as int)[0] == f[i as int]);
            assert(f.skip(i as int).drop_first() =~= f.skip(i + 1));
            lemma_next_use_bounds(f.skip(i + 1), k);
        }
        if future[i] == k {
            return i;
        }
        i += 1;
    }
    proof {
        assert(f.skip(f.len() as int) =~= Seq::<u32>::empty());
    }
    usize::MAX
}

proof fn lemma_next_use_bounds(future: Seq<u32>, k: u32)
    ensures
        0 <= next_use(future, k) <= usize::MAX as int,
        next_use(future, k) == usize::MAX as int || next_use(future, k) <= future.len(),
    decreases future.len(),
{
    if future.len() > 0 && future[0] != k {
        lemma_next_use_bounds(future.drop_first(), k);
    }
}

} // verus!
