//! Page replacement: a fixed number of page slots, a sequence of page
//! queries, and three replacement rules - FIFO, OPT and LRU - each run over
//! the whole query sequence with the faults counted.

use vstd::prelude::*;
use crate::fifo::{Fifo, fifo_insert};
use crate::lru::{Lru, lru_insert};
use crate::opt::{Opt, opt_insert};

verus! {

/// One cached page: the page key and the value stored for it.
#[derive(Clone, Copy, Debug, PartialEq, Eq, Structural)]
pub struct Item {
    pub key: u32,
    pub value: u32,
}

/// What one query did: the page asked for, whether it faulted, and the
/// cache contents afterwards.
#[derive(Debug, Clone)]
pub struct Action {
    pub query: u32,
    pub fault: bool,
    pub cached_items: Vec<Item>,
}

/// A replacement experiment: the queries, the page-slot count, and - after
/// a run - the per-query actions and the fault count.
#[derive(Clone)]
pub struct Task {
    pub queries: Vec<u32>,
    pub actions: Vec<Action>,
    pub fault_count: u32,
    pub page_size: usize,
}

/// The value stored under the first occurrence of `k`, if any.
pub open spec fn lookup(s: Seq<Item>, k: u32) -> Option<u32>
    decreases s.len(),
{
    if s.len() == 0 {
        None
    } else if s[0].key == k {
        Some(s[0].value)
    } else {
        lookup(s.drop_first(), k)
    }
}

/// The first slot holding `k`; `-1` if none does.
pub open spec fn key_index(s: Seq<Item>, k: u32) -> int
    decreases s.len(),
{
    if s.len() == 0 {
        -1
    } else if s[0].key == k {
        0
    } else {
        let r = key_index(s.drop_first(), k);
        if r == -1 {
            -1
        } else {
            r + 1
        }
    }
}

pub proof fn lemma_key_index_ensures(s: Seq<Item>, k: u32)
    ensures
        ({
            let r = key_index(s, k);
            (r == -1 ==> (forall|j: int| 0 <= j < s.len() ==> (#[trigger] s[j]).key != k) && lookup(
                s,
                k,
            ) is None) && (r != -1 ==> 0 <= r < s.len() && s[r].key == k && (forall|j: int|
                0 <= j < r ==> (#[trigger] s[j]).key != k) && lookup(s, k) == Some(s[r].value))
        }),
    decreases s.len(),
{
    if s.len() > 0 && s[0].key != k {
        let t = s.drop_first();
        lemma_key_index_ensures(t, k);
        let rt = key_index(t, k);
        assert(forall|j: int| 0 <= j < t.len() ==> (#[trigger] t[j]) == s[j + 1]);
        if rt == -1 {
            assert(key_index(s, k) == -1);
            assert forall|j: int| 0 <= j < s.len() implies (#[trigger] s[j]).key != k by {
                if j > 0 {
                    assert(t[j - 1].key != k);
                }
            }
        } else {
            assert(key_index(s, k) == rt + 1);
            assert(s[rt + 1] == t[rt]);
            assert forall|j: int| 0 <= j < rt + 1 implies (#[trigger] s[j]).key != k by {
                if j > 0 {
                    assert(t[j - 1].key != k);
                }
            }
        }
    }
}

/// The cache contents after running the first `i` queries under FIFO.
pub open spec fn fifo_state(queries: Seq<u32>, cap: int) -> Seq<Item>
    decreases queries.len(),
{
    if queries.len() == 0 {
        Seq::empty()
    } else {
        fifo_insert(fifo_state(queries.drop_last(), cap), cap, queries.last(), queries.last())
    }
}

/// How many of the queries fault under FIFO.
pub open spec fn fifo_faults(queries: Seq<u32>, cap: int) -> int
    decreases queries.len(),
{
    if queries.len() == 0 {
        0
    } else {
        fifo_faults(queries.drop_last(), cap) + if lookup(
            fifo_state(queries.drop_last(), cap),
            queries.last(),
        ) is None {
            1int
        } else {
            0int
        }
    }
}

/// The cache contents after running the first `i` queries under LRU.
pub open spec fn lru_state(queries: Seq<u32>, cap: int) -> Seq<Item>
    decreases queries.len(),
{
    if queries.len() == 0 {
        Seq::empty()
    } else {
        lru_insert(lru_state(queries.drop_last(), cap), cap, queries.last(), queries.last())
    }
}

/// How many of the queries fault under LRU.
pub open spec fn lru_faults(queries: Seq<u32>, cap: int) -> int
    decreases queries.len(),
{
    if queries.len() == 0 {
        0
    } else {
        lru_faults(queries.drop_last(), cap) + if lookup(
            lru_state(queries.drop_last(), cap),
            queries.last(),
        ) is None {
            1int
        } else {
            0int
        }
    }
}

/// The cache contents after running the first `i` queries under OPT, which
/// evicts the page whose next use lies farthest ahead.
pub open spec fn opt_state(queries: Seq<u32>, cap: int, i: int) -> Seq<Item>
    decreases i
        when 0 <= i <= queries.len()
{
    if i <= 0 {
        Seq::empty()
    } else {
        opt_insert(
            opt_state(queries, cap, i - 1),
            cap,
            queries[i - 1],
            queries[i - 1],
            queries.skip(i - 1),
        )
    }
}

/// How many of the first `i` queries fault under OPT.
pub open spec fn opt_faults(queries: Seq<u32>, cap: int, i: int) -> int
    decreases i
        when 0 <= i <= queries.len()
{
    if i <= 0 {
        0
    } else {
        opt_faults(queries, cap, i - 1) + if lookup(
            opt_state(queries, cap, i - 1),
            queries[i - 1],
        ) is None {
            1int
        } else {
            0int
        }
    }
}

impl Task {
    /// A fresh experiment over the given queries and page-slot count.
    pub fn new(queries: Vec<u32>, page_size: usize) -> (r: Task)
        ensures
            r.queries@ == queries@,
            r.actions@ =~= Seq::<Action>::empty(),
            r.fault_count == 0,
            r.page_size == page_size,
    {
        Task { queries, actions: Vec::new(), fault_count: 0, page_size }
    }

    /// Run the queries under FIFO replacement.
    pub fn fifo(&mut self)
        requires
            old(self).page_size > 0,
            old(self).queries@.len() < u32::MAX,
        ensures
            final(self).queries@ == old(self).queries@,
            final(self).page_size == old(self).page_size,
            final(self).fault_count as int == fifo_faults(
                old(self).queries@,
                old(self).page_size as int,
            ),
            final(self).actions@.len() == old(self).queries@.len(),
            forall|i: int|
                0 <= i < final(self).actions@.len() ==> ((#[trigger] final(self).actions@[i]).query
                    == old(self).queries@[i] && final(self).actions@[i].fault == (lookup(
                    fifo_state(old(self).queries@.take(i), old(self).page_size as int),
                    old(self).queries@[i],
                ) is None) && final(self).actions@[i].cached_items@ =~= fifo_state(
                    old(self).queries@.take(i + 1),
                    old(self).page_size as int,
                )),
    {
        let ghost qs = self.queries@;
        let ghost cap = self.page_size as int;
        let mut cache = Fifo::new(self.page_size);
        self.fault_count = 0;
        self.actions = Vec::new();
        let n = self.queries.len();
        let mut i: usize = 0;
        while i < n
            invariant
                self.page_size > 0,
                qs == old(self).queries@,
                cap == old(self).page_size as int,
                self.queries@ == qs,
                self.page_size == old(self).page_size,
                n == qs.len(),
                qs.len() < u32::MAX,
                i <= n,
                cache.cache_size == self.page_size,
                cache.storage@ =~= fifo_state(qs.take(i as int), cap),
                self.fault_count as int == fifo_faults(qs.take(i as int), cap),
                self.fault_count as int <= i as int,
                self.actions@.len() == i,
                forall|j: int|
                    0 <= j < i ==> ((#[trigger] self.actions@[j]).query == qs[j]
                        && self.actions@[j].fault == (lookup(fifo_state(qs.take(j), cap), qs[j])
                        is None) && self.actions@[j].cached_items@ =~= fifo_state(
                        qs.take(j + 1),
                        cap,
                    )),
            decreases n - i,
        {
            let q = self.queries[i];
            proof {
                assert(qs.take(i + 1).drop_last() =~= qs.take(i as int));
                assert(qs.take(i + 1).last() == qs[i as int]);
            }
            let fault = cache.set(q, q);
            if fault {
                self.fault_count = self.fault_count + 1;
            }
            let snapshot = cache.get_cached();
            self.actions.push(Action { query: q, fault, cached_items: snapshot });
            i += 1;
        }
        proof {
            assert(qs.take(qs.len() as int) =~= qs);
        }
    }

    /// Run the queries under LRU replacement.
    pub fn lru(&mut self)
        requires
            old(self).page_size > 0,
            old(self).queries@.len() < u32::MAX,
        ensures
            final(self).queries@ == old(self).queries@,
            final(self).page_size == old(self).page_size,
            final(self).fault_count as int == lru_faults(
                old(self).queries@,
                old(self).page_size as int,
            ),
            final(self).actions@.len() == old(self).queries@.len(),
            forall|i: int|
                0 <= i < final(self).actions@.len() ==> ((#[trigger] final(self).actions@[i]).query
                    == old(self).queries@[i] && final(self).actions@[i].fault == (lookup(
                    lru_state(old(self).queries@.take(i), old(self).page_size as int),
                    old(self).queries@[i],
                ) is None) && final(self).actions@[i].cached_items@ =~= lru_state(
                    old(self).queries@.take(i + 1),
                    old(self).page_size as int,
                )),
    {
        let ghost qs = self.queries@;
        let ghost cap = self.page_size as int;
        let mut cache = Lru::new(self.page_size);
        self.fault_count = 0;
        self.actions = Vec::new();
        let n = self.queries.len();
        let mut i: usize = 0;
        while i < n
            invariant
                self.page_size > 0,
                qs == old(self).queries@,
                cap == old(self).page_size as int,
                self.queries@ == qs,
                self.page_size == old(self).page_size,
                n == qs.len(),
                qs.len() < u32::MAX,
                i <= n,
                cache.cache_size == self.page_size,
                cache.storage@ =~= lru_state(qs.take(i as int), cap),
                self.fault_count as int == lru_faults(qs.take(i as int), cap),
                self.fault_count as int <= i as int,
                self.actions@.len() == i,
                forall|j: int|
                    0 <= j < i ==> ((#[trigger] self.actions@[j]).query == qs[j]
                        && self.actions@[j].fault == (lookup(lru_state(qs.take(j), cap), qs[j])
                        is None) && self.actions@[j].cached_items@ =~= lru_state(
                        qs.take(j + 1),
                        cap,
                    )),
            decreases n - i,
        {
            let q = self.queries[i];
            proof {
                assert(qs.take(i + 1).drop_last() =~= qs.take(i as int));
                assert(qs.take(i + 1).last() == qs[i as int]);
            }
            let fault = cache.set(q, q);
            if fault {
                self.fault_count = self.fault_count + 1;
            }
            let snapshot = cache.get_cached();
            self.actions.push(Action { query: q, fault, cached_items: snapshot });
            i += 1;
        }
        proof {
            assert(qs.take(qs.len() as int) =~= qs);
        }
    }

    /// Run the queries under OPT replacement, which looks ahead in the
    /// query sequence itself.
    pub fn opt(&mut self)
        requires
            old(self).page_size > 0,
            old(self).queries@.len() < u32::MAX,
        ensures
            final(self).queries@ == old(self).queries@,
            final(self).page_size == old(self).page_size,
            final(self).fault_count as int == opt_faults(
                old(self).queries@,
                old(self).page_size as int,
                old(self).queries@.len() as int,
            ),
            final(self).actions@.len() == old(self).queries@.len(),
            forall|i: int|
                0 <= i < final(self).actions@.len() ==> ((#[trigger] final(self).actions@[i]).query
                    == old(self).queries@[i] && final(self).actions@[i].fault == (lookup(
                    opt_state(old(self).queries@, old(self).page_size as int, i),
                    old(self).queries@[i],
                ) is None) && final(self).actions@[i].cached_items@ =~= opt_state(
                    old(self).queries@,
                    old(self).page_size as int,
                    i + 1,
                )),
    {
        let ghost qs = self.queries@;
        let ghost cap = self.page_size as int;
        let mut cache = Opt::new(self.page_size);
        self.fault_count = 0;
        self.actions = Vec::new();
        let n = self.queries.len();
        let mut i: usize = 0;
        while i < n
            invariant
                self.page_size > 0,
                qs == old(self).queries@,
                cap == old(self).page_size as int,
                self.queries@ == qs,
                self.page_size == old(self).page_size,
                n == qs.len(),
                qs.len() < u32::MAX,
                i <= n,
                cache.cache_size == self.page_size,
                cache.storage@ =~= opt_state(qs, cap, i as int),
                self.fault_count as int == opt_faults(qs, cap, i as int),
                self.fault_count as int <= i as int,
                self.actions@.len() == i,
                forall|j: int|
                    0 <= j < i ==> ((#[trigger] self.actions@[j]).query == qs[j]
                        && self.actions@[j].fault == (lookup(opt_state(qs, cap, j), qs[j]) is None)
                        && self.actions@[j].cached_items@ =~= opt_state(qs, cap, j + 1)),
            decreases n - i,
        {
            let q = self.queries[i];
            let future = suffix_from(&self.queries, i);
            let fault = cache.set(q, q, future);
            if fault {
                self.fault_count = self.fault_count + 1;
            }
            let snapshot = cache.get_cached();
            self.actions.push(Action { query: q, fault, cached_items: snapshot });
            i += 1;
        }
    }
}

/// The queries from position `i` on, as a fresh list.
fn suffix_from(v: &Vec<u32>, i: usize) -> (r: Vec<u32>)
    requires
        i <= v@.len(),
    ensures
        r@ =~= v@.skip(i as int),
{
    let mut out: Vec<u32> = Vec::new();
    let mut j: usize = i;
    while j < v.len()
        invariant
            i <= j <= v@.len(),
            out@ =~= v@.subrange(i as int, j as int),
        decreases v@.len() - j,
    {
        out.push(v[j]);
        proof {
            assert(out@ =~= v@.subrange(i as int, j + 1));
        }
        j += 1;
    }
    proof {
        assert(v@.subrange(i as int, v@.len() as int) =~= v@.skip(i as int));
    }
    out
}

} // verus!
