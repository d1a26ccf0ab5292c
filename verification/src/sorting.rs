//! Sorting of track positions: a canonical specification-level insertion
//! sort, an executable counterpart, and the lemmas the disk strategies need
//! to reason about sorted working lists.

use vstd::prelude::*;
use vstd::assert_multisets_equal;

verus! {

/// The sequence is in non-decreasing order.
pub open spec fn sorted(s: Seq<i32>) -> bool {
    forall|i: int, j: int| 0 <= i <= j < s.len() ==> s[i] <= s[j]
}

/// `x` placed in front of the first element that is not below it, in the
/// already sorted `s`.
pub open spec fn insert_sorted_spec(x: i32, s: Seq<i32>) -> Seq<i32>
    decreases s.len(),
{
    if s.len() == 0 {
        seq![x]
    } else if x <= s[0] {
        seq![x] + s
    } else {
        seq![s[0]] + insert_sorted_spec(x, s.drop_first())
    }
}

/// The sequence rearranged into non-decreasing order.
pub open spec fn sort_ints(s: Seq<i32>) -> Seq<i32>
    decreases s.len(),
{
    if s.len() == 0 {
        Seq::empty()
    } else {
        insert_sorted_spec(s.last(), sort_ints(s.drop_last()))
    }
}

pub proof fn lemma_insert_sorted_spec_ensures(x: i32, s: Seq<i32>)
    requires
        sorted(s),
    ensures
        sorted(insert_sorted_spec(x, s)),
        insert_sorted_spec(x, s).len() == s.len() + 1,
        insert_sorted_spec(x, s).to_multiset() =~= s.to_multiset().insert(x),
        forall|j: int|
            0 <= j < insert_sorted_spec(x, s).len() ==> (#[trigger] insert_sorted_spec(x, s)[j]
                == x || s.contains(insert_sorted_spec(x, s)[j])),
    decreases s.len(),
{
    broadcast use vstd::seq_lib::group_to_multiset_ensures;

    let r = insert_sorted_spec(x, s);
    if s.len() == 0 {
        assert(seq![x] =~= Seq::empty().push(x));
        assert(r.to_multiset() =~= s.to_multiset().insert(x));
    } else if x <= s[0] {
        assert(r =~= seq![x] + s);
        assert(r =~= s.insert(0, x));
        assert(r.remove(0) =~= s);
        assert(r.to_multiset().remove(x) =~= s.to_multiset());
        assert_multisets_equal!(r.to_multiset(), s.to_multiset().insert(x));
        assert forall|j: int| 0 <= j < r.len() implies (#[trigger] r[j] == x || s.contains(r[j]))
        by {
            if j > 0 {
                assert(r[j] == s[j - 1]);
            }
        }
    } else {
        let tail = s.drop_first();
        assert(forall|i: int, j: int| 0 <= i <= j < tail.len() ==> tail[i] <= tail[j]);
        lemma_insert_sorted_spec_ensures(x, tail);
        let rt = insert_sorted_spec(x, tail);
        assert(r =~= seq![s[0]] + rt);
        // every element of `rt` is at least `s[0]`
        assert forall|j: int| 0 <= j < r.len() && j >= 1 implies s[0] <= r[j] by {
            assert(r[j] == rt[j - 1]);
            if rt[j - 1] == x {
            } else {
                let k = choose|k: int| 0 <= k < tail.len() && tail[k] == rt[j - 1];
                assert(s[k + 1] == tail[k]);
            }
        }
        assert(sorted(r));
        // multiset bookkeeping
        assert(s.remove(0) =~= tail);
        assert(tail.to_multiset() =~= s.to_multiset().remove(s[0]));
        assert(seq![s[0]] =~= Seq::empty().push(s[0]));
        vstd::seq_lib::lemma_multiset_commutative(seq![s[0]], rt);
        assert(r.to_multiset() =~= seq![s[0]].to_multiset().add(rt.to_multiset()));
        assert(s.to_multiset().contains(s[0]));
        assert_multisets_equal!(r.to_multiset(), s.to_multiset().insert(x));
        assert forall|j: int| 0 <= j < r.len() implies (#[trigger] r[j] == x || s.contains(r[j]))
        by {
            if j >= 1 {
                assert(r[j] == rt[j - 1]);
                if rt[j - 1] != x {
                    let k = choose|k: int| 0 <= k < tail.len() && tail[k] == rt[j - 1];
                    assert(s[k + 1] == tail[k]);
                }
            }
        }
    }
}

pub proof fn lemma_sort_ints_ensures(s: Seq<i32>)
    ensures
        sorted(sort_ints(s)),
        sort_ints(s).len() == s.len(),
        sort_ints(s).to_multiset() =~= s.to_multiset(),
    decreases s.len(),
{
    broadcast use vstd::seq_lib::group_to_multiset_ensures;

    if s.len() == 0 {
    } else {
        lemma_sort_ints_ensures(s.drop_last());
        lemma_insert_sorted_spec_ensures(s.last(), sort_ints(s.drop_last()));
        assert(s.drop_last().push(s.last()) =~= s);
        assert(s.drop_last().push(s.last()).to_multiset() =~= s.drop_last().to_multiset().insert(
            s.last(),
        ));
    }
}

/// Sequences with the same contents cover the same positions.
pub proof fn lemma_multiset_same_window(a: Seq<i32>, b: Seq<i32>)
    requires
        a.to_multiset() =~= b.to_multiset(),
        forall|i: int| 0 <= i < a.len() ==> -0x3FFF_FFFF <= #[trigger] a[i] <= 0x3FFF_FFFF,
    ensures
        forall|i: int| 0 <= i < b.len() ==> -0x3FFF_FFFF <= #[trigger] b[i] <= 0x3FFF_FFFF,
{
    broadcast use vstd::seq_lib::group_to_multiset_ensures;

    assert forall|i: int| 0 <= i < b.len() implies -0x3FFF_FFFF <= #[trigger] b[i] <= 0x3FFF_FFFF
    by {
        assert(b.to_multiset().contains(b[i]));
        assert(a.to_multiset().contains(b[i]));
        let j = choose|j: int| 0 <= j < a.len() && a[j] == b[i];
    }
}

/// Where `insert_sorted_spec` puts the new element: in front of the first
/// element that is not below it.
proof fn lemma_insert_sorted_spec_at(x: i32, s: Seq<i32>, idx: int)
    requires
        sorted(s),
        0 <= idx <= s.len(),
        forall|j: int| 0 <= j < idx ==> s[j] < x,
        idx < s.len() ==> x <= s[idx],
    ensures
        insert_sorted_spec(x, s) =~= s.insert(idx, x),
    decreases s.len(),
{
    if s.len() == 0 {
        assert(insert_sorted_spec(x, s) =~= s.insert(0, x));
    } else if idx == 0 {
        assert(insert_sorted_spec(x, s) =~= seq![x] + s);
    } else {
        assert(s[0] < x);
        let tail = s.drop_first();
        lemma_insert_sorted_spec_at(x, tail, idx - 1);
        assert(insert_sorted_spec(x, s) =~= seq![s[0]] + tail.insert(idx - 1, x));
    }
}

/// A sorted copy of `v`, built by insertion.
pub fn sorted_copy(v: &Vec<i32>) -> (r: Vec<i32>)
    ensures
        r@ =~= sort_ints(v@),
        sorted(r@),
        r@.len() == v@.len(),
        r@.to_multiset() =~= v@.to_multiset(),
{
    let mut out: Vec<i32> = Vec::new();
    let mut i: usize = 0;
    while i < v.len()
        invariant
            i <= v@.len(),
            out@ =~= sort_ints(v@.take(i as int)),
            sorted(out@),
            out@.len() == i,
        decreases v@.len() - i,
    {
        let x = v[i];
        let mut idx: usize = 0;
        while idx < out.len() && out[idx] < x
            invariant
                idx <= out@.len(),
                forall|j: int| 0 <= j < idx ==> out@[j] < x,
            decreases out@.len() - idx,
        {
            idx += 1;
        }
        proof {
            lemma_insert_sorted_spec_at(x, out@, idx as int);
            lemma_insert_sorted_spec_ensures(x, out@);
            assert(v@.take(i + 1).drop_last() =~= v@.take(i as int));
            assert(v@.take(i + 1).last() == v@[i as int]);
        }
        out.insert(idx, x);
        i += 1;
    }
    proof {
        assert(v@.take(v@.len() as int) =~= v@);
        lemma_sort_ints_ensures(v@);
    }
    out
}

} // verus!
