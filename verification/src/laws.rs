//! Laws that hold across the disk strategies: self-consistency of the
//! reported totals, behaviour on empty and singleton request sets, and the
//! lap structure of CSCAN.

use vstd::prelude::*;
use crate::disk::{
    Request, SchedulerDirection, targets, abs_diff, chained, route_cost, prior_of,
    lemma_route_cost_push,
};
use crate::sorting::{sorted, sort_ints, insert_sorted_spec};
use crate::sstf::sstf_seq;
use crate::sweep::{ge_filter, lt_filter, scan_seq, cscan_seq, up_future, lemma_filter_split};

verus! {

/// The per-request distances of a serviced order, added up.
pub open spec fn sum_moved(rs: Seq<Request>) -> int
    decreases rs.len(),
{
    if rs.len() == 0 {
        0
    } else {
        sum_moved(rs.drop_last()) + rs.last().moved_distance
    }
}

/// In every chained service order - and each strategy returns one - the
/// total head movement equals the sum of the recorded per-request
/// distances.
pub proof fn lemma_total_is_sum_of_distances(rs: Seq<Request>, start: i32)
    requires
        chained(rs, start),
    ensures
        route_cost(targets(rs), start) == sum_moved(rs),
    decreases rs.len(),
{
    if rs.len() == 0 {
    } else {
        let prevs = rs.drop_last();
        assert forall|i: int| 0 <= i < prevs.len() implies ((#[trigger] prevs[i]).prev_position
            == Some(prior_of(targets(prevs), start, i)) && prevs[i].moved_distance as int
            == abs_diff(
            prevs[i].target_position as int,
            prior_of(targets(prevs), start, i) as int,
        )) by {
            assert(prevs[i] == rs[i]);
            if i > 0 {
                assert(targets(prevs)[i - 1] == targets(rs)[i - 1]);
            }
        }
        lemma_total_is_sum_of_distances(prevs, start);
        let t = rs.last().target_position;
        assert(targets(rs) =~= targets(prevs).push(t));
        lemma_route_cost_push(targets(prevs), start, t);
        assert(prior_of(targets(rs), start, rs.len() - 1) == prior_of(
            targets(prevs).push(t),
            start,
            prevs.len() as int,
        ));
        assert(rs.last().moved_distance as int == abs_diff(
            t as int,
            prior_of(targets(rs), start, rs.len() - 1) as int,
        ));
    }
}

/// On an empty request set every strategy services nothing and moves the
/// head not at all.
pub proof fn lemma_empty_input(ts: Seq<i32>, start: i32, dir: SchedulerDirection)
    requires
        ts.len() == 0,
    ensures
        sstf_seq(sort_ints(ts), start) =~= Seq::<i32>::empty(),
        scan_seq(ts, start, dir) =~= Seq::<i32>::empty(),
        cscan_seq(ts, start) =~= Seq::<i32>::empty(),
        route_cost(ts, start) == 0,
{
    assert(ts =~= Seq::<i32>::empty());
    assert(sort_ints(ts) =~= Seq::<i32>::empty());
    assert(ge_filter(sort_ints(ts), start) =~= Seq::<i32>::empty());
    assert(lt_filter(sort_ints(ts), start) =~= Seq::<i32>::empty());
    assert(Seq::<i32>::empty().reverse() =~= Seq::<i32>::empty());
    assert(up_future(sort_ints(ts), start) =~= Seq::<i32>::empty());
}

/// On a single request at position `p` every strategy services exactly that
/// request, at seek distance `|p - start|`.
pub proof fn lemma_single_request(p: i32, start: i32, dir: SchedulerDirection)
    ensures
        sstf_seq(sort_ints(seq![p]), start) =~= seq![p],
        scan_seq(seq![p], start, dir) =~= seq![p],
        cscan_seq(seq![p], start) =~= seq![p],
        route_cost(seq![p], start) == abs_diff(p as int, start as int),
{
    let one = seq![p];
    assert(one.drop_last() =~= Seq::<i32>::empty());
    assert(sort_ints(Seq::<i32>::empty()) =~= Seq::<i32>::empty());
    assert(insert_sorted_spec(p, Seq::<i32>::empty()) =~= one);
    assert(sort_ints(one) =~= one);
    // shortest seek: the only request is the nearest one
    assert(sstf_seq(one, start) =~= seq![one[0]] + sstf_seq(one.remove(0), one[0]));
    assert(one.remove(0) =~= Seq::<i32>::empty());
    assert(sstf_seq(Seq::<i32>::empty(), p) =~= Seq::<i32>::empty());
    assert(sstf_seq(one, start) =~= one);
    // the sweeps: the one request is either ahead or behind
    assert(ge_filter(Seq::<i32>::empty(), start) =~= Seq::<i32>::empty());
    assert(lt_filter(Seq::<i32>::empty(), start) =~= Seq::<i32>::empty());
    assert(one.drop_last() =~= Seq::<i32>::empty());
    if p >= start {
        assert(ge_filter(one, start) =~= one);
        assert(lt_filter(one, start) =~= Seq::<i32>::empty());
        assert(Seq::<i32>::empty().reverse() =~= Seq::<i32>::empty());
        assert(up_future(one, start) =~= one);
    } else {
        assert(ge_filter(one, start) =~= Seq::<i32>::empty());
        assert(lt_filter(one, start) =~= one);
        assert(one.reverse() =~= one);
        assert(up_future(one, start) =~= one);
    }
    assert(one.drop_first() =~= Seq::<i32>::empty());
    assert(route_cost(Seq::<i32>::empty(), p) == 0);
}

/// The least index of the sorted `s` whose position is at or above `p`.
pub open spec fn split_at(s: Seq<i32>, p: i32) -> int
    decreases s.len(),
{
    if s.len() == 0 {
        0
    } else if s[0] >= p {
        0
    } else {
        1 + split_at(s.drop_first(), p)
    }
}

pub proof fn lemma_split_at_ensures(s: Seq<i32>, p: i32)
    requires
        sorted(s),
    ensures
        0 <= split_at(s, p) <= s.len(),
        forall|j: int| 0 <= j < split_at(s, p) ==> #[trigger] s[j] < p,
        forall|j: int| split_at(s, p) <= j < s.len() ==> #[trigger] s[j] >= p,
    decreases s.len(),
{
    if s.len() == 0 {
    } else if s[0] >= p {
        assert forall|j: int| 0 <= j < s.len() implies #[trigger] s[j] >= p by {
            assert(s[0] <= s[j]);
        }
    } else {
        let tail = s.drop_first();
        assert(forall|i: int, j: int| 0 <= i <= j < tail.len() ==> tail[i] <= tail[j]);
        lemma_split_at_ensures(tail, p);
        assert(forall|j: int| 0 <= j < tail.len() ==> tail[j] == #[trigger] s[j + 1]);
        assert forall|j: int| 0 <= j < split_at(s, p) implies #[trigger] s[j] < p by {
            if j > 0 {
                assert(tail[j - 1] < p);
            }
        }
        assert forall|j: int| split_at(s, p) <= j < s.len() implies #[trigger] s[j] >= p by {
            assert(tail[j - 1] >= p);
        }
    }
}

/// CSCAN's order is two laps, and within each lap the serviced positions
/// are non-decreasing: first the targets at or above the start, rising,
/// then - after the wrap - the skipped lower targets, again rising.
pub proof fn lemma_cscan_laps_sorted(ts: Seq<i32>, start: i32)
    ensures
        cscan_seq(ts, start) == ge_filter(sort_ints(ts), start) + lt_filter(
            sort_ints(ts),
            start,
        ),
        sorted(ge_filter(sort_ints(ts), start)),
        sorted(lt_filter(sort_ints(ts), start)),
{
    crate::sorting::lemma_sort_ints_ensures(ts);
    let s = sort_ints(ts);
    lemma_split_at_ensures(s, start);
    lemma_filter_split(s, start, split_at(s, start));
    assert(ge_filter(s, start) =~= s.subrange(split_at(s, start), s.len() as int));
    assert(lt_filter(s, start) =~= s.subrange(0, split_at(s, start)));
}

} // verus!
