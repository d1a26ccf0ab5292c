//! The elevator strategies.  SCAN sweeps the head in its current direction
//! and services everything it passes, reversing as soon as nothing is left
//! ahead; CSCAN sweeps upward only and wraps back to the low end once the
//! lap is exhausted.

use vstd::prelude::*;
use vstd::assert_multisets_equal;
use crate::disk::{
    Scheduler, SchedulerResult, SchedulerDirection, Request, targets, pos_ok, all_pos_ok, chained,
    route_cost, prior_of, lemma_serviced_push,
};
use crate::sorting::{sorted, sort_ints, sorted_copy, lemma_sort_ints_ensures,
    lemma_multiset_same_window};

verus! {

/// The targets of `s` at or above `p`, in their order in `s`.
pub open spec fn ge_filter(s: Seq<i32>, p: i32) -> Seq<i32>
    decreases s.len(),
{
    if s.len() == 0 {
        Seq::empty()
    } else if s.last() >= p {
        ge_filter(s.drop_last(), p).push(s.last())
    } else {
        ge_filter(s.drop_last(), p)
    }
}

/// The targets of `s` below `p`, in their order in `s`.
pub open spec fn lt_filter(s: Seq<i32>, p: i32) -> Seq<i32>
    decreases s.len(),
{
    if s.len() == 0 {
        Seq::empty()
    } else if s.last() < p {
        lt_filter(s.drop_last(), p).push(s.last())
    } else {
        lt_filter(s.drop_last(), p)
    }
}

/// In a sorted sequence that is split at `idx` - everything below `p`
/// before it, everything at or above `p` from it on - the two filters are
/// exactly the two halves.
pub proof fn lemma_filter_split(s: Seq<i32>, p: i32, idx: int)
    requires
        0 <= idx <= s.len(),
        forall|j: int| 0 <= j < idx ==> #[trigger] s[j] < p,
        forall|j: int| idx <= j < s.len() ==> #[trigger] s[j] >= p,
    ensures
        ge_filter(s, p) =~= s.subrange(idx, s.len() as int),
        lt_filter(s, p) =~= s.subrange(0, idx),
    decreases s.len(),
{
    if s.len() == 0 {
    } else if idx == s.len() {
        lemma_filter_split(s.drop_last(), p, idx - 1);
        assert(s.drop_last() =~= s.subrange(0, s.len() - 1));
        assert(s.drop_last().subrange(0, idx - 1) =~= s.subrange(0, idx - 1));
        assert(lt_filter(s, p) =~= lt_filter(s.drop_last(), p).push(s.last()));
        assert(lt_filter(s, p) =~= s.subrange(0, idx));
        assert(s.drop_last().subrange(idx - 1, s.drop_last().len() as int) =~= s.subrange(
            idx - 1,
            s.len() - 1,
        ));
    } else {
        lemma_filter_split(s.drop_last(), p, idx);
        assert(s.drop_last().subrange(0, idx) =~= s.subrange(0, idx));
        assert(s.drop_last().subrange(idx, s.drop_last().len() as int) =~= s.subrange(
            idx,
            s.len() - 1,
        ));
        assert(ge_filter(s, p) =~= ge_filter(s.drop_last(), p).push(s.last()));
        assert(ge_filter(s, p) =~= s.subrange(idx, s.len() as int));
    }
}

/// The two filters together contain every target exactly once.
pub proof fn lemma_filter_partition_multiset(s: Seq<i32>, p: i32)
    ensures
        ge_filter(s, p).to_multiset().add(lt_filter(s, p).to_multiset()) =~= s.to_multiset(),
    decreases s.len(),
{
    broadcast use vstd::seq_lib::group_to_multiset_ensures;

    if s.len() == 0 {
        assert(ge_filter(s, p) =~= Seq::<i32>::empty());
        assert(lt_filter(s, p) =~= Seq::<i32>::empty());
        assert_multisets_equal!(
            ge_filter(s, p).to_multiset().add(lt_filter(s, p).to_multiset()),
            s.to_multiset()
        );
    } else {
        lemma_filter_partition_multiset(s.drop_last(), p);
        assert(s.drop_last().push(s.last()) =~= s);
        if s.last() >= p {
            assert(ge_filter(s, p) =~= ge_filter(s.drop_last(), p).push(s.last()));
            assert(lt_filter(s, p) =~= lt_filter(s.drop_last(), p));
        } else {
            assert(lt_filter(s, p) =~= lt_filter(s.drop_last(), p).push(s.last()));
            assert(ge_filter(s, p) =~= ge_filter(s.drop_last(), p));
        }
        assert_multisets_equal!(
            ge_filter(s, p).to_multiset().add(lt_filter(s, p).to_multiset()),
            s.to_multiset()
        );
    }
}

/// What is still ahead of an upward sweep: the targets at or above the
/// head, in rising order, then - once the sweep reverses - the rest in
/// falling order.
pub open spec fn up_future(work: Seq<i32>, cur: i32) -> Seq<i32> {
    ge_filter(work, cur) + lt_filter(work, cur).reverse()
}

/// What is still ahead of a CSCAN run: the targets at or above the lap's
/// ceiling in rising order, then the skipped lower ones, again rising.
pub open spec fn lap_future(work: Seq<i32>, ceiling: i32) -> Seq<i32> {
    ge_filter(work, ceiling) + lt_filter(work, ceiling)
}

/// The SCAN service order: sweeping upward services everything at or above
/// the start in rising order, then the rest in falling order; sweeping
/// downward first walks to the lowest target and then services everything
/// in rising order.
pub open spec fn scan_seq(ts: Seq<i32>, start: i32, dir: SchedulerDirection) -> Seq<i32> {
    if dir == SchedulerDirection::Upward {
        up_future(sort_ints(ts), start)
    } else {
        sort_ints(ts)
    }
}

/// The CSCAN service order: the targets at or above the start in rising
/// order, then - after the wrap - the skipped lower ones, again in rising
/// order.
pub open spec fn cscan_seq(ts: Seq<i32>, start: i32) -> Seq<i32> {
    lap_future(sort_ints(ts), start)
}

/// SCAN services every request exactly once.
pub proof fn lemma_scan_seq_multiset(ts: Seq<i32>, start: i32, dir: SchedulerDirection)
    ensures
        scan_seq(ts, start, dir).to_multiset() =~= ts.to_multiset(),
{
    lemma_sort_ints_ensures(ts);
    if dir == SchedulerDirection::Upward {
        let s = sort_ints(ts);
        vstd::seq_lib::lemma_multiset_commutative(
            ge_filter(s, start),
            lt_filter(s, start).reverse(),
        );
        lt_filter(s, start).lemma_reverse_to_multiset();
        lemma_filter_partition_multiset(s, start);
        assert_multisets_equal!(scan_seq(ts, start, dir).to_multiset(), ts.to_multiset());
    }
}

/// CSCAN services every request exactly once.
pub proof fn lemma_cscan_seq_multiset(ts: Seq<i32>, start: i32)
    ensures
        cscan_seq(ts, start).to_multiset() =~= ts.to_multiset(),
{
    lemma_sort_ints_ensures(ts);
    let s = sort_ints(ts);
    vstd::seq_lib::lemma_multiset_commutative(ge_filter(s, start), lt_filter(s, start));
    lemma_filter_partition_multiset(s, start);
    assert_multisets_equal!(cscan_seq(ts, start).to_multiset(), ts.to_multiset());
}

/// Nothing in the sorted list is ahead any more: the sweep's future is the
/// whole list in falling order, a lap's future the list itself.
pub proof fn lemma_sweep_exhausted(s: Seq<i32>, p: i32)
    requires
        forall|j: int| 0 <= j < s.len() ==> #[trigger] s[j] < p,
    ensures
        up_future(s, p) =~= s.reverse(),
        lap_future(s, p) =~= s,
{
    lemma_filter_split(s, p, s.len() as int);
    assert(ge_filter(s, p) =~= Seq::<i32>::empty());
    assert(lt_filter(s, p) =~= s);
}

/// Everything in the list is ahead: either future is the list itself.
pub proof fn lemma_all_ahead(s: Seq<i32>, p: i32)
    requires
        forall|j: int| 0 <= j < s.len() ==> #[trigger] s[j] >= p,
    ensures
        up_future(s, p) =~= s,
        lap_future(s, p) =~= s,
{
    lemma_filter_split(s, p, 0);
    assert(ge_filter(s, p) =~= s);
    assert(lt_filter(s, p) =~= Seq::<i32>::empty());
    assert(Seq::<i32>::empty().reverse() =~= Seq::<i32>::empty());
}

/// Servicing the lowest target still ahead takes exactly the front of the
/// future, for an upward sweep and for a CSCAN lap alike, and splits the
/// shortened list at the vacated slot.
#[verifier::rlimit(50)]
pub proof fn lemma_service_ahead(pre: Seq<i32>, idx: int, p: i32)
    requires
        sorted(pre),
        0 <= idx < pre.len(),
        forall|j: int| 0 <= j < idx ==> #[trigger] pre[j] < p,
        pre[idx] >= p,
    ensures
        sorted(pre.remove(idx)),
        forall|j: int| 0 <= j < idx ==> #[trigger] pre.remove(idx)[j] < pre[idx],
        up_future(pre, p) =~= seq![pre[idx]] + up_future(pre.remove(idx), pre[idx]),
        lap_future(pre, p) =~= seq![pre[idx]] + lap_future(pre.remove(idx), pre[idx]),
{
    let t = pre[idx];
    let work = pre.remove(idx);
    assert forall|j: int| idx <= j < pre.len() implies #[trigger] pre[j] >= p by {
        assert(pre[idx] <= pre[j]);
    }
    lemma_filter_split(pre, p, idx);
    assert forall|j: int| 0 <= j < idx implies #[trigger] work[j] < t by {
        assert(work[j] == pre[j]);
        assert(pre[j] < p);
    }
    assert forall|j: int| idx <= j < work.len() implies #[trigger] work[j] >= t by {
        assert(work[j] == pre[j + 1]);
        assert(pre[idx] <= pre[j + 1]);
    }
    lemma_filter_split(work, t, idx);
    assert(pre.subrange(idx, pre.len() as int) =~= seq![t] + work.subrange(
        idx,
        work.len() as int,
    ));
    assert(pre.subrange(0, idx) =~= work.subrange(0, idx));
    assert(up_future(pre, p) =~= seq![t] + up_future(work, t));
    assert(lap_future(pre, p) =~= seq![t] + lap_future(work, t));
}

/// Consuming a sorted list from the back.
pub proof fn lemma_service_back(pre: Seq<i32>)
    requires
        sorted(pre),
        pre.len() > 0,
    ensures
        pre.remove(pre.len() - 1) =~= pre.drop_last(),
        sorted(pre.drop_last()),
        pre.reverse() =~= seq![pre.last()] + pre.drop_last().reverse(),
        forall|j: int| 0 <= j < pre.len() - 1 ==> #[trigger] pre.drop_last()[j] <= pre.last(),
{
    assert(pre.remove(pre.len() - 1) =~= pre.drop_last());
    assert(pre.reverse() =~= seq![pre.last()] + pre.drop_last().reverse());
}

impl Scheduler {
    /// Sweep the head in the current direction and service every request it
    /// reaches; reverse as soon as no request lies ahead any more.
    #[verifier::spinoff_prover]
    #[verifier::rlimit(100)]
    pub fn scan(&self, start_pos: i32) -> (r: SchedulerResult)
        requires
            self.wf(),
            pos_ok(start_pos),
        ensures
            targets(r.requests@) =~= scan_seq(targets(self.requests@), start_pos, self.direction),
            chained(r.requests@, start_pos),
            r.moved_distance as int == route_cost(targets(r.requests@), start_pos),
            targets(r.requests@).to_multiset() =~= targets(self.requests@).to_multiset(),
    {
        let ghost input = targets(self.requests@);
        let ghost dir0 = self.direction;
        proof {
            lemma_sort_ints_ensures(input);
            lemma_scan_seq_multiset(input, start_pos, dir0);
        }
        let positions = self.target_positions();
        let mut work: Vec<i32> = sorted_copy(&positions);
        proof {
            lemma_multiset_same_window(input, work@);
        }
        let mut direction = self.direction;
        let mut serviced: Vec<Request> = Vec::new();
        let mut total: i64 = 0;
        let mut cur: i32 = start_pos;
        let mut idx: usize = 0;
        let ghost mut was_up: bool = dir0 == SchedulerDirection::Upward;
        while work.len() > 0
            invariant
                pos_ok(start_pos),
                sorted(work@),
                all_pos_ok(work@),
                pos_ok(cur),
                work@.len() + serviced@.len() == input.len(),
                input.len() <= 0xFFFF_FFFF,
                work@.len() > 0 ==> (idx as int) < work@.len(),
                chained(serviced@, start_pos),
                cur == prior_of(targets(serviced@), start_pos, serviced@.len() as int),
                total as int == route_cost(targets(serviced@), start_pos),
                0 <= total as int <= (serviced@.len() as int) * 0x8000_0000,
                direction == SchedulerDirection::Upward ==> was_up,
                !was_up ==> (direction == SchedulerDirection::Downward && idx == 0 && dir0
                    == SchedulerDirection::Downward && targets(serviced@) + work@ =~= scan_seq(
                    input,
                    start_pos,
                    dir0,
                )),
                (was_up && direction == SchedulerDirection::Upward) ==> ((forall|j: int|
                    0 <= j < idx ==> #[trigger] work@[j] < cur) && targets(serviced@) + up_future(
                    work@,
                    cur,
                ) =~= scan_seq(input, start_pos, dir0)),
                (was_up && direction == SchedulerDirection::Downward) ==> ((work@.len() > 0
                    ==> idx as int == work@.len() - 1) && (forall|j: int|
                    0 <= j < work@.len() ==> #[trigger] work@[j] <= cur) && targets(serviced@)
                    + work@.reverse() =~= scan_seq(input, start_pos, dir0)),
            decreases
                (if !was_up {
                    2int
                } else if direction == SchedulerDirection::Upward {
                    1int
                } else {
                    0int
                }),
                work@.len(),
                (if direction == SchedulerDirection::Upward {
                    work@.len() - idx as int
                } else {
                    0int
                }),
        {
            let peek = work[idx];
            let upward = matches!(direction, SchedulerDirection::Upward);
            if (upward && peek >= cur) || (!upward && peek <= cur) {
                let ghost pre = work@;
                let ghost prevs = serviced@;
                let target = work.remove(idx);
                let distance: i32 = if target >= cur {
                    target - cur
                } else {
                    cur - target
                };
                serviced.push(
                    Request {
                        target_position: target,
                        moved_distance: distance,
                        prev_position: Some(cur),
                    },
                );
                total = total + distance as i64;
                proof {
                    lemma_serviced_push(prevs, start_pos, cur, target, distance, serviced@);
                    if !was_up {
                        // walking down from the start: the lowest target is
                        // serviced first, the list is consumed from the front
                        assert(pre =~= seq![target] + work@);
                        assert(targets(prevs).push(target) + work@ =~= targets(prevs) + pre);
                    } else if upward {
                        // upward sweep: the serviced target is the lowest of
                        // those still ahead
                        lemma_service_ahead(pre, idx as int, cur);
                        assert(targets(prevs).push(target) + up_future(work@, target) =~= targets(
                            prevs,
                        ) + up_future(pre, cur));
                    } else {
                        // downward sweep at the end: the list is consumed
                        // from the back
                        lemma_service_back(pre);
                        assert(work@ =~= pre.drop_last());
                        assert(targets(prevs).push(target) + work@.reverse() =~= targets(prevs)
                            + pre.reverse());
                    }
                }
                cur = target;
            } else {
                if upward {
                    idx += 1;
                } else {
                    if idx == 0 {
                        direction = SchedulerDirection::Upward;
                        proof {
                            // nothing lies below the head any more:
                            // everything left is above it
                            assert(peek == work@[0]);
                            if was_up {
                                assert(work@[work@.len() - 1] <= cur);
                                assert(work@[0] <= work@[work@.len() - 1]);
                                assert(false);
                            }
                            assert forall|j: int| 0 <= j < work@.len() implies #[trigger] work@[j]
                                >= cur by {
                                assert(work@[0] <= work@[j]);
                            }
                            lemma_all_ahead(work@, cur);
                            was_up = true;
                        }
                    } else {
                        idx -= 1;
                        proof {
                            if was_up {
                                assert(work@[idx as int + 1] <= cur);
                            }
                            assert(false);
                        }
                    }
                }
            }
            if idx > 0 && idx == work.len() {
                proof {
                    assert(was_up);
                    if direction == SchedulerDirection::Upward {
                        // the sweep walked past the top: nothing is at or
                        // above the head any more, reverse
                        assert(forall|j: int| 0 <= j < work@.len() ==> #[trigger] work@[j] < cur);
                        lemma_sweep_exhausted(work@, cur);
                    }
                }
                direction = SchedulerDirection::Downward;
                idx = work.len() - 1;
            }
        }
        proof {
            if !was_up {
                assert(targets(serviced@) =~= scan_seq(input, start_pos, dir0));
            } else if direction == SchedulerDirection::Upward {
                lemma_all_ahead(work@, cur);
                assert(targets(serviced@) =~= scan_seq(input, start_pos, dir0));
            } else {
                assert(work@.reverse() =~= Seq::<i32>::empty());
                assert(targets(serviced@) =~= scan_seq(input, start_pos, dir0));
            }
        }
        SchedulerResult { requests: serviced, moved_distance: total }
    }

    /// Sweep upward only: service every request at or above the lap's
    /// ceiling in rising order, and once none is left, wrap back and let the
    /// skipped lower targets qualify on a new lap.
    #[verifier::spinoff_prover]
    #[verifier::rlimit(100)]
    pub fn cscan(&self, start_pos: i32) -> (r: SchedulerResult)
        requires
            self.wf(),
            pos_ok(start_pos),
        ensures
            targets(r.requests@) =~= cscan_seq(targets(self.requests@), start_pos),
            chained(r.requests@, start_pos),
            r.moved_distance as int == route_cost(targets(r.requests@), start_pos),
            targets(r.requests@).to_multiset() =~= targets(self.requests@).to_multiset(),
    {
        let ghost input = targets(self.requests@);
        proof {
            lemma_sort_ints_ensures(input);
            lemma_cscan_seq_multiset(input, start_pos);
        }
        let positions = self.target_positions();
        let mut work: Vec<i32> = sorted_copy(&positions);
        proof {
            lemma_multiset_same_window(input, work@);
        }
        let mut serviced: Vec<Request> = Vec::new();
        let mut total: i64 = 0;
        let mut cur: i32 = start_pos;
        let mut possible: i32 = start_pos;
        let mut idx: usize = 0;
        let ghost mut wrapped: bool = false;
        while work.len() > 0
            invariant
                pos_ok(start_pos),
                sorted(work@),
                all_pos_ok(work@),
                pos_ok(cur),
                work@.len() + serviced@.len() == input.len(),
                input.len() <= 0xFFFF_FFFF,
                work@.len() > 0 ==> (idx as int) < work@.len(),
                chained(serviced@, start_pos),
                cur == prior_of(targets(serviced@), start_pos, serviced@.len() as int),
                total as int == route_cost(targets(serviced@), start_pos),
                0 <= total as int <= (serviced@.len() as int) * 0x8000_0000,
                forall|j: int| 0 <= j < idx ==> #[trigger] work@[j] < possible,
                targets(serviced@) + lap_future(work@, possible) =~= cscan_seq(input, start_pos),
                wrapped ==> (forall|j: int|
                    (idx as int) <= j < work@.len() ==> #[trigger] work@[j] >= possible),
            decreases
                work@.len(),
                (if wrapped {
                    0int
                } else {
                    work@.len() - idx as int
                }),
        {
            let peek = work[idx];
            if peek >= possible {
                let ghost pre = work@;
                let ghost prevs = serviced@;
                let target = work.remove(idx);
                let distance: i32 = if target >= cur {
                    target - cur
                } else {
                    cur - target
                };
                serviced.push(
                    Request {
                        target_position: target,
                        moved_distance: distance,
                        prev_position: Some(cur),
                    },
                );
                total = total + distance as i64;
                proof {
                    lemma_serviced_push(prevs, start_pos, cur, target, distance, serviced@);
                    lemma_service_ahead(pre, idx as int, possible);
                    assert(targets(prevs).push(target) + lap_future(work@, target) =~= targets(
                        prevs,
                    ) + lap_future(pre, possible));
                }
                cur = target;
                possible = target;
            } else {
                proof {
                    if wrapped {
                        assert(work@[idx as int] >= possible);
                    }
                }
                idx += 1;
            }
            if idx == work.len() {
                proof {
                    assert(forall|j: int| 0 <= j < work@.len() ==> #[trigger] work@[j] < possible);
                    lemma_sweep_exhausted(work@, possible);
                }
                idx = 0;
                possible = i32::MIN;
                proof {
                    wrapped = true;
                    assert(forall|j: int|
                        0 <= j < work@.len() ==> #[trigger] work@[j] >= i32::MIN);
                    lemma_all_ahead(work@, i32::MIN);
                }
            }
        }
        proof {
            lemma_all_ahead(work@, possible);
            assert(targets(serviced@) =~= cscan_seq(input, start_pos));
        }
        SchedulerResult { requests: serviced, moved_distance: total }
    }
}

} // verus!
