//! Shortest-seek-time-first: repeatedly service the pending request nearest
//! to the current head position.  The working list is kept sorted, so after
//! the first full scan only the two neighbours of the vacated slot have to
//! be compared.

use vstd::prelude::*;
use crate::disk::{
    Scheduler, SchedulerResult, Request, targets, abs_diff, pos_ok, all_pos_ok, chained,
    route_cost, prior_of, lemma_route_cost_push,
};
use crate::sorting::{
    sorted, sort_ints, sorted_copy, lemma_sort_ints_ensures, lemma_multiset_same_window,
};

verus! {

/// Index of the target nearest to `cur`; the earliest on a tie.
pub open spec fn nearest_idx_spec(s: Seq<i32>, cur: i32) -> int
    decreases s.len(),
{
    if s.len() <= 1 {
        0
    } else {
        let k = nearest_idx_spec(s.drop_last(), cur);
        if abs_diff(s.last() as int, cur as int) < abs_diff(s[k] as int, cur as int) {
            s.len() - 1
        } else {
            k
        }
    }
}

pub proof fn lemma_nearest_idx_spec_ensures(s: Seq<i32>, cur: i32)
    requires
        s.len() > 0,
    ensures
        0 <= nearest_idx_spec(s, cur) < s.len(),
        forall|j: int|
            0 <= j < s.len() ==> abs_diff(s[nearest_idx_spec(s, cur)] as int, cur as int)
                <= abs_diff(#[trigger] s[j] as int, cur as int),
        forall|j: int|
            0 <= j < nearest_idx_spec(s, cur) ==> abs_diff(#[trigger] s[j] as int, cur as int)
                > abs_diff(s[nearest_idx_spec(s, cur)] as int, cur as int),
    decreases s.len(),
{
    if s.len() <= 1 {
    } else {
        lemma_nearest_idx_spec_ensures(s.drop_last(), cur);
        assert(forall|j: int| 0 <= j < s.len() - 1 ==> s.drop_last()[j] == #[trigger] s[j]);
    }
}

/// The service order of shortest-seek-time-first over the sorted targets
/// `s`, with the head at `cur`.
pub open spec fn sstf_seq(s: Seq<i32>, cur: i32) -> Seq<i32>
    decreases s.len(),
{
    if s.len() == 0 {
        Seq::empty()
    } else {
        let k = nearest_idx_spec(s, cur);
        if 0 <= k < s.len() {
            seq![s[k]] + sstf_seq(s.remove(k), s[k])
        } else {
            Seq::empty()
        }
    }
}

/// Shortest-seek-time-first services every request exactly once.
pub proof fn lemma_sstf_seq_multiset(s: Seq<i32>, cur: i32)
    ensures
        sstf_seq(s, cur).to_multiset() =~= s.to_multiset(),
    decreases s.len(),
{
    broadcast use vstd::seq_lib::group_to_multiset_ensures;

    if s.len() == 0 {
    } else {
        lemma_nearest_idx_spec_ensures(s, cur);
        let k = nearest_idx_spec(s, cur);
        lemma_sstf_seq_multiset(s.remove(k), s[k]);
        assert(sstf_seq(s, cur) =~= seq![s[k]] + sstf_seq(s.remove(k), s[k]));
        vstd::seq_lib::lemma_multiset_commutative(seq![s[k]], sstf_seq(s.remove(k), s[k]));
        assert(seq![s[k]] =~= Seq::empty().push(s[k]));
        assert(s.remove(k).to_multiset() =~= s.to_multiset().remove(s[k]));
        assert(s.to_multiset().contains(s[k]));
        vstd::assert_multisets_equal!(sstf_seq(s, cur).to_multiset(), s.to_multiset());
    }
}

/// In a sorted list split at the vacated slot `k` - everything before it at
/// or below the head, everything from it on at or above - the next nearest
/// target is one of the slot's two neighbours, and picking the left one on
/// a tie services the same target and leaves the same list as the
/// earliest-nearest rule.
proof fn lemma_nearest_in_split(s: Seq<i32>, cur: i32, k: int, c: int)
    requires
        sorted(s),
        s.len() > 0,
        0 <= k <= s.len(),
        forall|j: int| 0 <= j < k ==> #[trigger] s[j] <= cur,
        forall|j: int| k <= j < s.len() ==> #[trigger] s[j] >= cur,
        c == if k == 0 {
            0int
        } else if k == s.len() {
            s.len() - 1
        } else if abs_diff(s[k - 1] as int, cur as int) <= abs_diff(s[k] as int, cur as int) {
            k - 1
        } else {
            k
        },
    ensures
        0 <= c < s.len(),
        s[c] == s[nearest_idx_spec(s, cur)],
        s.remove(c) =~= s.remove(nearest_idx_spec(s, cur)),
{
    lemma_nearest_idx_spec_ensures(s, cur);
    let m = nearest_idx_spec(s, cur);
    // c achieves the least seek distance
    assert forall|j: int| 0 <= j < s.len() implies abs_diff(s[c] as int, cur as int) <= abs_diff(
        #[trigger] s[j] as int,
        cur as int,
    ) by {
        if j < k {
            assert(s[j] <= s[k - 1]);
        } else {
            assert(s[k] <= s[j]);
        }
    }
    assert(abs_diff(s[m] as int, cur as int) == abs_diff(s[c] as int, cur as int));
    assert(m <= c);
    // the serviced value is the same
    if s[m] != s[c] {
        // equal distance on different sides of the head
        if c < k {
            assert(m < k);
            assert(s[m] <= cur && s[c] <= cur);
            assert(false);
        } else {
            // c == k, chosen strictly: no index below k reaches the minimum
            assert(abs_diff(s[k - 1] as int, cur as int) > abs_diff(s[c] as int, cur as int));
            if m < k {
                assert(abs_diff(s[m] as int, cur as int) >= abs_diff(s[k - 1] as int, cur as int));
                assert(false);
            }
            assert(s[m] >= cur && s[c] >= cur);
            assert(false);
        }
    }
    // everything between m and c is the same value, so removing either
    // leaves the same list
    assert forall|j: int| 0 <= j < s.len() - 1 implies s.remove(c)[j] == s.remove(m)[j] by {
        if m <= j < c {
            assert(s[m] <= s[j] <= s[c]);
            assert(s[m] <= s[j + 1] <= s[c]);
        }
    }
}

/// Index of the target of `v` nearest to `pos`; the earliest on a tie.
fn nearest_index(v: &Vec<i32>, pos: i32) -> (idx: usize)
    requires
        v@.len() > 0,
        all_pos_ok(v@),
        pos_ok(pos),
    ensures
        idx as int == nearest_idx_spec(v@, pos),
{
    let mut current_idx: usize = 0;
    let mut nearest_diff: i32 = if v[0] >= pos {
        v[0] - pos
    } else {
        pos - v[0]
    };
    let mut i: usize = 1;
    while i < v.len()
        invariant
            1 <= i <= v@.len(),
            all_pos_ok(v@),
            pos_ok(pos),
            current_idx as int == nearest_idx_spec(v@.take(i as int), pos),
            current_idx < i,
            nearest_diff as int == abs_diff(v@[current_idx as int] as int, pos as int),
        decreases v@.len() - i,
    {
        proof {
            assert(pos_ok(v@[i as int]));
            assert(v@.take(i + 1).drop_last() =~= v@.take(i as int));
            assert(v@.take(i + 1).last() == v@[i as int]);
            lemma_nearest_idx_spec_ensures(v@.take(i + 1), pos);
        }
        let diff: i32 = if v[i] >= pos {
            v[i] - pos
        } else {
            pos - v[i]
        };
        if diff < nearest_diff {
            current_idx = i;
            nearest_diff = diff;
        }
        i += 1;
    }
    proof {
        assert(v@.take(v@.len() as int) =~= v@);
    }
    current_idx
}

impl Scheduler {
    /// Index of the stored request nearest to `start_pos`; the earliest on
    /// a tie.
    pub fn find_start(&self, start_pos: i32) -> (idx: usize)
        requires
            self.wf(),
            pos_ok(start_pos),
            self.requests@.len() > 0,
        ensures
            idx as int == nearest_idx_spec(targets(self.requests@), start_pos),
    {
        let ghost ts = targets(self.requests@);
        let mut current_idx: usize = 0;
        let first = self.requests[0].target_position;
        proof {
            assert(first == ts[0]);
            assert(pos_ok(ts[0]));
        }
        let mut nearest_diff: i32 = if first >= start_pos {
            first - start_pos
        } else {
            start_pos - first
        };
        let mut i: usize = 1;
        while i < self.requests.len()
            invariant
                self.wf(),
                pos_ok(start_pos),
                ts == targets(self.requests@),
                1 <= i <= ts.len(),
                current_idx as int == nearest_idx_spec(ts.take(i as int), start_pos),
                current_idx < i,
                nearest_diff as int == abs_diff(ts[current_idx as int] as int, start_pos as int),
            decreases ts.len() - i,
        {
            proof {
                assert(pos_ok(ts[i as int]));
                assert(ts.take(i + 1).drop_last() =~= ts.take(i as int));
                assert(ts.take(i + 1).last() == ts[i as int]);
                lemma_nearest_idx_spec_ensures(ts.take(i + 1), start_pos);
            }
            let target = self.requests[i].target_position;
            let diff: i32 = if target >= start_pos {
                target - start_pos
            } else {
                start_pos - target
            };
            if diff < nearest_diff {
                current_idx = i;
                nearest_diff = diff;
            }
            i += 1;
        }
        proof {
            assert(ts.take(ts.len() as int) =~= ts);
        }
        current_idx
    }

    /// Service the request nearest the head first, then repeat over what is
    /// left.
    pub fn ssts(&self, start_pos: i32) -> (r: SchedulerResult)
        requires
            self.wf(),
            pos_ok(start_pos),
        ensures
            targets(r.requests@) =~= sstf_seq(sort_ints(targets(self.requests@)), start_pos),
            chained(r.requests@, start_pos),
            r.moved_distance as int == route_cost(targets(r.requests@), start_pos),
            targets(r.requests@).to_multiset() =~= targets(self.requests@).to_multiset(),
    {
        let ghost input = targets(self.requests@);
        proof {
            lemma_sort_ints_ensures(input);
            lemma_sstf_seq_multiset(sort_ints(input), start_pos);
        }
        // copy the targets and sort the working list
        let mut positions: Vec<i32> = Vec::new();
        let mut i: usize = 0;
        while i < self.requests.len()
            invariant
                self.wf(),
                input == targets(self.requests@),
                i <= input.len(),
                positions@ =~= input.take(i as int),
            decreases input.len() - i,
        {
            positions.push(self.requests[i].target_position);
            proof {
                assert(positions@ =~= input.take(i + 1));
            }
            i += 1;
        }
        proof {
            assert(input.take(input.len() as int) =~= input);
        }
        let mut work: Vec<i32> = sorted_copy(&positions);
        proof {
            lemma_multiset_same_window(input, work@);
        }
        let mut serviced: Vec<Request> = Vec::new();
        let mut total: i64 = 0;
        let mut cur: i32 = start_pos;
        if work.len() == 0 {
            return SchedulerResult { requests: serviced, moved_distance: total };
        }
        let mut idx: usize = nearest_index(&work, start_pos);
        proof {
            lemma_nearest_idx_spec_ensures(work@, start_pos);
        }
        let ghost n = input.len();
        while work.len() > 0
            invariant
                sorted(work@),
                all_pos_ok(work@),
                pos_ok(start_pos),
                pos_ok(cur),
                work@.len() + serviced@.len() == n,
                n <= 0xFFFF_FFFF,
                work@.len() > 0 ==> (idx as int) < work@.len(),
                work@.len() > 0 ==> work@[idx as int] == work@[nearest_idx_spec(work@, cur)],
                work@.len() > 0 ==> work@.remove(idx as int) =~= work@.remove(
                    nearest_idx_spec(work@, cur),
                ),
                targets(serviced@) + sstf_seq(work@, cur) =~= sstf_seq(sort_ints(input), start_pos),
                chained(serviced@, start_pos),
                cur == prior_of(targets(serviced@), start_pos, serviced@.len() as int),
                total as int == route_cost(targets(serviced@), start_pos),
                0 <= total as int <= (serviced@.len() as int) * 0x8000_0000,
            decreases work@.len(),
        {
            let ghost pre = work@;
            let ghost prevs = serviced@;
            proof {
                lemma_nearest_idx_spec_ensures(pre, cur);
                assert(sstf_seq(pre, cur) =~= seq![pre[nearest_idx_spec(pre, cur)]] + sstf_seq(
                    pre.remove(nearest_idx_spec(pre, cur)),
                    pre[nearest_idx_spec(pre, cur)],
                ));
            }
            let target = work.remove(idx);
            let distance: i32 = if target >= cur {
                target - cur
            } else {
                cur - target
            };
            proof {
                assert(target == pre[nearest_idx_spec(pre, cur)]);
                lemma_route_cost_push(targets(prevs), start_pos, target);
            }
            serviced.push(
                Request {
                    target_position: target,
                    moved_distance: distance,
                    prev_position: Some(cur),
                },
            );
            total = total + distance as i64;
            proof {
                assert(targets(serviced@) =~= targets(prevs).push(target));
                if prevs.len() > 0 {
                    assert(targets(prevs).push(target)[prevs.len() - 1] == targets(
                        prevs,
                    )[prevs.len() - 1]);
                }
                assert(prior_of(targets(serviced@), start_pos, prevs.len() as int) == cur);
                assert(total as int == route_cost(targets(serviced@), start_pos));
                assert forall|j: int| 0 <= j < serviced@.len() implies ((
                #[trigger] serviced@[j]).prev_position == Some(
                    prior_of(targets(serviced@), start_pos, j),
                ) && serviced@[j].moved_distance as int == abs_diff(
                    serviced@[j].target_position as int,
                    prior_of(targets(serviced@), start_pos, j) as int,
                )) by {
                    if j < prevs.len() {
                        assert(serviced@[j] == prevs[j]);
                        if j > 0 {
                            assert(targets(serviced@)[j - 1] == targets(prevs)[j - 1]);
                        }
                    } else {
                        assert(serviced@[j].prev_position == Some(cur));
                    }
                }
                assert(work@ =~= pre.remove(idx as int));
                assert(targets(serviced@) + sstf_seq(work@, target) =~= sstf_seq(
                    sort_ints(input),
                    start_pos,
                ));
            }
            cur = target;
            // pick the next index: one of the two neighbours of the vacated
            // slot, the nearer one, the left one on a tie
            if work.len() > 0 {
                let ghost vacated = idx as int;
                if idx == work.len() {
                    idx = work.len() - 1;
                } else if idx > 0 {
                    let left = work[idx - 1];
                    let right = work[idx];
                    let diff_left: i32 = if left >= cur {
                        left - cur
                    } else {
                        cur - left
                    };
                    let diff_right: i32 = if right >= cur {
                        right - cur
                    } else {
                        cur - right
                    };
                    if diff_left <= diff_right {
                        idx = idx - 1;
                    }
                }
                proof {
                    assert(forall|j: int| 0 <= j < vacated ==> pre[j] <= #[trigger] work@[j]
                        && work@[j] == pre[j]);
                    assert forall|j: int| 0 <= j < vacated implies #[trigger] work@[j] <= cur by {
                        assert(work@[j] == pre[j]);
                        assert(pre[j] <= pre[vacated]);
                    }
                    assert forall|j: int| vacated <= j < work@.len() implies #[trigger] work@[j]
                        >= cur by {
                        assert(work@[j] == pre[j + 1]);
                        assert(pre[vacated] <= pre[j + 1]);
                    }
                    lemma_nearest_in_split(work@, cur, vacated, idx as int);
                }
            }
        }
        proof {
            assert(targets(serviced@) =~= sstf_seq(sort_ints(input), start_pos));
        }
        SchedulerResult { requests: serviced, moved_distance: total }
    }
}

} // verus!
