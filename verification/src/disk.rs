//! Disk-arm scheduling: given a fixed set of pending requests (track
//! positions) and a starting head position, each strategy computes the order
//! in which the head services the requests and the head movement this costs.
//!
//! The strategies live in `impl Scheduler` blocks: first-come-first-served
//! here, shortest-seek-time-first in `sstf`, and the two elevator sweeps in
//! `sweep`.

use vstd::prelude::*;

verus! {

/// Largest magnitude a track position may have.  Keeping positions inside
/// this window makes every per-request seek distance fit in an `i32`.
pub const POSITION_LIMIT: i32 = 0x3FFF_FFFF;

/// A position is inside the addressable window.
pub open spec fn pos_ok(p: i32) -> bool {
    -POSITION_LIMIT <= p <= POSITION_LIMIT
}

/// Every position of the sequence is inside the addressable window.
pub open spec fn all_pos_ok(s: Seq<i32>) -> bool {
    forall|i: int| 0 <= i < s.len() ==> pos_ok(#[trigger] s[i])
}

/// Seek distance between two positions.
pub open spec fn abs_diff(a: int, b: int) -> int {
    if a >= b {
        a - b
    } else {
        b - a
    }
}

/// One pending I/O request: the track it targets, and - filled in exactly
/// once, when the request is serviced - the head position just before the
/// seek and the distance the seek covered.
#[derive(Clone, Copy, Debug)]
pub struct Request {
    pub target_position: i32,
    pub moved_distance: i32,
    pub prev_position: Option<i32>,
}

impl Request {
    /// Record that the head reached this request coming from `position`.
    pub fn schedule_at(&mut self, position: i32)
        requires
            pos_ok(old(self).target_position),
            pos_ok(position),
        ensures
            final(self).target_position == old(self).target_position,
            final(self).prev_position == Some(position),
            final(self).moved_distance as int == abs_diff(
                old(self).target_position as int,
                position as int,
            ),
    {
        self.moved_distance = if position >= self.target_position {
            position - self.target_position
        } else {
            self.target_position - position
        };
        self.prev_position = Some(position);
    }

    /// Seek distance from `position` to this request's target.
    pub fn diff_current(&mut self, position: i32) -> (d: i32)
        requires
            pos_ok(old(self).target_position),
            pos_ok(position),
        ensures
            *final(self) == *old(self),
            d as int == abs_diff(old(self).target_position as int, position as int),
    {
        if self.target_position >= position {
            self.target_position - position
        } else {
            position - self.target_position
        }
    }
}

/// The sweep direction of the head; only SCAN ever changes it while running.
#[derive(Clone, Copy, Debug, PartialEq, Eq, Structural)]
pub enum SchedulerDirection {
    Upward,
    Downward,
}

/// Rejected configuration: a low range bound above the high one.
#[derive(Clone, Copy, Debug, PartialEq, Eq, Structural)]
pub enum SchedulerError {
    InvalidBounds,
}

/// The targets of a request sequence, in order.
pub open spec fn targets(rs: Seq<Request>) -> Seq<i32> {
    rs.map_values(|r: Request| r.target_position)
}

/// The head position just before the `i`-th serviced request: the start
/// position for the first one, the previous target after that.
pub open spec fn prior_of(ts: Seq<i32>, start: i32, i: int) -> i32 {
    if i == 0 {
        start
    } else {
        ts[i - 1]
    }
}

/// Every serviced request records the head position it was reached from and
/// the seek distance from there, and those positions chain: the first starts
/// at `start`, each later one at the previous target.
pub open spec fn chained(rs: Seq<Request>, start: i32) -> bool {
    forall|i: int|
        0 <= i < rs.len() ==> ((#[trigger] rs[i]).prev_position == Some(
            prior_of(targets(rs), start, i),
        ) && rs[i].moved_distance as int == abs_diff(
            rs[i].target_position as int,
            prior_of(targets(rs), start, i) as int,
        ))
}

/// Total head movement of visiting the targets in order, starting at `start`.
pub open spec fn route_cost(ts: Seq<i32>, start: i32) -> int
    decreases ts.len(),
{
    if ts.len() == 0 {
        0
    } else {
        abs_diff(ts[0] as int, start as int) + route_cost(ts.drop_first(), ts[0])
    }
}

/// Visiting one more target adds exactly the seek distance from the last
/// position of the route so far.
pub proof fn lemma_route_cost_push(ts: Seq<i32>, start: i32, t: i32)
    ensures
        route_cost(ts.push(t), start) == route_cost(ts, start) + abs_diff(
            t as int,
            prior_of(ts.push(t), start, ts.len() as int) as int,
        ),
    decreases ts.len(),
{
    reveal_with_fuel(route_cost, 3);
    if ts.len() == 0 {
        assert(ts.push(t).drop_first() =~= Seq::empty());
    } else {
        assert(ts.push(t).drop_first() =~= ts.drop_first().push(t));
        lemma_route_cost_push(ts.drop_first(), ts[0], t);
        assert(ts.push(t)[0] == ts[0]);
        assert(route_cost(ts.push(t), start) == abs_diff(ts[0] as int, start as int)
            + route_cost(ts.drop_first().push(t), ts[0]));
        assert(ts.push(t)[ts.len() - 1] == ts[ts.len() - 1]);
        assert(prior_of(ts.push(t), start, ts.len() as int) == ts[ts.len() - 1]);
        if ts.len() > 1 {
            assert(ts.drop_first()[ts.len() - 2] == ts[ts.len() - 1]);
            assert(ts.drop_first().push(t)[ts.len() - 2] == ts[ts.len() - 1]);
            assert(prior_of(ts.drop_first().push(t), ts[0], ts.len() - 1) == ts[ts.len() - 1]);
        } else {
            assert(prior_of(ts.drop_first().push(t), ts[0], ts.len() - 1) == ts[0]);
        }
    }
}

/// Servicing one more target keeps the chain intact and adds its seek
/// distance to the route cost.
pub proof fn lemma_serviced_push(
    prevs: Seq<Request>,
    start: i32,
    cur: i32,
    t: i32,
    d: i32,
    after: Seq<Request>,
)
    requires
        chained(prevs, start),
        cur == prior_of(targets(prevs), start, prevs.len() as int),
        after == prevs.push(
            Request { target_position: t, moved_distance: d, prev_position: Some(cur) },
        ),
        d as int == abs_diff(t as int, cur as int),
    ensures
        chained(after, start),
        targets(after) =~= targets(prevs).push(t),
        t == prior_of(targets(after), start, after.len() as int),
        route_cost(targets(after), start) == route_cost(targets(prevs), start) + d,
{
    assert(targets(after) =~= targets(prevs).push(t));
    lemma_route_cost_push(targets(prevs), start, t);
    if prevs.len() > 0 {
        assert(targets(prevs).push(t)[prevs.len() - 1] == targets(prevs)[prevs.len() - 1]);
    }
    assert(prior_of(targets(after), start, prevs.len() as int) == cur);
    assert forall|j: int| 0 <= j < after.len() implies ((#[trigger] after[j]).prev_position
        == Some(prior_of(targets(after), start, j)) && after[j].moved_distance as int == abs_diff(
        after[j].target_position as int,
        prior_of(targets(after), start, j) as int,
    )) by {
        if j < prevs.len() {
            assert(after[j] == prevs[j]);
            if j > 0 {
                assert(targets(after)[j - 1] == targets(prevs)[j - 1]);
            }
        } else {
            assert(after[j].prev_position == Some(cur));
        }
    }
}

/// Requests as freshly constructed: not yet serviced.
pub open spec fn fresh_requests(rs: Seq<Request>) -> bool {
    forall|i: int|
        0 <= i < rs.len() ==> ((#[trigger] rs[i]).moved_distance == 0 && rs[i].prev_position
            is None)
}

/// The scheduler: the fixed request list, the addressable range, and the
/// initial sweep direction.  It is read-only during a run - every strategy
/// works on its own copy of the targets - so one scheduler can run several
/// strategies, or the same one repeatedly, without interference.
pub struct Scheduler {
    pub requests: Vec<Request>,
    pub section_start: i32,
    pub section_end: i32,
    pub direction: SchedulerDirection,
}

/// What one strategy run produced: the requests in the order they were
/// serviced, each carrying its resolved prior position and seek distance,
/// and the total head movement.
#[derive(Clone, Debug)]
pub struct SchedulerResult {
    pub requests: Vec<Request>,
    pub moved_distance: i64,
}

impl Scheduler {
    /// The request list a strategy can run on: positions inside the
    /// addressable window, and few enough that the total movement fits.
    pub open spec fn wf(self) -> bool {
        all_pos_ok(targets(self.requests@)) && self.requests@.len() <= 0xFFFF_FFFF
    }

    /// Build a scheduler over the given target positions.  The range bounds
    /// are mandatory and must not be inverted; the initial direction
    /// defaults to upward.
    pub fn create_requests_from_vec(
        requests: Vec<i32>,
        section_start: i32,
        section_end: i32,
        direction: Option<SchedulerDirection>,
    ) -> (r: Result<Scheduler, SchedulerError>)
        ensures
            r is Err <==> section_start > section_end,
            r is Err ==> r->Err_0 == SchedulerError::InvalidBounds,
            r is Ok ==> targets(r->Ok_0.requests@) =~= requests@,
            r is Ok ==> fresh_requests(r->Ok_0.requests@),
            r is Ok ==> r->Ok_0.section_start == section_start && r->Ok_0.section_end
                == section_end,
            r is Ok ==> r->Ok_0.direction == (match direction {
                Some(d) => d,
                None => SchedulerDirection::Upward,
            }),
    {
        if section_start > section_end {
            return Err(SchedulerError::InvalidBounds);
        }
        let mut rs: Vec<Request> = Vec::new();
        let mut i: usize = 0;
        while i < requests.len()
            invariant
                i <= requests@.len(),
                targets(rs@) =~= requests@.take(i as int),
                fresh_requests(rs@),
                rs@.len() == i,
            decreases requests@.len() - i,
        {
            rs.push(
                Request {
                    target_position: requests[i],
                    moved_distance: 0,
                    prev_position: None,
                },
            );
            proof {
                assert(targets(rs@) =~= requests@.take(i + 1));
            }
            i += 1;
        }
        proof {
            assert(requests@.take(requests@.len() as int) =~= requests@);
        }
        let scheduler = Scheduler {
            requests: rs,
            section_start,
            section_end,
            direction: match direction {
                Some(d) => d,
                None => SchedulerDirection::Upward,
            },
        };
        Ok(scheduler)
    }

    /// The stored target positions, in order, as a fresh working list.
    pub(crate) fn target_positions(&self) -> (v: Vec<i32>)
        ensures
            v@ =~= targets(self.requests@),
    {
        let ghost input = targets(self.requests@);
        let mut positions: Vec<i32> = Vec::new();
        let mut i: usize = 0;
        while i < self.requests.len()
            invariant
                input == targets(self.requests@),
                i <= input.len(),
                positions@ =~= input.take(i as int),
            decreases input.len() - i,
        {
            positions.push(self.requests[i].target_position);
            proof {
                assert(positions@ =~= input.take(i + 1));
            }
            i += 1;
        }
        proof {
            assert(input.take(input.len() as int) =~= input);
        }
        positions
    }

    /// Service the requests strictly in input order.
    pub fn fcfs(&self, start_pos: i32) -> (r: SchedulerResult)
        requires
            self.wf(),
            pos_ok(start_pos),
        ensures
            targets(r.requests@) =~= targets(self.requests@),
            chained(r.requests@, start_pos),
            r.moved_distance as int == route_cost(targets(r.requests@), start_pos),
    {
        let ghost input = targets(self.requests@);
        let mut serviced: Vec<Request> = Vec::new();
        let mut total: i64 = 0;
        let mut current_position: i32 = start_pos;
        let mut i: usize = 0;
        while i < self.requests.len()
            invariant
                self.wf(),
                pos_ok(start_pos),
                input == targets(self.requests@),
                i <= self.requests@.len(),
                serviced@.len() == i,
                targets(serviced@) =~= input.take(i as int),
                chained(serviced@, start_pos),
                current_position == prior_of(input, start_pos, i as int),
                pos_ok(current_position),
                total as int == route_cost(targets(serviced@), start_pos),
                0 <= total as int <= (i as int) * 0x8000_0000,
            decreases self.requests@.len() - i,
        {
            let target = self.requests[i].target_position;
            proof {
                assert(target == input[i as int]);
                assert(pos_ok(input[i as int]));
            }
            let distance: i32 = if target >= current_position {
                target - current_position
            } else {
                current_position - target
            };
            proof {
                lemma_route_cost_push(targets(serviced@), start_pos, target);
                assert(targets(serviced@).push(target) =~= input.take(i + 1));
            }
            serviced.push(
                Request {
                    target_position: target,
                    moved_distance: distance,
                    prev_position: Some(current_position),
                },
            );
            proof {
                assert(targets(serviced@) =~= input.take(i + 1));
            }
            total = total + distance as i64;
            current_position = target;
            i += 1;
        }
        proof {
            assert(input.take(input.len() as int) =~= input);
        }
        SchedulerResult { requests: serviced, moved_distance: total }
    }
}

} // verus!
