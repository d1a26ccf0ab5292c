//! The banker's deadlock-safety check: given the outstanding needs and
//! current allocations of a set of tasks and the free resources, find a safe
//! completion order by repeatedly finishing the first task whose need the
//! free resources cover and reclaiming its allocation.

use vstd::prelude::*;

verus! {

/// One task: what it still needs of each resource, and what it holds.
pub struct Task {
    pub need: Vec<u32>,
    pub allocation: Vec<u32>,
}

/// The checker: the free resources, the tasks, and - once a safe order was
/// found - the resources left after granting later requests.
pub struct DeadlockCheck {
    pub resources: Vec<u32>,
    pub tasks: Vec<Task>,
    pub current_resources: Vec<u32>,
}

/// The free resources cover the need in every component.
pub open spec fn satisfied(have: Seq<u32>, need: Seq<u32>) -> bool {
    forall|i: int| 0 <= i < need.len() ==> #[trigger] have[i] >= need[i]
}

/// Componentwise sum of the free resources and a reclaimed allocation.
pub open spec fn reclaimed(have: Seq<u32>, alloc: Seq<u32>) -> Seq<u32> {
    Seq::new(have.len(), |i: int| (have[i] + alloc[i]) as u32)
}

/// How many tasks are not finished yet.
pub open spec fn unfinished(fin: Seq<bool>) -> int
    decreases fin.len(),
{
    if fin.len() == 0 {
        0
    } else {
        unfinished(fin.drop_last()) + if fin.last() {
            0int
        } else {
            1int
        }
    }
}

/// What the unfinished tasks still hold of resource `j`, added up.
pub open spec fn pending_alloc(tasks: Seq<Task>, fin: Seq<bool>, j: int) -> int
    decreases tasks.len(),
{
    if tasks.len() == 0 {
        0
    } else {
        pending_alloc(tasks.drop_last(), fin, j) + if fin[tasks.len() - 1] {
            0int
        } else {
            tasks.last().allocation@[j] as int
        }
    }
}

/// No task finished yet.
pub open spec fn no_finish(n: nat) -> Seq<bool> {
    Seq::new(n, |i: int| false)
}

/// The first task, from `i` on, that is unfinished and whose need the free
/// resources cover; `-1` if there is none.
pub open spec fn find_runnable_from(tasks: Seq<Task>, fin: Seq<bool>, avail: Seq<u32>, i: int) -> int
    decreases tasks.len() - i
        when 0 <= i <= tasks.len()
{
    if i >= tasks.len() {
        -1
    } else if !fin[i] && satisfied(avail, tasks[i].need@) {
        i
    } else {
        find_runnable_from(tasks, fin, avail, i + 1)
    }
}

proof fn lemma_unfinished_update(fin: Seq<bool>, i: int)
    requires
        0 <= i < fin.len(),
        !fin[i],
    ensures
        unfinished(fin.update(i, true)) == unfinished(fin) - 1,
        unfinished(fin) >= 1,
    decreases fin.len(),
{
    if i == fin.len() - 1 {
        assert(fin.update(i, true).drop_last() =~= fin.drop_last());
        lemma_unfinished_nonneg(fin.drop_last());
    } else {
        assert(fin.update(i, true).drop_last() =~= fin.drop_last().update(i, true));
        lemma_unfinished_update(fin.drop_last(), i);
    }
}

proof fn lemma_unfinished_all(fin: Seq<bool>)
    requires
        forall|i: int| 0 <= i < fin.len() ==> !(#[trigger] fin[i]),
    ensures
        unfinished(fin) == fin.len(),
    decreases fin.len(),
{
    if fin.len() > 0 {
        lemma_unfinished_all(fin.drop_last());
    }
}

proof fn lemma_unfinished_nonneg(fin: Seq<bool>)
    ensures
        unfinished(fin) >= 0,
        unfinished(fin) <= fin.len(),
    decreases fin.len(),
{
    if fin.len() > 0 {
        lemma_unfinished_nonneg(fin.drop_last());
    }
}

proof fn lemma_pending_update(tasks: Seq<Task>, fin: Seq<bool>, i: int, j: int)
    requires
        0 <= i < tasks.len(),
        tasks.len() == fin.len(),
        !fin[i],
    ensures
        pending_alloc(tasks, fin.update(i, true), j) == pending_alloc(tasks, fin, j)
            - tasks[i].allocation@[j],
    decreases tasks.len(),
{
    if i == tasks.len() - 1 {
        lemma_pending_same(tasks.drop_last(), fin, fin.update(i, true), j);
    } else {
        lemma_pending_update(tasks.drop_last(), fin.drop_last(), i, j);
        lemma_pending_same(
            tasks.drop_last(),
            fin.update(i, true),
            fin.drop_last().update(i, true),
            j,
        );
        lemma_pending_same(tasks.drop_last(), fin, fin.drop_last(), j);
    }
}

/// `pending_alloc` only reads the flags of the tasks it sums over.
proof fn lemma_pending_same(tasks: Seq<Task>, fin1: Seq<bool>, fin2: Seq<bool>, j: int)
    requires
        forall|k: int| 0 <= k < tasks.len() ==> fin1[k] == fin2[k],
    ensures
        pending_alloc(tasks, fin1, j) == pending_alloc(tasks, fin2, j),
    decreases tasks.len(),
{
    if tasks.len() > 0 {
        lemma_pending_same(tasks.drop_last(), fin1, fin2, j);
    }
}

/// An unfinished task's holding is part of what is pending.
proof fn lemma_pending_member(tasks: Seq<Task>, fin: Seq<bool>, i: int, j: int)
    requires
        0 <= i < tasks.len(),
        !fin[i],
    ensures
        pending_alloc(tasks, fin, j) >= tasks[i].allocation@[j],
        pending_alloc(tasks, fin, j) >= 0,
    decreases tasks.len(),
{
    lemma_pending_nonneg(tasks, fin, j);
    if i < tasks.len() - 1 {
        lemma_pending_member(tasks.drop_last(), fin, i, j);
    } else {
        lemma_pending_nonneg(tasks.drop_last(), fin, j);
    }
}

proof fn lemma_pending_nonneg(tasks: Seq<Task>, fin: Seq<bool>, j: int)
    ensures
        pending_alloc(tasks, fin, j) >= 0,
    decreases tasks.len(),
{
    if tasks.len() > 0 {
        lemma_pending_nonneg(tasks.drop_last(), fin, j);
    }
}

/// The safety check as a whole: finish the first coverable task, reclaim
/// its allocation, repeat; safe when all finish, unsafe when none can.
/// Returns whether the run is safe, the order found, and the free resources
/// at the end.
pub open spec fn detect_spec(tasks: Seq<Task>, fin: Seq<bool>, avail: Seq<u32>) -> (
    bool,
    Seq<usize>,
    Seq<u32>,
)
    decreases unfinished(fin)
        when tasks.len() == fin.len()
        via detect_spec_dec
{
    if unfinished(fin) <= 0 {
        (true, Seq::empty(), avail)
    } else {
        let i = find_runnable_from(tasks, fin, avail, 0);
        if i == -1 {
            (false, Seq::empty(), avail)
        } else {
            let rest = detect_spec(
                tasks,
                fin.update(i, true),
                reclaimed(avail, tasks[i].allocation@),
            );
            (rest.0, seq![i as usize] + rest.1, rest.2)
        }
    }
}

#[via_fn]
proof fn detect_spec_dec(tasks: Seq<Task>, fin: Seq<bool>, avail: Seq<u32>) {
    if unfinished(fin) > 0 {
        let i = find_runnable_from(tasks, fin, avail, 0);
        if i != -1 {
            lemma_find_runnable_ensures(tasks, fin, avail, 0);
            lemma_unfinished_update(fin, i);
        }
    }
}

/// What `find_runnable_from` returns: the first unfinished coverable task
/// at or after `i`, or `-1` when none exists there.
proof fn lemma_find_runnable_ensures(tasks: Seq<Task>, fin: Seq<bool>, avail: Seq<u32>, i: int)
    requires
        0 <= i <= tasks.len(),
        tasks.len() == fin.len(),
    ensures
        ({
            let r = find_runnable_from(tasks, fin, avail, i);
            (r == -1 ==> forall|k: int|
                i <= k < tasks.len() ==> (fin[k] || !satisfied(avail, (#[trigger] tasks[k]).need@)))
                && (r != -1 ==> i <= r < tasks.len() && !fin[r] && satisfied(avail, tasks[r].need@)
                && (forall|k: int|
                i <= k < r ==> (fin[k] || !satisfied(avail, (#[trigger] tasks[k]).need@))))
        }),
    decreases tasks.len() - i,
{
    if i < tasks.len() {
        if !(!fin[i] && satisfied(avail, tasks[i].need@)) {
            lemma_find_runnable_ensures(tasks, fin, avail, i + 1);
        }
    }
}

impl DeadlockCheck {
    /// The shape detect needs: every task's vectors match the resource
    /// vector, and all allocations could be reclaimed without the counters
    /// overflowing.
    pub open spec fn wf(self) -> bool {
        &&& forall|i: int|
            0 <= i < self.tasks@.len() ==> ((#[trigger] self.tasks@[i]).need@.len()
                == self.resources@.len() && self.tasks@[i].allocation@.len()
                == self.resources@.len())
        &&& forall|j: int|
            0 <= j < self.resources@.len() ==> (#[trigger] self.resources@[j]) as int
                + pending_alloc(self.tasks@, no_finish(self.tasks@.len()), j) <= u32::MAX as int
    }

    /// Build a checker over the given resources and tasks.
    pub fn new(resources: Vec<u32>, tasks: Vec<Task>) -> (r: DeadlockCheck)
        ensures
            r.resources@ == resources@,
            r.tasks@ == tasks@,
            r.current_resources@ =~= Seq::<u32>::empty(),
    {
        DeadlockCheck { tasks, resources, current_resources: Vec::new() }
    }

    /// Run the safety check.  Returns whether a safe order exists under the
    /// first-coverable-task rule, and the order of task indices it found;
    /// on success the reclaimed resources are kept for later requests.
    pub fn detect(&mut self) -> (r: (bool, Vec<usize>))
        requires
            old(self).wf(),
        ensures
            final(self).tasks@ == old(self).tasks@,
            final(self).resources@ == old(self).resources@,
            r.0 == detect_spec(old(self).tasks@, no_finish(old(self).tasks@.len()), old(self).resources@).0,
            r.1@ == detect_spec(old(self).tasks@, no_finish(old(self).tasks@.len()), old(self).resources@).1,
            r.0 ==> final(self).current_resources@ == detect_spec(
                old(self).tasks@,
                no_finish(old(self).tasks@.len()),
                old(self).resources@,
            ).2,
            !r.0 ==> final(self).current_resources@ == old(self).current_resources@,
    {
        let ghost tasks0 = self.tasks@;
        let ghost res0 = self.resources@;
        let ghost full = detect_spec(tasks0, no_finish(tasks0.len()), res0);
        let tasks_len = self.tasks.len();
        let mut available = copy_u32_vec(&self.resources);
        let mut finished: Vec<bool> = Vec::new();
        let mut k: usize = 0;
        while k < tasks_len
            invariant
                k <= tasks_len,
                finished@.len() == k,
                forall|i: int| 0 <= i < k ==> !(#[trigger] finished@[i]),
            decreases tasks_len - k,
        {
            finished.push(false);
            k += 1;
        }
        proof {
            assert(finished@ =~= no_finish(tasks0.len()));
            lemma_unfinished_all(finished@);
        }
        let mut finished_count: usize = 0;
        let mut safe_seq: Vec<usize> = Vec::new();
        while finished_count < tasks_len
            invariant
                self.wf(),
                self.tasks@ == tasks0,
                self.resources@ == res0,
                tasks_len == tasks0.len(),
                full == detect_spec(tasks0, no_finish(tasks0.len()), res0),
                finished@.len() == tasks0.len(),
                available@.len() == res0.len(),
                finished_count as int == tasks0.len() - unfinished(finished@),
                0 <= unfinished(finished@) <= tasks0.len(),
                forall|j: int|
                    0 <= j < res0.len() ==> (#[trigger] available@[j]) as int + pending_alloc(
                        tasks0,
                        finished@,
                        j,
                    ) <= u32::MAX as int,
                detect_spec(tasks0, finished@, available@).0 == full.0,
                detect_spec(tasks0, finished@, available@).2 == full.2,
                safe_seq@ + detect_spec(tasks0, finished@, available@).1 =~= full.1,
            decreases unfinished(finished@),
        {
            proof {
                lemma_find_runnable_ensures(tasks0, finished@, available@, 0);
            }
            // look for the first unfinished task whose need is covered
            let mut index: usize = 0;
            let mut found: bool = false;
            while index < tasks_len && !found
                invariant
                    self.wf(),
                    tasks_len == tasks0.len(),
                    finished@.len() == tasks0.len(),
                    self.tasks@ == tasks0,
                    self.resources@ == res0,
                    available@.len() == res0.len(),
                    index <= tasks_len,
                    !found ==> find_runnable_from(tasks0, finished@, available@, 0)
                        == find_runnable_from(tasks0, finished@, available@, index as int),
                    found ==> (index as int) == find_runnable_from(
                        tasks0,
                        finished@,
                        available@,
                        0,
                    ),
                decreases tasks_len - index, (if found { 0int } else { 1int }),
            {
                if !finished[index] && satisfy(&available, &self.tasks[index].need) {
                    found = true;
                } else {
                    index += 1;
                }
            }
            let ghost runnable = find_runnable_from(tasks0, finished@, available@, 0);
            if !found {
                proof {
                    assert(runnable == -1);
                    assert(unfinished(finished@) > 0);
                    assert(detect_spec(tasks0, finished@, available@).0 == false);
                    assert(detect_spec(tasks0, finished@, available@).1
                        =~= Seq::<usize>::empty());
                    assert(safe_seq@ =~= full.1);
                }
                return (false, safe_seq);
            }
            proof {
                assert(runnable == index as int);
                lemma_find_runnable_ensures(tasks0, finished@, available@, 0);
                lemma_unfinished_update(finished@, index as int);
                assert forall|j: int| 0 <= j < res0.len() implies (#[trigger] available@[j]) as int
                    + tasks0[index as int].allocation@[j] as int <= u32::MAX as int by {
                    lemma_pending_member(tasks0, finished@, index as int, j);
                }
            }
            let ghost pre_fin = finished@;
            let ghost pre_avail = available@;
            finished_count += 1;
            finished[index] = true;
            sum_to_left(&mut available, &self.tasks[index].allocation);
            safe_seq.push(index);
            proof {
                assert(available@ =~= reclaimed(pre_avail, tasks0[index as int].allocation@));
                assert forall|j: int| 0 <= j < res0.len() implies (#[trigger] available@[j]) as int
                    + pending_alloc(tasks0, finished@, j) <= u32::MAX as int by {
                    lemma_pending_update(tasks0, pre_fin, index as int, j);
                }
                assert(unfinished(pre_fin) > 0);
                assert(finished@ == pre_fin.update(index as int, true));
                assert(available@ == reclaimed(pre_avail, tasks0[index as int].allocation@));
                assert(detect_spec(tasks0, pre_fin, pre_avail).0 == detect_spec(
                    tasks0,
                    finished@,
                    available@,
                ).0);
                assert(detect_spec(tasks0, pre_fin, pre_avail).1 =~= seq![index]
                    + detect_spec(tasks0, finished@, available@).1);
                assert(detect_spec(tasks0, pre_fin, pre_avail).2 == detect_spec(
                    tasks0,
                    finished@,
                    available@,
                ).2);
                assert(safe_seq@ + detect_spec(tasks0, finished@, available@).1 =~= full.1);
            }
        }
        proof {
            assert(unfinished(finished@) == 0);
            assert(safe_seq@ =~= full.1);
        }
        self.current_resources = available;
        (true, safe_seq)
    }

    /// Grant a request if the kept resources cover it; on success the
    /// request is deducted, otherwise nothing changes.
    pub fn request(&mut self, request: Vec<u32>) -> (granted: bool)
        requires
            request@.len() <= old(self).current_resources@.len(),
        ensures
            final(self).tasks@ == old(self).tasks@,
            final(self).resources@ == old(self).resources@,
            granted <==> satisfied(old(self).current_resources@, request@),
            granted ==> final(self).current_resources@ =~= Seq::new(
                old(self).current_resources@.len(),
                |i: int|
                    if i < request@.len() {
                        (old(self).current_resources@[i] - request@[i]) as u32
                    } else {
                        old(self).current_resources@[i]
                    },
            ),
            !granted ==> final(self).current_resources@ == old(self).current_resources@,
    {
        let ghost cur0 = self.current_resources@;
        let mut available = copy_u32_vec(&self.current_resources);
        let mut request_satisfied = true;
        let mut index: usize = 0;
        while index < request.len() && request_satisfied
            invariant
                request@.len() <= cur0.len(),
                available@.len() == cur0.len(),
                index <= request@.len(),
                request_satisfied ==> (forall|i: int|
                    0 <= i < index ==> #[trigger] cur0[i] >= request@[i]),
                request_satisfied ==> available@ =~= Seq::new(
                    cur0.len(),
                    |i: int|
                        if i < index {
                            (cur0[i] - request@[i]) as u32
                        } else {
                            cur0[i]
                        },
                ),
                !request_satisfied ==> exists|i: int|
                    0 <= i < request@.len() && cur0[i] < #[trigger] request@[i],
            decreases request@.len() - index, (if request_satisfied { 1int } else { 0int }),
        {
            if available[index] < request[index] {
                request_satisfied = false;
            } else {
                available[index] = available[index] - request[index];
                index += 1;
                proof {
                    assert(available@ =~= Seq::new(
                        cur0.len(),
                        |i: int|
                            if i < index {
                                (cur0[i] - request@[i]) as u32
                            } else {
                                cur0[i]
                            },
                    ));
                }
            }
        }
        if request_satisfied {
            self.current_resources = available;
        }
        request_satisfied
    }
}

/// The free resources cover the need in every component.
fn satisfy(have: &Vec<u32>, need: &Vec<u32>) -> (r: bool)
    requires
        need@.len() <= have@.len(),
    ensures
        r == satisfied(have@, need@),
{
    let mut i: usize = 0;
    let mut ok = true;
    while i < need.len() && ok
        invariant
            need@.len() <= have@.len(),
            i <= need@.len(),
            ok ==> (forall|k: int| 0 <= k < i ==> #[trigger] have@[k] >= need@[k]),
            !ok ==> exists|k: int| 0 <= k < need@.len() && have@[k] < #[trigger] need@[k],
        decreases need@.len() - i, (if ok { 1int } else { 0int }),
    {
        if have[i] < need[i] {
            ok = false;
        } else {
            i += 1;
        }
    }
    ok
}

/// Add a reclaimed allocation onto the free resources, componentwise.
fn sum_to_left(have: &mut Vec<u32>, allocated: &Vec<u32>)
    requires
        allocated@.len() == old(have)@.len(),
        forall|i: int|
            0 <= i < old(have)@.len() ==> (#[trigger] old(have)@[i]) as int + allocated@[i] as int
                <= u32::MAX as int,
    ensures
        final(have)@ =~= reclaimed(old(have)@, allocated@),
{
    let ghost have0 = have@;
    let mut index: usize = 0;
    while index < have.len()
        invariant
            allocated@.len() == have0.len(),
            have@.len() == have0.len(),
            index <= have0.len(),
            forall|i: int|
                0 <= i < have0.len() ==> (#[trigger] have0[i]) as int + allocated@[i] as int
                    <= u32::MAX as int,
            forall|i: int| (index as int) <= i < have0.len() ==> #[trigger] have@[i] == have0[i],
            forall|i: int|
                0 <= i < index ==> #[trigger] have@[i] as int == have0[i] + allocated@[i],
        decreases have0.len() - index,
    {
        have[index] = have[index] + allocated[index];
        index += 1;
    }
}

/// A fresh copy of a resource vector.
pub(crate) fn copy_u32_vec(v: &Vec<u32>) -> (r: Vec<u32>)
    ensures
        r@ =~= v@,
{
    let mut out: Vec<u32> = Vec::new();
    let mut i: usize = 0;
    while i < v.len()
        invariant
            i <= v@.len(),
            out@ =~= v@.take(i as int),
        decreases v@.len() - i,
    {
        out.push(v[i]);
        proof {
            assert(out@ =~= v@.take(i + 1));
        }
        i += 1;
    }
    proof {
        assert(v@.take(v@.len() as int) =~= v@);
    }
    out
}

} // verus!
