//! Worst-fit placement: each process goes to the partition with the most
//! room left, the later one on a tie.

use vstd::prelude::*;
use crate::partition::{Memory, OpLog, avails, sizes, blocks_of};

verus! {

/// The partition with the most room, the largest index on a tie; `-1` only
/// when there are no partitions.
pub open spec fn worst_fit_pick(avail: Seq<u32>) -> int
    decreases avail.len(),
{
    if avail.len() == 0 {
        -1
    } else {
        let k = worst_fit_pick(avail.drop_last());
        if k == -1 || avail.last() >= avail[k] {
            avail.len() - 1
        } else {
            k
        }
    }
}

pub proof fn lemma_worst_fit_pick_ensures(avail: Seq<u32>)
    requires
        avail.len() > 0,
    ensures
        0 <= worst_fit_pick(avail) < avail.len(),
        forall|j: int|
            0 <= j < avail.len() ==> #[trigger] avail[j] <= avail[worst_fit_pick(avail)],
        forall|j: int|
            worst_fit_pick(avail) < j < avail.len() ==> #[trigger] avail[j]
                < avail[worst_fit_pick(avail)],
    decreases avail.len(),
{
    reveal_with_fuel(worst_fit_pick, 3);
    if avail.len() > 1 {
        lemma_worst_fit_pick_ensures(avail.drop_last());
        assert(forall|j: int| 0 <= j < avail.len() - 1 ==> avail.drop_last()[j] == #[trigger] avail[j]);
    }
}

/// The whole run from process `k` on: place each process into the fullest
/// free partition if it fits there; stop when it does not.  Returns the
/// free sizes afterwards, the log entries, and whether all were placed.
pub open spec fn worst_fit_run(avail: Seq<u32>, want: Seq<u32>, k: int) -> (
    Seq<u32>,
    Seq<OpLog>,
    bool,
)
    decreases want.len() - k
        when 0 <= k <= want.len()
{
    if k >= want.len() {
        (avail, Seq::empty(), true)
    } else {
        let p = worst_fit_pick(avail);
        if p == -1 || avail[p] < want[k] {
            (avail, Seq::empty(), false)
        } else {
            let left = (avail[p] - want[k]) as u32;
            let rest = worst_fit_run(avail.update(p, left), want, k + 1);
            (
                rest.0,
                seq![
                    OpLog { process_idx: k as usize, partition_idx: p as usize, partition_left: left },
                ] + rest.1,
                rest.2,
            )
        }
    }
}

impl Memory {
    /// Place each process, in order, into the partition with the most room
    /// - the later one on a tie - if it fits there; report whether every
    /// process was placed.  Allocations made before a failure remain.
    pub fn worst_fit(&mut self) -> (ok: bool)
        requires
            old(self).wf(),
        ensures
            final(self).wf(),
            final(self).processes@ == old(self).processes@,
            final(self).partitions@.len() == old(self).partitions@.len(),
            ok == worst_fit_run(avails(old(self).partitions@), sizes(old(self).processes@), 0).2,
            avails(final(self).partitions@) =~= worst_fit_run(
                avails(old(self).partitions@),
                sizes(old(self).processes@),
                0,
            ).0,
            final(self).logs@ =~= old(self).logs@ + worst_fit_run(
                avails(old(self).partitions@),
                sizes(old(self).processes@),
                0,
            ).1,
            forall|i: int|
                0 <= i < final(self).partitions@.len() ==> ((#[trigger] final(self).partitions@[i]).name
                    == old(self).partitions@[i].name
                    && final(self).partitions@[i].block_size == old(self).partitions@[i].block_size
                    && final(self).partitions@[i].allocated_blocks@
                        =~= old(self).partitions@[i].allocated_blocks@ + blocks_of(
                        worst_fit_run(
                            avails(old(self).partitions@),
                            sizes(old(self).processes@),
                            0,
                        ).1,
                        i,
                    )),
    {
        let ghost parts0 = self.partitions@;
        let ghost procs0 = self.processes@;
        let ghost logs0 = self.logs@;
        let ghost run = worst_fit_run(avails(parts0), sizes(procs0), 0);
        let mut process_idx: usize = 0;
        let n = self.processes.len();
        while process_idx < n
            invariant
                self.wf(),
                parts0 == old(self).partitions@,
                procs0 == old(self).processes@,
                logs0 == old(self).logs@,
                run == worst_fit_run(avails(parts0), sizes(procs0), 0),
                n == procs0.len(),
                self.processes@ == procs0,
                self.partitions@.len() == parts0.len(),
                process_idx <= procs0.len(),
                logs0.len() <= self.logs@.len(),
                self.logs@.take(logs0.len() as int) =~= logs0,
                worst_fit_run(avails(self.partitions@), sizes(procs0), process_idx as int).0
                    =~= run.0,
                worst_fit_run(avails(self.partitions@), sizes(procs0), process_idx as int).2
                    == run.2,
                run.1 =~= self.logs@.skip(logs0.len() as int) + worst_fit_run(
                    avails(self.partitions@),
                    sizes(procs0),
                    process_idx as int,
                ).1,
                forall|i: int|
                    0 <= i < parts0.len() ==> ((#[trigger] self.partitions@[i]).name
                        == parts0[i].name && self.partitions@[i].block_size
                        == parts0[i].block_size && self.partitions@[i].allocated_blocks@
                        =~= parts0[i].allocated_blocks@ + blocks_of(
                        self.logs@.skip(logs0.len() as int),
                        i,
                    )),
            decreases procs0.len() - process_idx,
        {
            let size = self.processes[process_idx].memory_size;
            proof {
                assert(size == sizes(procs0)[process_idx as int]);
            }
            let np = self.partitions.len();
            if np == 0 {
                proof {
                    assert(worst_fit_pick(avails(self.partitions@)) == -1);
                    assert(self.logs@.skip(logs0.len() as int) =~= run.1);
                    assert(self.logs@ =~= logs0 + run.1);
                    assert(avails(self.partitions@) =~= run.0);
                }
                return false;
            }
            proof {
                lemma_worst_fit_pick_ensures(avails(self.partitions@));
            }
            let ghost pick = worst_fit_pick(avails(self.partitions@));
            proof {
                reveal_with_fuel(worst_fit_pick, 2);
                assert(avails(self.partitions@).take(1int).drop_last() =~= Seq::<u32>::empty());
                assert(avails(self.partitions@).take(1int).len() == 1);
                assert(worst_fit_pick(avails(self.partitions@).take(1int)) == 0);
            }
            let mut best: usize = 0;
            let mut i: usize = 1;
            while i < np
                invariant
                    np == self.partitions@.len(),
                    np > 0,
                    1 <= i <= np,
                    (best as int) < i,
                    best as int == worst_fit_pick(avails(self.partitions@).take(i as int)),
                decreases np - i,
            {
                proof {
                    assert(avails(self.partitions@).take(i + 1).drop_last() =~= avails(
                        self.partitions@,
                    ).take(i as int));
                    assert(avails(self.partitions@).take(i + 1).last() == avails(
                        self.partitions@,
                    )[i as int]);
                    lemma_worst_fit_pick_ensures(avails(self.partitions@).take(i + 1));
                }
                if self.partitions[i].available_size >= self.partitions[best].available_size {
                    best = i;
                }
                i += 1;
            }
            proof {
                assert(avails(self.partitions@).take(np as int) =~= avails(self.partitions@));
                assert(best as int == pick);
            }
            if self.partitions[best].available_size < size {
                proof {
                    assert(avails(self.partitions@)[pick] < size);
                    assert(self.logs@.skip(logs0.len() as int) =~= run.1);
                    assert(self.logs@ =~= logs0 + run.1);
                    assert(avails(self.partitions@) =~= run.0);
                }
                return false;
            }
            proof {
                assert(avails(self.partitions@)[pick] >= size);
                assert(self.partitions@[pick].available_size >= size);
            }
            let ghost parts_pre = self.partitions@;
            let ghost logs_pre = self.logs@;
            let left = self.partitions[best].consume(size, process_idx);
            self.log(process_idx, best, left);
            proof {
                let entry = OpLog { process_idx, partition_idx: best, partition_left: left };
                assert(avails(self.partitions@) =~= avails(parts_pre).update(
                    pick,
                    (avails(parts_pre)[pick] - size) as u32,
                ));
                assert(self.logs@ =~= logs_pre.push(entry));
                let cur = worst_fit_run(avails(parts_pre), sizes(procs0), process_idx as int);
                let next = worst_fit_run(avails(self.partitions@), sizes(procs0), process_idx + 1);
                assert(cur.0 == next.0);
                assert(cur.2 == next.2);
                assert(cur.1 =~= seq![entry] + next.1);
                assert(self.logs@.skip(logs0.len() as int) =~= logs_pre.skip(
                    logs0.len() as int,
                ).push(entry));
                assert(run.1 =~= self.logs@.skip(logs0.len() as int) + next.1);
                assert(self.logs@.take(logs0.len() as int) =~= logs0);
                assert forall|i2: int| 0 <= i2 < parts0.len() implies ((#[trigger] self.partitions@[i2]).name
                    == parts0[i2].name && self.partitions@[i2].block_size == parts0[i2].block_size
                    && self.partitions@[i2].allocated_blocks@ =~= parts0[i2].allocated_blocks@
                    + blocks_of(self.logs@.skip(logs0.len() as int), i2)) by {
                    let newdelta = self.logs@.skip(logs0.len() as int);
                    assert(newdelta.drop_last() =~= logs_pre.skip(logs0.len() as int));
                    assert(newdelta.last() == entry);
                    if i2 == pick {
                        assert(self.partitions@[i2].allocated_blocks@
                            =~= parts_pre[i2].allocated_blocks@.push(process_idx));
                        assert(blocks_of(newdelta, i2) =~= blocks_of(newdelta.drop_last(), i2)
                            + seq![process_idx]);
                    } else {
                        assert(self.partitions@[i2] == parts_pre[i2]);
                        assert(blocks_of(newdelta, i2) =~= blocks_of(newdelta.drop_last(), i2));
                    }
                }
            }
            process_idx += 1;
        }
        proof {
            assert(worst_fit_run(avails(self.partitions@), sizes(procs0), procs0.len() as int).2);
            assert(self.logs@.skip(logs0.len() as int) =~= run.1);
            assert(self.logs@ =~= logs0 + run.1);
            assert(avails(self.partitions@) =~= run.0);
        }
        true
    }
}

} // verus!
