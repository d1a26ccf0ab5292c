//! First-fit placement: each process goes to the first partition with
//! enough room.

use vstd::prelude::*;
use crate::partition::{Memory, OpLog, avails, sizes, blocks_of};

verus! {

/// The first partition from `i` on with `size` units free; `-1` if none.
pub open spec fn first_fit_from(avail: Seq<u32>, size: u32, i: int) -> int
    decreases avail.len() - i
        when 0 <= i <= avail.len()
{
    if i >= avail.len() {
        -1
    } else if avail[i] >= size {
        i
    } else {
        first_fit_from(avail, size, i + 1)
    }
}

pub proof fn lemma_first_fit_from_ensures(avail: Seq<u32>, size: u32, i: int)
    requires
        0 <= i <= avail.len(),
    ensures
        ({
            let r = first_fit_from(avail, size, i);
            (r == -1 ==> forall|k: int| i <= k < avail.len() ==> #[trigger] avail[k] < size) && (r
                != -1 ==> i <= r < avail.len() && avail[r] >= size && (forall|k: int|
                i <= k < r ==> #[trigger] avail[k] < size))
        }),
    decreases avail.len() - i,
{
    if i < avail.len() && avail[i] < size {
        lemma_first_fit_from_ensures(avail, size, i + 1);
    }
}

/// The whole run from process `k` on: place each process, in order, into
/// the first partition it fits; stop when one fits nowhere.  Returns the
/// free sizes afterwards, the log entries, and whether all were placed.
pub open spec fn first_fit_run(avail: Seq<u32>, want: Seq<u32>, k: int) -> (
    Seq<u32>,
    Seq<OpLog>,
    bool,
)
    decreases want.len() - k
        when 0 <= k <= want.len()
{
    if k >= want.len() {
        (avail, Seq::empty(), true)
    } else {
        let p = first_fit_from(avail, want[k], 0);
        if p == -1 {
            (avail, Seq::empty(), false)
        } else {
            let left = (avail[p] - want[k]) as u32;
            let rest = first_fit_run(avail.update(p, left), want, k + 1);
            (
                rest.0,
                seq![
                    OpLog { process_idx: k as usize, partition_idx: p as usize, partition_left: left },
                ] + rest.1,
                rest.2,
            )
        }
    }
}

impl Memory {
    /// Place each process, in order, into the first partition with enough
    /// room; report whether every process found one.  Allocations made
    /// before a failure remain.
    pub fn first_fit(&mut self) -> (ok: bool)
        requires
            old(self).wf(),
        ensures
            final(self).wf(),
            final(self).processes@ == old(self).processes@,
            final(self).partitions@.len() == old(self).partitions@.len(),
            ok == first_fit_run(avails(old(self).partitions@), sizes(old(self).processes@), 0).2,
            avails(final(self).partitions@) =~= first_fit_run(
                avails(old(self).partitions@),
                sizes(old(self).processes@),
                0,
            ).0,
            final(self).logs@ =~= old(self).logs@ + first_fit_run(
                avails(old(self).partitions@),
                sizes(old(self).processes@),
                0,
            ).1,
            forall|i: int|
                0 <= i < final(self).partitions@.len() ==> ((#[trigger] final(self).partitions@[i]).name
                    == old(self).partitions@[i].name
                    && final(self).partitions@[i].block_size == old(self).partitions@[i].block_size
                    && final(self).partitions@[i].allocated_blocks@
                        =~= old(self).partitions@[i].allocated_blocks@ + blocks_of(
                        first_fit_run(
                            avails(old(self).partitions@),
                            sizes(old(self).processes@),
                            0,
                        ).1,
                        i,
                    )),
    {
        let ghost parts0 = self.partitions@;
        let ghost procs0 = self.processes@;
        let ghost logs0 = self.logs@;
        let ghost run = first_fit_run(avails(parts0), sizes(procs0), 0);
        let mut process_idx: usize = 0;
        let n = self.processes.len();
        while process_idx < n
            invariant
                self.wf(),
                parts0 == old(self).partitions@,
                procs0 == old(self).processes@,
                logs0 == old(self).logs@,
                run == first_fit_run(avails(parts0), sizes(procs0), 0),
                n == procs0.len(),
                self.processes@ == procs0,
                self.partitions@.len() == parts0.len(),
                process_idx <= procs0.len(),
                logs0.len() <= self.logs@.len(),
                self.logs@.take(logs0.len() as int) =~= logs0,
                first_fit_run(avails(self.partitions@), sizes(procs0), process_idx as int).0
                    =~= run.0,
                first_fit_run(avails(self.partitions@), sizes(procs0), process_idx as int).2
                    == run.2,
                run.1 =~= self.logs@.skip(logs0.len() as int) + first_fit_run(
                    avails(self.partitions@),
                    sizes(procs0),
                    process_idx as int,
                ).1,
                forall|i: int|
                    0 <= i < parts0.len() ==> ((#[trigger] self.partitions@[i]).name
                        == parts0[i].name && self.partitions@[i].block_size
                        == parts0[i].block_size && self.partitions@[i].allocated_blocks@
                        =~= parts0[i].allocated_blocks@ + blocks_of(
                        self.logs@.skip(logs0.len() as int),
                        i,
                    )),
            decreases procs0.len() - process_idx,
        {
            let size = self.processes[process_idx].memory_size;
            proof {
                assert(size == sizes(procs0)[process_idx as int]);
                lemma_first_fit_from_ensures(avails(self.partitions@), size, 0);
            }
            let ghost pick = first_fit_from(avails(self.partitions@), size, 0);
            let mut partition_idx: usize = 0;
            let mut flag = false;
            let np = self.partitions.len();
            while partition_idx < np && !flag
                invariant
                    np == self.partitions@.len(),
                    partition_idx <= np,
                    pick == first_fit_from(avails(self.partitions@), size, 0),
                    !flag ==> pick == first_fit_from(
                        avails(self.partitions@),
                        size,
                        partition_idx as int,
                    ),
                    flag ==> partition_idx as int == pick,
                decreases np - partition_idx, (if flag {
                    0int
                } else {
                    1int
                }),
            {
                if self.partitions[partition_idx].available_size >= size {
                    proof {
                        assert(avails(self.partitions@)[partition_idx as int] >= size);
                    }
                    flag = true;
                } else {
                    proof {
                        assert(avails(self.partitions@)[partition_idx as int] < size);
                    }
                    partition_idx += 1;
                }
            }
            if !flag {
                proof {
                    assert(pick == -1);
                    assert(first_fit_run(
                        avails(self.partitions@),
                        sizes(procs0),
                        process_idx as int,
                    ).2 == false);
                    assert(self.logs@.skip(logs0.len() as int) =~= run.1);
                    assert(self.logs@ =~= logs0 + run.1);
                    assert(avails(self.partitions@) =~= run.0);
                }
                return false;
            }
            proof {
                assert(partition_idx as int == pick);
                assert(0 <= pick < parts0.len());
                assert(avails(self.partitions@)[pick] >= size);
                assert(self.partitions@[pick].available_size >= size);
            }
            let ghost parts_pre = self.partitions@;
            let ghost logs_pre = self.logs@;
            let left = self.partitions[partition_idx].consume(size, process_idx);
            self.log(process_idx, partition_idx, left);
            proof {
                let entry = OpLog { process_idx, partition_idx, partition_left: left };
                assert(avails(self.partitions@) =~= avails(parts_pre).update(
                    pick,
                    (avails(parts_pre)[pick] - size) as u32,
                ));
                assert(self.logs@ =~= logs_pre.push(entry));
                let cur = first_fit_run(avails(parts_pre), sizes(procs0), process_idx as int);
                let next = first_fit_run(avails(self.partitions@), sizes(procs0), process_idx + 1);
                assert(cur.0 == next.0);
                assert(cur.2 == next.2);
                assert(cur.1 =~= seq![entry] + next.1);
                assert(self.logs@.skip(logs0.len() as int) =~= logs_pre.skip(
                    logs0.len() as int,
                ).push(entry));
                assert(run.1 =~= self.logs@.skip(logs0.len() as int) + next.1);
                assert(self.logs@.take(logs0.len() as int) =~= logs0);
                assert forall|i: int| 0 <= i < parts0.len() implies ((#[trigger] self.partitions@[i]).name
                    == parts0[i].name && self.partitions@[i].block_size == parts0[i].block_size
                    && self.partitions@[i].allocated_blocks@ =~= parts0[i].allocated_blocks@
                    + blocks_of(self.logs@.skip(logs0.len() as int), i)) by {
                    let newdelta = self.logs@.skip(logs0.len() as int);
                    assert(newdelta.drop_last() =~= logs_pre.skip(logs0.len() as int));
                    assert(newdelta.last() == entry);
                    if i == pick {
                        assert(self.partitions@[i].allocated_blocks@
                            =~= parts_pre[i].allocated_blocks@.push(process_idx));
                        assert(blocks_of(newdelta, i) =~= blocks_of(newdelta.drop_last(), i)
                            + seq![process_idx]);
                        assert(self.partitions@[i].allocated_blocks@
                            =~= parts0[i].allocated_blocks@ + blocks_of(newdelta, i));
                    } else {
                        assert(self.partitions@[i] == parts_pre[i]);
                        assert(blocks_of(newdelta, i) =~= blocks_of(newdelta.drop_last(), i));
                    }
                }
            }
            process_idx += 1;
        }
        proof {
            assert(first_fit_run(avails(self.partitions@), sizes(procs0), procs0.len() as int).2);
            assert(self.logs@.skip(logs0.len() as int) =~= run.1);
            assert(self.logs@ =~= logs0 + run.1);
            assert(avails(self.partitions@) =~= run.0);
        }
        true
    }
}

} // verus!
