//! Next-fit placement: like first fit, but each search starts where the
//! previous allocation left off, wrapping around the partition list.

use vstd::prelude::*;
use crate::partition::{Memory, OpLog, avails, sizes, blocks_of};

verus! {

/// The first partition with `size` units free among the next `steps` slots
/// from `pos` on, wrapping at the end of the list; `-1` if none of them
/// fits.
pub open spec fn next_fit_from(avail: Seq<u32>, size: u32, pos: int, steps: int) -> int
    decreases steps
        when 0 <= pos < avail.len() && 0 <= steps
{
    if steps <= 0 {
        -1
    } else if avail[pos] >= size {
        pos
    } else {
        next_fit_from(
            avail,
            size,
            if pos + 1 >= avail.len() {
                0int
            } else {
                pos + 1
            },
            steps - 1,
        )
    }
}

pub proof fn lemma_next_fit_from_ensures(avail: Seq<u32>, size: u32, pos: int, steps: int)
    requires
        0 <= pos < avail.len(),
        0 <= steps,
    ensures
        ({
            let r = next_fit_from(avail, size, pos, steps);
            r == -1 || (0 <= r < avail.len() && avail[r] >= size)
        }),
    decreases steps,
{
    if steps > 0 && avail[pos] < size {
        lemma_next_fit_from_ensures(
            avail,
            size,
            if pos + 1 >= avail.len() {
                0int
            } else {
                pos + 1
            },
            steps - 1,
        );
    }
}

/// The whole run from process `k` on, with the search pointer at `pointer`:
/// place each process into the first fitting partition scanning circularly
/// from the pointer, then move the pointer past the allocation; stop when a
/// full circle finds no room.  Returns the free sizes afterwards, the log
/// entries - each recording the pointer its search started from - the
/// placements themselves, and whether all processes were placed.
pub open spec fn next_fit_run(avail: Seq<u32>, want: Seq<u32>, k: int, pointer: int) -> (
    Seq<u32>,
    Seq<OpLog>,
    bool,
    Seq<OpLog>,
)
    decreases want.len() - k
        when 0 <= k <= want.len()
{
    if k >= want.len() {
        (avail, Seq::empty(), true, Seq::empty())
    } else if avail.len() == 0 {
        (avail, Seq::empty(), false, Seq::empty())
    } else {
        let p = next_fit_from(avail, want[k], pointer, avail.len() as int);
        if p == -1 {
            (avail, Seq::empty(), false, Seq::empty())
        } else {
            let left = (avail[p] - want[k]) as u32;
            let rest = next_fit_run(
                avail.update(p, left),
                want,
                k + 1,
                if p + 1 >= avail.len() {
                    0int
                } else {
                    p + 1
                },
            );
            (
                rest.0,
                seq![
                    OpLog {
                        process_idx: k as usize,
                        partition_idx: pointer as usize,
                        partition_left: left,
                    },
                ] + rest.1,
                rest.2,
                seq![
                    OpLog { process_idx: k as usize, partition_idx: p as usize, partition_left: left },
                ] + rest.3,
            )
        }
    }
}

impl Memory {
    /// Place each process, in order, into the first partition with room,
    /// scanning onward from where the previous allocation happened and
    /// wrapping around; report whether every process found one.  Each log
    /// entry records the pointer its search started from, as the original
    /// book-keeping did.  Allocations made before a failure remain.
    pub fn next_fit(&mut self) -> (ok: bool)
        requires
            old(self).wf(),
            old(self).partitions@.len() > 0 || old(self).processes@.len() == 0,
        ensures
            final(self).wf(),
            final(self).processes@ == old(self).processes@,
            final(self).partitions@.len() == old(self).partitions@.len(),
            ok == next_fit_run(avails(old(self).partitions@), sizes(old(self).processes@), 0, 0).2,
            avails(final(self).partitions@) =~= next_fit_run(
                avails(old(self).partitions@),
                sizes(old(self).processes@),
                0,
                0,
            ).0,
            final(self).logs@ =~= old(self).logs@ + next_fit_run(
                avails(old(self).partitions@),
                sizes(old(self).processes@),
                0,
                0,
            ).1,
            forall|i: int|
                0 <= i < final(self).partitions@.len() ==> ((#[trigger] final(self).partitions@[i]).name
                    == old(self).partitions@[i].name
                    && final(self).partitions@[i].block_size == old(self).partitions@[i].block_size
                    && final(self).partitions@[i].allocated_blocks@
                        =~= old(self).partitions@[i].allocated_blocks@ + blocks_of(
                        next_fit_run(
                            avails(old(self).partitions@),
                            sizes(old(self).processes@),
                            0,
                            0,
                        ).3,
                        i,
                    )),
    {
        let ghost parts0 = self.partitions@;
        let ghost procs0 = self.processes@;
        let ghost logs0 = self.logs@;
        let ghost run = next_fit_run(avails(parts0), sizes(procs0), 0, 0);
        let ghost mut placed: Seq<OpLog> = Seq::empty();
        let mut partition_pointer: usize = 0;
        let mut process_idx: usize = 0;
        let n = self.processes.len();
        while process_idx < n
            invariant
                self.wf(),
                parts0 == old(self).partitions@,
                procs0 == old(self).processes@,
                logs0 == old(self).logs@,
                run == next_fit_run(avails(parts0), sizes(procs0), 0, 0),
                n == procs0.len(),
                self.processes@ == procs0,
                self.partitions@.len() == parts0.len(),
                process_idx <= procs0.len(),
                n > 0 ==> parts0.len() > 0,
                parts0.len() > 0 ==> (partition_pointer as int) < parts0.len(),
                logs0.len() <= self.logs@.len(),
                self.logs@.take(logs0.len() as int) =~= logs0,
                next_fit_run(
                    avails(self.partitions@),
                    sizes(procs0),
                    process_idx as int,
                    partition_pointer as int,
                ).0 =~= run.0,
                next_fit_run(
                    avails(self.partitions@),
                    sizes(procs0),
                    process_idx as int,
                    partition_pointer as int,
                ).2 == run.2,
                run.1 =~= self.logs@.skip(logs0.len() as int) + next_fit_run(
                    avails(self.partitions@),
                    sizes(procs0),
                    process_idx as int,
                    partition_pointer as int,
                ).1,
                run.3 =~= placed + next_fit_run(
                    avails(self.partitions@),
                    sizes(procs0),
                    process_idx as int,
                    partition_pointer as int,
                ).3,
                forall|i: int|
                    0 <= i < parts0.len() ==> ((#[trigger] self.partitions@[i]).name
                        == parts0[i].name && self.partitions@[i].block_size
                        == parts0[i].block_size && self.partitions@[i].allocated_blocks@
                        =~= parts0[i].allocated_blocks@ + blocks_of(placed, i)),
            decreases procs0.len() - process_idx,
        {
            let size = self.processes[process_idx].memory_size;
            proof {
                assert(size == sizes(procs0)[process_idx as int]);
            }
            let np = self.partitions.len();
            let ghost pick = next_fit_from(
                avails(self.partitions@),
                size,
                partition_pointer as int,
                np as int,
            );
            let mut current: usize = partition_pointer;
            let mut steps: usize = 0;
            let mut flag = false;
            while steps < np && !flag
                invariant
                    np == self.partitions@.len(),
                    np > 0,
                    steps <= np,
                    (current as int) < np,
                    pick == next_fit_from(
                        avails(self.partitions@),
                        size,
                        partition_pointer as int,
                        np as int,
                    ),
                    !flag ==> pick == next_fit_from(
                        avails(self.partitions@),
                        size,
                        current as int,
                        np - steps,
                    ),
                    flag ==> current as int == pick,
                decreases np - steps, (if flag {
                    0int
                } else {
                    1int
                }),
            {
                if self.partitions[current].available_size >= size {
                    proof {
                        assert(avails(self.partitions@)[current as int] >= size);
                    }
                    flag = true;
                } else {
                    proof {
                        assert(avails(self.partitions@)[current as int] < size);
                    }
                    current = if current + 1 >= np {
                        0
                    } else {
                        current + 1
                    };
                    steps += 1;
                }
            }
            if !flag {
                proof {
                    assert(pick == -1);
                    assert(self.logs@.skip(logs0.len() as int) =~= run.1);
                    assert(self.logs@ =~= logs0 + run.1);
                    assert(avails(self.partitions@) =~= run.0);
                    assert(run.3 =~= placed);
                }
                return false;
            }
            proof {
                assert(current as int == pick);
                lemma_next_fit_from_ensures(
                    avails(self.partitions@),
                    size,
                    partition_pointer as int,
                    np as int,
                );
                assert(0 <= pick < parts0.len());
                assert(avails(self.partitions@)[pick] >= size);
                assert(self.partitions@[pick].available_size >= size);
            }
            let ghost parts_pre = self.partitions@;
            let ghost logs_pre = self.logs@;
            let ghost pointer_pre = partition_pointer as int;
            let left = self.partitions[current].consume(size, process_idx);
            self.log(process_idx, partition_pointer, left);
            partition_pointer = if current + 1 >= np {
                0
            } else {
                current + 1
            };
            proof {
                let entry = OpLog {
                    process_idx,
                    partition_idx: pointer_pre as usize,
                    partition_left: left,
                };
                let placement = OpLog {
                    process_idx,
                    partition_idx: pick as usize,
                    partition_left: left,
                };
                assert(avails(self.partitions@) =~= avails(parts_pre).update(
                    pick,
                    (avails(parts_pre)[pick] - size) as u32,
                ));
                assert(self.logs@ =~= logs_pre.push(entry));
                let cur = next_fit_run(
                    avails(parts_pre),
                    sizes(procs0),
                    process_idx as int,
                    pointer_pre,
                );
                let next = next_fit_run(
                    avails(self.partitions@),
                    sizes(procs0),
                    process_idx + 1,
                    partition_pointer as int,
                );
                assert(cur.0 == next.0);
                assert(cur.2 == next.2);
                assert(cur.1 =~= seq![entry] + next.1);
                assert(cur.3 =~= seq![placement] + next.3);
                assert(self.logs@.skip(logs0.len() as int) =~= logs_pre.skip(
                    logs0.len() as int,
                ).push(entry));
                assert(run.1 =~= self.logs@.skip(logs0.len() as int) + next.1);
                assert(run.3 =~= placed.push(placement) + next.3);
                assert(self.logs@.take(logs0.len() as int) =~= logs0);
                let ghost placed_pre = placed;
                placed = placed.push(placement);
                assert forall|i2: int| 0 <= i2 < parts0.len() implies ((#[trigger] self.partitions@[i2]).name
                    == parts0[i2].name && self.partitions@[i2].block_size == parts0[i2].block_size
                    && self.partitions@[i2].allocated_blocks@ =~= parts0[i2].allocated_blocks@
                    + blocks_of(placed, i2)) by {
                    assert(placed.drop_last() =~= placed_pre);
                    assert(placed.last() == placement);
                    if i2 == pick {
                        assert(self.partitions@[i2].allocated_blocks@
                            =~= parts_pre[i2].allocated_blocks@.push(process_idx));
                        assert(blocks_of(placed, i2) =~= blocks_of(placed_pre, i2)
                            + seq![process_idx]);
                    } else {
                        assert(self.partitions@[i2] == parts_pre[i2]);
                        assert(blocks_of(placed, i2) =~= blocks_of(placed_pre, i2));
                    }
                }
            }
            process_idx += 1;
        }
        proof {
            assert(self.logs@.skip(logs0.len() as int) =~= run.1);
            assert(self.logs@ =~= logs0 + run.1);
            assert(avails(self.partitions@) =~= run.0);
            assert(run.3 =~= placed);
        }
        true
    }
}

} // verus!
