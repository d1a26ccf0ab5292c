//! Fixed-partition memory allocation: a set of named partitions of fixed
//! block size, a list of processes to place, and a log of what went where.
//! The placement rules live in `first_fit`, `next_fit` and `worst_fit`.

use vstd::prelude::*;

verus! {

/// One memory partition: its block size, how much of it is free and
/// handed out, and which processes it holds.
#[derive(Debug)]
pub struct Partition {
    pub name: String,
    pub block_size: u32,
    pub available_size: u32,
    pub allocated_size: u32,
    pub allocated_blocks: Vec<usize>,
}

impl Partition {
    /// The free and the handed-out part always add up to the block size.
    pub open spec fn wf(self) -> bool {
        self.allocated_size as int + self.available_size as int == self.block_size as int
    }

    /// A fresh, fully free partition.
    pub fn new(name: &str, block_size: u32) -> (r: Partition)
        ensures
            r.name@ == name@,
            r.block_size == block_size,
            r.available_size == block_size,
            r.allocated_size == 0,
            r.allocated_blocks@ =~= Seq::<usize>::empty(),
            r.wf(),
    {
        Partition {
            name: name.to_owned(),
            block_size,
            available_size: block_size,
            allocated_size: 0,
            allocated_blocks: Vec::new(),
        }
    }

    /// Hand `size` units of this partition to the process at `process_idx`;
    /// returns what is left.
    pub fn consume(&mut self, size: u32, process_idx: usize) -> (left: u32)
        requires
            old(self).wf(),
            size <= old(self).available_size,
        ensures
            final(self).name == old(self).name,
            final(self).block_size == old(self).block_size,
            final(self).available_size as int == old(self).available_size - size,
            final(self).allocated_size as int == old(self).allocated_size + size,
            final(self).allocated_blocks@ =~= old(self).allocated_blocks@.push(process_idx),
            left == final(self).available_size,
            final(self).wf(),
    {
        self.allocated_size = self.allocated_size + size;
        self.available_size = self.available_size - size;
        self.allocated_blocks.push(process_idx);
        self.available_size
    }
}

/// A process waiting for memory.
pub struct Process {
    pub name: String,
    pub memory_size: u32,
}

impl Process {
    pub fn new(name: &str, memory_size: u32) -> (r: Process)
        ensures
            r.name@ == name@,
            r.memory_size == memory_size,
    {
        Process { name: name.to_owned(), memory_size }
    }
}

/// One allocation, as recorded: which process went to which partition, and
/// what that partition had left.
#[derive(Debug)]
pub struct OpLog {
    pub process_idx: usize,
    pub partition_idx: usize,
    pub partition_left: u32,
}

/// The memory as a whole: the partitions, the processes to place, and the
/// allocation log.
pub struct Memory {
    pub processes: Vec<Process>,
    pub partitions: Vec<Partition>,
    pub logs: Vec<OpLog>,
}

/// The free sizes of the partitions, in order.
pub open spec fn avails(ps: Seq<Partition>) -> Seq<u32> {
    Seq::new(ps.len(), |i: int| ps[i].available_size)
}

/// The memory sizes the processes ask for, in order.
pub open spec fn sizes(ps: Seq<Process>) -> Seq<u32> {
    Seq::new(ps.len(), |i: int| ps[i].memory_size)
}

/// The process indices that the log assigns to partition `p`, in order.
pub open spec fn blocks_of(logs: Seq<OpLog>, p: int) -> Seq<usize>
    decreases logs.len(),
{
    if logs.len() == 0 {
        Seq::empty()
    } else {
        blocks_of(logs.drop_last(), p) + if logs.last().partition_idx == p {
            seq![logs.last().process_idx]
        } else {
            Seq::empty()
        }
    }
}

impl Memory {
    /// Every partition's book-keeping is consistent.
    pub open spec fn wf(self) -> bool {
        forall|i: int| 0 <= i < self.partitions@.len() ==> (#[trigger] self.partitions@[i]).wf()
    }

    /// Record one allocation.
    pub fn log(&mut self, process_idx: usize, partition_idx: usize, partition_left: u32)
        ensures
            final(self).processes@ == old(self).processes@,
            final(self).partitions@ == old(self).partitions@,
            final(self).logs@ =~= old(self).logs@.push(
                OpLog { process_idx, partition_idx, partition_left },
            ),
    {
        self.logs.push(OpLog { process_idx, partition_idx, partition_left });
    }
}

} // verus!
