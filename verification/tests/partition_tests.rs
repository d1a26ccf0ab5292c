use algorithm_lab::partition::{Memory, Partition, Process};

fn build_test() -> Memory {
    Memory {
        partitions: vec![
            Partition::new("A", 16),
            Partition::new("B", 16),
            Partition::new("C", 32),
            Partition::new("D", 64),
            Partition::new("E", 20),
        ],
        processes: vec![
            Process::new("a", 12),
            Process::new("b", 10),
            Process::new("c", 22),
            Process::new("d", 15),
            Process::new("e", 6),
        ],
        logs: Vec::new(),
    }
}

#[test]
fn first_fit_test() {
    let mut memory = build_test();
    assert_eq!(memory.first_fit(), true);
    println!("====[FirstFit Algorithm]====");
}

#[test]
fn next_fit_test() {
    let mut memory = build_test();
    assert_eq!(memory.next_fit(), true);
    println!("====[NextFit Algorithm]====");
}

#[test]
fn worst_fit_test() {
    let mut memory = build_test();
    assert_eq!(memory.worst_fit(), true);
    println!("====[WorstFit Algorithm]====");
}

#[test]
fn first_fit_places_each_process_at_the_first_gap() {
    let mut memory = build_test();
    assert!(memory.first_fit());
    // a:12 -> A, b:10 -> B, c:22 -> C, d:15 -> D, e:6 -> B again
    let placements: Vec<usize> = memory.logs.iter().map(|l| l.partition_idx).collect();
    assert_eq!(placements, vec![0, 1, 2, 3, 1]);
    let avail: Vec<u32> = memory.partitions.iter().map(|p| p.available_size).collect();
    assert_eq!(avail, vec![4, 0, 10, 49, 20]);
    assert_eq!(memory.partitions[0].allocated_blocks, vec![0]);
    assert_eq!(memory.partitions[1].allocated_blocks, vec![1, 4]);
}

#[test]
fn worst_fit_picks_the_roomiest_partition() {
    let mut memory = build_test();
    assert!(memory.worst_fit());
    // the roomiest partition takes each process in turn
    let placements: Vec<usize> = memory.logs.iter().map(|l| l.partition_idx).collect();
    assert_eq!(placements, vec![3, 3, 3, 2, 4]);
}

#[test]
fn allocation_fails_when_nothing_fits() {
    let mut memory = Memory {
        partitions: vec![Partition::new("A", 8)],
        processes: vec![Process::new("a", 9)],
        logs: Vec::new(),
    };
    assert!(!memory.first_fit());
    assert!(!memory.worst_fit());
    assert!(!memory.next_fit());
    assert_eq!(memory.logs.len(), 0);
}
