use algorithm_lab::mem::Task;
use algorithm_lab::fifo::Fifo;
use algorithm_lab::lru::Lru;
use algorithm_lab::opt::Opt;

fn new_task(page_size: usize) -> Task {
    Task::new(
        vec![4, 3, 2, 4, 2, 4, 2, 3, 5, 4, 3, 6, 5, 2, 1, 2, 3, 7, 1, 2, 6, 1],
        page_size,
    )
    .clone()
}

#[test]
fn lib_test() {
    let mut task = new_task(3);
    println!("===[[FIFO Mem Exchange]]===");
    task.fifo();
    assert_eq!(task.fault_count, 15);

    println!("\n\n===[[OPT Mem Exchange]]===");
    task.opt();

    println!("\n\n===[[LRU Mem Exchange]]===");
    task.lru();
    assert_eq!(task.fault_count, 14);
}

#[test]
fn fifo_evicts_the_oldest_entry() {
    let mut cache = Fifo::new(2);
    assert!(cache.set(1, 10));
    assert!(cache.set(2, 20));
    assert!(!cache.set(1, 10));
    assert!(cache.set(3, 30));
    assert_eq!(cache.get(1), None);
    assert_eq!(cache.get(2), Some(20));
    assert_eq!(cache.get(3), Some(30));
    let cached = cache.get_cached();
    assert_eq!(cached.len(), 2);
    assert_eq!(cached[0].key, 2);
    assert_eq!(cached[1].key, 3);
}

#[test]
fn lru_moves_a_hit_to_the_back() {
    let mut cache = Lru::new(2);
    assert!(cache.set(1, 10));
    assert!(cache.set(2, 20));
    assert!(!cache.set(1, 10));
    // 2 is now the least recently used entry and leaves first
    assert!(cache.set(3, 30));
    assert_eq!(cache.get(2), None);
    assert!(cache.get(1).is_some());
    assert!(cache.get(3).is_some());
}

#[test]
fn opt_evicts_the_page_used_farthest_ahead() {
    let mut cache = Opt::new(2);
    assert!(cache.set(1, 1, vec![1, 2, 3, 1]));
    assert!(cache.set(2, 2, vec![2, 3, 1]));
    // 1 is used again, 2 never is, so 2 is the one replaced
    assert!(cache.set(3, 3, vec![3, 1]));
    assert_eq!(cache.get(2), None);
    assert_eq!(cache.get(1), Some(1));
    assert_eq!(cache.get(3), Some(3));
}

#[test]
fn per_query_actions_record_the_cache() {
    let mut task = Task::new(vec![1, 2, 1, 3], 2);
    task.fifo();
    assert_eq!(task.fault_count, 3);
    assert_eq!(task.actions.len(), 4);
    assert!(task.actions[0].fault);
    assert!(task.actions[1].fault);
    assert!(!task.actions[2].fault);
    assert!(task.actions[3].fault);
    let last: Vec<u32> = task.actions[3].cached_items.iter().map(|i| i.key).collect();
    assert_eq!(last, vec![2, 3]);
}
