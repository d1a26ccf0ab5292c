use algorithm_lab::disk::{Scheduler, SchedulerDirection, SchedulerError};

fn build() -> Scheduler {
    Scheduler::create_requests_from_vec(
        vec![86, 1470, 913, 1774, 948, 1509, 1022, 1750, 130],
        0,
        4999,
        Some(SchedulerDirection::Upward),
    )
    .unwrap()
}

#[test]
fn test_fcfs() {
    println!("===TESTING FCFS===");
    let requests = build();
    let result = requests.fcfs(143);
    assert_eq!(result.moved_distance, 7081);
}

#[test]
fn test_ssts() {
    println!("===TESTING SSTS===");
    let requests = build();
    let result = requests.ssts(143);
    assert_eq!(result.moved_distance, 1745);
}

#[test]
fn test_scan() {
    println!("===TESTING SCAN===");
    let requests = build();
    let result = requests.scan(143);
    assert_eq!(result.moved_distance, 3319);
}

#[test]
fn test_cscan() {
    println!("===TESTING CSCAN===");
    let requests = build();
    let result = requests.cscan(143);
    assert_eq!(result.moved_distance, 3363);
}

#[test]
fn inverted_bounds_are_rejected() {
    let r = Scheduler::create_requests_from_vec(vec![5, 7], 100, 0, None);
    assert!(matches!(r, Err(SchedulerError::InvalidBounds)));
}

#[test]
fn empty_input_gives_empty_results() {
    let scheduler = Scheduler::create_requests_from_vec(vec![], 0, 4999, None).unwrap();
    let fcfs = scheduler.fcfs(500);
    let ssts = scheduler.ssts(500);
    let scan = scheduler.scan(500);
    let cscan = scheduler.cscan(500);
    assert_eq!(fcfs.requests.len(), 0);
    assert_eq!(fcfs.moved_distance, 0);
    assert_eq!(ssts.requests.len(), 0);
    assert_eq!(ssts.moved_distance, 0);
    assert_eq!(scan.requests.len(), 0);
    assert_eq!(scan.moved_distance, 0);
    assert_eq!(cscan.requests.len(), 0);
    assert_eq!(cscan.moved_distance, 0);
}

#[test]
fn single_request_costs_the_seek_distance() {
    let scheduler = Scheduler::create_requests_from_vec(vec![700], 0, 4999, None).unwrap();
    for result in [
        scheduler.fcfs(143),
        scheduler.ssts(143),
        scheduler.scan(143),
        scheduler.cscan(143),
    ] {
        assert_eq!(result.requests.len(), 1);
        assert_eq!(result.requests[0].target_position, 700);
        assert_eq!(result.requests[0].prev_position, Some(143));
        assert_eq!(result.requests[0].moved_distance, 557);
        assert_eq!(result.moved_distance, 557);
    }
}

#[test]
fn fcfs_keeps_input_order_and_chains_priors() {
    let scheduler = Scheduler::create_requests_from_vec(vec![50, 10, 30], 0, 100, None).unwrap();
    let result = scheduler.fcfs(20);
    let targets: Vec<i32> = result.requests.iter().map(|r| r.target_position).collect();
    assert_eq!(targets, vec![50, 10, 30]);
    assert_eq!(result.requests[0].prev_position, Some(20));
    assert_eq!(result.requests[0].moved_distance, 30);
    assert_eq!(result.requests[1].prev_position, Some(50));
    assert_eq!(result.requests[1].moved_distance, 40);
    assert_eq!(result.requests[2].prev_position, Some(10));
    assert_eq!(result.requests[2].moved_distance, 20);
    assert_eq!(result.moved_distance, 30 + 40 + 20);
}

#[test]
fn sstf_breaks_ties_toward_the_lower_position() {
    let scheduler = Scheduler::create_requests_from_vec(vec![20, 10], 0, 100, None).unwrap();
    let result = scheduler.ssts(15);
    let targets: Vec<i32> = result.requests.iter().map(|r| r.target_position).collect();
    assert_eq!(targets, vec![10, 20]);
    assert_eq!(result.moved_distance, 5 + 10);
}

#[test]
fn sstf_services_every_request_once() {
    let requests = build();
    let result = requests.ssts(143);
    let mut targets: Vec<i32> = result.requests.iter().map(|r| r.target_position).collect();
    targets.sort();
    assert_eq!(targets, vec![86, 130, 913, 948, 1022, 1470, 1509, 1750, 1774]);
}

#[test]
fn scan_upward_rises_then_falls() {
    let requests = build();
    let result = requests.scan(143);
    let targets: Vec<i32> = result.requests.iter().map(|r| r.target_position).collect();
    assert_eq!(targets, vec![913, 948, 1022, 1470, 1509, 1750, 1774, 130, 86]);
}

#[test]
fn scan_downward_walks_to_the_lowest_then_rises() {
    let scheduler = Scheduler::create_requests_from_vec(
        vec![86, 1470, 913, 1774, 948, 1509, 1022, 1750, 130],
        0,
        4999,
        Some(SchedulerDirection::Downward),
    )
    .unwrap();
    let result = scheduler.scan(143);
    let targets: Vec<i32> = result.requests.iter().map(|r| r.target_position).collect();
    assert_eq!(targets, vec![86, 130, 913, 948, 1022, 1470, 1509, 1750, 1774]);
    assert_eq!(result.moved_distance, 1745);
}

#[test]
fn cscan_wraps_to_the_skipped_low_positions() {
    let requests = build();
    let result = requests.cscan(143);
    let targets: Vec<i32> = result.requests.iter().map(|r| r.target_position).collect();
    assert_eq!(targets, vec![913, 948, 1022, 1470, 1509, 1750, 1774, 86, 130]);
}

#[test]
fn rerunning_a_strategy_gives_the_same_result() {
    let requests = build();
    let first = requests.ssts(143);
    let second = requests.ssts(143);
    assert_eq!(first.moved_distance, second.moved_distance);
    assert_eq!(first.requests.len(), second.requests.len());
}
