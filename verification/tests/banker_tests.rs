use algorithm_lab::banker::{DeadlockCheck, Task};

fn build_checker() -> DeadlockCheck {
    let resources: Vec<u32> = vec![3, 5, 2];
    let tasks: Vec<Task> = vec![
        Task { need: vec![4, 1, 0], allocation: vec![0, 2, 1] },
        Task { need: vec![2, 3, 1], allocation: vec![1, 0, 1] },
        Task { need: vec![4, 0, 4], allocation: vec![0, 1, 3] },
        Task { need: vec![4, 2, 2], allocation: vec![3, 2, 1] },
        Task { need: vec![5, 1, 3], allocation: vec![0, 2, 0] },
    ];
    DeadlockCheck::new(resources, tasks)
}

#[test]
fn banker_test() {
    let mut deadlock_checker = build_checker();
    let (is_safe, sequence) = deadlock_checker.detect();

    println!("");
    if is_safe {
        println!("The sequence is safe.\nThe safe seq is: {:?}", sequence);
    } else {
        println!("The sequence is not safe");
    }
}

#[test]
fn banker_finds_the_first_coverable_order() {
    let mut checker = build_checker();
    let (is_safe, sequence) = checker.detect();
    assert!(is_safe);
    assert_eq!(sequence, vec![1, 0, 2, 3, 4]);
    // every allocation reclaimed: 3+4, 5+7, 2+6 per resource
    assert_eq!(checker.current_resources, vec![7, 12, 8]);
}

#[test]
fn banker_reports_an_unsafe_state() {
    let tasks: Vec<u32> = vec![0, 0];
    let mut checker = DeadlockCheck::new(
        tasks,
        vec![Task { need: vec![1, 1], allocation: vec![0, 0] }],
    );
    let (is_safe, sequence) = checker.detect();
    assert!(!is_safe);
    assert_eq!(sequence, Vec::<usize>::new());
}

#[test]
fn banker_grants_only_covered_requests() {
    let mut checker = build_checker();
    let (is_safe, _) = checker.detect();
    assert!(is_safe);
    assert!(checker.request(vec![7, 12, 8]));
    assert_eq!(checker.current_resources, vec![0, 0, 0]);
    assert!(!checker.request(vec![1, 0, 0]));
    assert_eq!(checker.current_resources, vec![0, 0, 0]);
}
