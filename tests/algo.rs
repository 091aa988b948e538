use scheduler::algo::{
    fcfs, priority, priority_round_robin, round_robin, simulate, sjf, Policy, QUANTUM,
};
use scheduler::sim::SimProcess;

fn task(name: &str, priority: u8, burst: u32) -> SimProcess {
    SimProcess::new(name.to_string(), priority, burst)
}

fn wait_of(done: &[SimProcess], name: &str) -> u32 {
    done.iter().find(|p| p.name == name).expect("task missing").wait
}

fn names(done: &[SimProcess]) -> Vec<&str> {
    done.iter().map(|p| p.name.as_str()).collect()
}

fn mixed() -> Vec<SimProcess> {
    vec![
        task("T1", 4, 20),
        task("T2", 2, 25),
        task("T3", 3, 25),
        task("T4", 3, 15),
        task("T5", 10, 10),
    ]
}

const ALL: [Policy; 5] = [
    Policy::Fcfs,
    Policy::Sjf,
    Policy::Priority,
    Policy::RoundRobin,
    Policy::PriorityRoundRobin,
];

#[test]
fn fcfs_waits_in_arrival_order() {
    let done = fcfs(vec![task("A", 1, 5), task("B", 1, 3)]);
    assert_eq!(names(&done), ["A", "B"]);
    assert_eq!(wait_of(&done, "A"), 0);
    assert_eq!(wait_of(&done, "B"), 5);
}

#[test]
fn sjf_equal_bursts_keep_input_order() {
    let done = sjf(vec![task("A", 1, 5), task("B", 1, 5)]);
    assert_eq!(names(&done), ["A", "B"]);
    assert_eq!(wait_of(&done, "A"), 0);
    assert_eq!(wait_of(&done, "B"), 5);
}

#[test]
fn sjf_shortest_first() {
    let done = sjf(mixed());
    assert_eq!(names(&done), ["T5", "T4", "T1", "T2", "T3"]);
    assert_eq!(wait_of(&done, "T5"), 0);
    assert_eq!(wait_of(&done, "T4"), 10);
    assert_eq!(wait_of(&done, "T1"), 25);
    assert_eq!(wait_of(&done, "T2"), 45);
    assert_eq!(wait_of(&done, "T3"), 70);
}

#[test]
fn priority_highest_first() {
    let done = priority(vec![task("A", 1, 4), task("B", 9, 4)]);
    assert_eq!(names(&done), ["B", "A"]);
    assert_eq!(wait_of(&done, "B"), 0);
    assert_eq!(wait_of(&done, "A"), 4);
}

#[test]
fn priority_ties_keep_input_order() {
    let done = priority(mixed());
    assert_eq!(names(&done), ["T5", "T1", "T3", "T4", "T2"]);
    assert_eq!(wait_of(&done, "T3"), 30);
    assert_eq!(wait_of(&done, "T4"), 55);
    assert_eq!(wait_of(&done, "T2"), 70);
}

#[test]
fn round_robin_slices_by_quantum() {
    assert_eq!(QUANTUM, 10);
    let done = round_robin(vec![task("A", 1, 15), task("B", 1, 5)]);
    assert_eq!(names(&done), ["B", "A"]);
    assert_eq!(wait_of(&done, "B"), 10);
    assert_eq!(wait_of(&done, "A"), 5);
}

#[test]
fn round_robin_exact_multiple_of_quantum() {
    let (done, clock) = simulate(Policy::RoundRobin, vec![task("A", 1, 20), task("B", 1, 10)]);
    assert_eq!(names(&done), ["B", "A"]);
    assert_eq!(wait_of(&done, "A"), 10);
    assert_eq!(wait_of(&done, "B"), 10);
    assert_eq!(clock, 30);
}

#[test]
fn round_robin_skips_empty_task() {
    let done = round_robin(vec![task("A", 1, 12), task("Z", 1, 0), task("B", 1, 3)]);
    assert_eq!(names(&done), ["Z", "B", "A"]);
    assert_eq!(wait_of(&done, "Z"), 0);
    assert_eq!(wait_of(&done, "B"), 10);
    assert_eq!(wait_of(&done, "A"), 3);
}

#[test]
fn priority_round_robin_isolates_classes() {
    let done = priority_round_robin(vec![task("X", 10, 20), task("Z", 1, 5), task("Y", 10, 15)]);
    assert_eq!(names(&done), ["X", "Y", "Z"]);
    assert_eq!(wait_of(&done, "X"), 10);
    assert_eq!(wait_of(&done, "Y"), 20);
    assert_eq!(wait_of(&done, "Z"), 35);
    assert!(wait_of(&done, "Z") >= 20 + 15);
}

#[test]
fn priority_round_robin_mixed() {
    let (done, clock) = simulate(Policy::PriorityRoundRobin, mixed());
    assert_eq!(names(&done), ["T5", "T1", "T4", "T3", "T2"]);
    assert_eq!(wait_of(&done, "T5"), 0);
    assert_eq!(wait_of(&done, "T1"), 10);
    assert_eq!(wait_of(&done, "T4"), 50);
    assert_eq!(wait_of(&done, "T3"), 45);
    assert_eq!(wait_of(&done, "T2"), 70);
    assert_eq!(clock, 95);
}

#[test]
fn every_policy_conserves_work_and_completes() {
    for policy in ALL {
        let (done, clock) = simulate(policy, mixed());
        assert_eq!(clock, 95);
        assert_eq!(done.len(), 5);
        assert!(done.iter().all(|p| p.burst == 0));
        let mut seen = names(&done);
        seen.sort();
        assert_eq!(seen, ["T1", "T2", "T3", "T4", "T5"]);
    }
}

#[test]
fn every_policy_reruns_identically() {
    for policy in ALL {
        let (first, c1) = simulate(policy, mixed());
        let (second, c2) = simulate(policy, mixed());
        assert_eq!(first, second);
        assert_eq!(c1, c2);
    }
}

#[test]
fn empty_input_gives_empty_result() {
    for policy in ALL {
        let (done, clock) = simulate(policy, Vec::new());
        assert!(done.is_empty());
        assert_eq!(clock, 0);
    }
}

#[test]
fn largest_total_burst_fits() {
    let (done, clock) = simulate(Policy::Fcfs, vec![task("A", 1, u32::MAX - 1), task("B", 1, 1)]);
    assert_eq!(clock, u32::MAX);
    assert_eq!(wait_of(&done, "B"), u32::MAX - 1);
}

#[test]
fn priority_round_robin_top_class_matches_round_robin() {
    let all = vec![task("A", 7, 25), task("L", 2, 4), task("B", 7, 12), task("C", 7, 3)];
    let top = vec![task("A", 7, 25), task("B", 7, 12), task("C", 7, 3)];
    let mixed = priority_round_robin(all);
    let alone = round_robin(top);
    assert_eq!(&mixed[..3], &alone[..]);
    assert_eq!(names(&alone), ["C", "B", "A"]);
    assert_eq!(wait_of(&mixed, "L"), 40);
}

#[test]
fn priority_round_robin_leaves_empty_task_unchanged() {
    let done = priority_round_robin(vec![task("H", 9, 6), task("Z", 1, 0), task("M", 5, 4)]);
    assert_eq!(names(&done), ["H", "M", "Z"]);
    assert_eq!(wait_of(&done, "M"), 6);
    assert_eq!(wait_of(&done, "Z"), 0);
}
