use rank::table::{Proc, PushError, Table, RESOURCE_COUNT};

fn proc_of(name: &str, allocation: [usize; RESOURCE_COUNT], max: [usize; RESOURCE_COUNT]) -> Proc {
    let mut need = [0; RESOURCE_COUNT];
    for r in 0..RESOURCE_COUNT {
        need[r] = max[r] - allocation[r];
    }
    Proc { name: name.to_string(), allocation, max, need }
}

fn textbook_table() -> Table {
    let mut t = Table::new();
    t.modify_global_res([10, 5, 7, 0, 0, 0]);
    let procs = [
        proc_of("P0", [0, 1, 0, 0, 0, 0], [7, 5, 3, 0, 0, 0]),
        proc_of("P1", [2, 0, 0, 0, 0, 0], [3, 2, 2, 0, 0, 0]),
        proc_of("P2", [3, 0, 2, 0, 0, 0], [9, 0, 2, 0, 0, 0]),
        proc_of("P3", [2, 1, 1, 0, 0, 0], [2, 2, 2, 0, 0, 0]),
        proc_of("P4", [0, 0, 2, 0, 0, 0], [4, 3, 3, 0, 0, 0]),
    ];
    for p in procs {
        assert_eq!(t.push_proc(p), Ok(()));
    }
    t
}

#[test]
fn new_table_is_empty() {
    let t = Table::new();
    assert!(t.data.is_empty());
    assert!(t.safe_sequence.is_empty());
    assert_eq!(t.global_available, [0; RESOURCE_COUNT]);
    assert_eq!(t.total_resources, [0; RESOURCE_COUNT]);
    assert_eq!(t.finished_count, 0);
}

#[test]
fn modify_sets_total_and_available() {
    let mut t = Table::new();
    t.modify_global_res([1, 2, 3, 4, 5, 6]);
    assert_eq!(t.total_resources, [1, 2, 3, 4, 5, 6]);
    assert_eq!(t.global_available, [1, 2, 3, 4, 5, 6]);
}

#[test]
fn push_takes_the_allocation() {
    let t = textbook_table();
    assert_eq!(t.global_available, [3, 3, 2, 0, 0, 0]);
    assert_eq!(t.data.len(), 5);
    assert_eq!(t.safe_sequence.len(), 5);
    for (i, d) in t.data.iter().enumerate() {
        assert_eq!(d.id, i);
        assert_eq!(d.name, format!("P{}", i));
        assert!(!d.finish);
    }
    assert_eq!(t.data[2].need, [6, 0, 0, 0, 0, 0]);
}

#[test]
fn push_without_resources_is_refused() {
    let mut t = Table::new();
    t.modify_global_res([1, 1, 1, 1, 1, 1]);
    let r = t.push_proc(proc_of("big", [2, 0, 0, 0, 0, 0], [2, 0, 0, 0, 0, 0]));
    assert_eq!(r, Err(PushError::NotEnoughResources));
    assert_eq!(PushError::NotEnoughResources.message(), "Not enough resources");
    assert!(t.data.is_empty());
    assert_eq!(t.global_available, [1, 1, 1, 1, 1, 1]);
}

#[test]
fn push_into_deadlock_is_refused() {
    let mut t = textbook_table();
    // takes what P1 would need and needs more than there is
    let r = t.push_proc(proc_of("greedy", [1, 2, 2, 0, 0, 0], [9, 9, 9, 0, 0, 0]));
    assert_eq!(r, Err(PushError::Deadlock));
    assert_eq!(
        PushError::Deadlock.message(),
        "Deadlock detected! Could not allocate resources"
    );
    assert_eq!(t.data.len(), 5);
    assert_eq!(t.global_available, [3, 3, 2, 0, 0, 0]);
}

#[test]
fn stepping_runs_the_safe_sequence() {
    let mut t = textbook_table();
    let order: Vec<usize> = t.safe_sequence.iter().map(|d| d.id).collect();
    assert_eq!(order, vec![1, 3, 2, 0, 4]);
    t.step();
    assert_eq!(t.finished_count, 1);
    assert!(t.data[1].finish);
    assert_eq!(t.global_available, [5, 3, 2, 0, 0, 0]);
    for _ in 0..4 {
        t.step();
    }
    assert_eq!(t.finished_count, 5);
    assert!(t.data.iter().all(|d| d.finish));
    assert_eq!(t.global_available, [10, 5, 7, 0, 0, 0]);
    // nothing left to run
    t.step();
    assert_eq!(t.finished_count, 5);
    assert_eq!(t.global_available, [10, 5, 7, 0, 0, 0]);
}

#[test]
fn reset_empties_the_table() {
    let mut t = textbook_table();
    t.step();
    t.reset();
    assert!(t.data.is_empty());
    assert!(t.safe_sequence.is_empty());
    assert_eq!(t.finished_count, 0);
    assert_eq!(t.global_available, [0; RESOURCE_COUNT]);
    assert_eq!(t.total_resources, [0; RESOURCE_COUNT]);
}

#[test]
fn random_process_respects_its_bounds() {
    let available = [3, 0, 5, 1, 9, 2];
    let total = [4, 0, 5, 8, 9, 2];
    for id in 0..50 {
        let p = Proc::random_data(id, &available, &total);
        assert_eq!(p.name, format!("P{}", id));
        for r in 0..RESOURCE_COUNT {
            assert!(p.max[r] <= total[r]);
            assert!(p.allocation[r] <= p.max[r]);
            assert!(p.allocation[r] <= available[r]);
            assert_eq!(p.need[r], p.max[r] - p.allocation[r]);
        }
        assert_eq!(p.max[1], 0);
    }
}

#[test]
fn random_process_with_nothing_is_empty() {
    let p = Proc::random_data(12, &[0; RESOURCE_COUNT], &[0; RESOURCE_COUNT]);
    assert_eq!(p.name, "P12");
    assert_eq!(p.max, [0; RESOURCE_COUNT]);
    assert_eq!(p.allocation, [0; RESOURCE_COUNT]);
    assert_eq!(p.need, [0; RESOURCE_COUNT]);
}

#[test]
fn step_fits_reports_overflow() {
    let mut t = textbook_table();
    assert!(t.step_fits());
    t.modify_global_res([usize::MAX; RESOURCE_COUNT]);
    // the next process holds 2 of the first resource
    assert!(!t.step_fits());
}

#[test]
fn admission_during_a_run_reorders_the_sequence() {
    let mut t = textbook_table();
    t.step();
    t.step();
    assert_eq!(t.global_available, [7, 4, 3, 0, 0, 0]);
    assert_eq!(t.push_proc(proc_of("P5", [0; RESOURCE_COUNT], [0; RESOURCE_COUNT])), Ok(()));
    let order: Vec<usize> = t.safe_sequence.iter().map(|d| d.id).collect();
    assert_eq!(order, vec![0, 1, 2, 3, 4, 5]);
    // the books are kept: ids 0..6 in the rows and in the safe sequence, each once
    let rows: Vec<usize> = t.data.iter().map(|d| d.id).collect();
    assert_eq!(rows, vec![0, 1, 2, 3, 4, 5]);
    assert!(t.finished_count <= t.data.len());
    while t.finished_count < t.data.len() {
        t.step();
    }
    // the run passed P0 before the admission re-sorted the sequence
    assert!(!t.data[0].finish);
}

#[test]
fn random_process_names_in_decimal() {
    let none = [0; RESOURCE_COUNT];
    assert_eq!(Proc::random_data(0, &none, &none).name, "P0");
    assert_eq!(Proc::random_data(10, &none, &none).name, "P10");
    assert_eq!(Proc::random_data(907, &none, &none).name, "P907");
    assert_eq!(Proc::random_data(usize::MAX, &none, &none).name, format!("P{}", usize::MAX));
}
