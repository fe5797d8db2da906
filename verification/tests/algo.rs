use rank::algo::check_safety;
use rank::table::{Data, RESOURCE_COUNT};

fn make_data(
    id: usize,
    allocation: [usize; RESOURCE_COUNT],
    need: [usize; RESOURCE_COUNT],
) -> Data {
    Data {
        id,
        name: format!("P{}", id),
        allocation,
        max: [0; RESOURCE_COUNT],
        need,
        finish: false,
    }
}

fn textbook() -> [Data; 5] {
    [
        make_data(0, [0, 1, 0, 0, 0, 0], [7, 4, 3, 0, 0, 0]),
        make_data(1, [2, 0, 0, 0, 0, 0], [1, 2, 2, 0, 0, 0]),
        make_data(2, [3, 0, 2, 0, 0, 0], [6, 0, 0, 0, 0, 0]),
        make_data(3, [2, 1, 1, 0, 0, 0], [0, 1, 1, 0, 0, 0]),
        make_data(4, [0, 0, 2, 0, 0, 0], [4, 3, 1, 0, 0, 0]),
    ]
}

#[test]
fn test_check_safety_safe() {
    let mut procs = [
        make_data(0, [0, 1, 0, 0, 0, 0], [7, 4, 3, 0, 0, 0]),
        make_data(1, [2, 0, 0, 0, 0, 0], [1, 2, 2, 0, 0, 0]),
        make_data(2, [3, 0, 2, 0, 0, 0], [6, 0, 0, 0, 0, 0]),
        make_data(3, [2, 1, 1, 0, 0, 0], [0, 1, 1, 0, 0, 0]),
        make_data(4, [0, 0, 2, 0, 0, 0], [4, 3, 1, 0, 0, 0]),
    ];

    let cur = [3, 3, 2, 0, 0, 0];

    assert!(check_safety(&mut procs, &cur));
}

#[test]
fn test_check_safety_unsafe() {
    let mut procs = [
        make_data(0, [0, 1, 0, 0, 0, 0], [7, 4, 3, 0, 0, 0]),
        make_data(1, [2, 0, 0, 0, 0, 0], [1, 2, 2, 0, 0, 0]),
        make_data(2, [3, 0, 2, 0, 0, 0], [6, 0, 0, 0, 0, 0]),
        make_data(3, [2, 1, 1, 0, 0, 0], [0, 1, 1, 0, 0, 0]),
        make_data(4, [0, 0, 2, 0, 0, 0], [4, 3, 1, 0, 0, 0]),
    ];

    let cur = [0, 1, 1, 0, 0, 0];

    assert!(!check_safety(&mut procs, &cur));
}

fn ids(procs: &[Data]) -> Vec<usize> {
    procs.iter().map(|p| p.id).collect()
}

#[test]
fn safe_order_found_by_first_fit() {
    let mut procs = textbook();
    assert!(check_safety(&mut procs, &[3, 3, 2, 0, 0, 0]));
    // first fit from the list sorted by id, swapping each pick to the front
    assert_eq!(ids(&procs), vec![1, 3, 2, 0, 4]);
}

#[test]
fn safe_order_lets_each_process_finish() {
    let mut procs = textbook();
    let cur = [3, 3, 2, 0, 0, 0];
    assert!(check_safety(&mut procs, &cur));
    let mut available = cur;
    for p in procs.iter() {
        for r in 0..RESOURCE_COUNT {
            assert!(p.need[r] <= available[r]);
        }
        for r in 0..RESOURCE_COUNT {
            available[r] += p.allocation[r];
        }
    }
    assert_eq!(available, [10, 5, 7, 0, 0, 0]);
}

#[test]
fn check_safety_keeps_the_processes() {
    let mut procs = textbook();
    procs.reverse();
    let before = {
        let mut v = ids(&procs);
        v.sort();
        v
    };
    let _ = check_safety(&mut procs, &[0, 1, 1, 0, 0, 0]);
    let mut after = ids(&procs);
    after.sort();
    assert_eq!(before, after);
}

#[test]
fn sorted_by_id_before_the_search() {
    let mut procs = textbook();
    procs.reverse();
    assert!(check_safety(&mut procs, &[3, 3, 2, 0, 0, 0]));
    assert_eq!(ids(&procs), vec![1, 3, 2, 0, 4]);
}

#[test]
fn no_process_is_safe() {
    let mut procs: [Data; 0] = [];
    assert!(check_safety(&mut procs, &[0; RESOURCE_COUNT]));
}

#[test]
fn single_process_needing_too_much_is_unsafe() {
    let mut procs = [make_data(0, [0; RESOURCE_COUNT], [0, 0, 0, 0, 0, 1])];
    assert!(!check_safety(&mut procs, &[9, 9, 9, 9, 9, 0]));
}

#[test]
fn large_counts_are_added_without_overflow() {
    let mut procs = [
        make_data(0, [usize::MAX, 0, 0, 0, 0, 0], [0; RESOURCE_COUNT]),
        make_data(1, [usize::MAX, 0, 0, 0, 0, 0], [usize::MAX, 0, 0, 0, 0, 0]),
    ];
    assert!(check_safety(&mut procs, &[usize::MAX, 0, 0, 0, 0, 0]));
}

#[test]
fn unsafe_state_leaves_the_runnable_processes_first() {
    let mut procs = textbook();
    assert!(!check_safety(&mut procs, &[0, 1, 1, 0, 0, 0]));
    // P3 and then P1 can run; P2, P0 and P4 are stuck after them
    assert_eq!(ids(&procs), vec![3, 1, 2, 0, 4]);
}

#[test]
fn needing_less_keeps_a_safe_state_safe() {
    let mut procs = textbook();
    assert!(check_safety(&mut procs, &[3, 3, 2, 0, 0, 0]));
    let mut less = textbook();
    less[0].need = [1, 1, 1, 0, 0, 0];
    less[2].allocation = [4, 0, 2, 0, 0, 0];
    assert!(check_safety(&mut less, &[3, 3, 2, 0, 0, 0]));
}
