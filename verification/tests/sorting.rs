use rank::sorting::{parse_column_key, ColumnSort, ResourceColumn};
use rank::table::{Proc, Table, RESOURCE_COUNT};

fn table_with(allocs: &[[usize; RESOURCE_COUNT]]) -> Table {
    let mut t = Table::new();
    t.modify_global_res([100; RESOURCE_COUNT]);
    for (i, a) in allocs.iter().enumerate() {
        let p = Proc { name: format!("P{}", i), allocation: *a, max: *a, need: [0; RESOURCE_COUNT] };
        assert_eq!(t.push_proc(p), Ok(()));
    }
    t
}

fn ids(t: &Table) -> Vec<usize> {
    t.data.iter().map(|d| d.id).collect()
}

#[test]
fn sort_ascending_is_stable() {
    let mut t = table_with(&[[3, 1, 0, 0, 0, 0], [1, 2, 0, 0, 0, 0], [3, 0, 0, 0, 0, 0], [2, 5, 0, 0, 0, 0]]);
    t.perform_sort("allocation_0", ColumnSort::Ascending);
    assert_eq!(ids(&t), vec![1, 3, 0, 2]);
}

#[test]
fn sort_descending_is_stable() {
    let mut t = table_with(&[[3, 1, 0, 0, 0, 0], [1, 2, 0, 0, 0, 0], [3, 0, 0, 0, 0, 0], [2, 5, 0, 0, 0, 0]]);
    t.perform_sort("allocation_0", ColumnSort::Descending);
    assert_eq!(ids(&t), vec![0, 2, 3, 1]);
}

#[test]
fn sort_by_max_and_back_to_default() {
    let mut t = table_with(&[[3, 1, 0, 0, 0, 0], [1, 2, 0, 0, 0, 0], [3, 0, 0, 0, 0, 0], [2, 5, 0, 0, 0, 0]]);
    t.perform_sort("max_1", ColumnSort::Descending);
    assert_eq!(ids(&t), vec![3, 1, 0, 2]);
    t.perform_sort("need_1", ColumnSort::Default);
    assert_eq!(ids(&t), vec![0, 1, 2, 3]);
}

#[test]
fn other_columns_do_not_sort() {
    let mut t = table_with(&[[3, 1, 0, 0, 0, 0], [1, 2, 0, 0, 0, 0]]);
    t.perform_sort("allocation_0", ColumnSort::Descending);
    t.perform_sort("name", ColumnSort::Ascending);
    t.perform_sort("state", ColumnSort::Default);
    assert_eq!(ids(&t), vec![0, 1]);
}

#[test]
fn repeated_prefixes_are_trimmed() {
    let mut t = table_with(&[[0, 9, 0, 0, 0, 0], [0, 1, 0, 0, 0, 0]]);
    t.perform_sort("need_need_1", ColumnSort::Ascending);
    assert_eq!(ids(&t), vec![0, 1]);
    t.perform_sort("allocation_allocation_1", ColumnSort::Ascending);
    assert_eq!(ids(&t), vec![1, 0]);
}

#[test]
fn column_keys() {
    assert_eq!(parse_column_key("allocation_3"), Some((ResourceColumn::Allocation, Some(3))));
    assert_eq!(parse_column_key("max_0"), Some((ResourceColumn::Max, Some(0))));
    assert_eq!(parse_column_key("need_5"), Some((ResourceColumn::Need, Some(5))));
    assert_eq!(parse_column_key("need_need_2"), Some((ResourceColumn::Need, Some(2))));
    assert_eq!(parse_column_key("maximum"), Some((ResourceColumn::Max, None)));
    assert_eq!(parse_column_key("id"), None);
    assert_eq!(parse_column_key("state"), None);
}

#[test]
fn sorting_does_not_disturb_the_run() {
    let mut t = table_with(&[[3, 1, 0, 0, 0, 0], [1, 2, 0, 0, 0, 0], [3, 0, 0, 0, 0, 0]]);
    t.perform_sort("allocation_0", ColumnSort::Descending);
    while t.finished_count < t.data.len() {
        assert!(t.step_fits());
        t.step();
    }
    assert!(t.data.iter().all(|d| d.finish));
    assert_eq!(t.global_available, [100; RESOURCE_COUNT]);
}
