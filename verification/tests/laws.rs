use mieql::group::threads_per_group;

#[test]
fn thread_budget_divides_evenly_with_remainder_unused() {
    assert_eq!(threads_per_group(8, 2), 4);
    assert_eq!(threads_per_group(8, 3), 2);
    assert_eq!(threads_per_group(1, 2), 0);
    assert_eq!(threads_per_group(255, 1), 255);
}
