use preql_import_resolver::graph::{kahn_sort, reachable_from};

#[test]
fn test_kahn_orders_a_chain() {
    let edges = vec![(0usize, 1usize), (1, 2)];
    let order = kahn_sort(3, &edges).unwrap();
    assert_eq!(order, vec![0, 1, 2]);
}

#[test]
fn test_kahn_prefers_the_least_ready_node() {
    // both 0 and 2 are ready at the start; 0 must come first
    let edges = vec![(2usize, 1usize)];
    let order = kahn_sort(3, &edges).unwrap();
    assert_eq!(order, vec![0, 2, 1]);
}

#[test]
fn test_kahn_reports_a_cycle() {
    let edges = vec![(0usize, 1usize), (1, 0), (1, 2)];
    let rem = kahn_sort(3, &edges).unwrap_err();
    assert_eq!(rem, vec![0, 1, 2]);
}

#[test]
fn test_kahn_handles_duplicate_edges() {
    let edges = vec![(0usize, 1usize), (0, 1)];
    let order = kahn_sort(2, &edges).unwrap();
    assert_eq!(order, vec![0, 1]);
}

#[test]
fn test_reachability_follows_edges() {
    // 0 -> 1 -> 2, 3 isolated
    let succ = vec![vec![1usize], vec![2], vec![], vec![]];
    let table = reachable_from(&succ, 0);
    assert_eq!(table, vec![true, true, true, false]);
}
