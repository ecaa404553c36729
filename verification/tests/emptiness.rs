use checkr_core::emptiness::nested_dfs;

#[test]
fn nested_search_finds_a_cycle_behind_an_acyclic_accepting_node() {
    // 0 -> 1 (accepting, no cycle) -> 2 -> 3 (accepting) -> 4 -> 3
    let succ = vec![vec![1], vec![2], vec![3], vec![4], vec![3]];
    let acc = vec![false, true, false, true, false];
    let (s1, s2) = nested_dfs(&succ, &vec![0], &acc).unwrap();
    assert_eq!(s1, vec![0, 1, 2]);
    assert_eq!(s2, vec![3, 4]);
}

#[test]
fn nested_search_finds_a_cycle_back_to_the_start() {
    // the start node is accepting and is reached again
    let succ = vec![vec![1], vec![2], vec![0]];
    let acc = vec![true, false, false];
    let (s1, s2) = nested_dfs(&succ, &vec![0], &acc).unwrap();
    assert!(!s2.is_empty());
    assert!(s1.len() + s2.len() >= 3);
}

#[test]
fn nested_search_reports_none_without_an_accepting_cycle() {
    // a cycle through non-accepting nodes, an accepting node off the cycle
    let succ = vec![vec![1, 3], vec![2], vec![1], vec![]];
    let acc = vec![false, false, false, true];
    assert_eq!(nested_dfs(&succ, &vec![0], &acc), None);
}

#[test]
fn nested_search_tries_every_initial_node() {
    // node 0 leads nowhere; node 1 has an accepting self-loop
    let succ = vec![vec![], vec![1]];
    let acc = vec![false, true];
    let (s1, s2) = nested_dfs(&succ, &vec![0, 1], &acc).unwrap();
    // the start node is pushed again through its self-loop before the
    // inner search runs from the inner copy
    assert_eq!(s1, vec![1]);
    assert_eq!(s2, vec![1]);
}
