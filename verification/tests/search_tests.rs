use ya_advent_lib::algorithm::{a_star, a_star_ex, dijkstra, dijkstra_ex};

fn count_entries(prev: &Vec<Option<(u64, Vec<usize>)>>) -> usize {
    prev.iter().filter(|e| e.is_some()).count()
}

#[test]
fn two_node_graph_costs_five() {
    // One edge from the start to the target, of cost five.
    let adj: Vec<Vec<(usize, u64)>> = vec![vec![(1, 5)], vec![]];
    let targets = vec![false, true];
    let zero = vec![0u64, 0];
    assert_eq!(dijkstra(&adj, 0, &targets), Some(5));
    assert_eq!(a_star(&adj, 0, &targets, &zero), Some(5));
}

#[test]
fn diamond_exhaustive_keeps_both_predecessors() {
    // A diamond: 0 -> 1 and 0 -> 2 at cost one each, both joining at 3.
    let adj: Vec<Vec<(usize, u64)>> = vec![vec![(1, 1), (2, 1)], vec![(3, 1)], vec![(3, 1)], vec![]];
    let targets = vec![false, false, false, true];
    let r = dijkstra_ex(&adj, 0, &targets, true);
    let (cost, prev) = r.expect("target is reachable");
    assert_eq!(cost, 2);
    let d = prev[3].as_ref().expect("join node was visited");
    assert_eq!(d.0, 2);
    let mut preds = d.1.clone();
    preds.sort();
    assert_eq!(preds, vec![1, 2]);
    let b = prev[1].as_ref().expect("upper branch was visited");
    assert_eq!((b.0, b.1.clone()), (1, vec![0]));
    let c = prev[2].as_ref().expect("lower branch was visited");
    assert_eq!((c.0, c.1.clone()), (1, vec![0]));
    assert!(prev[0].is_none());
}

#[test]
fn unreachable_target_returns_none() {
    let adj: Vec<Vec<(usize, u64)>> = vec![vec![], vec![]];
    let targets = vec![false, true];
    let zero = vec![0u64, 0];
    assert_eq!(dijkstra(&adj, 0, &targets), None);
    assert_eq!(a_star(&adj, 0, &targets, &zero), None);
    assert!(dijkstra_ex(&adj, 0, &targets, true).is_none());
}

#[test]
fn perfect_heuristic_visits_fewer_nodes() {
    // A branching graph: the path 0 -> 1 -> 3 -> 5 reaches the target, while
    // 2, 4 and 6 are dead ends a cost-only search still wanders into.
    let adj: Vec<Vec<(usize, u64)>> = vec![
        vec![(1, 1), (2, 1)],
        vec![(3, 1), (4, 1)],
        vec![(6, 1)],
        vec![(5, 1)],
        vec![],
        vec![],
        vec![],
    ];
    let targets = vec![false, false, false, false, false, true, false];
    // The heuristic gives the true remaining distance on the path and a large
    // admissible bound on the dead ends.
    let perfect = vec![3u64, 2, 100, 1, 100, 0, 100];
    let zero = vec![0u64; 7];

    let with_h = a_star_ex(&adj, 0, &targets, &perfect, false).expect("reachable");
    let without_h = a_star_ex(&adj, 0, &targets, &zero, false).expect("reachable");
    assert_eq!(with_h.0, 3);
    assert_eq!(without_h.0, 3);
    assert!(count_entries(&with_h.1) < count_entries(&without_h.1));
}

#[test]
fn dijkstra_matches_a_star_on_weighted_graph() {
    // Two routes of different costs; an admissible heuristic must not change
    // the answer.
    let adj: Vec<Vec<(usize, u64)>> = vec![
        vec![(1, 2), (2, 10)],
        vec![(2, 3), (3, 9)],
        vec![(3, 1)],
        vec![],
    ];
    let targets = vec![false, false, false, true];
    let admissible = vec![5u64, 4, 1, 0];
    assert_eq!(dijkstra(&adj, 0, &targets), Some(6));
    assert_eq!(a_star(&adj, 0, &targets, &admissible), Some(6));
}

#[test]
fn repeated_searches_agree() {
    let adj: Vec<Vec<(usize, u64)>> = vec![vec![(1, 1), (2, 1)], vec![(3, 1)], vec![(3, 1)], vec![]];
    let targets = vec![false, false, false, true];
    let first = dijkstra_ex(&adj, 0, &targets, true);
    let second = dijkstra_ex(&adj, 0, &targets, true);
    assert_eq!(first, second);
    assert_eq!(dijkstra(&adj, 0, &targets), dijkstra(&adj, 0, &targets));
}

#[test]
fn exhaustive_table_matches_full_exploration() {
    // On the diamond, the pruned exhaustive run still reports every node at
    // or below the lowest target cost, with its true distance.
    let adj: Vec<Vec<(usize, u64)>> = vec![vec![(1, 1), (2, 1)], vec![(3, 1)], vec![(3, 1)], vec![]];
    let targets = vec![false, false, false, true];
    let (_, prev) = dijkstra_ex(&adj, 0, &targets, true).expect("reachable");
    let dists = vec![0u64, 1, 1, 2];
    for v in 1..4usize {
        assert_eq!(prev[v].as_ref().unwrap().0, dists[v]);
    }
}

#[test]
fn first_target_cost_is_minimal() {
    // Several targets at different distances: the reported cost is the least.
    let adj: Vec<Vec<(usize, u64)>> = vec![
        vec![(1, 7), (2, 3)],
        vec![],
        vec![(3, 2)],
        vec![],
    ];
    let targets = vec![false, true, false, true];
    assert_eq!(dijkstra(&adj, 0, &targets), Some(5));
    let (cost, _) = dijkstra_ex(&adj, 0, &targets, true).expect("reachable");
    assert_eq!(cost, 5);
}

#[test]
fn pruning_stops_beyond_the_target_cost() {
    // Once the cheap target at 1 is found, the expensive branch through 2 is
    // not explored any further: 3 never enters the predecessor table.
    let adj: Vec<Vec<(usize, u64)>> = vec![
        vec![(1, 1), (2, 5)],
        vec![],
        vec![(3, 1)],
        vec![],
    ];
    let targets = vec![false, true, false, false];
    let (cost, prev) = dijkstra_ex(&adj, 0, &targets, true).expect("reachable");
    assert_eq!(cost, 1);
    assert!(prev[2].is_some());
    assert!(prev[3].is_none());
}
