use std::collections::HashMap;

use scalargrad::fundamental::op::topological_sort;

fn graph_of(lists: Vec<(usize, Vec<usize>)>) -> HashMap<usize, Vec<usize>> {
    lists.iter().cloned().collect::<HashMap<_, _>>()
}

fn is_sorted(graph: &HashMap<usize, Vec<usize>>, order: &[usize]) -> bool {
    let position = |v: usize| order.iter().position(|x| *x == v);
    graph.iter().all(|(node, neighbors)| {
        neighbors.iter().all(|n| match (position(*node), position(*n)) {
            (Some(a), Some(b)) => a < b,
            _ => false,
        })
    })
}

#[test]
fn test_topo() {
    let graph = vec![
        (2, vec![3, 0, 1]),
        (3, vec![1]),
        (0, vec![1]),
        (1, vec![4]),
    ].iter().cloned().collect::<HashMap<_, _>>();
    match topological_sort(&graph) {
        Some(sorted) => println!("Topologically sorted: {:?}", sorted),
        None => println!("No topological sort exists due to cycles in the graph."),
    }
}

#[test]
fn every_vertex_is_sorted_once_and_before_its_successors() {
    let graph = graph_of(vec![(2, vec![3, 0, 1]), (3, vec![1]), (0, vec![1]), (1, vec![4])]);
    let sorted = topological_sort(&graph).unwrap();
    assert_eq!(sorted.len(), 5);
    let mut seen = sorted.clone();
    seen.sort();
    assert_eq!(seen, vec![0, 1, 2, 3, 4]);
    assert!(is_sorted(&graph, &sorted));
    assert_eq!(sorted[0], 2);
    assert_eq!(sorted[3], 1);
    assert_eq!(sorted[4], 4);
}

#[test]
fn a_chain_has_one_order() {
    let graph = graph_of(vec![(7, vec![5]), (5, vec![3]), (3, vec![1])]);
    assert_eq!(topological_sort(&graph), Some(vec![7, 5, 3, 1]));
}

#[test]
fn the_empty_graph_sorts_to_nothing() {
    let graph: HashMap<usize, Vec<usize>> = HashMap::new();
    assert_eq!(topological_sort(&graph), Some(vec![]));
}

#[test]
fn a_vertex_without_successors_is_sorted() {
    let graph = graph_of(vec![(9, vec![])]);
    assert_eq!(topological_sort(&graph), Some(vec![9]));
}

#[test]
fn an_arc_listed_twice_counts_twice() {
    let graph = graph_of(vec![(1, vec![2, 2, 3]), (2, vec![3, 3])]);
    assert_eq!(topological_sort(&graph), Some(vec![1, 2, 3]));
}

#[test]
fn a_cycle_has_no_order() {
    let graph = graph_of(vec![(1, vec![2]), (2, vec![3]), (3, vec![1])]);
    assert_eq!(topological_sort(&graph), None);
}

#[test]
fn a_loop_on_one_vertex_has_no_order() {
    let graph = graph_of(vec![(1, vec![1])]);
    assert_eq!(topological_sort(&graph), None);
}

#[test]
fn a_cycle_behind_a_sortable_part_has_no_order() {
    let graph = graph_of(vec![(0, vec![1]), (1, vec![2]), (2, vec![3]), (3, vec![2])]);
    assert_eq!(topological_sort(&graph), None);
}

#[test]
fn a_diamond_is_sorted() {
    let graph = graph_of(vec![(0, vec![1, 2]), (1, vec![3]), (2, vec![3])]);
    let sorted = topological_sort(&graph).unwrap();
    assert_eq!(sorted.len(), 4);
    assert_eq!(sorted[0], 0);
    assert_eq!(sorted[3], 3);
    assert!(is_sorted(&graph, &sorted));
}
