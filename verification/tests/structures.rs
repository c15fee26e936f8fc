use fruits::graph::Graph;
use fruits::tree::{TreeBuilder, TreeNode};
use std::collections::HashSet;

fn position(order: &[u64], n: u64) -> usize {
    order.iter().position(|x| *x == n).unwrap()
}

#[test]
fn graph_orders_edges_forward() {
    let mut graph = Graph::new();
    graph.insert_edge(1, 2);
    graph.insert_edge(2, 3);
    let order = graph.to_vec().unwrap();
    assert_eq!(order.len(), 3);
    assert!(position(&order, 1) < position(&order, 2));
    assert!(position(&order, 2) < position(&order, 3));
    let rev = graph.to_vec_rev().unwrap();
    assert!(position(&rev, 3) < position(&rev, 2));
    assert!(position(&rev, 2) < position(&rev, 1));
}

#[test]
fn graph_reports_cycles() {
    let mut graph = Graph::new();
    graph.insert_edge(1, 2);
    graph.insert_edge(2, 3);
    graph.insert_edge(3, 1);
    graph.insert_edge(0, 1);
    let w = graph.to_vec().unwrap_err();
    assert!(w.contains(&1) && w.contains(&2) && w.contains(&3));
    assert!(!w.contains(&0));
    assert!(graph.to_vec_rev().is_err());
}

#[test]
fn graph_self_loop_is_a_cycle() {
    let mut graph = Graph::new();
    graph.insert_edge(5, 5);
    assert_eq!(graph.to_vec().unwrap_err(), HashSet::from([5]));
}

#[test]
fn graph_nodes_and_adjacency() {
    let mut graph = Graph::default();
    assert!(graph.insert_node(7));
    assert!(!graph.insert_node(7));
    graph.insert_edge(1, 2);
    graph.insert_edge(1, 3);
    assert_eq!(graph.edges_from(&1), Some(&HashSet::from([2, 3])));
    assert_eq!(graph.edges_to(&3), Some(&HashSet::from([1])));
    assert_eq!(graph.edges_from(&3), None);
    assert_eq!(graph.edges_to(&1), None);
    let order = graph.to_vec().unwrap();
    assert_eq!(order.len(), 4);
    assert!(order.contains(&7));
    assert!(position(&order, 1) < position(&order, 2));
}

fn count_nodes(t: &TreeNode) -> usize {
    1 + t.children.iter().map(count_nodes).sum::<usize>()
}

#[test]
fn tree_builder_pairs() {
    let mut b = TreeBuilder::new();
    assert!(b.insert_pair(1, 2));
    assert!(b.insert_pair(1, 3));
    assert!(b.insert_pair(0, 1));
    assert!(!b.insert_pair(5, 2));
    assert!(b.insert_single(9));
    assert!(!b.insert_single(9));
    assert!(b.insert_pair(4, 4));
    assert!(b.insert_pair(6, 7));
    assert_eq!(b.roots(), &HashSet::from([0, 9, 4, 6]));
    assert_eq!(b.nodes().get(&1), Some(&vec![2, 3]));
    let forest = b.build();
    assert_eq!(forest.len(), 4);
    let zero = forest.iter().find(|t| t.value == 0).unwrap();
    assert_eq!(zero.children.len(), 1);
    assert_eq!(zero.children[0].value, 1);
    let values: Vec<u64> = zero.children[0].children.iter().map(|t| t.value).collect();
    assert_eq!(values, vec![2, 3]);
    assert_eq!(forest.iter().map(count_nodes).sum::<usize>(), 8);
}

#[test]
fn tree_values_preorder_walks_depth_first() {
    let mut b = TreeBuilder::new();
    assert!(b.insert_pair(1, 2));
    assert!(b.insert_pair(1, 3));
    assert!(b.insert_pair(2, 4));
    assert!(b.insert_pair(3, 5));
    let forest = b.build();
    assert_eq!(forest.len(), 1);
    assert_eq!(forest[0].values_preorder(), vec![1, 2, 4, 3, 5]);
}

#[test]
fn tree_build_holds_every_node_once() {
    let mut b = TreeBuilder::new();
    assert!(b.insert_pair(10, 11));
    assert!(b.insert_pair(11, 12));
    assert!(b.insert_pair(20, 21));
    assert!(b.insert_single(30));
    assert!(b.insert_pair(0, 10));
    let keys: HashSet<u64> = b.nodes().keys().copied().collect();
    let forest = b.build();
    let mut all: Vec<u64> = Vec::new();
    for t in &forest {
        all.extend(t.values_preorder());
    }
    let seen: HashSet<u64> = all.iter().copied().collect();
    assert_eq!(all.len(), seen.len());
    assert_eq!(seen, keys);
}
