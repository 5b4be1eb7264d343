//! End-to-end tests of the graph queries on small concrete graphs.

use graph_algos::types::{Clock, Edge, Graph, Node};
use graph_algos::analysis::{back_edges, postorder, top_sort};
use graph_algos::dfs::{dfs_traverse, explore};
use graph_algos::mst::mst_kruskall;

fn n(id: char) -> Node<char> {
    Node { id }
}

fn e(source: char, dest: char, weight: i32) -> Edge<char> {
    Edge { source: n(source), dest: n(dest), weight }
}

fn graph(edges: Vec<Edge<char>>) -> Graph<char> {
    Graph { edges }
}

fn chain() -> Graph<char> {
    graph(vec![e('A', 'B', 0), e('B', 'C', 0), e('C', 'D', 0)])
}

fn chain_with_back() -> Graph<char> {
    graph(vec![e('A', 'B', 0), e('B', 'C', 0), e('C', 'D', 0), e('D', 'B', 5)])
}

#[test]
fn nodes_are_exactly_the_endpoints() {
    let g = chain();
    let nodes = g.nodes();
    assert_eq!(nodes.len(), 4);
    for id in ['A', 'B', 'C', 'D'] {
        assert!(nodes.contains(&n(id)));
    }
}

#[test]
fn edgeless_graph_has_no_nodes() {
    let g = graph(vec![]);
    assert_eq!(g.nodes().len(), 0);
    assert!(g.is_dag());
    assert!(!g.has_cycles());
    assert!(g.connected());
    assert_eq!(top_sort(&g).len(), 0);
    assert_eq!(mst_kruskall(&g).len(), 0);
}

#[test]
fn duplicate_endpoints_collapse() {
    let g = graph(vec![e('A', 'B', 1), e('B', 'A', 2), e('A', 'A', 3)]);
    assert_eq!(g.nodes().len(), 2);
}

#[test]
fn chain_is_acyclic_and_back_edge_closes_cycle() {
    assert!(chain().is_dag());
    assert!(!chain().has_cycles());
    let g = chain_with_back();
    assert!(g.has_cycles());
    assert!(!g.is_dag());
}

#[test]
fn is_dag_always_negates_has_cycles() {
    for g in [graph(vec![]), chain(), chain_with_back()] {
        assert_eq!(g.is_dag(), !g.has_cycles());
    }
}

#[test]
fn self_loop_is_never_a_back_edge() {
    let g = graph(vec![e('A', 'A', 1)]);
    assert!(!g.has_cycles());
    assert!(g.is_dag());
}

#[test]
fn top_sort_puts_sources_before_destinations() {
    let g = chain();
    let order = top_sort(&g);
    assert_eq!(order.len(), 4);
    let pos = |id: char| order.iter().position(|ni| ni.node == n(id)).unwrap();
    for edge in &g.edges {
        assert!(pos(edge.source.id) < pos(edge.dest.id));
    }
    let ids: Vec<char> = order.iter().map(|ni| ni.node.id).collect();
    assert_eq!(ids, vec!['A', 'B', 'C', 'D']);
}

#[test]
fn top_sort_is_sorted_descending_by_postorder() {
    let order = top_sort(&chain_with_back());
    for w in order.windows(2) {
        assert!(w[0].postorder > w[1].postorder);
    }
}

#[test]
fn connectivity_needs_mutual_reachability() {
    assert!(!chain().connected());
    let g = graph(vec![
        e('A', 'B', 0),
        e('B', 'C', 0),
        e('C', 'D', 0),
        e('D', 'C', 0),
        e('C', 'B', 0),
        e('B', 'A', 0),
    ]);
    assert!(g.connected());
}

#[test]
fn mst_keeps_zero_weight_edges_and_rejects_cycle_closer() {
    let g = chain_with_back();
    let mst = mst_kruskall(&g);
    assert_eq!(mst.len(), 3);
    assert!(mst.contains(&e('A', 'B', 0)));
    assert!(mst.contains(&e('B', 'C', 0)));
    assert!(mst.contains(&e('C', 'D', 0)));
    assert!(!mst.contains(&e('D', 'B', 5)));
}

#[test]
fn mst_sorts_by_weight_before_selecting() {
    // The cycle closer comes first in the edge list; without the ascending
    // sort it would be accepted and a zero-weight edge rejected instead.
    let g = graph(vec![e('D', 'B', 5), e('A', 'B', 0), e('B', 'C', 0), e('C', 'D', 0)]);
    let mst = mst_kruskall(&g);
    assert_eq!(mst.len(), 3);
    assert!(!mst.contains(&e('D', 'B', 5)));
}

#[test]
fn parallel_edges_with_distinct_weights_are_distinct() {
    let g = graph(vec![e('A', 'B', 1), e('A', 'B', 2)]);
    assert_eq!(g.nodes().len(), 2);
    // The directed back-edge test never flags an edge whose source
    // finishes after its destination, so both parallel edges survive.
    let mst = mst_kruskall(&g);
    assert_eq!(mst.len(), 2);
}

#[test]
fn traversal_covers_every_node_once_with_unique_postorders() {
    let g = chain_with_back();
    let dfs = dfs_traverse(&g);
    assert_eq!(dfs.len(), 4);
    let n_nodes: i32 = dfs.len() as i32;
    for ni in &dfs {
        assert!(1 <= ni.postorder && ni.postorder <= 2 * n_nodes);
    }
    for (i, a) in dfs.iter().enumerate() {
        for b in dfs.iter().skip(i + 1) {
            assert_ne!(a.node, b.node);
            assert_ne!(a.postorder, b.postorder);
        }
    }
}

#[test]
fn traversal_is_repeatable() {
    let g = chain_with_back();
    assert_eq!(dfs_traverse(&g), dfs_traverse(&g));
}

#[test]
fn postorder_lookup_finds_records_and_returns_zero_for_absent() {
    let g = graph(vec![e('A', 'B', 0)]);
    let dfs = dfs_traverse(&g);
    let post_a = postorder(&n('A'), &dfs);
    let post_b = postorder(&n('B'), &dfs);
    assert!(post_a > post_b);
    assert!(post_b >= 1);
    assert_eq!(postorder(&n('Z'), &dfs), 0);
}

#[test]
fn back_edges_flags_exactly_the_cycle_closer() {
    let g = chain_with_back();
    let dfs = dfs_traverse(&g);
    let back = back_edges(&g, &dfs);
    assert_eq!(back.len(), 1);
    assert_eq!(back[0], e('D', 'B', 5));
    let acyclic = chain();
    let dfs2 = dfs_traverse(&acyclic);
    assert_eq!(back_edges(&acyclic, &dfs2).len(), 0);
}

#[test]
fn queries_are_idempotent() {
    let g = chain_with_back();
    assert_eq!(g.has_cycles(), g.has_cycles());
    assert_eq!(g.is_dag(), g.is_dag());
    assert_eq!(g.connected(), g.connected());
    assert_eq!(g.nodes(), g.nodes());
    assert_eq!(top_sort(&g), top_sort(&g));
    assert_eq!(mst_kruskall(&g), mst_kruskall(&g));
}

#[test]
fn explore_visits_exactly_the_reachable_nodes() {
    let g = chain();
    let mut visited: Vec<Node<char>> = Vec::new();
    let mut clock = Clock(1);
    let res = explore(&g, n('B'), &mut visited, &mut clock, None);
    assert_eq!(res.len(), 3);
    for id in ['B', 'C', 'D'] {
        assert!(visited.contains(&n(id)));
    }
    assert!(!visited.contains(&n('A')));
    // entry and exit each advance the clock once per visited node
    assert_eq!(clock.0, 1 + 2 * 3);
}

#[test]
fn roots_of_the_forest_have_no_parent() {
    let g = graph(vec![e('A', 'B', 0), e('C', 'D', 0)]);
    let dfs = dfs_traverse(&g);
    assert_eq!(dfs.len(), 4);
    let rec = |id: char| dfs.iter().find(|ni| ni.node == n(id)).unwrap();
    assert_eq!(rec('A').parent, None);
    assert_eq!(rec('C').parent, None);
    assert_eq!(rec('B').parent, Some(n('A')));
    assert_eq!(rec('D').parent, Some(n('C')));
}
