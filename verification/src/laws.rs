//! The library's laws: properties that hold of every graph, stated over
//! the specification functions the executable contracts are pinned to.
//!
//! Each query's contract equates its result with a specification function
//! of the graph's edge list alone, so two calls of any query on one
//! unchanged graph are equal by contract; no separate law is needed for
//! that.

use vstd::prelude::*;
use crate::types::{
    Node, Edge, InfoView, edge_nodes, is_endpoint, nodes_seq, lemma_edge_nodes_members,
    lemma_nodes_seq_props,
};
use crate::dfs::{node_set, dfs_spec, lemma_dfs_props};
use crate::analysis::{
    postorder_spec, is_back_edge, has_cycles_spec, is_dag_spec, top_sort_spec,
    lemma_postorder_of_record,
};
use crate::sorting::{sort_infos_by_postorder, infos_sorted_desc, lemma_sort_infos_props};

verus! {

/// Law: the nodes of a graph are exactly the distinct endpoints across all
/// of its edges, and an edgeless graph has no nodes.
pub proof fn lemma_nodes_exactly_endpoints<T>(edges: Seq<Edge<T>>)
    ensures
        forall|n: Node<T>| #[trigger] edge_nodes(edges).contains(n) <==> is_endpoint(edges, n),
        forall|n: Node<T>| #[trigger] nodes_seq(edges).contains(n) <==> is_endpoint(edges, n),
        edges.len() == 0 ==> nodes_seq(edges) == Seq::<Node<T>>::empty(),
{
    lemma_edge_nodes_members(edges);
    lemma_nodes_seq_props(edges);
    assert forall|n: Node<T>| #[trigger] nodes_seq(edges).contains(n) <==> is_endpoint(
        edges,
        n,
    ) by {
        assert(nodes_seq(edges).contains(n) <==> edge_nodes(edges).contains(n));
    }
}

/// Law: the cycle test and the acyclicity test always disagree.
pub proof fn lemma_is_dag_negates_has_cycles<T>(edges: Seq<Edge<T>>)
    ensures
        is_dag_spec(edges) == !has_cycles_spec(edges),
{
}

/// Law: one full traversal records every node of the graph exactly once,
/// and its postorder numbers are pairwise distinct and lie within one and
/// twice the number of nodes. The traversal is a function of the edge list
/// alone, so repeated runs agree; the numbers themselves depend on the
/// edge order, so only such relative properties are stated.
pub proof fn lemma_traversal_postorders<T>(edges: Seq<Edge<T>>)
    ensures
        node_set(dfs_spec(edges)) == edge_nodes(edges),
        dfs_spec(edges).len() == edge_nodes(edges).len(),
        forall|k: int|
            0 <= k < dfs_spec(edges).len() ==> 1 <= (#[trigger] dfs_spec(edges)[k]).postorder <= 2
                * dfs_spec(edges).len(),
        forall|k1: int, k2: int|
            0 <= k1 < k2 < dfs_spec(edges).len() ==> (#[trigger] dfs_spec(edges)[k1]).postorder
                != (#[trigger] dfs_spec(edges)[k2]).postorder,
        forall|k1: int, k2: int|
            0 <= k1 < k2 < dfs_spec(edges).len() ==> (#[trigger] dfs_spec(edges)[k1]).node != (
            #[trigger] dfs_spec(edges)[k2]).node,
{
    lemma_dfs_props(edges);
}

/// Law: the topological order is a permutation of the full traversal, and
/// mentions exactly the nodes of the graph.
pub proof fn lemma_top_sort_is_permutation<T>(edges: Seq<Edge<T>>)
    ensures
        top_sort_spec(edges).to_multiset() == dfs_spec(edges).to_multiset(),
        top_sort_spec(edges).len() == edge_nodes(edges).len(),
        forall|n: Node<T>| #[trigger] edge_nodes(edges).contains(n) <==> exists|k: int|
            0 <= k < top_sort_spec(edges).len() && (#[trigger] top_sort_spec(edges)[k]).node == n,
{
    broadcast use vstd::seq_lib::group_to_multiset_ensures;

    let dfs = dfs_spec(edges);
    let ts = top_sort_spec(edges);
    lemma_dfs_props(edges);
    lemma_sort_infos_props(dfs);
    crate::dfs::lemma_node_set_members(dfs);
    assert forall|n: Node<T>| #[trigger] edge_nodes(edges).contains(n) implies exists|k: int|
        0 <= k < ts.len() && (#[trigger] ts[k]).node == n by {
        assert(node_set(dfs).contains(n));
        let p = choose|p: int| 0 <= p < dfs.len() && (#[trigger] dfs[p]).node == n;
        assert(dfs.contains(dfs[p]));
        assert(dfs.to_multiset().count(dfs[p]) > 0);
        assert(ts.to_multiset().count(dfs[p]) > 0);
        assert(ts.contains(dfs[p]));
        let k = choose|k: int| 0 <= k < ts.len() && ts[k] == dfs[p];
        assert(ts[k].node == n);
    }
    assert forall|n: Node<T>|
        (exists|k: int| 0 <= k < ts.len() && (#[trigger] ts[k]).node == n)
        implies #[trigger] edge_nodes(edges).contains(n) by {
        let k = choose|k: int| 0 <= k < ts.len() && (#[trigger] ts[k]).node == n;
        assert(ts.contains(ts[k]));
        assert(ts.to_multiset().count(ts[k]) > 0);
        assert(dfs.to_multiset().count(ts[k]) > 0);
        assert(dfs.contains(ts[k]));
        let p = choose|p: int| 0 <= p < dfs.len() && dfs[p] == ts[k];
        assert(node_set(dfs).contains(dfs[p].node));
    }
}

/// Law: on an acyclic graph the topological order puts the source of every
/// edge strictly before its destination. A self-loop is the one exception:
/// the back-edge test never flags an edge from a node to itself, so an
/// acyclic graph may hold one, and no order can put a node before itself;
/// the law therefore speaks of the edges with distinct endpoints.
pub proof fn lemma_top_sort_respects_edges<T>(edges: Seq<Edge<T>>)
    requires
        !has_cycles_spec(edges),
    ensures
        forall|i: int, a: int, b: int|
            0 <= i < edges.len() && 0 <= a < top_sort_spec(edges).len() && 0 <= b < top_sort_spec(
                edges,
            ).len() && (#[trigger] edges[i]).source != edges[i].dest && (
            #[trigger] top_sort_spec(edges)[a]).node == edges[i].source && (
            #[trigger] top_sort_spec(edges)[b]).node == edges[i].dest ==> a < b,
{
    broadcast use vstd::seq_lib::group_to_multiset_ensures;

    let dfs = dfs_spec(edges);
    let ts = top_sort_spec(edges);
    lemma_dfs_props(edges);
    lemma_sort_infos_props(dfs);
    assert forall|i: int, a: int, b: int|
        0 <= i < edges.len() && 0 <= a < ts.len() && 0 <= b < ts.len() && (
        #[trigger] edges[i]).source != edges[i].dest && (#[trigger] ts[a]).node == edges[i].source
            && (#[trigger] ts[b]).node == edges[i].dest implies a < b by {
        let e = edges[i];
        assert(!is_back_edge(dfs, e));
        assert(ts.contains(ts[a]));
        assert(ts.contains(ts[b]));
        assert(ts.to_multiset().count(ts[a]) > 0);
        assert(ts.to_multiset().count(ts[b]) > 0);
        assert(dfs.to_multiset().count(ts[a]) > 0);
        assert(dfs.to_multiset().count(ts[b]) > 0);
        assert(dfs.contains(ts[a]));
        assert(dfs.contains(ts[b]));
        let pa = choose|p: int| 0 <= p < dfs.len() && dfs[p] == ts[a];
        let pb = choose|p: int| 0 <= p < dfs.len() && dfs[p] == ts[b];
        lemma_postorder_of_record(dfs, pa);
        lemma_postorder_of_record(dfs, pb);
        assert(postorder_spec(dfs, e.source) == ts[a].postorder);
        assert(postorder_spec(dfs, e.dest) == ts[b].postorder);
        assert(ts[a].postorder != ts[b].postorder) by {
            if pa != pb {
                if pa < pb {
                    assert(dfs[pa].postorder != dfs[pb].postorder);
                } else {
                    assert(dfs[pb].postorder != dfs[pa].postorder);
                }
            }
        }
        assert(ts[a].postorder > ts[b].postorder);
        if a > b {
            assert(ts[b].postorder >= ts[a].postorder);
        }
    }
}

} // verus!
