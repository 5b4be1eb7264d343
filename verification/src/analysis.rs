//! Analyses derived from the traversal: postorder lookup, back-edge
//! detection, the cycle test, and the connectivity check.

use vstd::prelude::*;
use crate::types::{
    Node, Edge, Graph, Clock, NodeInfo, InfoView, infos_view, edge_nodes, ids_concrete_eq,
    nodes_seq, lemma_edge_nodes_finite, lemma_nodes_seq_props, lemma_nodes_seq_len,
};
use crate::dfs::{
    node_set, unvisited_count, explore_spec, dfs_spec, explore, dfs_traverse, lemma_explore_props,
    lemma_node_set_finite, lemma_edge_nodes_card, lemma_uc_insert_unvisited,
};
use crate::sorting::{sort_infos_by_postorder, sorted_by_postorder_desc};

verus! {

/// The postorder number a traversal result assigns to a node: that of the
/// last record for the node, or zero when no record mentions the node.
pub open spec fn postorder_spec<T>(dfs: Seq<InfoView<T>>, node: Node<T>) -> int
    decreases dfs.len(),
{
    if dfs.len() == 0 {
        0
    } else if dfs.last().node == node {
        dfs.last().postorder
    } else {
        postorder_spec(dfs.drop_last(), node)
    }
}

/// The postorder number of `node` within a traversal result: a linear scan
/// where the last matching record wins, with zero as the sentinel for a
/// node the result does not mention.
pub fn postorder<T: PartialEq + Copy>(node: &Node<T>, dfs: &Vec<NodeInfo<T>>) -> (r: i32)
    requires
        ids_concrete_eq::<T>(),
    ensures
        r as int == postorder_spec(infos_view(dfs@), *node),
{
    let ghost view = infos_view(dfs@);
    let mut res: i32 = 0;
    let mut i: usize = 0;
    while i < dfs.len()
        invariant
            ids_concrete_eq::<T>(),
            view == infos_view(dfs@),
            i <= dfs@.len(),
            res as int == postorder_spec(view.subrange(0, i as int), *node),
        decreases dfs@.len() - i,
    {
        if dfs[i].node == *node {
            res = dfs[i].postorder;
        }
        proof {
            assert(view.subrange(0, i + 1 as int).drop_last() =~= view.subrange(0, i as int));
            assert(view.subrange(0, i + 1 as int).last() == view[i as int]);
        }
        i += 1;
    }
    proof {
        assert(view.subrange(0, view.len() as int) =~= view);
    }
    res
}

/// Whether, under a given traversal numbering, an edge runs from a node
/// that finishes strictly earlier to a node that finishes strictly later:
/// the back-edge test, and the sole cycle-detection primitive.
pub open spec fn is_back_edge<T>(dfs: Seq<InfoView<T>>, e: Edge<T>) -> bool {
    postorder_spec(dfs, e.source) < postorder_spec(dfs, e.dest)
}

/// The back edges of an edge list under a traversal result, each listed
/// once, in edge-list order.
pub open spec fn back_edges_spec<T>(edges: Seq<Edge<T>>, dfs: Seq<InfoView<T>>) -> Seq<Edge<T>>
    decreases edges.len(),
{
    if edges.len() == 0 {
        Seq::empty()
    } else {
        let prev = back_edges_spec(edges.drop_last(), dfs);
        let e = edges.last();
        if is_back_edge(dfs, e) && !prev.contains(e) {
            prev.push(e)
        } else {
            prev
        }
    }
}

/// An edge is listed among the back edges exactly when it is an edge of
/// the list and the back-edge test flags it.
pub proof fn lemma_back_edges_members<T>(edges: Seq<Edge<T>>, dfs: Seq<InfoView<T>>)
    ensures
        forall|e: Edge<T>| #[trigger] back_edges_spec(edges, dfs).contains(e) <==> (edges.contains(
            e,
        ) && is_back_edge(dfs, e)),
    decreases edges.len(),
{
    broadcast use vstd::seq_lib::lemma_seq_contains_after_push;

    if edges.len() > 0 {
        let prefix = edges.drop_last();
        lemma_back_edges_members(prefix, dfs);
        assert forall|e: Edge<T>| #[trigger] back_edges_spec(edges, dfs).contains(e) implies (
        edges.contains(e) && is_back_edge(dfs, e)) by {
            if back_edges_spec(prefix, dfs).contains(e) {
                let i = choose|i: int| 0 <= i < prefix.len() && prefix[i] == e;
                assert(edges[i] == e);
            } else {
                assert(edges[edges.len() - 1] == e);
            }
        }
        assert forall|e: Edge<T>| (edges.contains(e) && is_back_edge(dfs, e))
            implies #[trigger] back_edges_spec(edges, dfs).contains(e) by {
            let i = choose|i: int| 0 <= i < edges.len() && edges[i] == e;
            if i < edges.len() - 1 {
                assert(prefix[i] == e);
                assert(back_edges_spec(prefix, dfs).contains(e));
            } else {
                assert(edges.last() == e);
            }
        }
    }
}

/// Some back edge exists exactly when the listed back edges are not empty.
pub proof fn lemma_back_edges_nonempty<T>(edges: Seq<Edge<T>>, dfs: Seq<InfoView<T>>)
    ensures
        back_edges_spec(edges, dfs).len() > 0 <==> exists|i: int|
            0 <= i < edges.len() && is_back_edge(dfs, #[trigger] edges[i]),
    decreases edges.len(),
{
    broadcast use vstd::seq_lib::lemma_seq_contains_after_push;

    if edges.len() > 0 {
        let prefix = edges.drop_last();
        lemma_back_edges_nonempty(prefix, dfs);
        let prev = back_edges_spec(prefix, dfs);
        let e = edges.last();
        if back_edges_spec(edges, dfs).len() > 0 {
            if is_back_edge(dfs, e) {
                assert(edges[edges.len() - 1] == e);
            } else {
                let i = choose|i: int| 0 <= i < prefix.len() && is_back_edge(dfs, #[trigger] prefix[i]);
                assert(edges[i] == prefix[i]);
            }
        }
        if exists|i: int| 0 <= i < edges.len() && is_back_edge(dfs, #[trigger] edges[i]) {
            let i = choose|i: int| 0 <= i < edges.len() && is_back_edge(dfs, #[trigger] edges[i]);
            if i < edges.len() - 1 {
                assert(prefix[i] == edges[i]);
                assert(prev.len() > 0);
                assert(back_edges_spec(edges, dfs).len() >= prev.len());
            } else {
                assert(edges[i] == e);
                if !is_back_edge(dfs, e) {
                    assert(false);
                }
            }
        }
    }
}

/// Whether a vector of edges contains an edge; the vector stands for a set.
pub(crate) fn contains_edge<T: PartialEq + Copy>(v: &Vec<Edge<T>>, e: Edge<T>) -> (r: bool)
    requires
        ids_concrete_eq::<T>(),
    ensures
        r == v@.contains(e),
{
    let mut i: usize = 0;
    while i < v.len()
        invariant
            ids_concrete_eq::<T>(),
            i <= v@.len(),
            forall|k: int| 0 <= k < i ==> v@[k] != e,
        decreases v@.len() - i,
    {
        if v[i] == e {
            return true;
        }
        i += 1;
    }
    false
}

/// The edges of the graph that the given traversal result classifies as
/// back edges, each listed once, in edge-list order.
pub fn back_edges<T: PartialEq + Copy>(graph: &Graph<T>, dfs: &Vec<NodeInfo<T>>) -> (r: Vec<
    Edge<T>,
>)
    requires
        ids_concrete_eq::<T>(),
    ensures
        r@ == back_edges_spec(graph.edges@, infos_view(dfs@)),
{
    let ghost view = infos_view(dfs@);
    let mut result: Vec<Edge<T>> = Vec::new();
    let mut i: usize = 0;
    while i < graph.edges.len()
        invariant
            ids_concrete_eq::<T>(),
            view == infos_view(dfs@),
            i <= graph.edges@.len(),
            result@ == back_edges_spec(graph.edges@.subrange(0, i as int), view),
        decreases graph.edges@.len() - i,
    {
        let ghost done = graph.edges@.subrange(0, i as int);
        let ghost step = graph.edges@.subrange(0, i + 1 as int);
        let e = graph.edges[i];
        let po_src = postorder(&e.source, dfs);
        let po_dst = postorder(&e.dest, dfs);
        if po_src < po_dst {
            if !contains_edge(&result, e) {
                result.push(e);
            }
        }
        proof {
            assert(step.drop_last() =~= done);
            assert(step.last() == graph.edges@[i as int]);
        }
        i += 1;
    }
    proof {
        assert(graph.edges@.subrange(0, graph.edges@.len() as int) =~= graph.edges@);
    }
    result
}

/// Whether a full traversal of the graph leaves some edge pointing from an
/// earlier-finishing to a later-finishing node: the cycle signal.
pub open spec fn has_cycles_spec<T>(edges: Seq<Edge<T>>) -> bool {
    exists|i: int| 0 <= i < edges.len() && is_back_edge(dfs_spec(edges), #[trigger] edges[i])
}

/// Whether the graph is a directed acyclic graph: no full traversal leaves
/// a back edge.
pub open spec fn is_dag_spec<T>(edges: Seq<Edge<T>>) -> bool {
    !has_cycles_spec(edges)
}

/// In a traversal result that mentions no node twice, the lookup returns
/// the postorder number of the node's one record.
pub proof fn lemma_postorder_of_record<T>(dfs: Seq<InfoView<T>>, k: int)
    requires
        0 <= k < dfs.len(),
        forall|k1: int, k2: int|
            0 <= k1 < k2 < dfs.len() ==> (#[trigger] dfs[k1]).node != (#[trigger] dfs[k2]).node,
    ensures
        postorder_spec(dfs, dfs[k].node) == dfs[k].postorder,
    decreases dfs.len(),
{
    if k < dfs.len() - 1 {
        assert(dfs.last() == dfs[dfs.len() - 1]);
        let prefix = dfs.drop_last();
        assert forall|k1: int, k2: int| 0 <= k1 < k2 < prefix.len() implies (
        #[trigger] prefix[k1]).node != (#[trigger] prefix[k2]).node by {
            assert(prefix[k1] == dfs[k1]);
            assert(prefix[k2] == dfs[k2]);
        }
        assert(prefix[k] == dfs[k]);
        lemma_postorder_of_record(prefix, k);
    }
}

/// The reachability scan of the connectivity check: explore from each node
/// of the list with a fresh visited set and a shared clock, failing as soon
/// as one exploration reaches fewer nodes than the graph has.
pub open spec fn connected_loop_spec<T>(
    edges: Seq<Edge<T>>,
    nodes: Seq<Node<T>>,
    j: int,
    clock: int,
) -> bool
    decreases nodes.len() - j,
{
    if j < 0 || j >= nodes.len() {
        true
    } else {
        let (sub, c1) = explore_spec(edges, nodes[j], Set::empty(), clock, None);
        if node_set(sub).len() < edge_nodes(edges).len() {
            false
        } else {
            connected_loop_spec(edges, nodes, j + 1, c1)
        }
    }
}

/// Whether every node of the graph reaches every other node of the graph
/// along directed edges.
pub open spec fn connected_spec<T>(edges: Seq<Edge<T>>) -> bool {
    connected_loop_spec(edges, nodes_seq(edges), 0, 1)
}

/// The topological-sort result: the records of a full traversal, in
/// descending order of postorder number.
pub open spec fn top_sort_spec<T>(edges: Seq<Edge<T>>) -> Seq<InfoView<T>> {
    sort_infos_by_postorder(dfs_spec(edges))
}

/// The records of a full traversal, sorted descending by postorder number.
/// This is a valid topological order exactly when the graph is acyclic;
/// cyclic input is not rejected here, so callers that need the guarantee
/// check `is_dag` first.
pub fn top_sort<T: PartialEq + Copy>(graph: &Graph<T>) -> (r: Vec<NodeInfo<T>>)
    requires
        ids_concrete_eq::<T>(),
        4 * graph.edges@.len() + 3 <= i32::MAX,
    ensures
        infos_view(r@) == top_sort_spec(graph.edges@),
{
    let dfs = dfs_traverse(graph);
    sorted_by_postorder_desc(dfs)
}

impl<T: PartialEq + Copy> Graph<T> {
    /// Whether the graph has a cycle: true exactly when a full traversal
    /// leaves a back edge.
    pub fn has_cycles(&self) -> (r: bool)
        requires
            ids_concrete_eq::<T>(),
            4 * self.edges@.len() + 3 <= i32::MAX,
        ensures
            r == has_cycles_spec(self.edges@),
    {
        let dfs = dfs_traverse(self);
        let be = back_edges(self, &dfs);
        proof {
            lemma_back_edges_nonempty(self.edges@, infos_view(dfs@));
        }
        be.len() > 0
    }

    /// Whether the graph is a directed acyclic graph: the negation of the
    /// cycle test.
    pub fn is_dag(&self) -> (r: bool)
        requires
            ids_concrete_eq::<T>(),
            4 * self.edges@.len() + 3 <= i32::MAX,
        ensures
            r == is_dag_spec(self.edges@),
    {
        !self.has_cycles()
    }

    /// Whether every node of the graph can reach every other node. Each
    /// node starts an independent exploration with a fresh visited set; the
    /// clock is shared across the whole check, so the edge bound keeps its
    /// final value representable.
    pub fn connected(&self) -> (r: bool)
        requires
            ids_concrete_eq::<T>(),
            8 * self.edges@.len() * self.edges@.len() + 4 * self.edges@.len() + 1 <= i32::MAX,
        ensures
            r == connected_spec(self.edges@),
    {
        broadcast use vstd::seq_lib::seq_to_set_is_finite;
        broadcast use vstd::set::group_set_axioms;

        let ghost edges = self.edges@;
        let ghost ec = edges.len() as int;
        let mut clock = Clock(1);
        let num_nodes = self.nodes().len();
        let node_list = self.nodes();
        let ghost nn = node_list@.len() as int;
        proof {
            lemma_nodes_seq_len(edges);
            lemma_nodes_seq_props(edges);
            lemma_edge_nodes_card(edges);
            lemma_edge_nodes_finite(edges);
            assert(1 + 2 * nn * (nn - 0) <= i32::MAX) by (nonlinear_arith)
                requires
                    0 <= nn,
                    0 <= ec,
                    nn <= 2 * ec,
                    8 * ec * ec + 4 * ec + 1 <= i32::MAX,
            ;
        }
        let mut j: usize = 0;
        while j < node_list.len()
            invariant
                ids_concrete_eq::<T>(),
                edges == self.edges@,
                node_list@ == nodes_seq(edges),
                nn == node_list@.len() as int,
                nn == edge_nodes(edges).len(),
                num_nodes == nn,
                j <= node_list@.len(),
                forall|k: int|
                    0 <= k < node_list@.len() ==> edge_nodes(edges).contains(
                        #[trigger] node_list@[k],
                    ),
                clock.0 as int + 2 * nn * (nn - j) <= i32::MAX,
                clock.0 >= 1,
                connected_spec(edges) == connected_loop_spec(
                    edges,
                    nodes_seq(edges),
                    j as int,
                    clock.0 as int,
                ),
            decreases node_list@.len() - j,
        {
            let node = node_list[j];
            let ghost c_cur = clock.0 as int;
            let mut visited: Vec<Node<T>> = Vec::new();
            proof {
                lemma_edge_nodes_finite(edges);
                assert(visited@.to_set() =~= Set::<Node<T>>::empty());
                lemma_uc_insert_unvisited(edges, Set::empty(), node);
                assert(edge_nodes(edges).difference(Set::empty()) =~= edge_nodes(edges));
                assert(unvisited_count(edges, Set::empty()) == nn);
                lemma_explore_props(edges, node, Set::empty(), c_cur, None);
                lemma_node_set_finite(explore_spec(edges, node, Set::empty(), c_cur, None).0);
                let sub = explore_spec(edges, node, Set::empty(), c_cur, None).0;
                vstd::set_lib::lemma_len_subset(node_set(sub), edge_nodes(edges).insert(node));
                assert(edge_nodes(edges).insert(node) =~= edge_nodes(edges));
                assert(2 * nn * (nn - j) == 2 * nn + 2 * nn * (nn - (j + 1))) by (nonlinear_arith);
            }
            let res = explore(self, node, &mut visited, &mut clock, None);
            if visited.len() < num_nodes {
                return false;
            }
            j += 1;
        }
        true
    }
}

} // verus!
