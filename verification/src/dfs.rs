//! Depth-first traversal with postorder numbering: the mathematical model
//! of one exploration, its key properties, and the executable traversal.

use vstd::prelude::*;
use crate::types::{
    Node, Edge, Graph, Clock, NodeInfo, InfoView, infos_view, edge_nodes, is_endpoint,
    nodes_seq, ids_concrete_eq, contains_node, lemma_edge_nodes_finite, lemma_edge_nodes_members,
    lemma_nodes_seq_props,
};

verus! {

/// The set of nodes that a sequence of traversal records mentions.
pub open spec fn node_set<T>(infos: Seq<InfoView<T>>) -> Set<Node<T>>
    decreases infos.len(),
{
    if infos.len() == 0 {
        Set::empty()
    } else {
        node_set(infos.drop_last()).insert(infos.last().node)
    }
}

pub proof fn lemma_node_set_finite<T>(infos: Seq<InfoView<T>>)
    ensures
        node_set(infos).finite(),
        node_set(infos).len() <= infos.len(),
    decreases infos.len(),
{
    broadcast use vstd::set::axiom_set_insert_len;

    if infos.len() > 0 {
        lemma_node_set_finite(infos.drop_last());
    }
}

pub proof fn lemma_node_set_members<T>(infos: Seq<InfoView<T>>)
    ensures
        forall|n: Node<T>| #[trigger] node_set(infos).contains(n) <==> exists|k: int|
            0 <= k < infos.len() && (#[trigger] infos[k]).node == n,
    decreases infos.len(),
{
    if infos.len() > 0 {
        let prefix = infos.drop_last();
        lemma_node_set_members(prefix);
        assert forall|n: Node<T>| #[trigger] node_set(infos).contains(n) implies exists|k: int|
            0 <= k < infos.len() && (#[trigger] infos[k]).node == n by {
            if node_set(prefix).contains(n) {
                let k = choose|k: int| 0 <= k < prefix.len() && (#[trigger] prefix[k]).node == n;
                assert(infos[k].node == n);
            } else {
                assert(infos[infos.len() - 1].node == n);
            }
        }
        assert forall|n: Node<T>|
            (exists|k: int| 0 <= k < infos.len() && (#[trigger] infos[k]).node == n)
            implies #[trigger] node_set(infos).contains(n) by {
            let k = choose|k: int| 0 <= k < infos.len() && (#[trigger] infos[k]).node == n;
            if k < infos.len() - 1 {
                assert(prefix[k].node == n);
                assert(node_set(prefix).contains(n));
            } else {
                assert(infos.last().node == n);
            }
        }
    }
}

/// The nodes of a concatenation are the union of the nodes of the parts.
pub proof fn lemma_node_set_concat<T>(a: Seq<InfoView<T>>, b: Seq<InfoView<T>>)
    ensures
        node_set(a + b) =~= node_set(a).union(node_set(b)),
    decreases b.len(),
{
    if b.len() == 0 {
        assert(a + b =~= a);
    } else {
        lemma_node_set_concat(a, b.drop_last());
        assert((a + b).drop_last() =~= a + b.drop_last());
        assert((a + b).last() == b.last());
    }
}

/// How many graph nodes a visited set still misses.
pub open spec fn unvisited_count<T>(edges: Seq<Edge<T>>, visited: Set<Node<T>>) -> nat {
    edge_nodes(edges).difference(visited).len()
}

/// Visiting an unvisited endpoint lowers the count of unvisited nodes by one.
pub proof fn lemma_uc_insert_unvisited<T>(edges: Seq<Edge<T>>, visited: Set<Node<T>>, d: Node<T>)
    requires
        edge_nodes(edges).contains(d),
        !visited.contains(d),
    ensures
        unvisited_count(edges, visited.insert(d)) + 1 == unvisited_count(edges, visited),
{
    broadcast use vstd::set::axiom_set_remove_len;
    broadcast use vstd::set::axiom_set_difference_finite;

    lemma_edge_nodes_finite(edges);
    let a = edge_nodes(edges);
    assert(a.difference(visited.insert(d)) =~= a.difference(visited).remove(d));
    assert(a.difference(visited).contains(d));
}

/// Widening the visited set can only lower the count of unvisited nodes.
pub proof fn lemma_uc_union_le<T>(edges: Seq<Edge<T>>, visited: Set<Node<T>>, x: Set<Node<T>>)
    ensures
        unvisited_count(edges, visited.union(x)) <= unvisited_count(edges, visited),
{
    broadcast use vstd::set::axiom_set_difference_finite;

    lemma_edge_nodes_finite(edges);
    let a = edge_nodes(edges);
    vstd::set_lib::lemma_len_subset(a.difference(visited.union(x)), a.difference(visited));
}

/// One exploration from `start`: `start` is marked visited and the clock
/// advances on entry; every edge is scanned in order, and each edge leaving
/// `start` toward an unvisited node spawns a nested exploration; finally
/// `start` receives the current clock value as its postorder number and the
/// clock advances again. Returns the records of the explored subtree, the
/// record of `start` last, and the clock value after the exploration.
pub open spec fn explore_spec<T>(
    edges: Seq<Edge<T>>,
    start: Node<T>,
    visited: Set<Node<T>>,
    clock: int,
    parent: Option<Node<T>>,
) -> (Seq<InfoView<T>>, int)
    decreases unvisited_count(edges, visited.insert(start)) as int + 1, 0int, 0int,
{
    let (subs, cl) = explore_loop_spec(edges, 0, start, visited.insert(start), clock + 1);
    (subs.push(InfoView { node: start, parent, postorder: cl }), cl + 1)
}

/// The edge scan of one exploration, from edge index `i` on.
pub open spec fn explore_loop_spec<T>(
    edges: Seq<Edge<T>>,
    i: int,
    start: Node<T>,
    visited: Set<Node<T>>,
    clock: int,
) -> (Seq<InfoView<T>>, int)
    decreases unvisited_count(edges, visited) as int, 1int, edges.len() - i,
        via explore_loop_spec_decreases::<T>
{
    if i < 0 || i >= edges.len() {
        (Seq::empty(), clock)
    } else if edges[i].source == start && !visited.contains(edges[i].dest) {
        let (sub, c1) = explore_spec(edges, edges[i].dest, visited, clock, Some(start));
        let (rest, c2) = explore_loop_spec(edges, i + 1, start, visited.union(node_set(sub)), c1);
        (sub + rest, c2)
    } else {
        explore_loop_spec(edges, i + 1, start, visited, clock)
    }
}

#[via_fn]
proof fn explore_loop_spec_decreases<T>(
    edges: Seq<Edge<T>>,
    i: int,
    start: Node<T>,
    visited: Set<Node<T>>,
    clock: int,
) {
    if 0 <= i < edges.len() {
        let e = edges[i];
        if e.source == start && !visited.contains(e.dest) {
            lemma_edge_nodes_members(edges);
            assert(is_endpoint(edges, e.dest));
            lemma_uc_insert_unvisited(edges, visited, e.dest);
            assert forall|x: Set<Node<T>>|
                #[trigger] unvisited_count(edges, visited.union(x))
                    <= unvisited_count(edges, visited) by {
                lemma_uc_union_le(edges, visited, x);
            }
        }
    }
}

/// What one exploration guarantees: it records `start` last, with the final
/// clock value less one as its postorder number; it records only endpoints
/// of the graph and `start`, none of them previously visited and none of
/// them twice; postorder numbers rise strictly in record order and lie
/// strictly between the entry and exit clock values; and the clock advances
/// by exactly two per recorded node.
pub proof fn lemma_explore_props<T>(
    edges: Seq<Edge<T>>,
    start: Node<T>,
    visited: Set<Node<T>>,
    clock: int,
    parent: Option<Node<T>>,
)
    requires
        visited.finite(),
        !visited.contains(start),
    ensures
        ({
            let (infos, c2) = explore_spec(edges, start, visited, clock, parent);
            &&& infos.len() >= 1
            &&& infos.last() == (InfoView { node: start, parent, postorder: c2 - 1 })
            &&& node_set(infos).subset_of(edge_nodes(edges).insert(start))
            &&& node_set(infos).disjoint(visited)
            &&& node_set(infos).contains(start)
            &&& forall|k: int|
                0 <= k < infos.len() ==> clock + 1 <= (#[trigger] infos[k]).postorder <= c2 - 1
            &&& forall|k1: int, k2: int|
                0 <= k1 < k2 < infos.len() ==> (#[trigger] infos[k1]).postorder < (
                #[trigger] infos[k2]).postorder
            &&& forall|k1: int, k2: int|
                0 <= k1 < k2 < infos.len() ==> (#[trigger] infos[k1]).node != (
                #[trigger] infos[k2]).node
            &&& c2 == clock + 2 * infos.len()
            &&& node_set(infos).len() == infos.len()
        }),
    decreases unvisited_count(edges, visited.insert(start)) as int + 1, 0int, 0int,
{
    broadcast use vstd::set::group_set_axioms;
    broadcast use vstd::set_lib::lemma_set_disjoint_lens;

    let v1 = visited.insert(start);
    lemma_explore_loop_props(edges, 0, start, v1, clock + 1);
    let r = explore_loop_spec(edges, 0, start, v1, clock + 1);
    let subs = r.0;
    let cl = r.1;
    let infos = subs.push(InfoView { node: start, parent, postorder: cl });
    assert(infos.drop_last() =~= subs);
    lemma_node_set_members(subs);
    lemma_node_set_finite(subs);
    assert forall|k1: int, k2: int| 0 <= k1 < k2 < infos.len() implies (
    #[trigger] infos[k1]).node != (#[trigger] infos[k2]).node by {
        if k2 == infos.len() - 1 {
            assert(node_set(subs).contains(subs[k1].node));
        }
    }
}

/// What the edge scan guarantees from edge index `i` on, with the same
/// reading as for one whole exploration; the scan records no node at all
/// when every edge leaving `start` points at a visited node.
pub proof fn lemma_explore_loop_props<T>(
    edges: Seq<Edge<T>>,
    i: int,
    start: Node<T>,
    visited: Set<Node<T>>,
    clock: int,
)
    requires
        visited.finite(),
    ensures
        ({
            let (infos, c2) = explore_loop_spec(edges, i, start, visited, clock);
            &&& node_set(infos).subset_of(edge_nodes(edges))
            &&& node_set(infos).disjoint(visited)
            &&& forall|k: int|
                0 <= k < infos.len() ==> clock + 1 <= (#[trigger] infos[k]).postorder <= c2 - 1
            &&& forall|k1: int, k2: int|
                0 <= k1 < k2 < infos.len() ==> (#[trigger] infos[k1]).postorder < (
                #[trigger] infos[k2]).postorder
            &&& forall|k1: int, k2: int|
                0 <= k1 < k2 < infos.len() ==> (#[trigger] infos[k1]).node != (
                #[trigger] infos[k2]).node
            &&& c2 == clock + 2 * infos.len()
            &&& node_set(infos).len() == infos.len()
        }),
    decreases unvisited_count(edges, visited) as int, 1int, edges.len() - i,
{
    broadcast use vstd::set::group_set_axioms;
    broadcast use vstd::set_lib::lemma_set_disjoint_lens;

    if i < 0 || i >= edges.len() {
    } else if edges[i].source == start && !visited.contains(edges[i].dest) {
        let e = edges[i];
        lemma_edge_nodes_members(edges);
        assert(is_endpoint(edges, e.dest));
        lemma_uc_insert_unvisited(edges, visited, e.dest);
        lemma_explore_props(edges, e.dest, visited, clock, Some(start));
        let r1 = explore_spec(edges, e.dest, visited, clock, Some(start));
        let sub = r1.0;
        let c1 = r1.1;
        lemma_node_set_finite(sub);
        lemma_node_set_members(sub);
        let v2 = visited.union(node_set(sub));
        lemma_uc_union_le(edges, visited, node_set(sub));
        lemma_explore_loop_props(edges, i + 1, start, v2, c1);
        let r2 = explore_loop_spec(edges, i + 1, start, v2, c1);
        let rest = r2.0;
        let c2 = r2.1;
        let infos = sub + rest;
        lemma_node_set_concat(sub, rest);
        lemma_node_set_members(rest);
        assert(node_set(sub).subset_of(edge_nodes(edges)));
        assert forall|k1: int, k2: int| 0 <= k1 < k2 < infos.len() implies (
        #[trigger] infos[k1]).node != (#[trigger] infos[k2]).node by {
            if k1 < sub.len() && k2 >= sub.len() {
                assert(infos[k1] == sub[k1]);
                assert(infos[k2] == rest[k2 - sub.len()]);
                assert(node_set(sub).contains(sub[k1].node));
                assert(node_set(rest).contains(rest[k2 - sub.len()].node));
                assert(node_set(rest).disjoint(v2));
            }
        }
        assert forall|k1: int, k2: int| 0 <= k1 < k2 < infos.len() implies (
        #[trigger] infos[k1]).postorder < (#[trigger] infos[k2]).postorder by {
            if k1 < sub.len() && k2 >= sub.len() {
                assert(infos[k1] == sub[k1]);
                assert(infos[k2] == rest[k2 - sub.len()]);
            }
        }
        assert(node_set(infos).len() == infos.len()) by {
            lemma_node_set_finite(rest);
            assert(node_set(infos) =~= node_set(sub) + node_set(rest));
            assert(node_set(sub).disjoint(node_set(rest)));
            vstd::set_lib::lemma_set_disjoint_lens(node_set(sub), node_set(rest));
        }
    } else {
        lemma_explore_loop_props(edges, i + 1, start, visited, clock);
    }
}

/// Filling the visited set with nodes of the graph lowers the count of
/// unvisited nodes by exactly their number.
pub proof fn lemma_uc_union_subtract<T>(
    edges: Seq<Edge<T>>,
    visited: Set<Node<T>>,
    x: Set<Node<T>>,
)
    requires
        x.finite(),
        x.subset_of(edge_nodes(edges)),
        x.disjoint(visited),
    ensures
        unvisited_count(edges, visited.union(x)) + x.len() == unvisited_count(edges, visited),
{
    broadcast use vstd::set::group_set_axioms;

    lemma_edge_nodes_finite(edges);
    let a = edge_nodes(edges);
    assert(a.difference(visited) =~= a.difference(visited.union(x)) + x);
    assert(a.difference(visited.union(x)).disjoint(x));
    vstd::set_lib::lemma_set_disjoint_lens(a.difference(visited.union(x)), x);
}

/// The view of a concatenation of records is the concatenation of the views.
pub proof fn lemma_infos_view_concat<T>(a: Seq<NodeInfo<T>>, b: Seq<NodeInfo<T>>)
    ensures
        infos_view(a + b) == infos_view(a) + infos_view(b),
{
    assert(infos_view(a + b) =~= infos_view(a) + infos_view(b));
}

/// One exploration from `start`, mirroring `explore_spec` exactly: it marks
/// `start` visited, advances the clock, explores every yet unvisited node an
/// edge leads to from `start`, and finally records `start` with the current
/// clock value as postorder number, advancing the clock once more. `start`
/// must not be visited yet — every traversal calls it so — and the clock
/// bound keeps every timestamp representable.
pub fn explore<T: PartialEq + Copy>(
    graph: &Graph<T>,
    start: Node<T>,
    visited: &mut Vec<Node<T>>,
    clock: &mut Clock,
    parent: Option<Node<T>>,
) -> (result: Vec<NodeInfo<T>>)
    requires
        ids_concrete_eq::<T>(),
        !old(visited)@.contains(start),
        old(clock).0 + 2 * unvisited_count(
            graph.edges@,
            old(visited)@.to_set().insert(start),
        ) + 2 <= i32::MAX,
    ensures
        infos_view(result@) == explore_spec(
            graph.edges@,
            start,
            old(visited)@.to_set(),
            old(clock).0 as int,
            parent,
        ).0,
        final(clock).0 as int == explore_spec(
            graph.edges@,
            start,
            old(visited)@.to_set(),
            old(clock).0 as int,
            parent,
        ).1,
        final(visited)@.to_set() == old(visited)@.to_set().union(node_set(infos_view(result@))),
        final(visited)@.len() == old(visited)@.len() + result@.len(),
        old(visited)@.no_duplicates() ==> final(visited)@.no_duplicates(),
    decreases unvisited_count(graph.edges@, old(visited)@.to_set().insert(start)),
{
    broadcast use vstd::seq_lib::seq_to_set_is_finite;
    broadcast use vstd::seq_lib::lemma_seq_contains_after_push;
    broadcast use vstd::set::group_set_axioms;

    let ghost edges = graph.edges@;
    let ghost v0 = old(visited)@.to_set();
    let ghost c0 = old(clock).0 as int;
    let ghost v1 = v0.insert(start);
    let mut result: Vec<NodeInfo<T>> = Vec::new();
    proof {
        if old(visited)@.no_duplicates() {
            crate::types::lemma_push_distinct(old(visited)@, start);
        }
    }
    visited.push(start);
    clock.0 = clock.0 + 1;
    proof {
        assert(visited@.to_set() =~= v1);
        assert(v1.union(node_set(infos_view(result@))) =~= v1);
        assert(infos_view(result@) + explore_loop_spec(edges, 0, start, v1, c0 + 1).0
            =~= explore_loop_spec(edges, 0, start, v1, c0 + 1).0);
    }
    let mut i: usize = 0;
    while i < graph.edges.len()
        invariant
            ids_concrete_eq::<T>(),
            edges == graph.edges@,
            v0 == old(visited)@.to_set(),
            v1 == v0.insert(start),
            c0 == old(clock).0 as int,
            i <= edges.len(),
            visited@.to_set() == v1.union(node_set(infos_view(result@))),
            visited@.len() == old(visited)@.len() + 1 + result@.len(),
            old(visited)@.no_duplicates() ==> visited@.no_duplicates(),
            clock.0 as int + 2 * unvisited_count(edges, visited@.to_set()) as int + 1
                <= i32::MAX,
            clock.0 >= c0 + 1,
            explore_loop_spec(edges, 0, start, v1, c0 + 1) == (
                infos_view(result@) + explore_loop_spec(
                    edges,
                    i as int,
                    start,
                    visited@.to_set(),
                    clock.0 as int,
                ).0,
                explore_loop_spec(edges, i as int, start, visited@.to_set(), clock.0 as int).1,
            ),
        decreases edges.len() - i,
    {
        let ghost v_cur = visited@.to_set();
        let ghost c_cur = clock.0 as int;
        let e = graph.edges[i];
        if e.source == start {
            if !contains_node(visited, e.dest) {
                proof {
                    lemma_edge_nodes_members(edges);
                    assert(is_endpoint(edges, e.dest));
                    lemma_uc_insert_unvisited(edges, v_cur, e.dest);
                    assert(v_cur == v1.union(node_set(infos_view(result@))));
                    lemma_uc_union_le(edges, v1, node_set(infos_view(result@)));
                    lemma_explore_props(edges, e.dest, v_cur, c_cur, Some(start));
                    lemma_node_set_finite(explore_spec(edges, e.dest, v_cur, c_cur, Some(start)).0);
                    assert(unvisited_count(edges, visited@.to_set().insert(e.dest)) + 1
                        == unvisited_count(edges, v_cur));
                    assert(unvisited_count(edges, v_cur) <= unvisited_count(edges, v1));
                    assert(unvisited_count(edges, v1) <= unvisited_count(
                        edges,
                        old(visited)@.to_set().insert(start),
                    ));
                }
                let ghost sub = explore_spec(edges, e.dest, v_cur, c_cur, Some(start)).0;
                let mut next_layer = explore(graph, e.dest, visited, clock, Some(start));
                proof {
                    assert(node_set(sub).subset_of(edge_nodes(edges))) by {
                        assert(edge_nodes(edges).contains(e.dest));
                        assert(node_set(sub).subset_of(edge_nodes(edges).insert(e.dest)));
                        assert(edge_nodes(edges).insert(e.dest) =~= edge_nodes(edges));
                    }
                    lemma_uc_union_subtract(edges, v_cur, node_set(sub));
                    lemma_infos_view_concat(result@, next_layer@);
                    lemma_node_set_concat(infos_view(result@), sub);
                    assert(v1.union(node_set(infos_view(result@))).union(node_set(sub))
                        =~= v1.union(node_set(infos_view(result@) + sub)));
                }
                result.append(&mut next_layer);
            }
        }
        proof {
            assert(infos_view(result@) + explore_loop_spec(
                edges,
                i + 1,
                start,
                visited@.to_set(),
                clock.0 as int,
            ).0 =~= explore_loop_spec(edges, 0, start, v1, c0 + 1).0);
        }
        i += 1;
    }
    let info = NodeInfo { node: start, postorder: clock.0, parent };
    let ghost subs = infos_view(result@);
    result.push(info);
    clock.0 = clock.0 + 1;
    proof {
        assert(subs + Seq::<InfoView<T>>::empty() =~= subs);
        assert(infos_view(result@) =~= subs.push(info@));
        assert(subs.push(info@).drop_last() =~= subs);
        assert(node_set(subs.push(info@)) == node_set(subs).insert(info@.node));
        assert(visited@.to_set() =~= v0.union(node_set(infos_view(result@))));
    }
    result
}

/// A graph has at most two distinct endpoints per edge.
pub proof fn lemma_edge_nodes_card<T>(edges: Seq<Edge<T>>)
    ensures
        edge_nodes(edges).len() <= 2 * edges.len(),
    decreases edges.len(),
{
    broadcast use vstd::set::axiom_set_insert_len;

    if edges.len() > 0 {
        lemma_edge_nodes_card(edges.drop_last());
        lemma_edge_nodes_finite(edges.drop_last());
    }
}

/// The forest scan of the full traversal: for every node of the list from
/// index `j` on that is not yet visited, one exploration rooted there, with
/// the clock shared across the whole scan.
pub open spec fn dfs_loop_spec<T>(
    edges: Seq<Edge<T>>,
    nodes: Seq<Node<T>>,
    j: int,
    visited: Set<Node<T>>,
    clock: int,
) -> (Seq<InfoView<T>>, int)
    decreases nodes.len() - j,
{
    if j < 0 || j >= nodes.len() {
        (Seq::empty(), clock)
    } else if visited.contains(nodes[j]) {
        dfs_loop_spec(edges, nodes, j + 1, visited, clock)
    } else {
        let (sub, c1) = explore_spec(edges, nodes[j], visited, clock, None);
        let (rest, c2) = dfs_loop_spec(edges, nodes, j + 1, visited.union(node_set(sub)), c1);
        (sub + rest, c2)
    }
}

/// The full depth-first traversal of a graph: a forest of explorations
/// rooted at every node not reached from an earlier root, with the clock
/// starting at one.
pub open spec fn dfs_spec<T>(edges: Seq<Edge<T>>) -> Seq<InfoView<T>> {
    dfs_loop_spec(edges, nodes_seq(edges), 0, Set::empty(), 1).0
}

/// What the forest scan guarantees: beyond the guarantees of each rooted
/// exploration, it reaches every listed node from index `j` on.
pub proof fn lemma_dfs_loop_props<T>(
    edges: Seq<Edge<T>>,
    nodes: Seq<Node<T>>,
    j: int,
    visited: Set<Node<T>>,
    clock: int,
)
    requires
        0 <= j,
        visited.finite(),
        forall|k: int| 0 <= k < nodes.len() ==> edge_nodes(edges).contains(#[trigger] nodes[k]),
    ensures
        ({
            let (infos, c2) = dfs_loop_spec(edges, nodes, j, visited, clock);
            &&& node_set(infos).subset_of(edge_nodes(edges))
            &&& node_set(infos).disjoint(visited)
            &&& forall|k: int|
                j <= k < nodes.len() ==> visited.union(node_set(infos)).contains(
                    #[trigger] nodes[k],
                )
            &&& forall|k: int|
                0 <= k < infos.len() ==> clock + 1 <= (#[trigger] infos[k]).postorder <= c2 - 1
            &&& forall|k1: int, k2: int|
                0 <= k1 < k2 < infos.len() ==> (#[trigger] infos[k1]).postorder < (
                #[trigger] infos[k2]).postorder
            &&& forall|k1: int, k2: int|
                0 <= k1 < k2 < infos.len() ==> (#[trigger] infos[k1]).node != (
                #[trigger] infos[k2]).node
            &&& c2 == clock + 2 * infos.len()
            &&& node_set(infos).len() == infos.len()
        }),
    decreases nodes.len() - j,
{
    broadcast use vstd::set::group_set_axioms;
    broadcast use vstd::set_lib::lemma_set_disjoint_lens;

    if j < 0 || j >= nodes.len() {
    } else if visited.contains(nodes[j]) {
        lemma_dfs_loop_props(edges, nodes, j + 1, visited, clock);
    } else {
        lemma_explore_props(edges, nodes[j], visited, clock, None);
        let r1 = explore_spec(edges, nodes[j], visited, clock, None);
        let sub = r1.0;
        let c1 = r1.1;
        lemma_node_set_finite(sub);
        lemma_node_set_members(sub);
        let v2 = visited.union(node_set(sub));
        lemma_dfs_loop_props(edges, nodes, j + 1, v2, c1);
        let r2 = dfs_loop_spec(edges, nodes, j + 1, v2, c1);
        let rest = r2.0;
        let c2 = r2.1;
        let infos = sub + rest;
        lemma_node_set_concat(sub, rest);
        lemma_node_set_members(rest);
        assert(node_set(sub).subset_of(edge_nodes(edges))) by {
            assert(edge_nodes(edges).insert(nodes[j]) =~= edge_nodes(edges));
        }
        assert forall|k1: int, k2: int| 0 <= k1 < k2 < infos.len() implies (
        #[trigger] infos[k1]).node != (#[trigger] infos[k2]).node by {
            if k1 < sub.len() && k2 >= sub.len() {
                assert(infos[k1] == sub[k1]);
                assert(infos[k2] == rest[k2 - sub.len()]);
                assert(node_set(sub).contains(sub[k1].node));
                assert(node_set(rest).contains(rest[k2 - sub.len()].node));
                assert(node_set(rest).disjoint(v2));
            }
        }
        assert forall|k1: int, k2: int| 0 <= k1 < k2 < infos.len() implies (
        #[trigger] infos[k1]).postorder < (#[trigger] infos[k2]).postorder by {
            if k1 < sub.len() && k2 >= sub.len() {
                assert(infos[k1] == sub[k1]);
                assert(infos[k2] == rest[k2 - sub.len()]);
            }
        }
        assert(node_set(infos).len() == infos.len()) by {
            lemma_node_set_finite(rest);
            assert(node_set(infos) =~= node_set(sub) + node_set(rest));
            assert(node_set(sub).disjoint(node_set(rest)));
            vstd::set_lib::lemma_set_disjoint_lens(node_set(sub), node_set(rest));
        }
        assert forall|k: int| j <= k < nodes.len() implies visited.union(node_set(infos)).contains(
            #[trigger] nodes[k],
        ) by {
            if k == j {
                assert(node_set(sub).contains(nodes[j]));
            } else {
                assert(v2.union(node_set(rest)).contains(nodes[k]));
            }
        }
    }
}

/// What the full traversal guarantees: it records every node of the graph
/// exactly once, with pairwise distinct postorder numbers that rise in
/// record order and lie between two and twice the number of nodes.
pub proof fn lemma_dfs_props<T>(edges: Seq<Edge<T>>)
    ensures
        ({
            let infos = dfs_spec(edges);
            &&& node_set(infos) == edge_nodes(edges)
            &&& infos.len() == edge_nodes(edges).len()
            &&& forall|k: int|
                0 <= k < infos.len() ==> 2 <= (#[trigger] infos[k]).postorder <= 2 * infos.len()
            &&& forall|k1: int, k2: int|
                0 <= k1 < k2 < infos.len() ==> (#[trigger] infos[k1]).postorder < (
                #[trigger] infos[k2]).postorder
            &&& forall|k1: int, k2: int|
                0 <= k1 < k2 < infos.len() ==> (#[trigger] infos[k1]).node != (
                #[trigger] infos[k2]).node
        }),
{
    broadcast use vstd::set::group_set_axioms;

    let nodes = nodes_seq(edges);
    lemma_nodes_seq_props(edges);
    lemma_edge_nodes_members(edges);
    lemma_dfs_loop_props(edges, nodes, 0, Set::empty(), 1);
    let infos = dfs_spec(edges);
    lemma_node_set_members(infos);
    assert(node_set(infos) =~= edge_nodes(edges)) by {
        assert forall|n: Node<T>| #[trigger] edge_nodes(edges).contains(n) implies node_set(
            infos,
        ).contains(n) by {
            assert(nodes.contains(n));
            let k = choose|k: int| 0 <= k < nodes.len() && nodes[k] == n;
            assert(Set::empty().union(node_set(infos)).contains(nodes[k]));
        }
    }
}

/// The full depth-first traversal, mirroring `dfs_spec`: every node of the
/// graph not yet reached from an earlier root starts a fresh exploration,
/// with one clock shared across the whole forest. Every node of the graph
/// appears in the result exactly once.
pub fn dfs_traverse<T: PartialEq + Copy>(graph: &Graph<T>) -> (result: Vec<NodeInfo<T>>)
    requires
        ids_concrete_eq::<T>(),
        4 * graph.edges@.len() + 3 <= i32::MAX,
    ensures
        infos_view(result@) == dfs_spec(graph.edges@),
        result@.len() == edge_nodes(graph.edges@).len(),
{
    broadcast use vstd::seq_lib::seq_to_set_is_finite;
    broadcast use vstd::set::group_set_axioms;

    let ghost edges = graph.edges@;
    let node_list = graph.nodes();
    let mut visited: Vec<Node<T>> = Vec::new();
    let mut clock = Clock(1);
    let mut result: Vec<NodeInfo<T>> = Vec::new();
    proof {
        lemma_edge_nodes_card(edges);
        lemma_edge_nodes_finite(edges);
        lemma_nodes_seq_props(edges);
        lemma_edge_nodes_members(edges);
        assert(visited@.to_set() =~= Set::empty());
        assert(visited@.to_set() =~= node_set(infos_view(result@)));
        assert(Set::<Node<T>>::empty().difference(Set::empty()) =~= Set::empty());
        assert(edge_nodes(edges).difference(Set::empty()) =~= edge_nodes(edges));
        assert(infos_view(result@) + dfs_loop_spec(edges, nodes_seq(edges), 0, Set::empty(), 1).0
            =~= dfs_loop_spec(edges, nodes_seq(edges), 0, Set::empty(), 1).0);
    }
    let mut j: usize = 0;
    while j < node_list.len()
        invariant
            ids_concrete_eq::<T>(),
            edges == graph.edges@,
            node_list@ == nodes_seq(edges),
            j <= node_list@.len(),
            forall|k: int|
                0 <= k < node_list@.len() ==> edge_nodes(edges).contains(#[trigger] node_list@[k]),
            visited@.to_set() == node_set(infos_view(result@)),
            visited@.no_duplicates(),
            clock.0 as int + 2 * unvisited_count(edges, visited@.to_set()) as int <= i32::MAX,
            dfs_loop_spec(edges, nodes_seq(edges), 0, Set::empty(), 1) == (
                infos_view(result@) + dfs_loop_spec(
                    edges,
                    nodes_seq(edges),
                    j as int,
                    visited@.to_set(),
                    clock.0 as int,
                ).0,
                dfs_loop_spec(
                    edges,
                    nodes_seq(edges),
                    j as int,
                    visited@.to_set(),
                    clock.0 as int,
                ).1,
            ),
        decreases node_list@.len() - j,
    {
        let node = node_list[j];
        let ghost v_cur = visited@.to_set();
        let ghost c_cur = clock.0 as int;
        if !contains_node(&visited, node) {
            proof {
                assert(edge_nodes(edges).contains(node));
                lemma_uc_insert_unvisited(edges, v_cur, node);
                lemma_explore_props(edges, node, v_cur, c_cur, None);
                lemma_node_set_finite(explore_spec(edges, node, v_cur, c_cur, None).0);
            }
            let ghost sub = explore_spec(edges, node, v_cur, c_cur, None).0;
            let mut dfs_res = explore(graph, node, &mut visited, &mut clock, None);
            proof {
                assert(node_set(sub).subset_of(edge_nodes(edges))) by {
                    assert(edge_nodes(edges).insert(node) =~= edge_nodes(edges));
                }
                lemma_uc_union_subtract(edges, v_cur, node_set(sub));
                lemma_infos_view_concat(result@, dfs_res@);
                lemma_node_set_concat(infos_view(result@), sub);
                assert(node_set(infos_view(result@)).union(node_set(sub)) =~= node_set(
                    infos_view(result@) + sub,
                ));
            }
            result.append(&mut dfs_res);
        }
        proof {
            assert(infos_view(result@) + dfs_loop_spec(
                edges,
                nodes_seq(edges),
                j + 1,
                visited@.to_set(),
                clock.0 as int,
            ).0 =~= dfs_loop_spec(edges, nodes_seq(edges), 0, Set::empty(), 1).0);
        }
        j += 1;
    }
    proof {
        assert(infos_view(result@) + Seq::<InfoView<T>>::empty() =~= infos_view(result@));
        lemma_dfs_props(edges);
        assert(infos_view(result@).len() == result@.len());
    }
    result
}

} // verus!
