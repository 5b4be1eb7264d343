//! Minimum spanning tree construction by Kruskal's method, with the cycle
//! test of the traversal engine as the acceptance oracle.
//!
//! The cycle oracle works on directed edges, as everywhere in this library,
//! while Kruskal's method is conventionally stated over undirected graphs.
//! That directed reading is kept deliberately: which spanning structure
//! comes out of a graph with edges both ways between a pair of nodes
//! follows the directed back-edge test, not undirected cycle detection.

use vstd::prelude::*;
use crate::types::{Edge, Graph, ids_concrete_eq};
use crate::analysis::{has_cycles_spec, contains_edge};
use crate::sorting::{sort_edges_by_weight, sorted_by_weight, lemma_sort_edges_props};

verus! {

/// Kruskal's scan from index `j` on: each edge joins the accumulating
/// selection (under set semantics) exactly when the selection with the
/// edge added stays acyclic.
pub open spec fn kruskal_fold<T>(sorted: Seq<Edge<T>>, j: int, mst: Seq<Edge<T>>) -> Seq<Edge<T>>
    decreases sorted.len() - j,
{
    if j < 0 || j >= sorted.len() {
        mst
    } else {
        let e = sorted[j];
        let scratch = if mst.contains(e) {
            mst
        } else {
            mst.push(e)
        };
        let next = if !has_cycles_spec(scratch) {
            scratch
        } else {
            mst
        };
        kruskal_fold(sorted, j + 1, next)
    }
}

/// The spanning structure Kruskal's method selects: scan the edges in
/// stable ascending weight order, keeping each edge whose addition leaves
/// the kept edges acyclic.
pub open spec fn mst_spec<T>(edges: Seq<Edge<T>>) -> Seq<Edge<T>> {
    kruskal_fold(sort_edges_by_weight(edges), 0, Seq::empty())
}

/// An exact copy of an edge vector.
fn copy_edges<T: Copy>(v: &Vec<Edge<T>>) -> (r: Vec<Edge<T>>)
    ensures
        r@ == v@,
{
    let mut r: Vec<Edge<T>> = Vec::new();
    let mut i: usize = 0;
    while i < v.len()
        invariant
            i <= v@.len(),
            r@ == v@.subrange(0, i as int),
        decreases v@.len() - i,
    {
        r.push(v[i]);
        proof {
            assert(v@.subrange(0, i + 1 as int) =~= v@.subrange(0, i as int).push(v@[i as int]));
        }
        i += 1;
    }
    proof {
        assert(v@.subrange(0, v@.len() as int) =~= v@);
    }
    r
}

/// The minimum spanning structure of the graph: Kruskal's method, one pass
/// over the edges in stable ascending weight order, accepting each edge
/// unless it would close a cycle among the edges accepted so far. The
/// result never holds a cycle, never holds an edge twice, and holds only
/// edges of the graph.
pub fn mst_kruskall<T: PartialEq + Copy>(graph: &Graph<T>) -> (r: Vec<Edge<T>>)
    requires
        ids_concrete_eq::<T>(),
        4 * graph.edges@.len() + 3 <= i32::MAX,
    ensures
        r@ == mst_spec(graph.edges@),
        !has_cycles_spec(r@),
        r@.no_duplicates(),
        forall|k: int| 0 <= k < r@.len() ==> graph.edges@.contains(#[trigger] r@[k]),
{
    broadcast use vstd::seq_lib::group_to_multiset_ensures;
    broadcast use vstd::seq_lib::lemma_seq_contains_after_push;

    let ghost edges = graph.edges@;
    let ghost sorted_spec = sort_edges_by_weight(edges);
    proof {
        lemma_sort_edges_props(edges);
    }
    let edges_copy = copy_edges(&graph.edges);
    let sorted_edges = sorted_by_weight(edges_copy);
    let mut mst: Vec<Edge<T>> = Vec::new();
    let mut j: usize = 0;
    while j < sorted_edges.len()
        invariant
            ids_concrete_eq::<T>(),
            edges == graph.edges@,
            sorted_edges@ == sort_edges_by_weight(edges),
            sorted_edges@.len() == edges.len(),
            4 * edges.len() + 3 <= i32::MAX,
            j <= sorted_edges@.len(),
            mst@.len() <= j,
            mst@.no_duplicates(),
            !has_cycles_spec(mst@),
            forall|k: int| 0 <= k < mst@.len() ==> sorted_edges@.contains(#[trigger] mst@[k]),
            kruskal_fold(sorted_edges@, 0, Seq::empty()) == kruskal_fold(
                sorted_edges@,
                j as int,
                mst@,
            ),
        decreases sorted_edges@.len() - j,
    {
        let ghost mst_prev = mst@;
        let e = sorted_edges[j];
        let mut scratch_work = copy_edges(&mst);
        if !contains_edge(&scratch_work, e) {
            scratch_work.push(e);
        }
        let ghost scratch = scratch_work@;
        let gr = Graph { edges: scratch_work };
        if !gr.has_cycles() {
            if !contains_edge(&mst, e) {
                mst.push(e);
            }
            proof {
                assert(mst@ == scratch);
                if !mst_prev.contains(e) {
                    crate::types::lemma_push_distinct(mst_prev, e);
                }
            }
        }
        proof {
            assert(kruskal_fold(sorted_edges@, j as int, mst_prev) == kruskal_fold(
                sorted_edges@,
                j + 1,
                mst@,
            ));
        }
        j += 1;
    }
    proof {
        assert forall|k: int| 0 <= k < mst@.len() implies graph.edges@.contains(
            #[trigger] mst@[k],
        ) by {
            assert(sorted_edges@.contains(mst@[k]));
            assert(sorted_edges@.to_multiset().count(mst@[k]) > 0);
            assert(edges.to_multiset().count(mst@[k]) > 0);
        }
    }
    mst
}

} // verus!
