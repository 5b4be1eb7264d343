//! The graph data model: nodes, edges, graphs, the traversal clock, and the
//! traversal result records.

use vstd::prelude::*;

verus! {

use vstd::std_specs::cmp::PartialEqSpec;

/// Holds when `==` on the identifier type decides exactly value equality.
/// Every node identifier type is expected to have such value semantics;
/// the verified functions state it as a precondition because they compare
/// identifiers with `==` and their contracts speak of mathematical equality.
pub open spec fn ids_concrete_eq<T: PartialEq>() -> bool {
    &&& T::obeys_eq_spec()
    &&& forall|x: T, y: T| #[trigger] x.eq_spec(&y) <==> (x == y)
}

/// A graph vertex, identified by a copyable, equality-comparable value.
/// Two nodes are equal exactly when their identifiers are equal.
#[derive(Debug, Clone, Copy)]
pub struct Node<T> {
    pub id: T,
}

impl<T: PartialEq> PartialEq for Node<T> {
    fn eq(&self, other: &Self) -> bool {
        self.id == other.id
    }
}

impl<T: PartialEq> vstd::std_specs::cmp::PartialEqSpecImpl for Node<T> {
    open spec fn obeys_eq_spec() -> bool {
        ids_concrete_eq::<T>()
    }

    open spec fn eq_spec(&self, other: &Self) -> bool {
        self.id == other.id
    }
}

/// A directed edge from `source` to `dest` carrying an integer weight.
/// Equality considers source, destination and weight jointly, so parallel
/// edges with different weights are distinct.
#[derive(Debug, Clone, Copy)]
pub struct Edge<T> {
    pub source: Node<T>,
    pub dest: Node<T>,
    pub weight: i32,
}

impl<T: PartialEq> PartialEq for Edge<T> {
    fn eq(&self, other: &Self) -> bool {
        self.source == other.source && self.dest == other.dest && self.weight == other.weight
    }
}

impl<T: PartialEq> vstd::std_specs::cmp::PartialEqSpecImpl for Edge<T> {
    open spec fn obeys_eq_spec() -> bool {
        ids_concrete_eq::<T>()
    }

    open spec fn eq_spec(&self, other: &Self) -> bool {
        self.source == other.source && self.dest == other.dest && self.weight == other.weight
    }
}

/// A directed graph, represented by its edges. The node set is implicit:
/// it is the union of all edge endpoints, so an isolated node cannot be
/// represented. The edge list stands for a set of edges: every query reads
/// it with set semantics, so a duplicate entry changes no answer.
#[derive(Debug)]
pub struct Graph<T> {
    pub edges: Vec<Edge<T>>,
}

/// A mutable counter shared across one traversal call. It advances on entry
/// to and exit from every node visit, so the finish values it hands out are
/// globally comparable within the traversal.
#[derive(Debug)]
pub struct Clock(pub i32);

/// One traversal result record: a node, its parent in the depth-first
/// forest (`None` for a tree root), and its postorder (finish) number.
#[derive(Debug, PartialEq, Clone, Copy)]
pub struct NodeInfo<T> {
    pub node: Node<T>,
    pub parent: Option<Node<T>>,
    pub postorder: i32,
}

/// The mathematical value of a `NodeInfo`: the same record with the
/// postorder number widened to a mathematical integer, so that the
/// traversal specification can do clock arithmetic without bounds.
pub ghost struct InfoView<T> {
    pub node: Node<T>,
    pub parent: Option<Node<T>>,
    pub postorder: int,
}

impl<T> View for NodeInfo<T> {
    type V = InfoView<T>;

    open spec fn view(&self) -> InfoView<T> {
        InfoView { node: self.node, parent: self.parent, postorder: self.postorder as int }
    }
}

/// The views of a sequence of traversal records, element by element.
pub open spec fn infos_view<T>(s: Seq<NodeInfo<T>>) -> Seq<InfoView<T>> {
    s.map_values(|ni: NodeInfo<T>| ni@)
}

/// The set of distinct endpoints of a sequence of edges: the implicit node
/// set of a graph.
pub open spec fn edge_nodes<T>(edges: Seq<Edge<T>>) -> Set<Node<T>>
    decreases edges.len(),
{
    if edges.len() == 0 {
        Set::empty()
    } else {
        edge_nodes(edges.drop_last()).insert(edges.last().source).insert(edges.last().dest)
    }
}

/// Whether `n` occurs as the source or the destination of some edge.
pub open spec fn is_endpoint<T>(edges: Seq<Edge<T>>, n: Node<T>) -> bool {
    exists|i: int|
        0 <= i < edges.len() && ((#[trigger] edges[i]).source == n || edges[i].dest == n)
}

pub proof fn lemma_edge_nodes_finite<T>(edges: Seq<Edge<T>>)
    ensures
        edge_nodes(edges).finite(),
    decreases edges.len(),
{
    if edges.len() > 0 {
        lemma_edge_nodes_finite(edges.drop_last());
    }
}

/// The node set of a graph is exactly the set of distinct edge endpoints.
pub proof fn lemma_edge_nodes_members<T>(edges: Seq<Edge<T>>)
    ensures
        forall|n: Node<T>| #[trigger] edge_nodes(edges).contains(n) <==> is_endpoint(edges, n),
    decreases edges.len(),
{
    if edges.len() > 0 {
        let prefix = edges.drop_last();
        lemma_edge_nodes_members(prefix);
        assert forall|n: Node<T>| #[trigger] edge_nodes(edges).contains(n) implies is_endpoint(
            edges,
            n,
        ) by {
            if edge_nodes(prefix).contains(n) {
                let i = choose|i: int|
                    0 <= i < prefix.len() && ((#[trigger] prefix[i]).source == n
                        || prefix[i].dest == n);
                assert(edges[i] == prefix[i]);
            } else {
                assert(edges[edges.len() - 1] == edges.last());
            }
        }
        assert forall|n: Node<T>| is_endpoint(edges, n) implies #[trigger] edge_nodes(
            edges,
        ).contains(n) by {
            let i = choose|i: int|
                0 <= i < edges.len() && ((#[trigger] edges[i]).source == n || edges[i].dest == n);
            if i < edges.len() - 1 {
                assert(prefix[i] == edges[i]);
                assert(is_endpoint(prefix, n));
                assert(edge_nodes(prefix).contains(n));
            } else {
                assert(edges[i] == edges.last());
            }
        }
    }
}

/// The node list a graph presents: every endpoint once, in first-occurrence
/// order over the edge list (source before destination within one edge).
pub open spec fn nodes_seq<T>(edges: Seq<Edge<T>>) -> Seq<Node<T>>
    decreases edges.len(),
{
    if edges.len() == 0 {
        Seq::empty()
    } else {
        let prev = nodes_seq(edges.drop_last());
        let e = edges.last();
        let with_src = if prev.contains(e.source) {
            prev
        } else {
            prev.push(e.source)
        };
        if with_src.contains(e.dest) {
            with_src
        } else {
            with_src.push(e.dest)
        }
    }
}

/// Appending an element a sequence lacks keeps it duplicate-free.
pub proof fn lemma_push_distinct<A>(s: Seq<A>, x: A)
    requires
        s.no_duplicates(),
        !s.contains(x),
    ensures
        s.push(x).no_duplicates(),
{
    let t = s.push(x);
    assert forall|i: int, j: int|
        (0 <= i < t.len() && 0 <= j < t.len() && i != j) implies t[i] != t[j] by {
        if i == s.len() as int {
            if s[j] == x {
                assert(s.contains(x));
            }
        } else if j == s.len() as int {
            if s[i] == x {
                assert(s.contains(x));
            }
        }
    }
}

/// The node list holds each node once, and holds exactly the edge endpoints.
pub proof fn lemma_nodes_seq_props<T>(edges: Seq<Edge<T>>)
    ensures
        nodes_seq(edges).no_duplicates(),
        forall|n: Node<T>| nodes_seq(edges).contains(n) <==> #[trigger] edge_nodes(
            edges,
        ).contains(n),
    decreases edges.len(),
{
    broadcast use vstd::seq_lib::lemma_seq_contains_after_push;

    if edges.len() > 0 {
        let prefix = edges.drop_last();
        lemma_nodes_seq_props(prefix);
        let prev = nodes_seq(prefix);
        let e = edges.last();
        let with_src = if prev.contains(e.source) {
            prev
        } else {
            prev.push(e.source)
        };
        if !prev.contains(e.source) {
            lemma_push_distinct(prev, e.source);
        }
        if !with_src.contains(e.dest) {
            lemma_push_distinct(with_src, e.dest);
        }
        assert forall|n: Node<T>|
            nodes_seq(edges).contains(n) <==> #[trigger] edge_nodes(edges).contains(n) by {
            assert(prev.contains(n) <==> edge_nodes(prefix).contains(n));
        }
    }
}

/// The node list is as long as the node set is large.
pub proof fn lemma_nodes_seq_len<T>(edges: Seq<Edge<T>>)
    ensures
        nodes_seq(edges).len() == edge_nodes(edges).len(),
{
    lemma_nodes_seq_props(edges);
    lemma_edge_nodes_finite(edges);
    nodes_seq(edges).unique_seq_to_set();
    assert(nodes_seq(edges).to_set() =~= edge_nodes(edges));
}

/// Whether a node occurs in a vector of nodes; the vector stands for a set.
pub(crate) fn contains_node<T: PartialEq + Copy>(v: &Vec<Node<T>>, n: Node<T>) -> (r: bool)
    requires
        ids_concrete_eq::<T>(),
    ensures
        r == v@.contains(n),
{
    let mut i: usize = 0;
    while i < v.len()
        invariant
            ids_concrete_eq::<T>(),
            i <= v@.len(),
            forall|k: int| 0 <= k < i ==> v@[k] != n,
        decreases v@.len() - i,
    {
        if v[i] == n {
            return true;
        }
        i += 1;
    }
    false
}

impl<T: PartialEq + Copy> Graph<T> {
    /// The set of all edge endpoints of this graph, each node listed once.
    /// An edgeless graph yields an empty node list.
    pub fn nodes(&self) -> (r: Vec<Node<T>>)
        requires
            ids_concrete_eq::<T>(),
        ensures
            r@ == nodes_seq(self.edges@),
            r@.no_duplicates(),
            forall|n: Node<T>| r@.contains(n) <==> #[trigger] edge_nodes(self.edges@).contains(n),
    {
        let mut all_nodes: Vec<Node<T>> = Vec::new();
        let mut i: usize = 0;
        while i < self.edges.len()
            invariant
                ids_concrete_eq::<T>(),
                i <= self.edges@.len(),
                all_nodes@ == nodes_seq(self.edges@.subrange(0, i as int)),
            decreases self.edges@.len() - i,
        {
            let ghost done = self.edges@.subrange(0, i as int);
            let ghost step = self.edges@.subrange(0, i + 1 as int);
            let e = self.edges[i];
            if !contains_node(&all_nodes, e.source) {
                all_nodes.push(e.source);
            }
            if !contains_node(&all_nodes, e.dest) {
                all_nodes.push(e.dest);
            }
            proof {
                assert(step.drop_last() =~= done);
                assert(step.last() == self.edges@[i as int]);
            }
            i += 1;
        }
        proof {
            assert(self.edges@.subrange(0, self.edges@.len() as int) =~= self.edges@);
            lemma_nodes_seq_props(self.edges@);
        }
        all_nodes
    }
}

} // verus!
