//! Stable sorting, specified exactly and carried out by itertools.
//!
//! Both orders the library needs are stated as stable insertion sorts: the
//! element taken up last goes after every element that compares equal to
//! it, so equal elements keep their input order. A stable sort by a total
//! ordering is unique, so these specifications pin the sorted output down
//! completely.

use vstd::prelude::*;
use itertools::Itertools;
use crate::types::{Edge, NodeInfo, InfoView, infos_view};

verus! {

/// Edge weights never decrease along the sequence.
pub open spec fn edges_sorted_by_weight<T>(s: Seq<Edge<T>>) -> bool {
    forall|i: int, j: int|
        0 <= i < j < s.len() ==> (#[trigger] s[i]).weight <= (#[trigger] s[j]).weight
}

/// Postorder numbers never increase along the sequence.
pub open spec fn infos_sorted_desc<T>(s: Seq<InfoView<T>>) -> bool {
    forall|i: int, j: int|
        0 <= i < j < s.len() ==> (#[trigger] s[i]).postorder >= (#[trigger] s[j]).postorder
}

/// Where a stable ascending sort places `e` in the run `s`: after every
/// element at most as heavy.
pub open spec fn edge_insert_pos<T>(s: Seq<Edge<T>>, e: Edge<T>) -> int
    decreases s.len(),
{
    if s.len() == 0 {
        0
    } else if s.first().weight <= e.weight {
        1 + edge_insert_pos(s.drop_first(), e)
    } else {
        0
    }
}

/// The stable ascending-by-weight sort of an edge sequence.
pub open spec fn sort_edges_by_weight<T>(s: Seq<Edge<T>>) -> Seq<Edge<T>>
    decreases s.len(),
{
    if s.len() == 0 {
        s
    } else {
        let rest = sort_edges_by_weight(s.drop_last());
        rest.insert(edge_insert_pos(rest, s.last()), s.last())
    }
}

/// Where a stable descending sort places `e` in the run `s`: after every
/// element with at least its postorder number.
pub open spec fn info_insert_pos<T>(s: Seq<InfoView<T>>, e: InfoView<T>) -> int
    decreases s.len(),
{
    if s.len() == 0 {
        0
    } else if s.first().postorder >= e.postorder {
        1 + info_insert_pos(s.drop_first(), e)
    } else {
        0
    }
}

/// The stable descending-by-postorder sort of a record sequence.
pub open spec fn sort_infos_by_postorder<T>(s: Seq<InfoView<T>>) -> Seq<InfoView<T>>
    decreases s.len(),
{
    if s.len() == 0 {
        s
    } else {
        let rest = sort_infos_by_postorder(s.drop_last());
        rest.insert(info_insert_pos(rest, s.last()), s.last())
    }
}

/// The insertion position splits a sorted run: lighter-or-equal weights
/// before it, strictly heavier weights from it on.
pub proof fn lemma_edge_insert_pos_props<T>(s: Seq<Edge<T>>, e: Edge<T>)
    requires
        edges_sorted_by_weight(s),
    ensures
        0 <= edge_insert_pos(s, e) <= s.len(),
        forall|k: int| 0 <= k < edge_insert_pos(s, e) ==> (#[trigger] s[k]).weight <= e.weight,
        forall|k: int|
            edge_insert_pos(s, e) <= k < s.len() ==> (#[trigger] s[k]).weight > e.weight,
    decreases s.len(),
{
    if s.len() > 0 {
        assert(forall|k: int|
            0 <= k < s.drop_first().len() ==> #[trigger] s.drop_first()[k] == s[k + 1]);
        lemma_edge_insert_pos_props(s.drop_first(), e);
        if s.first().weight <= e.weight {
            let pos = edge_insert_pos(s, e);
            assert forall|k: int| 0 <= k < pos implies (#[trigger] s[k]).weight <= e.weight by {
                if k > 0 {
                    assert(s[k] == s.drop_first()[k - 1]);
                }
            }
            assert forall|k: int| pos <= k < s.len() implies (#[trigger] s[k]).weight > e.weight by {
                assert(s[k] == s.drop_first()[k - 1]);
            }
        }
    }
}

/// The insertion position splits a descending run: larger-or-equal
/// postorder numbers before it, strictly smaller ones from it on.
pub proof fn lemma_info_insert_pos_props<T>(s: Seq<InfoView<T>>, e: InfoView<T>)
    requires
        infos_sorted_desc(s),
    ensures
        0 <= info_insert_pos(s, e) <= s.len(),
        forall|k: int|
            0 <= k < info_insert_pos(s, e) ==> (#[trigger] s[k]).postorder >= e.postorder,
        forall|k: int|
            info_insert_pos(s, e) <= k < s.len() ==> (#[trigger] s[k]).postorder < e.postorder,
    decreases s.len(),
{
    if s.len() > 0 {
        assert(forall|k: int|
            0 <= k < s.drop_first().len() ==> #[trigger] s.drop_first()[k] == s[k + 1]);
        lemma_info_insert_pos_props(s.drop_first(), e);
        if s.first().postorder >= e.postorder {
            let pos = info_insert_pos(s, e);
            assert forall|k: int| 0 <= k < pos implies (#[trigger] s[k]).postorder
                >= e.postorder by {
                if k > 0 {
                    assert(s[k] == s.drop_first()[k - 1]);
                }
            }
            assert forall|k: int| pos <= k < s.len() implies (#[trigger] s[k]).postorder
                < e.postorder by {
                assert(s[k] == s.drop_first()[k - 1]);
            }
        }
    }
}

/// The stable ascending sort is a permutation of its input, of the same
/// length, in ascending order of weight.
pub proof fn lemma_sort_edges_props<T>(s: Seq<Edge<T>>)
    ensures
        sort_edges_by_weight(s).to_multiset() == s.to_multiset(),
        sort_edges_by_weight(s).len() == s.len(),
        edges_sorted_by_weight(sort_edges_by_weight(s)),
    decreases s.len(),
{
    broadcast use vstd::seq_lib::group_to_multiset_ensures;

    if s.len() > 0 {
        lemma_sort_edges_props(s.drop_last());
        let rest = sort_edges_by_weight(s.drop_last());
        let e = s.last();
        let pos = edge_insert_pos(rest, e);
        lemma_edge_insert_pos_props(rest, e);
        rest.insert_ensures(pos, e);
        let out = rest.insert(pos, e);
        assert(s.drop_last().push(e) =~= s);
        assert(s.drop_last().push(e).to_multiset() == s.to_multiset());
        assert forall|i: int, j: int| 0 <= i < j < out.len() implies (#[trigger] out[i]).weight
            <= (#[trigger] out[j]).weight by {
            if i < pos {
                assert(out[i] == rest[i]);
            } else if i == pos {
                assert(out[i] == e);
            } else {
                assert(out[i] == rest[i - 1]);
            }
            if j < pos {
                assert(out[j] == rest[j]);
            } else if j == pos {
                assert(out[j] == e);
            } else {
                assert(out[j] == rest[j - 1]);
            }
        }
    }
}

/// The stable descending sort is a permutation of its input, of the same
/// length, in descending order of postorder number.
pub proof fn lemma_sort_infos_props<T>(s: Seq<InfoView<T>>)
    ensures
        sort_infos_by_postorder(s).to_multiset() == s.to_multiset(),
        sort_infos_by_postorder(s).len() == s.len(),
        infos_sorted_desc(sort_infos_by_postorder(s)),
    decreases s.len(),
{
    broadcast use vstd::seq_lib::group_to_multiset_ensures;

    if s.len() > 0 {
        lemma_sort_infos_props(s.drop_last());
        let rest = sort_infos_by_postorder(s.drop_last());
        let e = s.last();
        let pos = info_insert_pos(rest, e);
        lemma_info_insert_pos_props(rest, e);
        rest.insert_ensures(pos, e);
        let out = rest.insert(pos, e);
        assert(s.drop_last().push(e) =~= s);
        assert(s.drop_last().push(e).to_multiset() == s.to_multiset());
        assert forall|i: int, j: int| 0 <= i < j < out.len() implies (#[trigger] out[i]).postorder
            >= (#[trigger] out[j]).postorder by {
            if i < pos {
                assert(out[i] == rest[i]);
            } else if i == pos {
                assert(out[i] == e);
            } else {
                assert(out[i] == rest[i - 1]);
            }
            if j < pos {
                assert(out[j] == rest[j]);
            } else if j == pos {
                assert(out[j] == e);
            } else {
                assert(out[j] == rest[j - 1]);
            }
        }
    }
}

/// Relies on `itertools::Itertools::sorted_by` with an ascending weight
/// comparator: a stable sort (its documentation: "This sort is stable"),
/// so the result is the unique stable ascending-by-weight permutation.
#[verifier::external_body]
pub(crate) fn sorted_by_weight<T>(v: Vec<Edge<T>>) -> (r: Vec<Edge<T>>)
    ensures
        r@ == sort_edges_by_weight(v@),
{
    v.into_iter().sorted_by(|a, b| a.weight.cmp(&b.weight)).collect()
}

/// Relies on `itertools::Itertools::sorted_by` with a descending postorder
/// comparator: a stable sort (its documentation: "This sort is stable"),
/// so the result is the unique stable descending-by-postorder permutation.
/// The comparator reads only the postorder field, which the record's view
/// keeps exactly, so the guarantee is stated over views.
#[verifier::external_body]
pub(crate) fn sorted_by_postorder_desc<T>(v: Vec<NodeInfo<T>>) -> (r: Vec<NodeInfo<T>>)
    ensures
        infos_view(r@) == sort_infos_by_postorder(infos_view(v@)),
{
    v.into_iter().sorted_by(|a, b| b.postorder.cmp(&a.postorder)).collect()
}

} // verus!
