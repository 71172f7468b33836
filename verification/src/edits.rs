//! Why the edits of a graph keep it well formed, and keep its tables
//! fitting the shapes that their nodes ask for.

use vstd::prelude::*;
use crate::model::{
    GraphView, NodeView, expected_shape, has_child, has_parent, node_at, occupied,
    parent_counts, reaches_or_is, row_count, simple, tables_fit, well_formed,
};
use crate::paths::{lemma_added_edge_acyclic, lemma_fewer_edges_acyclic};

verus! {

/// A graph with the edges of a well-formed graph, listed without
/// repetition, is well formed.
pub proof fn lemma_same_edges(g: GraphView, h: GraphView)
    requires
        well_formed(g),
        simple(h),
        forall|a: usize, b: usize| #[trigger] has_parent(h, a, b) <==> has_parent(g, a, b),
        forall|a: usize, b: usize| #[trigger] has_child(h, a, b) <==> has_child(g, a, b),
    ensures
        well_formed(h),
{
    assert forall|a: usize, b: usize|
        #![trigger has_child(h, a, b)]
        #![trigger has_parent(h, b, a)]
        has_child(h, a, b) <==> has_parent(h, b, a) by {
        assert(has_child(g, a, b) <==> has_parent(g, b, a));
    }
    lemma_fewer_edges_acyclic(g, h);
}

/// A well-formed graph to which one edge was added, in both lists, is well
/// formed, provided the child is neither the parent nor one of its
/// ancestors.
pub proof fn lemma_edge_added(g: GraphView, h: GraphView, child: usize, parent: usize)
    requires
        well_formed(g),
        simple(h),
        !reaches_or_is(g, parent, child),
        forall|a: usize, b: usize| #[trigger]
            has_parent(h, a, b) <==> has_parent(g, a, b) || (a == child && b == parent),
        forall|a: usize, b: usize| #[trigger]
            has_child(h, a, b) <==> has_child(g, a, b) || (a == parent && b == child),
    ensures
        well_formed(h),
{
    assert forall|a: usize, b: usize|
        #![trigger has_child(h, a, b)]
        #![trigger has_parent(h, b, a)]
        has_child(h, a, b) <==> has_parent(h, b, a) by {
        assert(has_child(g, a, b) <==> has_parent(g, b, a));
    }
    lemma_added_edge_acyclic(g, h, child, parent);
}

/// A well-formed graph from which one edge was removed, in both lists, is
/// well formed.
pub proof fn lemma_edge_removed(g: GraphView, h: GraphView, child: usize, parent: usize)
    requires
        well_formed(g),
        simple(h),
        forall|a: usize, b: usize| #[trigger]
            has_parent(h, a, b) <==> has_parent(g, a, b) && !(a == child && b == parent),
        forall|a: usize, b: usize| #[trigger]
            has_child(h, a, b) <==> has_child(g, a, b) && !(a == parent && b == child),
    ensures
        well_formed(h),
{
    assert forall|a: usize, b: usize|
        #![trigger has_child(h, a, b)]
        #![trigger has_parent(h, b, a)]
        has_child(h, a, b) <==> has_parent(h, b, a) by {
        assert(has_child(g, a, b) <==> has_parent(g, b, a));
    }
    lemma_fewer_edges_acyclic(g, h);
}

/// Replacing a node by one with the same parents and children keeps a graph
/// well formed.
pub proof fn lemma_payload_changed(g: GraphView, h: GraphView, id: usize, node: NodeView)
    requires
        well_formed(g),
        occupied(g, id),
        h == g.update(id as int, Some(node)),
        node.parents == node_at(g, id).parents,
        node.children == node_at(g, id).children,
    ensures
        well_formed(h),
{
    assert forall|x: usize| #[trigger] occupied(h, x) implies node_at(h, x).parents.no_duplicates()
        && node_at(h, x).children.no_duplicates() by {
        assert(occupied(g, x));
    }
    lemma_same_edges(g, h);
}

/// Replacing a node by one with the same parents and as many values keeps
/// every table fitting, provided the node's own table is unset, unchanged
/// or of the shape that the node asks for.
pub proof fn lemma_payload_tables_fit(g: GraphView, h: GraphView, id: usize, node: NodeView)
    requires
        well_formed(g),
        tables_fit(g),
        occupied(g, id),
        h == g.update(id as int, Some(node)),
        node.parents == node_at(g, id).parents,
        node.values.len() == node_at(g, id).values.len(),
        node.credencies matches Some(t) ==> node_at(g, id).credencies == Some(t) || t.shape
            == expected_shape(g, id),
    ensures
        tables_fit(h),
        expected_shape(h, id) == expected_shape(g, id),
{
    assert forall|x: usize| #[trigger] occupied(h, x) implies (node_at(h, x).credencies matches Some(
        t,
    ) ==> t.shape == expected_shape(h, x)) by {
        assert(occupied(g, x));
        assert forall|p: usize| #[trigger] has_parent(g, x, p) implies node_at(h, p).values.len()
            == node_at(g, p).values.len() by {
            assert(has_child(g, p, x));
        }
        lemma_shape_kept(g, h, x);
    }
    assert forall|p: usize| #[trigger] has_parent(g, id, p) implies node_at(h, p).values.len()
        == node_at(g, p).values.len() by {
        assert(has_child(g, p, id));
    }
    lemma_shape_kept(g, h, id);
}

/// The shape asked of a node's table, and its number of rows, depend only
/// on the node's parents list, on its number of values and on the number of
/// values of each parent.
pub proof fn lemma_shape_kept(g: GraphView, h: GraphView, id: usize)
    requires
        occupied(g, id),
        occupied(h, id),
        node_at(h, id).parents == node_at(g, id).parents,
        node_at(h, id).values.len() == node_at(g, id).values.len(),
        forall|p: usize| #[trigger]
            has_parent(g, id, p) ==> node_at(h, p).values.len() == node_at(g, p).values.len(),
    ensures
        parent_counts(h, id) == parent_counts(g, id),
        expected_shape(h, id) == expected_shape(g, id),
        row_count(h, id) == row_count(g, id),
{
    assert forall|k: int| 0 <= k < node_at(g, id).parents.len() implies parent_counts(h, id)[k]
        == parent_counts(g, id)[k] by {
        assert(has_parent(g, id, node_at(g, id).parents[k]));
    }
    assert(parent_counts(h, id) =~= parent_counts(g, id));
}

} // verus!
