//! Facts about walks along parent edges: ranks fall along them, closed sets
//! hold every ancestor, and adding an edge to a node that is no ancestor of
//! its new parent keeps the graph free of cycles.

use vstd::prelude::*;
use crate::graph::EdgeError;
use crate::model::{
    GraphView, acyclic, edge_check, has_child, has_parent, is_path, occupied, ranked, reaches,
    reaches_or_is, symmetric, well_formed,
};

verus! {

/// A rank falls strictly from the first node of a walk to its last.
pub proof fn lemma_rank_falls(g: GraphView, rank: spec_fn(usize) -> nat, p: Seq<usize>)
    requires
        ranked(g, rank),
        is_path(g, p),
        p.len() >= 2,
    ensures
        rank(p.last()) < rank(p[0]),
    decreases p.len(),
{
    let n = p.len() as int;
    assert(has_parent(g, p[n - 2], p[n - 2 + 1]));
    if n > 2 {
        let q = p.drop_last();
        assert(is_path(g, q)) by {
            assert forall|i: int| 0 <= i < q.len() - 1 implies has_parent(
                g,
                #[trigger] q[i],
                q[i + 1],
            ) by {
                assert(has_parent(g, p[i], p[i + 1]));
            }
        }
        lemma_rank_falls(g, rank, q);
    }
}

/// In a graph whose edges admit a rank, no node is its own ancestor: there
/// is no directed cycle, and in particular no node is its own parent.
pub proof fn lemma_no_cycle(g: GraphView, id: usize)
    requires
        acyclic(g),
    ensures
        !reaches(g, id, id),
        !has_parent(g, id, id),
{
    let rank = choose|rank: spec_fn(usize) -> nat| ranked(g, rank);
    if reaches(g, id, id) {
        let p = choose|p: Seq<usize>| #[trigger]
            is_path(g, p) && p.len() >= 2 && p[0] == id && p.last() == id;
        lemma_rank_falls(g, rank, p);
    }
}

/// What the structural invariant says of the edges: the two adjacency lists
/// agree, no node is its own parent, and no walk along parent edges comes
/// back to where it started.
pub proof fn lemma_symmetric_and_acyclic(g: GraphView, a: usize, b: usize)
    requires
        well_formed(g),
    ensures
        has_child(g, a, b) <==> has_parent(g, b, a),
        !has_parent(g, a, a),
        !reaches(g, a, a),
{
    lemma_no_cycle(g, a);
}

/// A node may never become its own parent.
pub proof fn lemma_self_edge_refused(g: GraphView, id: usize)
    requires
        occupied(g, id),
    ensures
        edge_check(g, id, id) == Err::<(), EdgeError>(EdgeError::WouldCycle),
{
}

/// Where `parent` is a parent of `child`, `child` may not become a parent
/// of `parent`: the edge would close a cycle.
pub proof fn lemma_reverse_edge_refused(g: GraphView, child: usize, parent: usize)
    requires
        well_formed(g),
        has_parent(g, child, parent),
    ensures
        edge_check(g, parent, child) == Err::<(), EdgeError>(EdgeError::WouldCycle),
{
    lemma_no_cycle(g, child);
    lemma_edge_reaches(g, child, parent);
    if has_child(g, child, parent) {
        assert(has_parent(g, parent, child));
        lemma_edge_then_walk(g, parent, child, parent);
        lemma_no_cycle(g, parent);
    }
}

/// An edge is a walk of one step.
pub proof fn lemma_edge_reaches(g: GraphView, child: usize, parent: usize)
    requires
        has_parent(g, child, parent),
    ensures
        reaches(g, child, parent),
{
    let p = seq![child, parent];
    assert(is_path(g, p)) by {
        assert forall|i: int| 0 <= i < p.len() - 1 implies has_parent(g, #[trigger] p[i], p[i + 1]) by {
            assert(i == 0);
        }
    }
    assert(p[0] == child && p.last() == parent);
}

/// An edge followed by a walk is a walk.
pub proof fn lemma_edge_then_walk(g: GraphView, a: usize, b: usize, c: usize)
    requires
        has_parent(g, a, b),
        reaches_or_is(g, b, c),
    ensures
        reaches(g, a, c),
{
    if b == c {
        lemma_edge_reaches(g, a, b);
    } else {
        let q = choose|q: Seq<usize>| #[trigger]
            is_path(g, q) && q.len() >= 2 && q[0] == b && q.last() == c;
        let p = seq![a] + q;
        assert(is_path(g, p)) by {
            assert forall|i: int| 0 <= i < p.len() - 1 implies has_parent(
                g,
                #[trigger] p[i],
                p[i + 1],
            ) by {
                if i > 0 {
                    assert(has_parent(g, q[i - 1], q[i - 1 + 1]));
                }
            }
        }
        assert(p[0] == a && p.last() == c);
    }
}

/// A walk followed by an edge is a walk.
pub proof fn lemma_walk_then_edge(g: GraphView, a: usize, b: usize, c: usize)
    requires
        reaches_or_is(g, a, b),
        has_parent(g, b, c),
    ensures
        reaches(g, a, c),
{
    if a == b {
        lemma_edge_reaches(g, b, c);
    } else {
        let q = choose|q: Seq<usize>| #[trigger]
            is_path(g, q) && q.len() >= 2 && q[0] == a && q.last() == b;
        let p = q.push(c);
        assert(is_path(g, p)) by {
            assert forall|i: int| 0 <= i < p.len() - 1 implies has_parent(
                g,
                #[trigger] p[i],
                p[i + 1],
            ) by {
                if i < q.len() - 1 {
                    assert(has_parent(g, q[i], q[i + 1]));
                }
            }
        }
        assert(p[0] == a && p.last() == c);
    }
}

/// In a graph with symmetric lists, every ancestor is a node.
pub proof fn lemma_ancestor_occupied(g: GraphView, from: usize, to: usize)
    requires
        symmetric(g),
        reaches(g, from, to),
    ensures
        occupied(g, from),
        occupied(g, to),
{
    let p = choose|p: Seq<usize>| #[trigger]
        is_path(g, p) && p.len() >= 2 && p[0] == from && p.last() == to;
    let n = p.len() as int;
    assert(has_parent(g, p[0], p[0int + 1]));
    assert(has_parent(g, p[n - 2], p[n - 2 + 1]));
    assert(has_child(g, p[n - 1], p[n - 2]));
}

/// Every node of a walk that starts inside a set closed under parent edges
/// lies in the set.
proof fn lemma_walk_stays_inside(g: GraphView, inside: Set<usize>, p: Seq<usize>)
    requires
        is_path(g, p),
        inside.contains(p[0]),
        forall|x: usize, y: usize|
            inside.contains(x) && #[trigger] has_parent(g, x, y) ==> inside.contains(y),
    ensures
        inside.contains(p.last()),
    decreases p.len(),
{
    let n = p.len() as int;
    if n >= 2 {
        let q = p.drop_last();
        assert(is_path(g, q)) by {
            assert forall|i: int| 0 <= i < q.len() - 1 implies has_parent(
                g,
                #[trigger] q[i],
                q[i + 1],
            ) by {
                assert(has_parent(g, p[i], p[i + 1]));
            }
        }
        lemma_walk_stays_inside(g, inside, q);
        assert(has_parent(g, p[n - 2], p[n - 2 + 1]));
    }
}

/// A set that is closed under parent edges holds every ancestor of each of
/// its members.
pub proof fn lemma_closed_holds_ancestors(g: GraphView, inside: Set<usize>, from: usize, to: usize)
    requires
        inside.contains(from),
        forall|x: usize, y: usize|
            inside.contains(x) && #[trigger] has_parent(g, x, y) ==> inside.contains(y),
        reaches(g, from, to),
    ensures
        inside.contains(to),
{
    let p = choose|p: Seq<usize>| #[trigger]
        is_path(g, p) && p.len() >= 2 && p[0] == from && p.last() == to;
    lemma_walk_stays_inside(g, inside, p);
}

/// A graph that has no edge but those of an acyclic graph is acyclic.
pub proof fn lemma_fewer_edges_acyclic(g: GraphView, h: GraphView)
    requires
        acyclic(g),
        forall|c: usize, p: usize| #[trigger] has_parent(h, c, p) ==> has_parent(g, c, p),
    ensures
        acyclic(h),
{
    let rank = choose|rank: spec_fn(usize) -> nat| ranked(g, rank);
    assert(ranked(h, rank));
}

/// Adding the edge from `child` to `parent` to an acyclic graph leaves it
/// acyclic, provided `child` is neither `parent` nor one of its ancestors.
pub proof fn lemma_added_edge_acyclic(g: GraphView, h: GraphView, child: usize, parent: usize)
    requires
        acyclic(g),
        !reaches_or_is(g, parent, child),
        forall|c: usize, p: usize| #[trigger]
            has_parent(h, c, p) ==> has_parent(g, c, p) || (c == child && p == parent),
    ensures
        acyclic(h),
{
    let rank = choose|rank: spec_fn(usize) -> nat| ranked(g, rank);
    let lift = rank(parent) + 1;
    let raised = |x: usize|
        if reaches_or_is(g, x, child) {
            rank(x) + lift
        } else {
            rank(x)
        };
    assert forall|c: usize, p: usize| #[trigger] has_parent(h, c, p) implies raised(p) < raised(
        c,
    ) by {
        if has_parent(g, c, p) {
            if reaches_or_is(g, p, child) {
                lemma_edge_then_walk(g, c, p, child);
            }
        }
    }
    assert(ranked(h, raised));
}

} // verus!
