//! The search for a node among the ancestors of another: what holds while
//! the search runs, and what it has shown when it ends.

use vstd::prelude::*;
use crate::ids::lemma_distinct_below;
use crate::model::{
    GraphView, has_parent, node_at, occupied, reaches, reaches_or_is, symmetric,
};
use crate::paths::{
    lemma_ancestor_occupied, lemma_closed_holds_ancestors, lemma_edge_reaches,
    lemma_walk_then_edge,
};

verus! {

/// The state of a search for `child` among the ancestors of `parent`: the
/// nodes in `visited` are distinct ancestors of `parent`, or `parent`
/// itself, and none is `child`; the nodes on `stack` are ancestors of
/// `parent`; and each parent of a visited node is visited or on the stack.
#[verifier::opaque]
pub open spec fn searching(
    g: GraphView,
    child: usize,
    parent: usize,
    visited: Seq<usize>,
    stack: Seq<usize>,
) -> bool {
    &&& visited.no_duplicates()
    &&& visited.contains(parent)
    &&& forall|i: int|
        0 <= i < visited.len() ==> (#[trigger] visited[i]) != child && occupied(g, visited[i])
            && reaches_or_is(g, parent, visited[i])
    &&& forall|j: int| 0 <= j < stack.len() ==> reaches(g, parent, #[trigger] stack[j])
    &&& forall|x: usize, y: usize|
        visited.contains(x) && #[trigger] has_parent(g, x, y) ==> visited.contains(y)
            || stack.contains(y)
}

/// A search starts with `parent` visited and its parents on the stack.
pub proof fn lemma_search_starts(g: GraphView, child: usize, parent: usize)
    requires
        occupied(g, parent),
        parent != child,
    ensures
        searching(g, child, parent, seq![parent], node_at(g, parent).parents),
{
    reveal(searching);
    let visited = seq![parent];
    let stack = node_at(g, parent).parents;
    assert(visited[0] == parent);
    assert forall|j: int| 0 <= j < stack.len() implies reaches(g, parent, #[trigger] stack[j]) by {
        assert(has_parent(g, parent, stack[j]));
        lemma_edge_reaches(g, parent, stack[j]);
    }
    assert forall|x: usize, y: usize| visited.contains(x) && #[trigger] has_parent(g, x, y) implies
        visited.contains(y) || stack.contains(y) by {
        let i = choose|i: int| 0 <= i < visited.len() && visited[i] == x;
        assert(x == parent);
    }
}

/// Whatever is on the stack is an ancestor of `parent`.
pub proof fn lemma_search_finds(
    g: GraphView,
    child: usize,
    parent: usize,
    visited: Seq<usize>,
    stack: Seq<usize>,
)
    requires
        searching(g, child, parent, visited, stack),
        stack.len() > 0,
    ensures
        reaches(g, parent, stack.last()),
{
    reveal(searching);
    assert(reaches(g, parent, stack[stack.len() - 1]));
}

/// The top of the stack may be dropped where it is visited already.
pub proof fn lemma_search_skips(
    g: GraphView,
    child: usize,
    parent: usize,
    visited: Seq<usize>,
    stack: Seq<usize>,
)
    requires
        searching(g, child, parent, visited, stack),
        stack.len() > 0,
        visited.contains(stack.last()),
    ensures
        searching(g, child, parent, visited, stack.drop_last()),
{
    reveal(searching);
    let rest = stack.drop_last();
    assert forall|j: int| 0 <= j < rest.len() implies reaches(g, parent, #[trigger] rest[j]) by {
        assert(rest[j] == stack[j]);
    }
    assert forall|x: usize, y: usize| visited.contains(x) && #[trigger] has_parent(g, x, y) implies
        visited.contains(y) || rest.contains(y) by {
        if stack.contains(y) && !visited.contains(y) {
            let j = choose|j: int| 0 <= j < stack.len() && stack[j] == y;
            assert(rest[j] == y);
        }
    }
}

/// The top of the stack, where it is neither `child` nor visited, becomes
/// visited, and its parents take its place on the stack. There is room for
/// it: the visited nodes are distinct and the graph holds them all.
pub proof fn lemma_search_expands(
    g: GraphView,
    child: usize,
    parent: usize,
    visited: Seq<usize>,
    stack: Seq<usize>,
)
    requires
        symmetric(g),
        searching(g, child, parent, visited, stack),
        stack.len() > 0,
        stack.last() != child,
        !visited.contains(stack.last()),
    ensures
        occupied(g, stack.last()),
        searching(
            g,
            child,
            parent,
            visited.push(stack.last()),
            stack.drop_last() + node_at(g, stack.last()).parents,
        ),
        visited.len() < g.len(),
{
    reveal(searching);
    let id = stack.last();
    let rest = stack.drop_last();
    let more = node_at(g, id).parents;
    let seen = visited.push(id);
    let todo = rest + more;
    assert(reaches(g, parent, stack[stack.len() - 1]));
    lemma_ancestor_occupied(g, parent, id);
    assert(seen.no_duplicates());
    assert(seen[0] == visited[0]);
    let at = choose|i: int| 0 <= i < visited.len() && visited[i] == parent;
    assert(seen[at] == parent);
    assert forall|i: int| 0 <= i < seen.len() implies #[trigger] seen[i] < g.len() by {
        if i < visited.len() {
            assert(seen[i] == visited[i]);
        }
    }
    lemma_distinct_below(seen, g.len());
    assert forall|j: int| 0 <= j < todo.len() implies reaches(g, parent, #[trigger] todo[j]) by {
        if j < rest.len() {
            assert(todo[j] == stack[j]);
        } else {
            let q = more[j - rest.len()];
            assert(has_parent(g, id, q));
            lemma_walk_then_edge(g, parent, id, q);
        }
    }
    assert forall|x: usize, y: usize| seen.contains(x) && #[trigger] has_parent(g, x, y) implies
        seen.contains(y) || todo.contains(y) by {
        if x == id {
            let k = choose|k: int| 0 <= k < more.len() && more[k] == y;
            assert(todo[rest.len() + k] == y);
        } else {
            let i = choose|i: int| 0 <= i < seen.len() && seen[i] == x;
            assert(visited[i] == x);
            assert(visited.contains(x));
            if visited.contains(y) {
                let m = choose|m: int| 0 <= m < visited.len() && visited[m] == y;
                assert(seen[m] == y);
            } else {
                let m = choose|m: int| 0 <= m < stack.len() && stack[m] == y;
                if m < rest.len() {
                    assert(todo[m] == y);
                } else {
                    assert(seen[visited.len() as int] == y);
                }
            }
        }
    }
}

/// A search that has emptied its stack has seen every ancestor of `parent`,
/// and `child` was not among them.
pub proof fn lemma_search_ends(g: GraphView, child: usize, parent: usize, visited: Seq<usize>)
    requires
        searching(g, child, parent, visited, Seq::empty()),
    ensures
        !reaches(g, parent, child),
{
    reveal(searching);
    if reaches(g, parent, child) {
        let inside = visited.to_set();
        lemma_closed_holds_ancestors(g, inside, parent, child);
        let i = choose|i: int| 0 <= i < visited.len() && visited[i] == child;
        assert(visited[i] != child);
    }
}

} // verus!
