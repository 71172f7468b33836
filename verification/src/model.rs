//! The mathematical model of a graph: what each slot holds, which edges
//! there are, and what it means for the edges to be consistent.

use vstd::prelude::*;
use crate::table::TableView;
use crate::table::product;
use crate::graph::EdgeError;

verus! {

/// What a node holds, as mathematics.
pub struct NodeView {
    pub parents: Seq<usize>,
    pub children: Seq<usize>,
    pub label: Seq<char>,
    pub description: Seq<char>,
    pub values: Seq<Seq<char>>,
    pub credencies: Option<TableView>,
    pub cred_description: Seq<Seq<char>>,
    pub observation: Option<usize>,
}

/// A slot table: slot `i` is empty or holds a node.
pub type GraphView = Seq<Option<NodeView>>;

/// The texts of a list of strings.
pub open spec fn texts(v: Seq<String>) -> Seq<Seq<char>> {
    Seq::new(v.len(), |i: int| v[i]@)
}

/// A node as it is right after insertion.
pub open spec fn empty_node() -> NodeView {
    NodeView {
        parents: Seq::empty(),
        children: Seq::empty(),
        label: Seq::empty(),
        description: Seq::empty(),
        values: Seq::empty(),
        credencies: None,
        cred_description: Seq::empty(),
        observation: None,
    }
}

/// A node with its table, its row descriptions and its observation cleared,
/// and with the given values.
pub open spec fn with_values(node: NodeView, values: Seq<Seq<char>>) -> NodeView {
    NodeView {
        values: values,
        credencies: None,
        cred_description: Seq::empty(),
        observation: None,
        ..node
    }
}

/// A node with its table cleared.
pub open spec fn without_table(node: NodeView) -> NodeView {
    NodeView { credencies: None, ..node }
}

/// Slot `id` exists and holds a node.
pub open spec fn occupied(g: GraphView, id: usize) -> bool {
    id < g.len() && g[id as int] is Some
}

/// The node in slot `id`.
pub open spec fn node_at(g: GraphView, id: usize) -> NodeView
    recommends
        occupied(g, id),
{
    g[id as int]->0
}

/// `parent` is listed among the parents of the node `child`.
pub open spec fn has_parent(g: GraphView, child: usize, parent: usize) -> bool {
    occupied(g, child) && node_at(g, child).parents.contains(parent)
}

/// `child` is listed among the children of the node `parent`.
pub open spec fn has_child(g: GraphView, parent: usize, child: usize) -> bool {
    occupied(g, parent) && node_at(g, parent).children.contains(child)
}

/// The two adjacency lists agree: `b` is a child of `a` exactly when `a` is
/// a parent of `b`. Both sides ask that the node holding the list exists, so
/// every listed id refers to an occupied slot.
pub open spec fn symmetric(g: GraphView) -> bool {
    forall|a: usize, b: usize|
        #![trigger has_child(g, a, b)]
        #![trigger has_parent(g, b, a)]
        has_child(g, a, b) <==> has_parent(g, b, a)
}

/// No node lists the same parent or the same child twice.
pub open spec fn simple(g: GraphView) -> bool {
    forall|id: usize| #[trigger]
        occupied(g, id) ==> node_at(g, id).parents.no_duplicates() && node_at(
            g,
            id,
        ).children.no_duplicates()
}

/// `rank` falls strictly along every edge from a child to its parent.
pub open spec fn ranked(g: GraphView, rank: spec_fn(usize) -> nat) -> bool {
    forall|child: usize, parent: usize| #[trigger]
        has_parent(g, child, parent) ==> rank(parent) < rank(child)
}

/// The edges admit a rank, which is what makes them free of cycles.
pub open spec fn acyclic(g: GraphView) -> bool {
    exists|rank: spec_fn(usize) -> nat| ranked(g, rank)
}

/// The structural invariant of a graph.
pub open spec fn well_formed(g: GraphView) -> bool {
    &&& symmetric(g)
    &&& simple(g)
    &&& acyclic(g)
}

/// A walk along parent edges: each node of `p` but the last has the next
/// one as a parent.
pub open spec fn is_path(g: GraphView, p: Seq<usize>) -> bool {
    &&& p.len() >= 1
    &&& forall|i: int| 0 <= i < p.len() - 1 ==> has_parent(g, #[trigger] p[i], p[i + 1])
}

/// `to` is an ancestor of `from`: one or more parent edges lead from `from`
/// to `to`.
pub open spec fn reaches(g: GraphView, from: usize, to: usize) -> bool {
    exists|p: Seq<usize>| #[trigger] is_path(g, p) && p.len() >= 2 && p[0] == from && p.last() == to
}

/// `to` is `from` itself or one of its ancestors.
pub open spec fn reaches_or_is(g: GraphView, from: usize, to: usize) -> bool {
    from == to || reaches(g, from, to)
}

/// The graph after a value was appended to the node `id`: the node has one
/// more value and neither table, row descriptions nor observation; each of
/// its children has no table; all else is as before.
pub open spec fn value_added(g: GraphView, id: usize, value: Seq<char>) -> GraphView {
    if occupied(g, id) {
        Seq::new(
            g.len(),
            |i: int|
                if i == id {
                    Some(with_values(node_at(g, id), node_at(g, id).values.push(value)))
                } else if g[i] is Some && node_at(g, id).children.contains(i as usize) {
                    Some(without_table(g[i]->0))
                } else {
                    g[i]
                },
        )
    } else {
        g
    }
}

/// The graph after the value at `index` was removed from the node `id`: the
/// node has lost that value, its table, its row descriptions and its
/// observation; all else is as before, the tables of its children too.
pub open spec fn value_removed(g: GraphView, id: usize, index: usize) -> GraphView {
    if occupied(g, id) && index < node_at(g, id).values.len() {
        g.update(
            id as int,
            Some(with_values(node_at(g, id), node_at(g, id).values.remove(index as int))),
        )
    } else {
        g
    }
}

/// Whether `parent` may become a parent of `child`, and if not, why: the
/// slot of `parent` is empty; the two are the same node; the edge is there
/// already; or `child` is an ancestor of `parent`, so that the edge would
/// close a cycle.
pub open spec fn edge_check(g: GraphView, child: usize, parent: usize) -> Result<(), EdgeError> {
    if !occupied(g, parent) {
        Err(EdgeError::BadNode)
    } else if parent == child {
        Err(EdgeError::WouldCycle)
    } else if has_child(g, parent, child) {
        Err(EdgeError::AlreadyExisting)
    } else if reaches(g, parent, child) {
        Err(EdgeError::WouldCycle)
    } else {
        Ok(())
    }
}

/// What adding the edge answers: the verdict of `edge_check`, and `BadNode`
/// too where the slot of `child` is empty.
pub open spec fn add_edge_result(g: GraphView, child: usize, parent: usize) -> Result<
    (),
    EdgeError,
> {
    match edge_check(g, child, parent) {
        Err(e) => Err(e),
        Ok(_) => if occupied(g, child) {
            Ok(())
        } else {
            Err(EdgeError::BadNode)
        },
    }
}

/// A node with one more parent, and with its table and row descriptions
/// cleared.
pub open spec fn with_parent(node: NodeView, parent: usize) -> NodeView {
    NodeView {
        parents: node.parents.push(parent),
        credencies: None,
        cred_description: Seq::empty(),
        ..node
    }
}

/// A node with one more child.
pub open spec fn with_child(node: NodeView, child: usize) -> NodeView {
    NodeView { children: node.children.push(child), ..node }
}

/// The graph after the edge from `child` to `parent` was added.
pub open spec fn edge_added(g: GraphView, child: usize, parent: usize) -> GraphView {
    g.update(child as int, Some(with_parent(node_at(g, child), parent))).update(
        parent as int,
        Some(with_child(node_at(g, parent), child)),
    )
}

/// The test that keeps every id but one.
pub open spec fn other_than(id: usize) -> spec_fn(usize) -> bool {
    |v: usize| v != id
}

/// A node without the given parent, and with its table and row
/// descriptions cleared.
pub open spec fn without_parent(node: NodeView, parent: usize) -> NodeView {
    NodeView {
        parents: node.parents.filter(other_than(parent)),
        credencies: None,
        cred_description: Seq::empty(),
        ..node
    }
}

/// A node without the given child.
pub open spec fn without_child(node: NodeView, child: usize) -> NodeView {
    NodeView { children: node.children.filter(other_than(child)), ..node }
}

/// The graph after the edge from `child` to `parent` was removed: first the
/// node `child`, if there is one, loses the parent, its table and its row
/// descriptions; then the node `parent`, if there is one, loses the child.
pub open spec fn edge_removed(g: GraphView, child: usize, parent: usize) -> GraphView {
    let first = if occupied(g, child) {
        g.update(child as int, Some(without_parent(node_at(g, child), parent)))
    } else {
        g
    };
    if occupied(first, parent) {
        first.update(parent as int, Some(without_child(node_at(first, parent), child)))
    } else {
        first
    }
}

/// `order` lists every node of the graph once, each after all its parents.
pub open spec fn topological(g: GraphView, order: Seq<usize>) -> bool {
    &&& order.no_duplicates()
    &&& forall|id: usize| order.contains(id) <==> occupied(g, id)
    &&& forall|i: int, p: usize|
        0 <= i < order.len() && #[trigger] has_parent(g, order[i], p) ==> order.take(i).contains(p)
}

/// The record of a depth-first walk that has still to look at the children
/// of `id` from index `k` on, and then to record `id`. `depth` bounds how
/// far the walk may descend below `id`.
pub open spec fn finish(g: GraphView, id: usize, k: nat, done: Seq<usize>, depth: nat) -> Seq<
    usize,
>
    decreases depth, 1 + node_at(g, id).children.len() - k,
{
    let children = node_at(g, id).children;
    if k >= children.len() {
        done.push(id)
    } else {
        finish(g, id, k + 1, visit(g, children[k as int], done, depth), depth)
    }
}

/// The record of a depth-first walk after it has come to `id`: unchanged
/// where `id` is recorded already; otherwise the children of `id` are
/// visited in list order, and `id` is recorded after them.
pub open spec fn visit(g: GraphView, id: usize, done: Seq<usize>, depth: nat) -> Seq<usize>
    decreases depth, 0nat,
{
    if depth == 0 || done.contains(id) {
        done
    } else {
        finish(g, id, 0, done, (depth - 1) as nat)
    }
}

/// The record of the walk after it has started from each node among the
/// first `roots` slots, in slot order.
pub open spec fn record_upto(g: GraphView, roots: nat) -> Seq<usize>
    decreases roots,
{
    if roots == 0 {
        Seq::empty()
    } else {
        let done = record_upto(g, (roots - 1) as nat);
        let root = (roots - 1) as usize;
        if occupied(g, root) {
            visit(g, root, done, g.len())
        } else {
            done
        }
    }
}

/// The order in which the nodes are written out and handed to inference:
/// the record of the depth-first walk over all slots, read backwards. The
/// walk is given as much depth as the graph has slots, which is more than a
/// walk without cycles can use.
pub open spec fn topological_order(g: GraphView) -> Seq<usize> {
    record_upto(g, g.len()).reverse()
}

/// `map` gives each node its position in `order`, and nothing to an empty
/// slot.
pub open spec fn positions(g: GraphView, order: Seq<usize>, map: Seq<Option<usize>>) -> bool {
    &&& map.len() == g.len()
    &&& forall|i: int| 0 <= i < order.len() ==> map[(#[trigger] order[i]) as int] == Some(i as usize)
    &&& forall|id: usize| id < g.len() && !occupied(g, id) ==> (#[trigger] map[id as int]) is None
}

/// The position of each node in `order`, and nothing for an empty slot.
pub open spec fn position_map(g: GraphView, order: Seq<usize>) -> Seq<Option<usize>> {
    Seq::new(
        g.len(),
        |id: int|
            if order.contains(id as usize) {
                Some(order.index_of(id as usize) as usize)
            } else {
                None
            },
    )
}

/// The number of values of each parent of a node, in parents-list order.
pub open spec fn parent_counts(g: GraphView, id: usize) -> Seq<nat> {
    Seq::new(
        node_at(g, id).parents.len(),
        |k: int| node_at(g, node_at(g, id).parents[k]).values.len(),
    )
}

/// The shape that the table of a node must have: its own number of values,
/// then that of each parent.
pub open spec fn expected_shape(g: GraphView, id: usize) -> Seq<nat> {
    seq![node_at(g, id).values.len()] + parent_counts(g, id)
}

/// The number of rows of the table of a node: one for each combination of
/// values of its parents.
pub open spec fn row_count(g: GraphView, id: usize) -> nat {
    product(parent_counts(g, id))
}

/// Every table that is set has the shape that its node asks for.
pub open spec fn tables_fit(g: GraphView) -> bool {
    forall|id: usize| #[trigger]
        occupied(g, id) ==> (node_at(g, id).credencies matches Some(t) ==> t.shape
            == expected_shape(g, id))
}

} // verus!
