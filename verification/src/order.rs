//! A topological order of the nodes: a depth-first walk along children
//! lists records each node after its children; the record, reversed, lists
//! each node after its parents.

use vstd::prelude::*;
use vstd::seq_lib::lemma_no_dup_in_concat;
use crate::graph::DAG;
use crate::model::{
    GraphView, finish, has_child, has_parent, node_at, occupied, position_map, positions, ranked,
    record_upto, symmetric, topological, topological_order, visit,
};
use crate::ids::lemma_distinct_below;

verus! {

/// The child at `k` in the frame `j` of the walk has been dealt with: it is
/// recorded, or it is the node of the next frame.
pub open spec fn taken(
    g: GraphView,
    post: Seq<usize>,
    nodes: Seq<usize>,
    nexts: Seq<usize>,
    j: int,
    k: int,
) -> bool {
    let c = node_at(g, nodes[j]).children[k];
    post.contains(c) || (k == nexts[j] - 1 && j + 1 < nodes.len() && nodes[j + 1] == c)
}

/// The state of a depth-first walk. `post` holds the recorded nodes, each
/// after all its children. The stack holds, from its bottom up, the nodes
/// that were entered and not yet recorded (`nodes`), each with the index of
/// the child to look at next (`nexts`). `entered` marks the nodes of both.
#[verifier::opaque]
pub open spec fn walking(
    g: GraphView,
    rank: spec_fn(usize) -> nat,
    entered: Seq<bool>,
    post: Seq<usize>,
    nodes: Seq<usize>,
    nexts: Seq<usize>,
) -> bool {
    &&& entered.len() == g.len()
    &&& nodes.len() == nexts.len()
    &&& post.no_duplicates()
    &&& nodes.no_duplicates()
    &&& forall|i: int, j: int|
        0 <= i < post.len() && 0 <= j < nodes.len() ==> #[trigger] post[i] != #[trigger] nodes[j]
    &&& forall|i: int|
        0 <= i < post.len() ==> occupied(g, #[trigger] post[i]) && entered[post[i] as int]
    &&& forall|j: int|
        0 <= j < nodes.len() ==> occupied(g, #[trigger] nodes[j]) && entered[nodes[j] as int]
            && nexts[j] <= node_at(g, nodes[j]).children.len()
    &&& forall|x: int|
        0 <= x < entered.len() && #[trigger] entered[x] ==> post.contains(x as usize)
            || nodes.contains(x as usize)
    &&& forall|j: int, k: int|
        0 <= j < nodes.len() && 0 <= k < nexts[j] ==> #[trigger] taken(g, post, nodes, nexts, j, k)
    &&& forall|i: int, c: usize|
        0 <= i < post.len() && #[trigger] has_child(g, post[i], c) ==> post.take(i).contains(c)
    &&& forall|j: int, m: int|
        0 <= j < m < nodes.len() ==> rank(#[trigger] nodes[j]) < rank(#[trigger] nodes[m])
}

/// Before anything is entered, the walk is in order.
pub proof fn lemma_walk_starts(g: GraphView, rank: spec_fn(usize) -> nat, entered: Seq<bool>)
    requires
        entered.len() == g.len(),
        forall|x: int| 0 <= x < entered.len() ==> !#[trigger] entered[x],
    ensures
        walking(g, rank, entered, Seq::empty(), Seq::empty(), Seq::empty()),
{
    reveal(walking);
}

/// The top frame of the stack belongs to a node, its index is within the
/// node's children list or just behind it, and each of the children is a
/// node.
pub proof fn lemma_walk_top(
    g: GraphView,
    rank: spec_fn(usize) -> nat,
    entered: Seq<bool>,
    post: Seq<usize>,
    nodes: Seq<usize>,
    nexts: Seq<usize>,
)
    requires
        symmetric(g),
        walking(g, rank, entered, post, nodes, nexts),
        nodes.len() > 0,
    ensures
        nodes.len() == nexts.len(),
        entered.len() == g.len(),
        occupied(g, nodes.last()),
        nexts.last() <= node_at(g, nodes.last()).children.len(),
        forall|k: int|
            0 <= k < node_at(g, nodes.last()).children.len() ==> occupied(
                g,
                #[trigger] node_at(g, nodes.last()).children[k],
            ),
{
    reveal(walking);
    let node = nodes[nodes.len() - 1];
    assert(occupied(g, node));
    assert forall|k: int| 0 <= k < node_at(g, node).children.len() implies occupied(
        g,
        #[trigger] node_at(g, node).children[k],
    ) by {
        let c = node_at(g, node).children[k];
        assert(has_child(g, node, c));
        assert(has_parent(g, c, node));
    }
}

/// How many children the top frame of the stack has still to look at.
pub open spec fn remaining(g: GraphView, nodes: Seq<usize>, nexts: Seq<usize>) -> int {
    if nodes.len() > 0 && nodes.len() == nexts.len() {
        node_at(g, nodes.last()).children.len() - nexts.last()
    } else {
        0
    }
}

/// Two lists of distinct slots of a graph that share no slot hold, together,
/// no more slots than the graph has.
proof fn lemma_lists_fit(g: GraphView, post: Seq<usize>, nodes: Seq<usize>)
    requires
        post.no_duplicates(),
        nodes.no_duplicates(),
        forall|i: int, j: int|
            0 <= i < post.len() && 0 <= j < nodes.len() ==> #[trigger] post[i] != #[trigger] nodes[j],
        forall|i: int| 0 <= i < post.len() ==> occupied(g, #[trigger] post[i]),
        forall|j: int| 0 <= j < nodes.len() ==> occupied(g, #[trigger] nodes[j]),
    ensures
        post.len() + nodes.len() <= g.len(),
{
    lemma_no_dup_in_concat(post, nodes);
    let all = post + nodes;
    assert forall|i: int| 0 <= i < all.len() implies #[trigger] all[i] < g.len() by {
        if i < post.len() {
            assert(all[i] == post[i]);
        } else {
            assert(all[i] == nodes[i - post.len()]);
        }
    }
    lemma_distinct_below(all, g.len());
}

/// A node that was not entered yet may be entered on an empty stack.
pub proof fn lemma_walk_enters_root(
    g: GraphView,
    rank: spec_fn(usize) -> nat,
    entered: Seq<bool>,
    post: Seq<usize>,
    root: usize,
)
    requires
        walking(g, rank, entered, post, Seq::empty(), Seq::empty()),
        occupied(g, root),
        !entered[root as int],
    ensures
        walking(g, rank, entered.update(root as int, true), post, seq![root], seq![0usize]),
        post.len() + 1 <= g.len(),
        !post.contains(root),
{
    reveal(walking);
    let entered2 = entered.update(root as int, true);
    let nodes = seq![root];
    let nexts = seq![0usize];
    assert forall|i: int, j: int| 0 <= i < post.len() && 0 <= j < nodes.len() implies #[trigger] post[i]
        != #[trigger] nodes[j] by {
        assert(entered[post[i] as int]);
    }
    assert forall|x: int| 0 <= x < entered2.len() && #[trigger] entered2[x] implies post.contains(
        x as usize,
    ) || nodes.contains(x as usize) by {
        if x == root {
            assert(nodes[0] == root);
        } else {
            assert(entered[x]);
        }
    }
    lemma_lists_fit(g, post, nodes);
}

/// The child that the top frame looks at was entered before. It cannot be
/// on the stack, where ranks rise from the bottom up while a child ranks
/// above its parent; so it is recorded, and the frame moves on.
pub proof fn lemma_walk_passes(
    g: GraphView,
    rank: spec_fn(usize) -> nat,
    entered: Seq<bool>,
    post: Seq<usize>,
    nodes: Seq<usize>,
    nexts: Seq<usize>,
)
    requires
        symmetric(g),
        ranked(g, rank),
        walking(g, rank, entered, post, nodes, nexts),
        nodes.len() > 0,
        nexts.last() < node_at(g, nodes.last()).children.len(),
        node_at(g, nodes.last()).children[nexts.last() as int] < g.len(),
        entered[node_at(g, nodes.last()).children[nexts.last() as int] as int],
    ensures
        walking(
            g,
            rank,
            entered,
            post,
            nodes,
            nexts.update(nexts.len() - 1, (nexts.last() + 1) as usize),
        ),
        post.contains(node_at(g, nodes.last()).children[nexts.last() as int]),
{
    reveal(walking);
    let top = nodes.len() - 1;
    let node = nodes[top];
    let next = nexts[top];
    let c = node_at(g, node).children[next as int];
    let nexts2 = nexts.update(top, (next + 1) as usize);
    assert(has_child(g, node, c));
    assert(has_parent(g, c, node));
    assert(post.contains(c)) by {
        if nodes.contains(c) {
            let j = choose|j: int| 0 <= j < nodes.len() && nodes[j] == c;
            if j < top {
                assert(rank(nodes[j]) < rank(nodes[top]));
            }
        }
    }
    assert forall|j: int, k: int| 0 <= j < nodes.len() && 0 <= k < nexts2[j] implies #[trigger] taken(
        g,
        post,
        nodes,
        nexts2,
        j,
        k,
    ) by {
        if j == top {
            if k < next {
                assert(taken(g, post, nodes, nexts, j, k));
            }
        } else {
            assert(taken(g, post, nodes, nexts, j, k));
        }
    }
}

/// The child that the top frame looks at was not entered before: it is
/// entered and gets a frame of its own on top of the stack.
pub proof fn lemma_walk_descends(
    g: GraphView,
    rank: spec_fn(usize) -> nat,
    entered: Seq<bool>,
    post: Seq<usize>,
    nodes: Seq<usize>,
    nexts: Seq<usize>,
)
    requires
        symmetric(g),
        ranked(g, rank),
        walking(g, rank, entered, post, nodes, nexts),
        nodes.len() > 0,
        nexts.last() < node_at(g, nodes.last()).children.len(),
        node_at(g, nodes.last()).children[nexts.last() as int] < g.len(),
        !entered[node_at(g, nodes.last()).children[nexts.last() as int] as int],
    ensures
        walking(
            g,
            rank,
            entered.update(node_at(g, nodes.last()).children[nexts.last() as int] as int, true),
            post,
            nodes.push(node_at(g, nodes.last()).children[nexts.last() as int]),
            nexts.update(nexts.len() - 1, (nexts.last() + 1) as usize).push(0),
        ),
        post.len() + nodes.len() + 1 <= g.len(),
        !post.contains(node_at(g, nodes.last()).children[nexts.last() as int]),
{
    reveal(walking);
    let top = nodes.len() - 1;
    let node = nodes[top];
    let next = nexts[top];
    let c = node_at(g, node).children[next as int];
    let entered2 = entered.update(c as int, true);
    let nodes2 = nodes.push(c);
    let nexts2 = nexts.update(top, (next + 1) as usize).push(0);
    assert(has_child(g, node, c));
    assert(has_parent(g, c, node));
    assert(occupied(g, c));
    assert(!post.contains(c)) by {
        if post.contains(c) {
            let i = choose|i: int| 0 <= i < post.len() && post[i] == c;
            assert(entered[post[i] as int]);
        }
    }
    assert(!nodes.contains(c)) by {
        if nodes.contains(c) {
            let j = choose|j: int| 0 <= j < nodes.len() && nodes[j] == c;
            assert(entered[nodes[j] as int]);
        }
    }
    assert(nodes2.no_duplicates());
    assert forall|i: int, j: int| 0 <= i < post.len() && 0 <= j < nodes2.len() implies #[trigger] post[i]
        != #[trigger] nodes2[j] by {
        if j < nodes.len() {
            assert(nodes2[j] == nodes[j]);
        }
    }
    assert forall|i: int| 0 <= i < post.len() implies occupied(g, #[trigger] post[i])
        && entered2[post[i] as int] by {
        assert(entered[post[i] as int]);
    }
    assert forall|j: int| 0 <= j < nodes2.len() implies occupied(g, #[trigger] nodes2[j])
        && entered2[nodes2[j] as int] && nexts2[j] <= node_at(g, nodes2[j]).children.len() by {
        if j < nodes.len() {
            assert(nodes2[j] == nodes[j]);
            assert(entered[nodes[j] as int]);
        }
    }
    assert forall|x: int| 0 <= x < entered2.len() && #[trigger] entered2[x] implies post.contains(
        x as usize,
    ) || nodes2.contains(x as usize) by {
        if x == c {
            assert(nodes2[nodes.len() as int] == c);
        } else {
            assert(entered[x]);
            if nodes.contains(x as usize) {
                let j = choose|j: int| 0 <= j < nodes.len() && nodes[j] == x as usize;
                assert(nodes2[j] == x as usize);
            }
        }
    }
    assert forall|j: int, k: int| 0 <= j < nodes2.len() && 0 <= k < nexts2[j] implies #[trigger] taken(
        g,
        post,
        nodes2,
        nexts2,
        j,
        k,
    ) by {
        if j == top {
            if k < next {
                assert(taken(g, post, nodes, nexts, j, k));
                assert(post.contains(node_at(g, nodes[j]).children[k]));
            } else {
                assert(nodes2[j + 1] == c);
            }
        } else if j < top {
            assert(taken(g, post, nodes, nexts, j, k));
            assert(nodes2[j] == nodes[j]);
            assert(nodes2[j + 1] == nodes[j + 1]);
        }
    }
    assert forall|j: int, m: int| 0 <= j < m < nodes2.len() implies rank(#[trigger] nodes2[j])
        < rank(#[trigger] nodes2[m]) by {
        if m < nodes.len() {
            assert(rank(nodes[j]) < rank(nodes[m]));
        } else if j < top {
            assert(rank(nodes[j]) < rank(nodes[top]));
        }
    }
    lemma_lists_fit(g, post, nodes2);
}

/// The top frame has looked at all its children: they are recorded, so its
/// node is recorded after them and the frame leaves the stack.
pub proof fn lemma_walk_records(
    g: GraphView,
    rank: spec_fn(usize) -> nat,
    entered: Seq<bool>,
    post: Seq<usize>,
    nodes: Seq<usize>,
    nexts: Seq<usize>,
)
    requires
        walking(g, rank, entered, post, nodes, nexts),
        nodes.len() > 0,
        nexts.last() >= node_at(g, nodes.last()).children.len(),
    ensures
        walking(g, rank, entered, post.push(nodes.last()), nodes.drop_last(), nexts.drop_last()),
{
    reveal(walking);
    let top = nodes.len() - 1;
    let node = nodes[top];
    let post2 = post.push(node);
    let nodes2 = nodes.drop_last();
    let nexts2 = nexts.drop_last();
    assert(post2.no_duplicates()) by {
        assert forall|i: int, j: int| 0 <= i < post2.len() && 0 <= j < post2.len() && i
            != j implies post2[i] != post2[j] by {
            if i < post.len() && j < post.len() {
            } else if i < post.len() {
                assert(post[i] != nodes[top]);
            } else if j < post.len() {
                assert(post[j] != nodes[top]);
            }
        }
    }
    assert forall|i: int, j: int| 0 <= i < post2.len() && 0 <= j < nodes2.len() implies #[trigger] post2[i]
        != #[trigger] nodes2[j] by {
        assert(nodes2[j] == nodes[j]);
        if i < post.len() {
            assert(post2[i] == post[i]);
        }
    }
    assert forall|i: int| 0 <= i < post2.len() implies occupied(g, #[trigger] post2[i])
        && entered[post2[i] as int] by {
        if i < post.len() {
            assert(post2[i] == post[i]);
        } else {
            assert(post2[i] == nodes[top]);
        }
    }
    assert forall|j: int| 0 <= j < nodes2.len() implies occupied(g, #[trigger] nodes2[j])
        && entered[nodes2[j] as int] && nexts2[j] <= node_at(g, nodes2[j]).children.len() by {
        assert(nodes2[j] == nodes[j]);
    }
    assert forall|x: int| 0 <= x < entered.len() && #[trigger] entered[x] implies post2.contains(
        x as usize,
    ) || nodes2.contains(x as usize) by {
        if post.contains(x as usize) {
            let i = choose|i: int| 0 <= i < post.len() && post[i] == x as usize;
            assert(post2[i] == x as usize);
        } else {
            let j = choose|j: int| 0 <= j < nodes.len() && nodes[j] == x as usize;
            if j == top {
                assert(post2[post.len() as int] == x as usize);
            } else {
                assert(nodes2[j] == x as usize);
            }
        }
    }
    assert forall|j: int, k: int| 0 <= j < nodes2.len() && 0 <= k < nexts2[j] implies #[trigger] taken(
        g,
        post2,
        nodes2,
        nexts2,
        j,
        k,
    ) by {
        assert(taken(g, post, nodes, nexts, j, k));
        let c = node_at(g, nodes[j]).children[k];
        if post.contains(c) {
            let i = choose|i: int| 0 <= i < post.len() && post[i] == c;
            assert(post2[i] == c);
        } else {
            assert(nodes[j + 1] == c);
            if j + 1 == top {
                assert(post2[post.len() as int] == c);
            } else {
                assert(nodes2[j + 1] == c);
            }
        }
    }
    assert forall|i: int, c: usize| 0 <= i < post2.len() && #[trigger] has_child(
        g,
        post2[i],
        c,
    ) implies post2.take(i).contains(c) by {
        if i < post.len() {
            assert(post2[i] == post[i]);
            assert(post.take(i).contains(c));
            let m = choose|m: int| 0 <= m < post.take(i).len() && post.take(i)[m] == c;
            assert(post2.take(i)[m] == c);
        } else {
            let k = choose|k: int|
                0 <= k < node_at(g, node).children.len() && node_at(g, node).children[k] == c;
            assert(taken(g, post, nodes, nexts, top, k));
            assert(post.contains(c));
            assert(post2.take(i) =~= post);
        }
    }
    assert forall|j: int, m: int| 0 <= j < m < nodes2.len() implies rank(#[trigger] nodes2[j])
        < rank(#[trigger] nodes2[m]) by {
        assert(rank(nodes[j]) < rank(nodes[m]));
    }
}

/// The record that the walk will have made once every frame of the stack
/// has looked at the rest of its children and recorded its node.
pub open spec fn resume(g: GraphView, post: Seq<usize>, nodes: Seq<usize>, nexts: Seq<usize>) -> Seq<
    usize,
>
    decreases nodes.len(),
{
    if nodes.len() == 0 {
        post
    } else {
        resume(
            g,
            finish(g, nodes.last(), nexts.last() as nat, post, (g.len() - nodes.len()) as nat),
            nodes.drop_last(),
            nexts.drop_last(),
        )
    }
}

/// Entering a node on an empty stack is visiting it.
pub proof fn lemma_resume_enters(g: GraphView, post: Seq<usize>, root: usize)
    requires
        g.len() > 0,
        !post.contains(root),
    ensures
        resume(g, post, seq![root], seq![0usize]) == visit(g, root, post, g.len()),
{
    let nodes = seq![root];
    let nexts = seq![0usize];
    assert(nodes.drop_last() =~= Seq::<usize>::empty());
    assert(nexts.drop_last() =~= Seq::<usize>::empty());
    let after = finish(g, root, 0, post, (g.len() - 1) as nat);
    assert(resume(g, after, Seq::empty(), Seq::empty()) == after);
    assert(resume(g, post, nodes, nexts) == resume(g, after, nodes.drop_last(), nexts.drop_last()));
}

/// Moving past a child that is recorded changes nothing of what the walk
/// will record.
pub proof fn lemma_resume_passes(
    g: GraphView,
    post: Seq<usize>,
    nodes: Seq<usize>,
    nexts: Seq<usize>,
)
    requires
        nodes.len() > 0,
        nodes.len() == nexts.len(),
        nexts.last() < node_at(g, nodes.last()).children.len() <= usize::MAX,
        post.contains(node_at(g, nodes.last()).children[nexts.last() as int]),
    ensures
        resume(g, post, nodes, nexts.update(nexts.len() - 1, (nexts.last() + 1) as usize))
            == resume(g, post, nodes, nexts),
{
    let nexts2 = nexts.update(nexts.len() - 1, (nexts.last() + 1) as usize);
    assert(nexts2.drop_last() =~= nexts.drop_last());
    assert(nexts2.last() == nexts.last() + 1);
    let depth = (g.len() - nodes.len()) as nat;
    let c = node_at(g, nodes.last()).children[nexts.last() as int];
    assert(visit(g, c, post, depth) == post);
    assert(finish(g, nodes.last(), nexts.last() as nat, post, depth) == finish(
        g,
        nodes.last(),
        (nexts.last() + 1) as nat,
        post,
        depth,
    ));
}

/// Descending into a child that is not recorded changes nothing of what the
/// walk will record.
pub proof fn lemma_resume_descends(
    g: GraphView,
    post: Seq<usize>,
    nodes: Seq<usize>,
    nexts: Seq<usize>,
)
    requires
        nodes.len() > 0,
        nodes.len() == nexts.len(),
        nodes.len() + 1 <= g.len(),
        nexts.last() < node_at(g, nodes.last()).children.len() <= usize::MAX,
        !post.contains(node_at(g, nodes.last()).children[nexts.last() as int]),
    ensures
        resume(
            g,
            post,
            nodes.push(node_at(g, nodes.last()).children[nexts.last() as int]),
            nexts.update(nexts.len() - 1, (nexts.last() + 1) as usize).push(0),
        ) == resume(g, post, nodes, nexts),
{
    let c = node_at(g, nodes.last()).children[nexts.last() as int];
    let raised = nexts.update(nexts.len() - 1, (nexts.last() + 1) as usize);
    let nodes2 = nodes.push(c);
    let nexts2 = raised.push(0);
    assert(nodes2.drop_last() =~= nodes);
    assert(nexts2.drop_last() =~= raised);
    assert(raised.drop_last() =~= nexts.drop_last());
    assert(raised.last() == nexts.last() + 1);
    assert(nodes2.last() == c);
    assert(nexts2.last() == 0);
    let depth = (g.len() - nodes.len()) as nat;
    let below = finish(g, c, 0, post, (depth - 1) as nat);
    assert(visit(g, c, post, depth) == below);
    assert(resume(g, post, nodes2, nexts2) == resume(g, below, nodes, raised));
    assert(finish(g, nodes.last(), nexts.last() as nat, post, depth) == finish(
        g,
        nodes.last(),
        (nexts.last() + 1) as nat,
        below,
        depth,
    ));
}

/// Recording the node of the top frame, once it has looked at all its
/// children, changes nothing of what the walk will record.
pub proof fn lemma_resume_records(
    g: GraphView,
    post: Seq<usize>,
    nodes: Seq<usize>,
    nexts: Seq<usize>,
)
    requires
        nodes.len() > 0,
        nodes.len() == nexts.len(),
        nexts.last() >= node_at(g, nodes.last()).children.len(),
    ensures
        resume(g, post.push(nodes.last()), nodes.drop_last(), nexts.drop_last()) == resume(
            g,
            post,
            nodes,
            nexts,
        ),
{
}

/// What a walk with an empty stack has recorded: distinct nodes, each after
/// its children, and exactly those that were entered.
pub proof fn lemma_walk_rests(
    g: GraphView,
    rank: spec_fn(usize) -> nat,
    entered: Seq<bool>,
    post: Seq<usize>,
)
    requires
        walking(g, rank, entered, post, Seq::empty(), Seq::empty()),
    ensures
        entered.len() == g.len(),
        post.no_duplicates(),
        forall|i: int| 0 <= i < post.len() ==> occupied(g, #[trigger] post[i]),
        forall|x: int| 0 <= x < entered.len() && #[trigger] entered[x] ==> post.contains(x as usize),
        forall|i: int, c: usize|
            0 <= i < post.len() && #[trigger] has_child(g, post[i], c) ==> post.take(i).contains(c),
{
    reveal(walking);
    assert forall|x: int| 0 <= x < entered.len() && #[trigger] entered[x] implies post.contains(
        x as usize,
    ) by {
        if Seq::<usize>::empty().contains(x as usize) {
            let j = choose|j: int| 0 <= j < Seq::<usize>::empty().len() && Seq::<usize>::empty()[j] == x as usize;
        }
    }
}

/// A record of all nodes, each after its children, is, read backwards, a
/// list of all nodes, each after its parents.
pub proof fn lemma_reversed_record(g: GraphView, post: Seq<usize>, order: Seq<usize>)
    requires
        symmetric(g),
        post.no_duplicates(),
        forall|id: usize| occupied(g, id) ==> post.contains(id),
        forall|i: int| 0 <= i < post.len() ==> occupied(g, #[trigger] post[i]),
        forall|i: int, c: usize|
            0 <= i < post.len() && #[trigger] has_child(g, post[i], c) ==> post.take(i).contains(c),
        order.len() == post.len(),
        forall|i: int| 0 <= i < order.len() ==> #[trigger] order[i] == post[post.len() - 1 - i],
    ensures
        topological(g, order),
{
    let n = post.len() as int;
    assert forall|i: int, j: int| 0 <= i < order.len() && 0 <= j < order.len() && i
        != j implies order[i] != order[j] by {
        assert(post[n - 1 - i] != post[n - 1 - j]);
    }
    assert forall|id: usize| order.contains(id) <==> occupied(g, id) by {
        if order.contains(id) {
            let i = choose|i: int| 0 <= i < order.len() && order[i] == id;
            assert(order[i] == post[n - 1 - i]);
        }
        if occupied(g, id) {
            let m = choose|m: int| 0 <= m < post.len() && post[m] == id;
            assert(order[n - 1 - m] == id);
        }
    }
    assert forall|i: int, p: usize| 0 <= i < order.len() && #[trigger] has_parent(
        g,
        order[i],
        p,
    ) implies order.take(i).contains(p) by {
        let x = order[i];
        assert(has_child(g, p, x));
        let m = choose|m: int| 0 <= m < post.len() && post[m] == p;
        assert(has_child(g, post[m], x));
        assert(post.take(m).contains(x));
        let e = choose|e: int| 0 <= e < post.take(m).len() && post.take(m)[e] == x;
        assert(post[e] == x);
        assert(post[n - 1 - i] == x);
        assert(e == n - 1 - i);
        assert(order[n - 1 - m] == p);
        assert(order.take(i)[n - 1 - m] == p);
    }
}

/// Only one map gives the positions in a list of all nodes.
pub proof fn lemma_positions_unique(g: GraphView, order: Seq<usize>, map: Seq<Option<usize>>)
    requires
        g.len() <= usize::MAX,
        topological(g, order),
        positions(g, order, map),
    ensures
        map == position_map(g, order),
{
    let expected = position_map(g, order);
    assert forall|id: int| 0 <= id < g.len() implies map[id] == expected[id] by {
        if order.contains(id as usize) {
            let i = order.index_of(id as usize);
            assert(map[order[i] as int] == Some(i as usize));
        } else {
            assert(!occupied(g, id as usize));
            assert(map[(id as usize) as int] is None);
        }
    }
    assert(map =~= expected);
}

impl DAG {
    /// A topological order of the nodes, and the position of each node in
    /// it.
    ///
    /// The order comes from a depth-first walk with an explicit stack: from
    /// each node not yet entered, in slot order, the walk follows children
    /// lists, enters each node at most once and records it when all its
    /// children are recorded. The order is that record read backwards.
    pub fn compact_ids(&self) -> (r: (Vec<usize>, Vec<Option<usize>>))
        requires
            self.wf(),
        ensures
            r.0@ == topological_order(self@),
            r.1@ == position_map(self@, r.0@),
            topological(self@, r.0@),
            positions(self@, r.0@, r.1@),
    {
        let n = self.slot_count();
        let ghost g = self@;
        let ghost rank = choose|rank: spec_fn(usize) -> nat| ranked(g, rank);
        let mut entered: Vec<bool> = Vec::new();
        let mut map: Vec<Option<usize>> = Vec::new();
        let mut i: usize = 0;
        while i < n
            invariant
                i <= n,
                entered@.len() == i,
                map@.len() == i,
                forall|x: int| 0 <= x < i ==> !#[trigger] entered@[x],
                forall|x: int| 0 <= x < i ==> (#[trigger] map@[x]) is None,
            decreases n - i,
        {
            entered.push(false);
            map.push(None);
            i += 1;
        }
        let mut post: Vec<usize> = Vec::new();
        let mut nodes: Vec<usize> = Vec::new();
        let mut nexts: Vec<usize> = Vec::new();
        proof {
            lemma_walk_starts(g, rank, entered@);
        }
        let mut root: usize = 0;
        while root < n
            invariant
                g == self@,
                symmetric(g),
                ranked(g, rank),
                n == g.len(),
                root <= n,
                nodes@ == Seq::<usize>::empty(),
                nexts@ == Seq::<usize>::empty(),
                entered@.len() == n,
                walking(g, rank, entered@, post@, nodes@, nexts@),
                forall|x: int| 0 <= x < root && occupied(g, x as usize) ==> #[trigger] entered@[x],
                post@ == record_upto(g, root as nat),
            decreases n - root,
        {
            let ghost start = post@;
            if self.get(root).is_some() && !entered[root] {
                proof {
                    lemma_walk_enters_root(g, rank, entered@, post@, root);
                    lemma_resume_enters(g, post@, root);
                }
                entered[root] = true;
                nodes.push(root);
                nexts.push(0);
                assert(nodes@ =~= seq![root]);
                assert(nexts@ =~= seq![0usize]);
                while nodes.len() > 0
                    invariant
                        g == self@,
                        symmetric(g),
                        ranked(g, rank),
                        n == g.len(),
                        root < n,
                        entered@.len() == n,
                        nodes@.len() == nexts@.len(),
                        post@.len() + nodes@.len() <= n,
                        walking(g, rank, entered@, post@, nodes@, nexts@),
                        forall|x: int|
                            0 <= x <= root && occupied(g, x as usize) ==> #[trigger] entered@[x],
                        resume(g, post@, nodes@, nexts@) == visit(g, root, start, g.len()),
                    decreases
                        n - post@.len() - nodes@.len(),
                        nodes@.len(),
                        remaining(g, nodes@, nexts@),
                {
                    let top = nodes.len() - 1;
                    let node = nodes[top];
                    let next = nexts[top];
                    proof {
                        lemma_walk_top(g, rank, entered@, post@, nodes@, nexts@);
                    }
                    let children = &self.get(node).unwrap().children;
                    if next < children.len() {
                        let c = children[next];
                        assert(occupied(g, node_at(g, node).children[next as int]));
                        let ghost before = nexts@;
                        nexts[top] = next + 1;
                        assert(nexts@ =~= before.update(top as int, (next + 1) as usize));
                        if entered[c] {
                            proof {
                                lemma_walk_passes(g, rank, entered@, post@, nodes@, before);
                                lemma_resume_passes(g, post@, nodes@, before);
                            }
                        } else {
                            proof {
                                lemma_walk_descends(g, rank, entered@, post@, nodes@, before);
                                lemma_resume_descends(g, post@, nodes@, before);
                            }
                            entered[c] = true;
                            nodes.push(c);
                            nexts.push(0);
                        }
                    } else {
                        proof {
                            lemma_walk_records(g, rank, entered@, post@, nodes@, nexts@);
                            lemma_resume_records(g, post@, nodes@, nexts@);
                        }
                        let ghost frames = nodes@;
                        let ghost indices = nexts@;
                        nodes.pop();
                        nexts.pop();
                        post.push(node);
                        assert(nodes@ =~= frames.drop_last());
                        assert(nexts@ =~= indices.drop_last());
                    }
                }
                assert(nodes@ =~= Seq::<usize>::empty());
                assert(nexts@ =~= Seq::<usize>::empty());
            } else {
                proof {
                    if occupied(g, root) {
                        lemma_walk_rests(g, rank, entered@, post@);
                        assert(entered@[root as int]);
                    }
                }
            }
            root += 1;
        }
        proof {
            lemma_walk_rests(g, rank, entered@, post@);
            assert forall|id: usize| occupied(g, id) implies post@.contains(id) by {
                assert(entered@[id as int]);
            }
        }
        let len = post.len();
        let mut order: Vec<usize> = Vec::new();
        let mut k: usize = 0;
        while k < len
            invariant
                len == post@.len(),
                k <= len,
                order@.len() == k,
                forall|i: int| 0 <= i < k ==> #[trigger] order@[i] == post@[len - 1 - i],
            decreases len - k,
        {
            order.push(post[len - 1 - k]);
            k += 1;
        }
        proof {
            lemma_reversed_record(g, post@, order@);
            assert(order@ =~= post@.reverse());
            assert forall|i: int| 0 <= i < len implies (#[trigger] order@[i]) < n by {
                assert(order@.contains(order@[i]));
            }
        }
        let mut at: usize = 0;
        while at < len
            invariant
                n == g.len(),
                len == order@.len(),
                at <= len,
                topological(g, order@),
                forall|i: int| 0 <= i < len ==> (#[trigger] order@[i]) < n,
                map@.len() == n,
                forall|i: int| 0 <= i < at ==> map@[(#[trigger] order@[i]) as int] == Some(i as usize),
                forall|x: int|
                    0 <= x < n && !order@.take(at as int).contains(x as usize) ==> (
                    #[trigger] map@[x]) is None,
            decreases len - at,
        {
            let id = order[at];
            assert(order@.contains(id));
            let ghost before = map@;
            map[id] = Some(at);
            proof {
                assert forall|i: int| 0 <= i < at + 1 implies map@[(#[trigger] order@[i]) as int]
                    == Some(i as usize) by {
                    assert(order@.contains(order@[i]));
                    if i < at {
                        assert(order@[i] != order@[at as int]);
                        assert(before[order@[i] as int] == Some(i as usize));
                    }
                }
                assert forall|x: int|
                    0 <= x < n && !order@.take(at + 1).contains(x as usize) implies (
                #[trigger] map@[x]) is None by {
                    assert(order@.take(at + 1)[at as int] == id);
                    if order@.take(at as int).contains(x as usize) {
                        let m = choose|m: int|
                            0 <= m < order@.take(at as int).len() && order@.take(at as int)[m]
                                == x as usize;
                        assert(order@.take(at + 1)[m] == x as usize);
                    }
                }
            }
            at += 1;
        }
        proof {
            assert(order@.take(len as int) =~= order@);
            assert forall|id: usize| id < g.len() && !occupied(g, id) implies (#[trigger] map@[id as int]) is None by {
                assert(!order@.contains(id));
            }
            lemma_positions_unique(g, order@, map@);
        }
        (order, map)
    }
}

} // verus!
