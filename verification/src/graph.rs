//! The graph: a slot table of nodes, edited through operations that keep the
//! edges symmetric and free of cycles.

use vstd::prelude::*;
use crate::ids::{append_ids, contains_id, remove_id, same_ids};
use crate::model::{
    GraphView, NodeView, add_edge_result, edge_added, edge_check, edge_removed, empty_node,
    expected_shape, has_child, has_parent, node_at, occupied, parent_counts, ranked, reaches,
    row_count, symmetric, tables_fit, texts, value_added, value_removed, well_formed,
    with_parent, with_values, without_child, without_parent, without_table,
};
use crate::edits::{
    lemma_edge_added, lemma_edge_removed, lemma_payload_changed, lemma_payload_tables_fit,
    lemma_same_edges, lemma_shape_kept,
};
use crate::ids::lemma_filter_keeps_distinct;
use crate::paths::lemma_no_cycle;
use crate::search::{
    lemma_search_ends, lemma_search_expands, lemma_search_finds, lemma_search_skips,
    lemma_search_starts, searching,
};
use crate::table::{
    Table, dims, lemma_dims_injective, lemma_product_grows, lemma_product_zero, product,
};

verus! {

/// A node of the graph.
#[derive(Debug)]
pub struct Node {
    pub parents: Vec<usize>,
    pub children: Vec<usize>,
    pub label: String,
    pub description: String,
    pub values: Vec<String>,
    pub credencies: Option<Table>,
    pub cred_description: Vec<String>,
    pub observation: Option<usize>,
}

/// Why an edge cannot be added.
#[derive(Copy, Clone, Debug, PartialEq, Eq, Structural)]
pub enum EdgeError {
    BadNode,
    WouldCycle,
    AlreadyExisting,
}

/// A directed acyclic graph of nodes, held in numbered slots.
#[derive(Debug)]
pub struct DAG {
    nodes: Vec<Option<Node>>,
}

impl View for Node {
    type V = NodeView;

    open spec fn view(&self) -> NodeView {
        NodeView {
            parents: self.parents@,
            children: self.children@,
            label: self.label@,
            description: self.description@,
            values: texts(self.values@),
            credencies: match self.credencies {
                Some(t) => Some(t@),
                None => None,
            },
            cred_description: texts(self.cred_description@),
            observation: self.observation,
        }
    }
}

/// The model of a slot.
pub open spec fn slot_view(slot: Option<Node>) -> Option<NodeView> {
    match slot {
        Some(n) => Some(n@),
        None => None,
    }
}

impl View for DAG {
    type V = GraphView;

    closed spec fn view(&self) -> GraphView {
        Seq::new(self.nodes@.len(), |i: int| slot_view(self.nodes@[i]))
    }
}

impl DAG {
    /// The structural invariant: see `well_formed`.
    pub open spec fn wf(&self) -> bool {
        well_formed(self@)
    }

    /// A graph without slots.
    pub fn new() -> (dag: DAG)
        ensures
            dag@ == Seq::<Option<NodeView>>::empty(),
            dag.wf(),
            tables_fit(dag@),
    {
        let dag = DAG { nodes: Vec::new() };
        proof {
            assert(dag@ =~= Seq::<Option<NodeView>>::empty());
            let rank = |id: usize| 0nat;
            assert(ranked(dag@, rank));
        }
        dag
    }

    /// Adds an empty node and returns its slot: the lowest empty slot, or a
    /// new slot at the end where none is empty.
    pub fn insert_node(&mut self) -> (id: usize)
        requires
            old(self).wf(),
        ensures
            final(self).wf(),
            id <= old(self)@.len(),
            forall|j: usize| j < id ==> occupied(old(self)@, j),
            !occupied(old(self)@, id),
            final(self)@ == (if id < old(self)@.len() {
                old(self)@.update(id as int, Some(empty_node()))
            } else {
                old(self)@.push(Some(empty_node()))
            }),
            tables_fit(old(self)@) ==> tables_fit(final(self)@),
    {
        let new_node = Node {
            parents: Vec::new(),
            children: Vec::new(),
            description: String::new(),
            label: String::new(),
            values: Vec::new(),
            credencies: None,
            cred_description: Vec::new(),
            observation: None,
        };
        proof {
            assert(texts(new_node.values@) =~= Seq::<Seq<char>>::empty());
            assert(texts(new_node.cred_description@) =~= Seq::<Seq<char>>::empty());
            assert(new_node@ == empty_node());
        }
        let mut id: usize = 0;
        while id < self.nodes.len() && self.nodes[id].is_some()
            invariant
                id <= self.nodes@.len(),
                forall|j: int| 0 <= j < id ==> self.nodes@[j] is Some,
            decreases self.nodes@.len() - id,
        {
            id += 1;
        }
        if id < self.nodes.len() {
            self.nodes[id] = Some(new_node);
        } else {
            self.nodes.push(Some(new_node));
        }
        proof {
            let g = old(self)@;
            let h = self@;
            assert(h =~= (if id < g.len() {
                g.update(id as int, Some(empty_node()))
            } else {
                g.push(Some(empty_node()))
            }));
            assert forall|a: usize, b: usize| #[trigger]
                has_parent(h, a, b) <==> has_parent(g, a, b) by {
                assert(has_parent(g, a, id) ==> has_child(g, id, a));
            }
            assert forall|a: usize, b: usize| #[trigger]
                has_child(h, a, b) <==> has_child(g, a, b) by {}
            assert forall|x: usize| #[trigger] occupied(h, x) implies node_at(
                h,
                x,
            ).parents.no_duplicates() && node_at(h, x).children.no_duplicates() by {
                if x != id {
                    assert(occupied(g, x));
                }
            }
            lemma_same_edges(g, h);
            if tables_fit(g) {
                assert forall|x: usize| #[trigger] occupied(h, x) implies (node_at(
                    h,
                    x,
                ).credencies matches Some(t) ==> t.shape == expected_shape(h, x)) by {
                    if x != id {
                        assert(occupied(g, x));
                        assert forall|p: usize| #[trigger] has_parent(g, x, p) implies node_at(
                            h,
                            p,
                        ).values.len() == node_at(g, p).values.len() by {
                            assert(has_child(g, p, x));
                        }
                        lemma_shape_kept(g, h, x);
                    }
                }
            }
        }
        id
    }

    /// Sets the label of a node; does nothing where the slot is empty.
    pub fn set_label(&mut self, node: usize, label: String)
        requires
            old(self).wf(),
        ensures
            final(self).wf(),
            final(self)@ == (if occupied(old(self)@, node) {
                old(self)@.update(
                    node as int,
                    Some(NodeView { label: label@, ..node_at(old(self)@, node) }),
                )
            } else {
                old(self)@
            }),
            tables_fit(old(self)@) ==> tables_fit(final(self)@),
    {
        if node < self.nodes.len() {
            match &mut self.nodes[node] {
                Some(n) => {
                    n.label = label;
                },
                None => {},
            }
        }
        proof {
            let g = old(self)@;
            if occupied(g, node) {
                let edited = NodeView { label: label@, ..node_at(g, node) };
                assert(self@ =~= g.update(node as int, Some(edited)));
                lemma_payload_changed(g, self@, node, edited);
                if tables_fit(g) {
                    lemma_payload_tables_fit(g, self@, node, edited);
                }
            } else {
                assert(self@ =~= g);
            }
        }
    }

    /// Sets the description of a node; does nothing where the slot is empty.
    pub fn set_description(&mut self, node: usize, description: String)
        requires
            old(self).wf(),
        ensures
            final(self).wf(),
            final(self)@ == (if occupied(old(self)@, node) {
                old(self)@.update(
                    node as int,
                    Some(NodeView { description: description@, ..node_at(old(self)@, node) }),
                )
            } else {
                old(self)@
            }),
            tables_fit(old(self)@) ==> tables_fit(final(self)@),
    {
        if node < self.nodes.len() {
            match &mut self.nodes[node] {
                Some(n) => {
                    n.description = description;
                },
                None => {},
            }
        }
        proof {
            let g = old(self)@;
            if occupied(g, node) {
                let edited = NodeView { description: description@, ..node_at(g, node) };
                assert(self@ =~= g.update(node as int, Some(edited)));
                lemma_payload_changed(g, self@, node, edited);
                if tables_fit(g) {
                    lemma_payload_tables_fit(g, self@, node, edited);
                }
            } else {
                assert(self@ =~= g);
            }
        }
    }

    /// Sets or clears the observed value of a node; does nothing where the
    /// slot is empty. The index is stored as given.
    pub fn set_observation(&mut self, node: usize, observation: Option<usize>)
        requires
            old(self).wf(),
        ensures
            final(self).wf(),
            final(self)@ == (if occupied(old(self)@, node) {
                old(self)@.update(
                    node as int,
                    Some(NodeView { observation: observation, ..node_at(old(self)@, node) }),
                )
            } else {
                old(self)@
            }),
            tables_fit(old(self)@) ==> tables_fit(final(self)@),
    {
        if node < self.nodes.len() {
            match &mut self.nodes[node] {
                Some(n) => {
                    n.observation = observation;
                },
                None => {},
            }
        }
        proof {
            let g = old(self)@;
            if occupied(g, node) {
                let edited = NodeView { observation: observation, ..node_at(g, node) };
                assert(self@ =~= g.update(node as int, Some(edited)));
                lemma_payload_changed(g, self@, node, edited);
                if tables_fit(g) {
                    lemma_payload_tables_fit(g, self@, node, edited);
                }
            } else {
                assert(self@ =~= g);
            }
        }
    }

    /// Decides whether `parent` may become a parent of `child`, without
    /// changing the graph: see `edge_check`. The ancestors of `parent` are
    /// walked with an explicit stack, each node expanded at most once.
    pub fn check_edge_addition(&self, child: usize, parent: usize) -> (r: Result<(), EdgeError>)
        requires
            self.wf(),
        ensures
            r == edge_check(self@, child, parent),
    {
        let node = match self.get(parent) {
            Some(n) => n,
            None => {
                return Err(EdgeError::BadNode);
            },
        };
        if parent == child {
            return Err(EdgeError::WouldCycle);
        }
        if contains_id(&node.children, child) {
            return Err(EdgeError::AlreadyExisting);
        }
        let ghost g = self@;
        let mut ancestors: Vec<usize> = Vec::new();
        append_ids(&mut ancestors, &node.parents);
        let mut visited: Vec<usize> = Vec::new();
        visited.push(parent);
        proof {
            assert(ancestors@ =~= node_at(g, parent).parents);
            assert(visited@ =~= seq![parent]);
            lemma_search_starts(g, child, parent);
        }
        loop
            invariant
                g == self@,
                symmetric(g),
                occupied(g, parent),
                parent != child,
                !has_child(g, parent, child),
                searching(g, child, parent, visited@, ancestors@),
            ensures
                !reaches(g, parent, child),
            decreases g.len() - visited@.len(), ancestors@.len(),
        {
            let ghost stack = ancestors@;
            let ghost seen = visited@;
            let id = match ancestors.pop() {
                Some(v) => v,
                None => {
                    proof {
                        assert(ancestors@ =~= Seq::<usize>::empty());
                        lemma_search_ends(g, child, parent, visited@);
                    }
                    break ;
                },
            };
            assert(ancestors@ =~= stack.drop_last());
            if id == child {
                proof {
                    lemma_search_finds(g, child, parent, seen, stack);
                }
                return Err(EdgeError::WouldCycle);
            }
            if contains_id(&visited, id) {
                proof {
                    lemma_search_skips(g, child, parent, seen, stack);
                }
                continue ;
            }
            proof {
                lemma_search_expands(g, child, parent, seen, stack);
            }
            visited.push(id);
            match self.get(id) {
                Some(n) => {
                    append_ids(&mut ancestors, &n.parents);
                },
                None => {},
            }
        }
        Ok(())
    }

    /// Makes `parent` a parent of `child`, where `check_edge_addition`
    /// allows it and `child` is a node; the table and the row descriptions
    /// of `child` are cleared. Otherwise nothing changes and the reason is
    /// returned.
    pub fn add_edge(&mut self, child: usize, parent: usize) -> (r: Result<(), EdgeError>)
        requires
            old(self).wf(),
        ensures
            final(self).wf(),
            r == add_edge_result(old(self)@, child, parent),
            final(self)@ == (if r is Ok {
                edge_added(old(self)@, child, parent)
            } else {
                old(self)@
            }),
            tables_fit(old(self)@) ==> tables_fit(final(self)@),
    {
        let ghost g = self@;
        match self.check_edge_addition(child, parent) {
            Ok(_) => {},
            Err(e) => {
                return Err(e);
            },
        }
        if child >= self.nodes.len() {
            return Err(EdgeError::BadNode);
        }
        match &mut self.nodes[child] {
            Some(n) => {
                n.parents.push(parent);
                n.credencies = None;
                n.cred_description = Vec::new();
                proof {
                    assert(texts(n.cred_description@) =~= Seq::<Seq<char>>::empty());
                }
            },
            None => {
                assert(self@ =~= g);
                return Err(EdgeError::BadNode);
            },
        }
        let ghost mid = self@;
        assert(mid =~= g.update(child as int, Some(with_parent(node_at(g, child), parent))));
        match &mut self.nodes[parent] {
            Some(n) => {
                if !contains_id(&n.children, child) {
                    n.children.push(child);
                }
            },
            None => {},
        }
        proof {
            let h = self@;
            assert(h =~= edge_added(g, child, parent));
            let old_parents = node_at(g, child).parents;
            let old_children = node_at(g, parent).children;
            assert(!has_parent(g, child, parent)) by {
                assert(!has_child(g, parent, child));
            }
            assert forall|a: usize, b: usize| #[trigger]
                has_parent(h, a, b) <==> has_parent(g, a, b) || (a == child && b
                    == parent) by {
                if a == child {
                    assert(old_parents.push(parent).last() == parent);
                    if old_parents.contains(b) {
                        let i = choose|i: int| 0 <= i < old_parents.len() && old_parents[i] == b;
                        assert(old_parents.push(parent)[i] == b);
                    }
                }
            }
            assert forall|a: usize, b: usize| #[trigger]
                has_child(h, a, b) <==> has_child(g, a, b) || (a == parent && b == child) by {
                if a == parent {
                    assert(old_children.push(child).last() == child);
                    if old_children.contains(b) {
                        let i = choose|i: int|
                            0 <= i < old_children.len() && old_children[i] == b;
                        assert(old_children.push(child)[i] == b);
                    }
                }
            }
            assert forall|x: usize| #[trigger] occupied(h, x) implies node_at(
                h,
                x,
            ).parents.no_duplicates() && node_at(h, x).children.no_duplicates() by {
                assert(occupied(g, x));
            }
            lemma_edge_added(g, h, child, parent);
            if tables_fit(g) {
                assert forall|x: usize| #[trigger] occupied(h, x) implies (node_at(
                    h,
                    x,
                ).credencies matches Some(t) ==> t.shape == expected_shape(h, x)) by {
                    assert(occupied(g, x));
                    if x != child {
                        assert forall|p: usize| #[trigger] has_parent(g, x, p) implies node_at(
                            h,
                            p,
                        ).values.len() == node_at(g, p).values.len() by {
                            assert(has_child(g, p, x));
                        }
                        lemma_shape_kept(g, h, x);
                    }
                }
            }
        }
        Ok(())
    }

    /// Removes the edge from `child` to `parent` from both lists, and clears
    /// the table and the row descriptions of `child`, whether or not the
    /// edge was there. An id whose slot is empty is passed over.
    pub fn remove_edge(&mut self, child: usize, parent: usize)
        requires
            old(self).wf(),
        ensures
            final(self).wf(),
            final(self)@ == edge_removed(old(self)@, child, parent),
            tables_fit(old(self)@) ==> tables_fit(final(self)@),
    {
        let ghost g = self@;
        if child < self.nodes.len() {
            match &mut self.nodes[child] {
                Some(n) => {
                    remove_id(&mut n.parents, parent);
                    n.credencies = None;
                    n.cred_description = Vec::new();
                    proof {
                        assert(texts(n.cred_description@) =~= Seq::<Seq<char>>::empty());
                    }
                },
                None => {},
            }
        }
        let ghost mid = self@;
        proof {
            if occupied(g, child) {
                assert(mid =~= g.update(
                    child as int,
                    Some(without_parent(node_at(g, child), parent)),
                ));
            } else {
                assert(mid =~= g);
            }
        }
        if parent < self.nodes.len() {
            match &mut self.nodes[parent] {
                Some(n) => {
                    remove_id(&mut n.children, child);
                },
                None => {},
            }
        }
        proof {
            let h = self@;
            if occupied(mid, parent) {
                assert(h =~= mid.update(
                    parent as int,
                    Some(without_child(node_at(mid, parent), child)),
                ));
            } else {
                assert(h =~= mid);
            }
            assert(h == edge_removed(g, child, parent));
            lemma_no_cycle(g, child);
            assert forall|x: usize| #[trigger] occupied(g, x) implies node_at(
                h,
                x,
            ).parents.no_duplicates() && node_at(h, x).children.no_duplicates() && (forall|
                b: usize,
            |
                node_at(h, x).parents.contains(b) <==> node_at(g, x).parents.contains(b) && !(x
                    == child && b == parent)) && (forall|b: usize|
                node_at(h, x).children.contains(b) <==> node_at(g, x).children.contains(b) && !(x
                    == parent && b == child)) by {
                lemma_filter_keeps_distinct(node_at(g, x).parents, parent);
                lemma_filter_keeps_distinct(node_at(g, x).children, child);
            }
            assert forall|a: usize, b: usize| #[trigger]
                has_parent(h, a, b) <==> has_parent(g, a, b) && !(a == child && b
                    == parent) by {
                assert(occupied(h, a) <==> occupied(g, a));
            }
            assert forall|a: usize, b: usize| #[trigger]
                has_child(h, a, b) <==> has_child(g, a, b) && !(a == parent && b == child) by {
                assert(occupied(h, a) <==> occupied(g, a));
            }
            assert forall|x: usize| #[trigger] occupied(h, x) implies node_at(
                h,
                x,
            ).parents.no_duplicates() && node_at(h, x).children.no_duplicates() by {
                assert(occupied(g, x));
            }
            lemma_edge_removed(g, h, child, parent);
            if tables_fit(g) {
                assert forall|x: usize| #[trigger] occupied(h, x) implies (node_at(
                    h,
                    x,
                ).credencies matches Some(t) ==> t.shape == expected_shape(h, x)) by {
                    assert(occupied(g, x));
                    if x != child {
                        assert forall|p: usize| #[trigger] has_parent(g, x, p) implies node_at(
                            h,
                            p,
                        ).values.len() == node_at(g, p).values.len() by {
                            assert(has_child(g, p, x));
                        }
                        if x == parent {
                            assert(node_at(h, x).parents == node_at(g, x).parents);
                        }
                        lemma_shape_kept(g, h, x);
                    }
                }
            }
        }
    }

    /// Appends a value to a node and clears what depended on its values: the
    /// node's table, row descriptions and observation, and the table of each
    /// of its children. Does nothing where the slot is empty.
    pub fn add_value(&mut self, node: usize, value: String)
        requires
            old(self).wf(),
        ensures
            final(self).wf(),
            final(self)@ == value_added(old(self)@, node, value@),
            occupied(old(self)@, node) ==> node_at(final(self)@, node).credencies is None
                && node_at(final(self)@, node).observation is None,
            forall|c: usize| #[trigger]
                has_child(old(self)@, node, c) ==> node_at(final(self)@, c).credencies is None,
            tables_fit(old(self)@) ==> tables_fit(final(self)@),
    {
        let ghost g = self@;
        let mut children: Vec<usize> = Vec::new();
        let mut found = false;
        if node < self.nodes.len() {
            match &mut self.nodes[node] {
                Some(n) => {
                    found = true;
                    n.values.push(value);
                    n.credencies = None;
                    n.cred_description = Vec::new();
                    n.observation = None;
                    append_ids(&mut children, &n.children);
                    proof {
                        assert(texts(n.values@) =~= node_at(g, node).values.push(value@));
                        assert(texts(n.cred_description@) =~= Seq::<Seq<char>>::empty());
                    }
                },
                None => {},
            }
        }
        if !found {
            assert(self@ =~= g);
            return ;
        }
        let ghost edited = with_values(node_at(g, node), node_at(g, node).values.push(value@));
        assert(children@ =~= node_at(g, node).children);
        assert(self@ =~= g.update(node as int, Some(edited)));
        let mut k: usize = 0;
        while k < children.len()
            invariant
                k <= children@.len(),
                occupied(g, node),
                children@ == node_at(g, node).children,
                edited == with_values(node_at(g, node), node_at(g, node).values.push(value@)),
                self@.len() == g.len(),
                forall|i: int|
                    0 <= i < g.len() ==> #[trigger] self@[i] == (if i == node {
                        Some(edited)
                    } else if g[i] is Some && children@.subrange(0, k as int).contains(i as usize) {
                        Some(without_table(g[i]->0))
                    } else {
                        g[i]
                    }),
            decreases children@.len() - k,
        {
            let child = children[k];
            let ghost before = self@;
            if child < self.nodes.len() {
                match &mut self.nodes[child] {
                    Some(n) => {
                        n.credencies = None;
                    },
                    None => {},
                }
            }
            proof {
                let done = children@.subrange(0, k as int);
                let next = children@.subrange(0, k + 1);
                assert(next =~= done.push(child));
                assert(self@.len() == g.len());
                assert forall|i: int| 0 <= i < g.len() implies #[trigger] self@[i] == (if i
                    == node {
                    Some(edited)
                } else if g[i] is Some && next.contains(i as usize) {
                    Some(without_table(g[i]->0))
                } else {
                    g[i]
                }) by {
                    assert(before[i] == (if i == node {
                        Some(edited)
                    } else if g[i] is Some && done.contains(i as usize) {
                        Some(without_table(g[i]->0))
                    } else {
                        g[i]
                    }));
                    if i == child {
                        assert(next.last() == child);
                    } else {
                        assert(self@[i] == before[i]);
                        if next.contains(i as usize) {
                            let j = choose|j: int| 0 <= j < next.len() && next[j] == i as usize;
                            assert(done[j] == i as usize);
                        }
                        if done.contains(i as usize) {
                            let j = choose|j: int| 0 <= j < done.len() && done[j] == i as usize;
                            assert(next[j] == i as usize);
                        }
                    }
                }
            }
            k += 1;
        }
        proof {
            assert(children@.subrange(0, k as int) =~= children@);
            let h = self@;
            assert(h =~= value_added(g, node, value@));
            assert forall|x: usize| #[trigger] occupied(h, x) implies node_at(
                h,
                x,
            ).parents.no_duplicates() && node_at(h, x).children.no_duplicates() by {
                assert(occupied(g, x));
            }
            lemma_same_edges(g, h);
            if tables_fit(g) {
                assert forall|x: usize| #[trigger] occupied(h, x) implies (node_at(
                    h,
                    x,
                ).credencies matches Some(t) ==> t.shape == expected_shape(h, x)) by {
                    assert(occupied(g, x));
                    if node_at(h, x).credencies is Some {
                        assert(x != node);
                        assert(!has_child(g, node, x));
                        assert forall|p: usize| #[trigger] has_parent(g, x, p) implies node_at(
                            h,
                            p,
                        ).values.len() == node_at(g, p).values.len() by {
                            assert(has_child(g, p, x));
                        }
                        lemma_shape_kept(g, h, x);
                    }
                }
            }
        }
    }

    /// Removes the value at `value_id` from a node and clears the node's
    /// table, row descriptions and observation. The tables of its children
    /// stay as they are. Does nothing where the slot is empty or holds no
    /// value at that index.
    pub fn remove_value(&mut self, node: usize, value_id: usize)
        requires
            old(self).wf(),
        ensures
            final(self).wf(),
            final(self)@ == value_removed(old(self)@, node, value_id),
            occupied(old(self)@, node) && value_id < node_at(old(self)@, node).values.len()
                ==> node_at(final(self)@, node).credencies is None && node_at(
                final(self)@,
                node,
            ).observation is None,
            tables_fit(old(self)@) && (forall|c: usize| #[trigger]
                has_child(old(self)@, node, c) ==> node_at(old(self)@, c).credencies is None)
                ==> tables_fit(final(self)@),
    {
        let ghost g = self@;
        if node < self.nodes.len() {
            match &mut self.nodes[node] {
                Some(n) => {
                    if value_id < n.values.len() {
                        n.values.remove(value_id);
                        n.credencies = None;
                        n.cred_description = Vec::new();
                        n.observation = None;
                        proof {
                            assert(texts(n.values@) =~= node_at(g, node).values.remove(
                                value_id as int,
                            ));
                            assert(texts(n.cred_description@) =~= Seq::<Seq<char>>::empty());
                        }
                    }
                },
                None => {},
            }
        }
        proof {
            let h = self@;
            assert(h =~= value_removed(g, node, value_id));
            if occupied(g, node) && value_id < node_at(g, node).values.len() {
                let edited = with_values(
                    node_at(g, node),
                    node_at(g, node).values.remove(value_id as int),
                );
                lemma_payload_changed(g, h, node, edited);
                if tables_fit(g) && (forall|c: usize| #[trigger]
                    has_child(g, node, c) ==> node_at(g, c).credencies is None) {
                    assert forall|x: usize| #[trigger] occupied(h, x) implies (node_at(
                        h,
                        x,
                    ).credencies matches Some(t) ==> t.shape == expected_shape(h, x)) by {
                        assert(occupied(g, x));
                        if node_at(h, x).credencies is Some {
                            assert(x != node);
                            assert(!has_child(g, node, x));
                            assert forall|p: usize| #[trigger]
                                has_parent(g, x, p) implies node_at(h, p).values.len()
                                == node_at(g, p).values.len() by {
                                assert(has_child(g, p, x));
                            }
                            lemma_shape_kept(g, h, x);
                        }
                    }
                }
            }
        }
    }

    /// The shape that the table of a node must have: its number of values,
    /// then the number of values of each parent in parents-list order.
    /// `None` where the slot is empty.
    pub fn shape_of(&self, node: usize) -> (r: Option<Vec<usize>>)
        requires
            self.wf(),
        ensures
            r is Some <==> occupied(self@, node),
            r matches Some(shape) ==> dims(shape@) == expected_shape(self@, node),
    {
        let n = match self.get(node) {
            Some(n) => n,
            None => {
                return None;
            },
        };
        let mut shape: Vec<usize> = Vec::new();
        shape.push(n.values.len());
        let mut k: usize = 0;
        while k < n.parents.len()
            invariant
                self.wf(),
                occupied(self@, node),
                n@ == node_at(self@, node),
                k <= n.parents@.len(),
                shape@.len() == k + 1,
                forall|j: int| 0 <= j < k + 1 ==> shape@[j] as nat == expected_shape(self@, node)[j],
            decreases n.parents@.len() - k,
        {
            let p = n.parents[k];
            proof {
                assert(has_parent(self@, node, p));
                assert(has_child(self@, p, node));
            }
            let count = match self.get(p) {
                Some(parent) => parent.values.len(),
                None => 0,
            };
            shape.push(count);
            k += 1;
        }
        assert(dims(shape@) =~= expected_shape(self@, node));
        Some(shape)
    }

    /// The number of rows of the table of a node: the product of the numbers
    /// of values of its parents. Zero where the slot is empty; `None` where
    /// the product does not fit the machine's numbers.
    fn count_parent_values(&self, node: usize) -> (r: Option<usize>)
        requires
            self.wf(),
        ensures
            match r {
                Some(count) => count == (if occupied(self@, node) {
                    row_count(self@, node)
                } else {
                    0
                }),
                None => occupied(self@, node) && row_count(self@, node) > usize::MAX,
            },
    {
        let n = match self.get(node) {
            Some(n) => n,
            None => {
                return Some(0);
            },
        };
        let ghost counts = parent_counts(self@, node);
        let mut k: usize = 0;
        while k < n.parents.len()
            invariant
                self.wf(),
                occupied(self@, node),
                n@ == node_at(self@, node),
                counts == parent_counts(self@, node),
                k <= n.parents@.len(),
                forall|j: int| 0 <= j < k ==> #[trigger] counts[j] >= 1,
            decreases n.parents@.len() - k,
        {
            let p = n.parents[k];
            proof {
                assert(has_parent(self@, node, p));
                assert(has_child(self@, p, node));
            }
            let count = match self.get(p) {
                Some(parent) => parent.values.len(),
                None => 0,
            };
            if count == 0 {
                proof {
                    lemma_product_zero(counts, k as int);
                }
                return Some(0);
            }
            k += 1;
        }
        let mut total: usize = 1;
        k = 0;
        assert(counts.take(0) =~= Seq::<nat>::empty());
        while k < n.parents.len()
            invariant
                self.wf(),
                occupied(self@, node),
                n@ == node_at(self@, node),
                counts == parent_counts(self@, node),
                k <= n.parents@.len(),
                forall|j: int| 0 <= j < counts.len() ==> #[trigger] counts[j] >= 1,
                total == product(counts.take(k as int)),
            decreases n.parents@.len() - k,
        {
            let p = n.parents[k];
            proof {
                assert(has_parent(self@, node, p));
                assert(has_child(self@, p, node));
            }
            let count = match self.get(p) {
                Some(parent) => parent.values.len(),
                None => 0,
            };
            proof {
                assert(counts.take(k + 1).drop_last() =~= counts.take(k as int));
                assert(product(counts.take(k + 1)) == total * count);
                lemma_product_grows(counts, k + 1);
            }
            match total.checked_mul(count) {
                Some(t) => {
                    total = t;
                },
                None => {
                    return None;
                },
            }
            k += 1;
        }
        assert(counts.take(k as int) =~= counts);
        Some(total)
    }

    /// Sets the table of a node, provided it has the shape that the node
    /// asks for; otherwise the node keeps the table it had and the call
    /// fails. Does nothing, and succeeds, where the slot is empty.
    pub fn set_credencies(&mut self, node: usize, credencies: Table) -> (r: Result<(), ()>)
        requires
            old(self).wf(),
        ensures
            final(self).wf(),
            r is Err <==> occupied(old(self)@, node) && credencies@.shape != expected_shape(
                old(self)@,
                node,
            ),
            final(self)@ == (if r is Ok && occupied(old(self)@, node) {
                old(self)@.update(
                    node as int,
                    Some(NodeView { credencies: Some(credencies@), ..node_at(old(self)@, node) }),
                )
            } else {
                old(self)@
            }),
            r is Err ==> final(self)@ == old(self)@,
            r is Ok && occupied(old(self)@, node) ==> node_at(final(self)@, node).credencies
                == Some(credencies@),
            tables_fit(old(self)@) ==> tables_fit(final(self)@),
    {
        let ghost g = self@;
        match self.shape_of(node) {
            Some(shape) => {
                let actual = credencies.shape();
                proof {
                    lemma_dims_injective(actual@, shape@);
                }
                if !same_ids(&actual, &shape) {
                    return Err(());
                }
            },
            None => {},
        }
        if node < self.nodes.len() {
            match &mut self.nodes[node] {
                Some(n) => {
                    n.credencies = Some(credencies);
                },
                None => {},
            }
        }
        proof {
            if occupied(g, node) {
                let edited = NodeView { credencies: Some(credencies@), ..node_at(g, node) };
                assert(self@ =~= g.update(node as int, Some(edited)));
                lemma_payload_changed(g, self@, node, edited);
                if tables_fit(g) {
                    lemma_payload_tables_fit(g, self@, node, edited);
                }
            } else {
                assert(self@ =~= g);
            }
        }
        Ok(())
    }

    /// Sets the row descriptions of a node, provided there is one for each
    /// row of its table; otherwise nothing changes and the call fails. It
    /// fails too where the slot is empty.
    pub fn set_cred_descriptions(&mut self, node: usize, descriptions: Vec<String>) -> (r: Result<
        (),
        (),
    >)
        requires
            old(self).wf(),
        ensures
            final(self).wf(),
            r is Ok <==> occupied(old(self)@, node) && descriptions@.len() == row_count(
                old(self)@,
                node,
            ),
            final(self)@ == (if r is Ok {
                old(self)@.update(
                    node as int,
                    Some(
                        NodeView {
                            cred_description: texts(descriptions@),
                            ..node_at(old(self)@, node)
                        },
                    ),
                )
            } else {
                old(self)@
            }),
            tables_fit(old(self)@) ==> tables_fit(final(self)@),
    {
        let ghost g = self@;
        let given = descriptions.len();
        match self.count_parent_values(node) {
            Some(parent_values) => {
                if given != parent_values {
                    return Err(());
                }
            },
            None => {
                return Err(());
            },
        }
        let mut found = false;
        if node < self.nodes.len() {
            match &mut self.nodes[node] {
                Some(n) => {
                    n.cred_description = descriptions;
                    found = true;
                },
                None => {},
            }
        }
        proof {
            if occupied(g, node) {
                let edited = NodeView {
                    cred_description: texts(descriptions@),
                    ..node_at(g, node)
                };
                assert(self@ =~= g.update(node as int, Some(edited)));
                lemma_payload_changed(g, self@, node, edited);
                if tables_fit(g) {
                    lemma_payload_tables_fit(g, self@, node, edited);
                }
            } else {
                assert(self@ =~= g);
            }
        }
        if found {
            Ok(())
        } else {
            Err(())
        }
    }

    /// The nodes with their slots, in slot order.
    pub fn iter_nodes(&self) -> (r: Vec<(usize, &Node)>)
        ensures
            forall|k: int|
                0 <= k < r@.len() ==> occupied(self@, (#[trigger] r@[k]).0) && r@[k].1@ == node_at(
                    self@,
                    r@[k].0,
                ),
            forall|j: int, k: int| 0 <= j < k < r@.len() ==> (#[trigger] r@[j]).0 < (#[trigger] r@[k]).0,
            forall|id: usize|
                occupied(self@, id) ==> exists|k: int| 0 <= k < r@.len() && (#[trigger] r@[k]).0 == id,
    {
        let mut found: Vec<(usize, &Node)> = Vec::new();
        let mut id: usize = 0;
        while id < self.nodes.len()
            invariant
                id <= self.nodes@.len(),
                forall|k: int|
                    0 <= k < found@.len() ==> (#[trigger] found@[k]).0 < id && occupied(
                        self@,
                        found@[k].0,
                    ) && found@[k].1@ == node_at(self@, found@[k].0),
                forall|j: int, k: int|
                    0 <= j < k < found@.len() ==> (#[trigger] found@[j]).0 < (#[trigger] found@[k]).0,
                forall|x: usize|
                    x < id && occupied(self@, x) ==> exists|k: int|
                        0 <= k < found@.len() && (#[trigger] found@[k]).0 == x,
            decreases self.nodes@.len() - id,
        {
            let ghost before = found@;
            match &self.nodes[id] {
                Some(n) => {
                    found.push((id, n));
                    proof {
                        assert forall|x: usize| x < id + 1 && occupied(self@, x) implies exists|
                            k: int,
                        |
                            0 <= k < found@.len() && (#[trigger] found@[k]).0 == x by {
                            if x < id {
                                let k = choose|k: int|
                                    0 <= k < before.len() && (#[trigger] before[k]).0 == x;
                                assert(found@[k].0 == x);
                            } else {
                                assert(found@[before.len() as int].0 == x);
                            }
                        }
                    }
                },
                None => {},
            }
            id += 1;
        }
        found
    }

    /// The number of slots, empty ones included.
    pub fn slot_count(&self) -> (n: usize)
        ensures
            n == self@.len(),
    {
        self.nodes.len()
    }

    /// The node in slot `id`, if there is one.
    pub fn get(&self, id: usize) -> (r: Option<&Node>)
        ensures
            r is Some <==> occupied(self@, id),
            r matches Some(n) ==> n@ == node_at(self@, id),
    {
        if id < self.nodes.len() {
            self.nodes[id].as_ref()
        } else {
            None
        }
    }
}

} // verus!
