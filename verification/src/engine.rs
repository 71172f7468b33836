//! What an inference engine is fed with: the nodes in topological order,
//! each with its parents as positions in that order and with its table, and
//! the observed values.
//!
//! Tables hold base-10 logarithms as they were entered. Scaling them and
//! registering the nodes is the caller's part.

use vstd::prelude::*;
use crate::graph::DAG;
use crate::model::{
    GraphView, expected_shape, has_parent, node_at, occupied, position_map,
    positions, topological, topological_order,
};
use crate::table::{
    Table, TableView, lemma_nonzero_product, nonzero_product, nonzero_size, product,
    zeros_lifted,
};

verus! {

/// One node as the engine is to register it.
#[derive(Debug)]
pub struct NetNode {
    /// The positions of the parents among the nodes registered before.
    pub parents: Vec<usize>,
    /// The table of the node.
    pub credencies: Table,
}

/// All that the engine is to be given.
#[derive(Debug)]
pub struct NetPlan {
    /// The nodes, in the order in which they are to be registered.
    pub nodes: Vec<NetNode>,
    /// The observed values: position of the node, index of the value.
    pub evidence: Vec<(usize, usize)>,
}

/// What a `NetNode` holds, as mathematics.
pub struct NetNodeView {
    pub parents: Seq<usize>,
    pub credencies: TableView,
}

/// What a `NetPlan` holds, as mathematics.
pub struct NetPlanView {
    pub nodes: Seq<NetNodeView>,
    pub evidence: Seq<(usize, usize)>,
}

impl View for NetNode {
    type V = NetNodeView;

    open spec fn view(&self) -> NetNodeView {
        NetNodeView { parents: self.parents@, credencies: self.credencies@ }
    }
}

impl View for NetPlan {
    type V = NetPlanView;

    open spec fn view(&self) -> NetPlanView {
        NetPlanView {
            nodes: Seq::new(self.nodes@.len(), |i: int| self.nodes@[i]@),
            evidence: self.evidence@,
        }
    }
}

/// The table that stands in for one that is not set: zeros, in the shape
/// that the node asks for.
pub open spec fn default_table(g: GraphView, id: usize) -> TableView {
    TableView {
        shape: expected_shape(g, id),
        cells: Seq::new(product(expected_shape(g, id)), |i: int| 0u32),
    }
}

/// The node `id` as the engine is to register it.
pub open spec fn net_node(g: GraphView, map: Seq<Option<usize>>, id: usize) -> NetNodeView {
    let node = node_at(g, id);
    NetNodeView {
        parents: Seq::new(node.parents.len(), |k: int| map[node.parents[k] as int]->0),
        credencies: match node.credencies {
            Some(t) => t,
            None => default_table(g, id),
        },
    }
}

/// The observed values of the nodes of `order`, each with the position of
/// its node, in that order.
pub open spec fn evidence_of(g: GraphView, order: Seq<usize>) -> Seq<(usize, usize)>
    decreases order.len(),
{
    if order.len() == 0 {
        Seq::empty()
    } else {
        let earlier = evidence_of(g, order.drop_last());
        match node_at(g, order.last()).observation {
            Some(value) => earlier.push(((order.len() - 1) as usize, value)),
            None => earlier,
        }
    }
}

/// All that the engine is to be given for a graph.
pub open spec fn net_plan(g: GraphView) -> NetPlanView {
    let order = topological_order(g);
    let map = position_map(g, order);
    NetPlanView {
        nodes: Seq::new(order.len(), |i: int| net_node(g, map, order[i])),
        evidence: evidence_of(g, order),
    }
}

/// Some node has no value at all.
pub open spec fn degenerate(g: GraphView) -> bool {
    exists|id: usize| occupied(g, id) && #[trigger] node_at(g, id).values.len() == 0
}

/// Every table that is not set can be stood in for: the shape that its node
/// asks for is one that a table can have.
pub open spec fn defaults_fit(g: GraphView) -> bool {
    forall|id: usize| #[trigger]
        occupied(g, id) && node_at(g, id).credencies is None ==> nonzero_product(
            expected_shape(g, id),
        ) <= isize::MAX
}

/// A list of `count` zeros.
fn zeros(count: usize) -> (cells: Vec<u32>)
    ensures
        cells@ == Seq::new(count as nat, |i: int| 0u32),
{
    let mut cells: Vec<u32> = Vec::new();
    let mut i: usize = 0;
    while i < count
        invariant
            i <= count,
            cells@.len() == i,
            forall|j: int| 0 <= j < i ==> cells@[j] == 0,
        decreases count - i,
    {
        cells.push(0);
        i += 1;
    }
    assert(cells@ =~= Seq::new(count as nat, |i: int| 0u32));
    cells
}

impl DAG {
    /// Whether every table that is not set can be stood in for by zeros:
    /// see `defaults_fit`.
    pub fn defaults_fit(&self) -> (fit: bool)
        requires
            self.wf(),
        ensures
            fit == defaults_fit(self@),
    {
        let n = self.slot_count();
        let mut id: usize = 0;
        while id < n
            invariant
                self.wf(),
                n == self@.len(),
                id <= n,
                forall|x: usize| #[trigger]
                    occupied(self@, x) && x < id && node_at(self@, x).credencies is None
                        ==> nonzero_product(expected_shape(self@, x)) <= isize::MAX,
            decreases n - id,
        {
            match self.get(id) {
                Some(node) => {
                    if node.credencies.is_none() {
                        let shape = match self.shape_of(id) {
                            Some(shape) => shape,
                            None => Vec::new(),
                        };
                        if nonzero_size(&shape).is_none() {
                            assert(occupied(self@, id));
                            return false;
                        }
                    }
                },
                None => {},
            }
            id += 1;
        }
        true
    }

    /// Whether some node has no value at all: see `degenerate`.
    pub fn degenerate(&self) -> (found: bool)
        ensures
            found == degenerate(self@),
    {
        let n = self.slot_count();
        let mut id: usize = 0;
        while id < n
            invariant
                n == self@.len(),
                id <= n,
                forall|x: usize|
                    x < id && occupied(self@, x) ==> #[trigger] node_at(self@, x).values.len()
                        != 0,
            decreases n - id,
        {
            match self.get(id) {
                Some(node) => {
                    if node.values.len() == 0 {
                        assert(occupied(self@, id) && node_at(self@, id).values.len() == 0);
                        return true;
                    }
                },
                None => {},
            }
            id += 1;
        }
        false
    }

    /// What an inference engine is to be given for the graph, and the order
    /// of its nodes: the graph id of the engine's `i`-th node is `order[i]`.
    /// Fails where some node has no value. A table that is not set is stood
    /// in for by zeros; where every node has values, each such table must
    /// be one that the machine can hold.
    pub fn make_bayesnet(&self) -> (r: Result<(NetPlan, Vec<usize>), ()>)
        requires
            self.wf(),
            degenerate(self@) || defaults_fit(self@),
        ensures
            r is Err <==> degenerate(self@),
            r matches Ok((plan, order)) ==> order@ == topological_order(self@) && plan@
                == net_plan(self@),
            topological(self@, topological_order(self@)),
    {
        let (order, map) = self.compact_ids();
        let ghost g = self@;
        let mut nodes: Vec<NetNode> = Vec::new();
        let mut observation: Vec<(usize, usize)> = Vec::new();
        let mut i: usize = 0;
        assert(order@.take(0) =~= Seq::<usize>::empty());
        while i < order.len()
            invariant
                g == self@,
                self.wf(),
                degenerate(g) || defaults_fit(g),
                order@ == topological_order(g),
                map@ == position_map(g, order@),
                topological(g, order@),
                positions(g, order@, map@),
                i <= order@.len(),
                nodes@.len() == i,
                forall|j: int| 0 <= j < i ==> node_at(g, #[trigger] order@[j]).values.len() > 0,
                forall|j: int| 0 <= j < i ==> (#[trigger] nodes@[j])@ == net_node(g, map@, order@[j]),
                observation@ == evidence_of(g, order@.take(i as int)),
            decreases order@.len() - i,
        {
            let id = order[i];
            assert(order@.contains(id));
            let node = match self.get(id) {
                Some(node) => node,
                None => {
                    return Err(());
                },
            };
            if node.values.len() == 0 {
                return Err(());
            }
            let mut parent_ids: Vec<usize> = Vec::new();
            let mut k: usize = 0;
            while k < node.parents.len()
                invariant
                    g == self@,
                    topological(g, order@),
                    positions(g, order@, map@),
                    0 <= i < order@.len(),
                    order@[i as int] == id,
                    occupied(g, id),
                    node@ == node_at(g, id),
                    k <= node.parents@.len(),
                    parent_ids@.len() == k,
                    forall|j: int| 0 <= j < i ==> node_at(g, #[trigger] order@[j]).values.len() > 0,
                    forall|m: int|
                        0 <= m < k ==> #[trigger] parent_ids@[m] == map@[node.parents@[m] as int]->0,
                    forall|m: int|
                        0 <= m < k ==> node_at(g, #[trigger] node.parents@[m]).values.len() > 0,
                decreases node.parents@.len() - k,
            {
                let p = node.parents[k];
                proof {
                    assert(has_parent(g, order@[i as int], p));
                    assert(order@.take(i as int).contains(p));
                    let at = choose|at: int|
                        0 <= at < order@.take(i as int).len() && order@.take(i as int)[at] == p;
                    assert(order@[at] == p);
                    assert(map@[p as int] == Some(at as usize));
                    assert(order@.contains(p));
                }
                parent_ids.push(map[p].unwrap());
                k += 1;
            }
            let table = match &node.credencies {
                Some(t) => t.clone(),
                None => {
                    let shape = match self.shape_of(id) {
                        Some(shape) => shape,
                        None => Vec::new(),
                    };
                    proof {
                        let wanted = expected_shape(g, id);
                        assert forall|m: int| 0 <= m < wanted.len() implies #[trigger] wanted[m]
                            >= 1 by {
                            if m > 0 {
                                assert(wanted[m] == node_at(
                                    g,
                                    node.parents@[m - 1],
                                ).values.len());
                            }
                        }
                        assert(zeros_lifted(wanted) =~= wanted);
                        lemma_nonzero_product(wanted);
                    }
                    let count = match nonzero_size(&shape) {
                        Some(count) => count,
                        None => {
                            assert(!defaults_fit(g));
                            return Err(());
                        },
                    };
                    match Table::from_shape_vec(&shape, zeros(count)) {
                        Some(t) => t,
                        None => {
                            return Err(());
                        },
                    }
                },
            };
            let entry = NetNode { parents: parent_ids, credencies: table };
            proof {
                assert(entry@.parents =~= net_node(g, map@, id).parents);
                assert(entry@ == net_node(g, map@, id));
                assert(order@.take(i + 1).drop_last() =~= order@.take(i as int));
                assert(order@.take(i + 1).last() == id);
            }
            nodes.push(entry);
            match node.observation {
                Some(value) => {
                    observation.push((i, value));
                },
                None => {},
            }
            i += 1;
        }
        let plan = NetPlan { nodes, evidence: observation };
        proof {
            assert(order@.take(i as int) =~= order@);
            assert(plan@.nodes =~= net_plan(g).nodes);
            assert forall|id: usize| occupied(g, id) implies #[trigger] node_at(
                g,
                id,
            ).values.len() != 0 by {
                assert(order@.contains(id));
                let j = choose|j: int| 0 <= j < order@.len() && order@[j] == id;
                assert(node_at(g, order@[j]).values.len() > 0);
            }
        }
        Ok((plan, order))
    }
}

} // verus!
