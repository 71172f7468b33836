//! The records by which a graph is written out and read back: one record
//! for each node, in an order in which each node comes after its parents,
//! with parents given as positions in that order.

use vstd::prelude::*;
use crate::graph::{DAG, EdgeError};
use crate::model::{
    GraphView, NodeView, add_edge_result, edge_added, edge_check, empty_node, expected_shape,
    has_child, has_parent, node_at, occupied, position_map, positions, ranked, reaches,
    row_count, symmetric, tables_fit, texts, topological, topological_order, value_added,
    };
use crate::paths::lemma_rank_falls;
use crate::table::{Table, TableView, admissible, product};

verus! {

/// The record of one node.
#[derive(Debug)]
pub struct JsonNode {
    pub label: String,
    pub description: String,
    pub values: Vec<String>,
    pub parents: Vec<usize>,
    pub observation: Option<usize>,
    pub credencies: Option<Vec<u32>>,
    pub cred_description: Vec<String>,
}

/// What a record holds, as mathematics.
pub struct JsonNodeView {
    pub label: Seq<char>,
    pub description: Seq<char>,
    pub values: Seq<Seq<char>>,
    pub parents: Seq<usize>,
    pub observation: Option<usize>,
    pub credencies: Option<Seq<u32>>,
    pub cred_description: Seq<Seq<char>>,
}

impl View for JsonNode {
    type V = JsonNodeView;

    open spec fn view(&self) -> JsonNodeView {
        JsonNodeView {
            label: self.label@,
            description: self.description@,
            values: texts(self.values@),
            parents: self.parents@,
            observation: self.observation,
            credencies: match self.credencies {
                Some(cells) => Some(cells@),
                None => None,
            },
            cred_description: texts(self.cred_description@),
        }
    }
}

/// What a list of records holds.
pub open spec fn records_view(records: Seq<JsonNode>) -> Seq<JsonNodeView> {
    Seq::new(records.len(), |i: int| records[i]@)
}

/// The record of the node `id`, with each parent given by its position.
pub open spec fn record_of(g: GraphView, map: Seq<Option<usize>>, id: usize) -> JsonNodeView {
    let node = node_at(g, id);
    JsonNodeView {
        label: node.label,
        description: node.description,
        values: node.values,
        parents: Seq::new(node.parents.len(), |k: int| map[node.parents[k] as int]->0),
        observation: node.observation,
        credencies: match node.credencies {
            Some(t) => Some(t.cells),
            None => None,
        },
        cred_description: node.cred_description,
    }
}

/// The records of the nodes of `order`, in that order.
pub open spec fn records_of(g: GraphView, order: Seq<usize>, map: Seq<Option<usize>>) -> Seq<
    JsonNodeView,
> {
    Seq::new(order.len(), |i: int| record_of(g, map, order[i]))
}

/// The records by which a graph is written out: those of its nodes in
/// topological order.
pub open spec fn exported(g: GraphView) -> Seq<JsonNodeView> {
    records_of(g, topological_order(g), position_map(g, topological_order(g)))
}

/// Why a list of records cannot be read.
#[derive(Debug)]
pub enum DeserError {
    /// The text was no list of records.
    Json(serde_json::Error),
    /// The records ask for an edge that cannot be added.
    Graph(EdgeError),
}

/// The error with which `serde_json` refuses a text. Nothing is known of
/// what is inside; it is only carried along.
#[verifier::external_type_specification]
#[verifier::external_body]
pub struct ExJsonError(serde_json::Error);

/// The graph after the node `child` was given each of `parents` as a
/// parent, in list order.
pub open spec fn edges_added(g: GraphView, child: usize, parents: Seq<usize>) -> GraphView
    decreases parents.len(),
{
    if parents.len() == 0 {
        g
    } else {
        edge_added(edges_added(g, child, parents.drop_last()), child, parents.last())
    }
}

/// The graph after each of `values` was appended to the node `id`, in list
/// order.
pub open spec fn values_added(g: GraphView, id: usize, values: Seq<Seq<char>>) -> GraphView
    decreases values.len(),
{
    if values.len() == 0 {
        g
    } else {
        value_added(values_added(g, id, values.drop_last()), id, values.last())
    }
}

/// The graph after one record was read into it. The record becomes a node
/// in a new slot at the end; it gets its label, its parents, its values,
/// its observation and its description; then its row descriptions, where
/// there is one for each row; then its table, where the cells fill the
/// shape that the node asks for.
pub open spec fn record_added(g: GraphView, record: JsonNodeView) -> GraphView {
    let id = g.len() as usize;
    let labelled = g.push(Some(NodeView { label: record.label, ..empty_node() }));
    let linked = edges_added(labelled, id, record.parents);
    let valued = values_added(linked, id, record.values);
    let described = valued.update(
        id as int,
        Some(
            NodeView {
                observation: record.observation,
                description: record.description,
                ..node_at(valued, id)
            },
        ),
    );
    let rows = if record.cred_description.len() == row_count(described, id) {
        described.update(
            id as int,
            Some(
                NodeView { cred_description: record.cred_description, ..node_at(described, id) },
            ),
        )
    } else {
        described
    };
    match record.credencies {
        Some(cells) => if admissible(expected_shape(rows, id), cells.len()) {
            rows.update(
                id as int,
                Some(
                    NodeView {
                        credencies: Some(
                            TableView { shape: expected_shape(rows, id), cells: cells },
                        ),
                        ..node_at(rows, id)
                    },
                ),
            )
        } else {
            rows
        },
        None => rows,
    }
}

/// The graph that a list of records describes: the records read one after
/// the other into an empty graph.
pub open spec fn imported(records: Seq<JsonNodeView>) -> GraphView
    decreases records.len(),
{
    if records.len() == 0 {
        Seq::empty()
    } else {
        record_added(imported(records.drop_last()), records.last())
    }
}

/// The first fault among the parents of the record at `index`, from position
/// `k` on: a parent behind the record (`BadNode`), the record itself
/// (`WouldCycle`), or a parent listed before (`AlreadyExisting`).
pub open spec fn parents_error(index: usize, parents: Seq<usize>, k: nat) -> Option<EdgeError>
    decreases parents.len() - k,
{
    if k >= parents.len() {
        None
    } else if parents[k as int] > index {
        Some(EdgeError::BadNode)
    } else if parents[k as int] == index {
        Some(EdgeError::WouldCycle)
    } else if parents.take(k as int).contains(parents[k as int]) {
        Some(EdgeError::AlreadyExisting)
    } else {
        parents_error(index, parents, k + 1)
    }
}

/// The first fault among the records from position `i` on.
pub open spec fn import_error_from(records: Seq<JsonNodeView>, i: nat) -> Option<EdgeError>
    decreases records.len() - i,
{
    if i >= records.len() {
        None
    } else {
        match parents_error(i as usize, records[i as int].parents, 0) {
            Some(e) => Some(e),
            None => import_error_from(records, i + 1),
        }
    }
}

/// The fault for which a list of records cannot be read, if there is one.
pub open spec fn import_error(records: Seq<JsonNodeView>) -> Option<EdgeError> {
    import_error_from(records, 0)
}

/// Every slot holds a node, and every parent sits in a lower slot than its
/// child: the shape of a graph that was read from records.
pub open spec fn forward(g: GraphView) -> bool {
    &&& g.len() <= usize::MAX
    &&& forall|id: usize| id < g.len() ==> #[trigger] occupied(g, id)
    &&& forall|c: usize, p: usize| #[trigger] has_parent(g, c, p) ==> p < c
}

/// A graph with the slots and the parents lists of a forward graph is
/// forward.
pub proof fn lemma_forward_kept(g: GraphView, h: GraphView)
    requires
        forward(g),
        h.len() == g.len(),
        forall|id: usize|
            id < g.len() ==> #[trigger] occupied(h, id) && node_at(h, id).parents == node_at(
                g,
                id,
            ).parents,
    ensures
        forward(h),
{
    assert forall|c: usize, p: usize| #[trigger] has_parent(h, c, p) implies p < c by {
        assert(occupied(h, c));
        assert(has_parent(g, c, p));
    }
}

/// In a forward graph, what `edge_check` answers for the node in the last
/// slot is decided by the numbers alone.
pub proof fn lemma_forward_verdict(g: GraphView, child: usize, parent: usize)
    requires
        forward(g),
        symmetric(g),
        child + 1 == g.len(),
    ensures
        add_edge_result(g, child, parent) == (if parent > child {
            Err::<(), EdgeError>(EdgeError::BadNode)
        } else if parent == child {
            Err(EdgeError::WouldCycle)
        } else if node_at(g, child).parents.contains(parent) {
            Err(EdgeError::AlreadyExisting)
        } else {
            Ok(())
        }),
{
    assert(occupied(g, child));
    if parent < child {
        assert(occupied(g, parent));
        assert(has_child(g, parent, child) <==> has_parent(g, child, parent));
        if reaches(g, parent, child) {
            let rank = |x: usize| x as nat;
            assert(ranked(g, rank));
            let p = choose|p: Seq<usize>| #[trigger]
                crate::model::is_path(g, p) && p.len() >= 2 && p[0] == parent && p.last() == child;
            lemma_rank_falls(g, rank, p);
        }
    }
}

/// What adding an edge between two nodes does to the lists: the child has
/// one more parent, the parent one more child, and nothing else changes
/// about slots, edges or values.
pub proof fn lemma_edge_added_links(g: GraphView, child: usize, parent: usize)
    requires
        occupied(g, child),
        occupied(g, parent),
        child != parent,
    ensures
        edge_added(g, child, parent).len() == g.len(),
        forall|id: usize| #[trigger]
            occupied(edge_added(g, child, parent), id) <==> occupied(g, id),
        forall|id: usize|
            occupied(g, id) ==> (#[trigger] node_at(edge_added(g, child, parent), id)).parents
                == (if id == child {
                node_at(g, id).parents.push(parent)
            } else {
                node_at(g, id).parents
            }),
        forall|id: usize|
            occupied(g, id) ==> (#[trigger] node_at(edge_added(g, child, parent), id)).values
                == node_at(g, id).values,
{
}

/// What appending a value to a node does to the lists: nothing changes
/// about slots or edges.
pub proof fn lemma_value_added_links(g: GraphView, id: usize, value: Seq<char>)
    ensures
        value_added(g, id, value).len() == g.len(),
        forall|x: usize| #[trigger] occupied(value_added(g, id, value), x) <==> occupied(g, x),
        forall|x: usize|
            occupied(g, x) ==> (#[trigger] node_at(value_added(g, id, value), x)).parents
                == node_at(g, x).parents,
{
}

/// The cells of a list, copied.
pub(crate) fn copy_cells(list: &Vec<u32>) -> (copy: Vec<u32>)
    ensures
        copy@ == list@,
{
    let mut copy: Vec<u32> = Vec::new();
    let mut i: usize = 0;
    while i < list.len()
        invariant
            i <= list@.len(),
            copy@ == list@.take(i as int),
        decreases list@.len() - i,
    {
        copy.push(list[i]);
        i += 1;
        assert(copy@ =~= list@.take(i as int));
    }
    assert(list@.take(list@.len() as int) =~= list@);
    copy
}

/// The texts of a list of strings, copied.
pub(crate) fn copy_texts(list: &Vec<String>) -> (copy: Vec<String>)
    ensures
        texts(copy@) == texts(list@),
{
    let mut copy: Vec<String> = Vec::new();
    let mut i: usize = 0;
    while i < list.len()
        invariant
            i <= list@.len(),
            copy@.len() == i,
            forall|j: int| 0 <= j < i ==> copy@[j]@ == list@[j]@,
        decreases list@.len() - i,
    {
        copy.push(list[i].clone());
        i += 1;
    }
    assert(texts(copy@) =~= texts(list@));
    copy
}

impl DAG {
    /// The records of the graph: one for each node, in a topological order,
    /// each parent given by the position of its record.
    pub fn to_json(&self) -> (records: Vec<JsonNode>)
        requires
            self.wf(),
        ensures
            records_view(records@) == exported(self@),
            topological(self@, topological_order(self@)),
            forall|i: int|
                0 <= i < records@.len() ==> (node_at(
                    self@,
                    #[trigger] topological_order(self@)[i],
                ).credencies matches Some(t) ==> t.cells.len() == product(t.shape)),
    {
        let (order, map) = self.compact_ids();
        let ghost g = self@;
        let mut nodelist: Vec<JsonNode> = Vec::with_capacity(order.len());
        let mut i: usize = 0;
        while i < order.len()
            invariant
                g == self@,
                self.wf(),
                topological(g, order@),
                positions(g, order@, map@),
                i <= order@.len(),
                nodelist@.len() == i,
                forall|j: int| 0 <= j < i ==> (#[trigger] nodelist@[j])@ == record_of(g, map@, order@[j]),
                forall|j: int|
                    0 <= j < i ==> (node_at(g, #[trigger] order@[j]).credencies matches Some(t)
                        ==> t.cells.len() == product(t.shape)),
            decreases order@.len() - i,
        {
            let id = order[i];
            assert(order@.contains(id));
            let node = self.get(id).unwrap();
            let mut parents: Vec<usize> = Vec::new();
            let mut k: usize = 0;
            while k < node.parents.len()
                invariant
                    g == self@,
                    self.wf(),
                    topological(g, order@),
                    positions(g, order@, map@),
                    0 <= i < order@.len(),
                    order@[i as int] == id,
                    occupied(g, id),
                    node@ == node_at(g, id),
                    k <= node.parents@.len(),
                    parents@.len() == k,
                    forall|m: int|
                        0 <= m < k ==> #[trigger] parents@[m] == map@[node.parents@[m] as int]->0,
                decreases node.parents@.len() - k,
            {
                let p = node.parents[k];
                proof {
                    assert(has_parent(g, order@[i as int], p));
                    assert(order@.take(i as int).contains(p));
                    let at = choose|at: int|
                        0 <= at < order@.take(i as int).len() && order@.take(i as int)[at] == p;
                    assert(order@[at] == p);
                    assert(map@[p as int] == Some(at as usize));
                    assert(order@.contains(p));
                }
                parents.push(map[p].unwrap());
                k += 1;
            }
            let credencies = match &node.credencies {
                Some(t) => Some(t.cells()),
                None => None,
            };
            let record = JsonNode {
                label: node.label.clone(),
                values: copy_texts(&node.values),
                description: node.description.clone(),
                parents,
                observation: node.observation,
                credencies,
                cred_description: copy_texts(&node.cred_description),
            };
            proof {
                assert(record@.parents =~= record_of(g, map@, id).parents);
                assert(record@ == record_of(g, map@, id));
            }
            nodelist.push(record);
            i += 1;
        }
        proof {
            assert(records_view(nodelist@) =~= records_of(g, order@, map@));
        }
        nodelist
    }
}

impl DAG {
    /// The graph that a list of records describes, or the reason for which
    /// there is none.
    ///
    /// A text that was no list of records gives the parser's error back. A
    /// record whose parents do not all lie before it, or that names a
    /// parent twice, makes the reading fail with the fault of the first
    /// such parent. Row descriptions that are not one for each row, and
    /// cells that do not fill the shape that the node asks for, are left
    /// out.
    pub fn from_json(parsed: Result<Vec<JsonNode>, serde_json::Error>) -> (r: Result<
        DAG,
        DeserError,
    >)
        ensures
            match parsed {
                Err(e) => r matches Err(DeserError::Json(f)) && f == e,
                Ok(records) => match import_error(records_view(records@)) {
                    Some(e) => r matches Err(DeserError::Graph(f)) && f == e,
                    None => r matches Ok(dag) && dag.wf() && tables_fit(dag@) && dag@ == imported(
                        records_view(records@),
                    ),
                },
            },
    {
        let contents = match parsed {
            Ok(contents) => contents,
            Err(e) => {
                return Err(DeserError::Json(e));
            },
        };
        let ghost records = records_view(contents@);
        let mut dag = DAG::new();
        let mut i: usize = 0;
        proof {
            assert(records.take(0) =~= Seq::<JsonNodeView>::empty());
        }
        while i < contents.len()
            invariant
                parsed == Ok::<Vec<JsonNode>, serde_json::Error>(contents),
                records == records_view(contents@),
                i <= contents@.len(),
                dag.wf(),
                tables_fit(dag@),
                forward(dag@),
                dag@.len() == i,
                dag@ == imported(records.take(i as int)),
                import_error(records) == import_error_from(records, i as nat),
            decreases contents@.len() - i,
        {
            let node = &contents[i];
            let ghost record = records[i as int];
            let ghost before = dag@;
            assert(record == node@);
            let id = dag.insert_node();
            proof {
                if id < i {
                    assert(occupied(before, id));
                }
                assert(id == i);
            }
            dag.set_label(id, node.label.clone());
            let ghost labelled = dag@;
            proof {
                assert(labelled =~= before.push(
                    Some(NodeView { label: record.label, ..empty_node() }),
                ));
                assert forall|c: usize, p: usize| #[trigger]
                    has_parent(labelled, c, p) implies p < c by {
                    if c < i {
                        assert(has_parent(before, c, p));
                    }
                }
                assert forall|x: usize| x < labelled.len() implies #[trigger] occupied(
                    labelled,
                    x,
                ) by {
                    if x < i {
                        assert(occupied(before, x));
                    }
                }
                assert(forward(labelled));
                assert(record.parents.take(0) =~= Seq::<usize>::empty());
            }
            let mut k: usize = 0;
            while k < node.parents.len()
                invariant
                    parsed == Ok::<Vec<JsonNode>, serde_json::Error>(contents),
                    records == records_view(contents@),
                    record == node@,
                    id == i,
                    k <= node.parents@.len(),
                    dag.wf(),
                    tables_fit(dag@),
                    forward(dag@),
                    dag@.len() == i + 1,
                    dag@ == edges_added(labelled, id, record.parents.take(k as int)),
                    node_at(dag@, id).parents == record.parents.take(k as int),
                    parents_error(i, record.parents, 0) == parents_error(
                        i,
                        record.parents,
                        k as nat,
                    ),
                    import_error(records) == import_error_from(records, i as nat),
                    i < records.len(),
                    records[i as int] == record,
                decreases node.parents@.len() - k,
            {
                let p = node.parents[k];
                let ghost g = dag@;
                proof {
                    lemma_forward_verdict(g, id, p);
                    assert(record.parents.take(k + 1).drop_last() =~= record.parents.take(
                        k as int,
                    ));
                    assert(record.parents.take(k + 1).last() == p);
                }
                match dag.add_edge(id, p) {
                    Ok(_) => {},
                    Err(e) => {
                        proof {
                            assert(parents_error(i, record.parents, k as nat) == Some(e));
                            assert(import_error_from(records, i as nat) == Some(e));
                        }
                        return Err(DeserError::Graph(e));
                    },
                }
                proof {
                    lemma_edge_added_links(g, id, p);
                    lemma_forward_kept_with_edge(g, id, p);
                }
                k += 1;
            }
            let ghost linked = dag@;
            proof {
                assert(record.parents.take(k as int) =~= record.parents);
                assert(record.values.take(0) =~= Seq::<Seq<char>>::empty());
            }
            let mut m: usize = 0;
            while m < node.values.len()
                invariant
                    record == node@,
                    id == i,
                    m <= node.values@.len(),
                    dag.wf(),
                    tables_fit(dag@),
                    forward(dag@),
                    dag@.len() == i + 1,
                    dag@ == values_added(linked, id, record.values.take(m as int)),
                decreases node.values@.len() - m,
            {
                let ghost g = dag@;
                dag.add_value(id, node.values[m].clone());
                proof {
                    lemma_value_added_links(g, id, record.values[m as int]);
                    lemma_forward_kept(g, dag@);
                    assert(record.values.take(m + 1).drop_last() =~= record.values.take(m as int));
                    assert(record.values.take(m + 1).last() == record.values[m as int]);
                }
                m += 1;
            }
            let ghost valued = dag@;
            proof {
                assert(record.values.take(m as int) =~= record.values);
            }
            dag.set_observation(id, node.observation);
            dag.set_description(id, node.description.clone());
            let ghost described = dag@;
            proof {
                assert(described =~= valued.update(
                    id as int,
                    Some(
                        NodeView {
                            observation: record.observation,
                            description: record.description,
                            ..node_at(valued, id)
                        },
                    ),
                ));
                assert forall|x: usize| x < valued.len() implies #[trigger] occupied(
                    described,
                    x,
                ) && node_at(described, x).parents == node_at(valued, x).parents by {
                    assert(occupied(valued, x));
                }
                lemma_forward_kept(valued, described);
            }
            let rows = copy_texts(&node.cred_description);
            let _ = dag.set_cred_descriptions(id, rows);
            let ghost with_rows = dag@;
            proof {
                assert forall|x: usize| x < described.len() implies #[trigger] occupied(
                    with_rows,
                    x,
                ) && node_at(with_rows, x).parents == node_at(described, x).parents by {
                    assert(occupied(described, x));
                }
                lemma_forward_kept(described, with_rows);
            }
            match &node.credencies {
                Some(cells) => {
                    match dag.shape_of(id) {
                        Some(shape) => {
                            match Table::from_shape_vec(&shape, copy_cells(cells)) {
                                Some(table) => {
                                    let _ = dag.set_credencies(id, table);
                                },
                                None => {},
                            }
                        },
                        None => {},
                    }
                },
                None => {},
            }
            proof {
                assert forall|x: usize| x < with_rows.len() implies #[trigger] occupied(dag@, x)
                    && node_at(dag@, x).parents == node_at(with_rows, x).parents by {
                    assert(occupied(with_rows, x));
                }
                lemma_forward_kept(with_rows, dag@);
                assert(records.take(i + 1).drop_last() =~= records.take(i as int));
                assert(records.take(i + 1).last() == record);
                assert(dag@ == record_added(before, record));
            }
            i += 1;
        }
        proof {
            assert(records.take(i as int) =~= records);
        }
        Ok(dag)
    }
}

/// Replaces a graph by the one that a list of records describes. Where the
/// records cannot be read, the graph stays as it was and the reason is
/// returned.
pub fn load_json_into_state(
    state: &mut DAG,
    parsed: Result<Vec<JsonNode>, serde_json::Error>,
) -> (r: Result<(), DeserError>)
    ensures
        match parsed {
            Err(e) => r matches Err(DeserError::Json(f)) && f == e && *final(state) == *old(state),
            Ok(records) => match import_error(records_view(records@)) {
                Some(e) => r matches Err(DeserError::Graph(f)) && f == e && *final(state) == *old(
                    state,
                ),
                None => r is Ok && final(state).wf() && tables_fit(final(state)@) && final(state)@
                    == imported(records_view(records@)),
            },
        },
{
    match DAG::from_json(parsed) {
        Ok(dag) => {
            *state = dag;
            Ok(())
        },
        Err(e) => Err(e),
    }
}

/// A parent at or behind its own record is a fault, from wherever among the
/// parents the search for faults starts.
proof fn lemma_parents_fault(index: usize, parents: Seq<usize>, k: int, from: int)
    requires
        0 <= from <= k < parents.len(),
        parents[k] >= index,
    ensures
        parents_error(index, parents, from as nat) is Some,
    decreases k - from,
{
    if from < k {
        lemma_parents_fault(index, parents, k, from + 1);
    }
}

/// A record with a faulty parent is a fault of the list, from wherever
/// among the records before it the search for faults starts.
proof fn lemma_record_fault(records: Seq<JsonNodeView>, i: int, from: int)
    requires
        0 <= from <= i < records.len(),
        parents_error(i as usize, records[i].parents, 0) is Some,
    ensures
        import_error_from(records, from as nat) is Some,
    decreases i - from,
{
    if from < i {
        lemma_record_fault(records, i, from + 1);
    }
}

/// A list of records in which some record names as a parent itself, a later
/// record or a record that is not there cannot be read.
pub proof fn lemma_bad_parent_fails(records: Seq<JsonNodeView>, i: int, k: int)
    requires
        records.len() <= usize::MAX,
        0 <= i < records.len(),
        0 <= k < records[i].parents.len(),
        records[i].parents[k] >= i,
    ensures
        import_error(records) is Some,
{
    lemma_parents_fault(i as usize, records[i].parents, k, 0);
    lemma_record_fault(records, i, 0);
}

/// Adding an edge from the node in the last slot to one in a lower slot
/// keeps a forward graph forward.
pub proof fn lemma_forward_kept_with_edge(g: GraphView, child: usize, parent: usize)
    requires
        forward(g),
        child + 1 == g.len(),
        parent < child,
    ensures
        forward(edge_added(g, child, parent)),
{
    let h = edge_added(g, child, parent);
    assert(occupied(g, child));
    assert(occupied(g, parent));
    lemma_edge_added_links(g, child, parent);
    assert forall|c: usize, p: usize| #[trigger] has_parent(h, c, p) implies p < c by {
        assert(occupied(g, c));
        if c == child {
            let listed = node_at(g, c).parents;
            assert(node_at(h, c).parents == listed.push(parent));
            let at = choose|at: int| 0 <= at < listed.push(parent).len() && listed.push(parent)[at] == p;
            if at < listed.len() {
                assert(listed[at] == p);
                assert(has_parent(g, c, p));
            }
        } else {
            assert(has_parent(g, c, p));
        }
    }
}

} // verus!
