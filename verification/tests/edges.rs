use bayes_o_matic::graph::{EdgeError, DAG};

fn graph_of(count: usize) -> DAG {
    let mut dag = DAG::new();
    for expected in 0..count {
        let id = dag.insert_node();
        assert_eq!(id, expected);
    }
    dag
}

fn assert_symmetric(dag: &DAG) {
    let nodes = dag.iter_nodes();
    for (id, node) in nodes.iter() {
        for p in node.parents.iter() {
            let parent = dag.get(*p).expect("a parent is a node");
            assert!(parent.children.contains(id));
        }
        for c in node.children.iter() {
            let child = dag.get(*c).expect("a child is a node");
            assert!(child.parents.contains(id));
        }
    }
}

#[test]
fn new_graph_is_empty() {
    let dag = DAG::new();
    assert_eq!(dag.slot_count(), 0);
    assert!(dag.get(0).is_none());
    assert!(dag.iter_nodes().is_empty());
}

#[test]
fn inserted_node_is_empty() {
    let mut dag = DAG::new();
    let id = dag.insert_node();
    assert_eq!(id, 0);
    let node = dag.get(id).unwrap();
    assert!(node.parents.is_empty());
    assert!(node.children.is_empty());
    assert_eq!(node.label, "");
    assert_eq!(node.description, "");
    assert!(node.values.is_empty());
    assert!(node.credencies.is_none());
    assert!(node.cred_description.is_empty());
    assert_eq!(node.observation, None);
}

#[test]
fn insert_appends_when_no_slot_is_empty() {
    let mut dag = DAG::new();
    assert_eq!(dag.insert_node(), 0);
    assert_eq!(dag.insert_node(), 1);
    assert_eq!(dag.insert_node(), 2);
    assert_eq!(dag.slot_count(), 3);
}

#[test]
fn iter_nodes_goes_in_slot_order() {
    let dag = graph_of(4);
    let ids: Vec<usize> = dag.iter_nodes().iter().map(|(id, _)| *id).collect();
    assert_eq!(ids, vec![0, 1, 2, 3]);
}

#[test]
fn edge_to_missing_parent_is_bad_node() {
    let dag = graph_of(2);
    assert_eq!(dag.check_edge_addition(0, 7), Err(EdgeError::BadNode));
}

#[test]
fn self_edge_would_cycle() {
    let dag = graph_of(3);
    for id in 0..3 {
        assert_eq!(dag.check_edge_addition(id, id), Err(EdgeError::WouldCycle));
    }
}

#[test]
fn self_edge_on_missing_node_is_bad_node() {
    let dag = graph_of(1);
    assert_eq!(dag.check_edge_addition(5, 5), Err(EdgeError::BadNode));
}

#[test]
fn reverse_edge_would_cycle() {
    let mut dag = graph_of(2);
    assert_eq!(dag.add_edge(0, 1), Ok(()));
    assert_eq!(dag.check_edge_addition(1, 0), Err(EdgeError::WouldCycle));
    assert_eq!(dag.add_edge(1, 0), Err(EdgeError::WouldCycle));
}

#[test]
fn repeated_edge_is_already_existing() {
    let mut dag = graph_of(2);
    assert_eq!(dag.add_edge(0, 1), Ok(()));
    assert_eq!(dag.check_edge_addition(0, 1), Err(EdgeError::AlreadyExisting));
    assert_eq!(dag.add_edge(0, 1), Err(EdgeError::AlreadyExisting));
    assert_eq!(dag.get(0).unwrap().parents, vec![1]);
    assert_eq!(dag.get(1).unwrap().children, vec![0]);
}

#[test]
fn long_cycle_is_refused() {
    let mut dag = graph_of(4);
    assert_eq!(dag.add_edge(0, 1), Ok(()));
    assert_eq!(dag.add_edge(1, 2), Ok(()));
    assert_eq!(dag.add_edge(2, 3), Ok(()));
    assert_eq!(dag.check_edge_addition(3, 0), Err(EdgeError::WouldCycle));
    assert_eq!(dag.check_edge_addition(3, 1), Err(EdgeError::WouldCycle));
    assert_eq!(dag.check_edge_addition(0, 3), Ok(()));
}

#[test]
fn diamond_is_accepted() {
    let mut dag = graph_of(4);
    assert_eq!(dag.add_edge(1, 0), Ok(()));
    assert_eq!(dag.add_edge(2, 0), Ok(()));
    assert_eq!(dag.add_edge(3, 1), Ok(()));
    assert_eq!(dag.add_edge(3, 2), Ok(()));
    assert_eq!(dag.check_edge_addition(0, 3), Err(EdgeError::WouldCycle));
    assert_eq!(dag.check_edge_addition(3, 0), Ok(()));
    assert_symmetric(&dag);
}

#[test]
fn check_does_not_change_the_graph() {
    let mut dag = graph_of(2);
    assert_eq!(dag.add_edge(0, 1), Ok(()));
    let _ = dag.check_edge_addition(1, 0);
    let _ = dag.check_edge_addition(0, 1);
    assert_eq!(dag.get(0).unwrap().parents, vec![1]);
    assert!(dag.get(0).unwrap().children.is_empty());
    assert_eq!(dag.get(1).unwrap().children, vec![0]);
    assert!(dag.get(1).unwrap().parents.is_empty());
}

#[test]
fn edge_from_missing_child_is_bad_node() {
    let mut dag = graph_of(1);
    assert_eq!(dag.check_edge_addition(9, 0), Ok(()));
    assert_eq!(dag.add_edge(9, 0), Err(EdgeError::BadNode));
    assert!(dag.get(0).unwrap().children.is_empty());
}

#[test]
fn add_edge_links_both_ways() {
    let mut dag = graph_of(3);
    assert_eq!(dag.add_edge(2, 0), Ok(()));
    assert_eq!(dag.add_edge(2, 1), Ok(()));
    assert_eq!(dag.get(2).unwrap().parents, vec![0, 1]);
    assert_eq!(dag.get(0).unwrap().children, vec![2]);
    assert_eq!(dag.get(1).unwrap().children, vec![2]);
    assert_symmetric(&dag);
}

#[test]
fn remove_edge_unlinks_both_ways() {
    let mut dag = graph_of(3);
    assert_eq!(dag.add_edge(2, 0), Ok(()));
    assert_eq!(dag.add_edge(2, 1), Ok(()));
    dag.remove_edge(2, 0);
    assert_eq!(dag.get(2).unwrap().parents, vec![1]);
    assert!(dag.get(0).unwrap().children.is_empty());
    assert_eq!(dag.get(1).unwrap().children, vec![2]);
    assert_symmetric(&dag);
}

#[test]
fn removing_a_missing_edge_keeps_the_lists() {
    let mut dag = graph_of(3);
    assert_eq!(dag.add_edge(2, 0), Ok(()));
    dag.remove_edge(1, 0);
    dag.remove_edge(0, 2);
    dag.remove_edge(8, 0);
    dag.remove_edge(0, 8);
    assert_eq!(dag.get(2).unwrap().parents, vec![0]);
    assert_eq!(dag.get(0).unwrap().children, vec![2]);
    assert!(dag.get(1).unwrap().parents.is_empty());
    assert_symmetric(&dag);
}

#[test]
fn removed_edge_can_be_reversed() {
    let mut dag = graph_of(2);
    assert_eq!(dag.add_edge(0, 1), Ok(()));
    dag.remove_edge(0, 1);
    assert_eq!(dag.add_edge(1, 0), Ok(()));
    assert_eq!(dag.get(1).unwrap().parents, vec![0]);
    assert_eq!(dag.get(0).unwrap().children, vec![1]);
}

#[test]
fn edits_keep_adjacency_symmetric_and_acyclic() {
    let mut dag = graph_of(5);
    let edits: [(usize, usize); 12] = [
        (1, 0), (2, 1), (3, 2), (0, 3), (4, 0), (0, 4),
        (3, 0), (2, 0), (4, 3), (1, 4), (4, 4), (2, 1),
    ];
    for (step, (child, parent)) in edits.iter().enumerate() {
        let allowed = dag.check_edge_addition(*child, *parent);
        assert_eq!(dag.add_edge(*child, *parent), allowed);
        assert_symmetric(&dag);
        if step % 4 == 3 {
            dag.remove_edge(*child, *parent);
            assert_symmetric(&dag);
        }
        let (order, map) = dag.compact_ids();
        assert_eq!(order.len(), 5);
        for (id, node) in dag.iter_nodes().iter() {
            for p in node.parents.iter() {
                assert!(map[*p].unwrap() < map[*id].unwrap());
            }
        }
    }
}
