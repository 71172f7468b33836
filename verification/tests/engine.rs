use bayes_o_matic::graph::DAG;
use bayes_o_matic::table::Table;

fn with_values(dag: &mut DAG, count: usize) -> usize {
    let id = dag.insert_node();
    for i in 0..count {
        dag.add_value(id, format!("v{}", i));
    }
    id
}

#[test]
fn plan_fails_when_a_node_has_no_values() {
    let mut dag = DAG::new();
    let _ = with_values(&mut dag, 2);
    let _ = with_values(&mut dag, 0);
    assert!(dag.defaults_fit());
    assert!(dag.make_bayesnet().is_err());
}

#[test]
fn plan_succeeds_when_every_node_has_values() {
    let mut dag = DAG::new();
    let _ = with_values(&mut dag, 2);
    let _ = with_values(&mut dag, 1);
    assert!(dag.defaults_fit());
    assert!(dag.make_bayesnet().is_ok());
}

#[test]
fn plan_of_an_empty_graph_is_empty() {
    let dag = DAG::new();
    assert!(dag.defaults_fit());
    let (plan, order) = dag.make_bayesnet().unwrap();
    assert!(plan.nodes.is_empty());
    assert!(plan.evidence.is_empty());
    assert!(order.is_empty());
}

#[test]
fn plan_lists_nodes_in_topological_order() {
    let mut dag = DAG::new();
    let c = with_values(&mut dag, 2);
    let a = with_values(&mut dag, 3);
    let b = with_values(&mut dag, 2);
    assert_eq!(dag.add_edge(c, a), Ok(()));
    assert_eq!(dag.add_edge(c, b), Ok(()));
    dag.set_observation(b, Some(1));
    dag.set_observation(c, Some(0));
    let cells: Vec<u32> = (0..12).map(|i| (i as f32).to_bits()).collect();
    let t = Table::from_shape_vec(&vec![2, 3, 2], cells.clone()).unwrap();
    assert_eq!(dag.set_credencies(c, t), Ok(()));
    assert!(dag.defaults_fit());
    let (plan, order) = dag.make_bayesnet().unwrap();
    assert_eq!(order, vec![2, 1, 0]);
    assert_eq!(plan.nodes.len(), 3);
    assert!(plan.nodes[0].parents.is_empty());
    assert!(plan.nodes[1].parents.is_empty());
    assert_eq!(plan.nodes[2].parents, vec![1, 0]);
    assert_eq!(plan.nodes[0].credencies.shape(), vec![2]);
    assert_eq!(plan.nodes[0].credencies.cells(), vec![0, 0]);
    assert_eq!(plan.nodes[1].credencies.shape(), vec![3]);
    assert_eq!(plan.nodes[1].credencies.cells(), vec![0, 0, 0]);
    assert_eq!(plan.nodes[2].credencies.shape(), vec![2, 3, 2]);
    assert_eq!(plan.nodes[2].credencies.cells(), cells);
    assert_eq!(plan.evidence, vec![(0, 1), (2, 0)]);
}

#[test]
fn plan_stands_in_zeros_of_the_right_shape() {
    let mut dag = DAG::new();
    let a = with_values(&mut dag, 2);
    let b = with_values(&mut dag, 3);
    assert_eq!(dag.add_edge(b, a), Ok(()));
    assert!(dag.defaults_fit());
    let (plan, order) = dag.make_bayesnet().unwrap();
    assert_eq!(order, vec![0, 1]);
    assert_eq!(plan.nodes[1].parents, vec![0]);
    assert_eq!(plan.nodes[1].credencies.shape(), vec![3, 2]);
    assert_eq!(plan.nodes[1].credencies.cells(), vec![0f32.to_bits(); 6]);
}

#[test]
fn defaults_do_not_fit_beyond_the_machine() {
    let mut dag = DAG::new();
    let child = with_values(&mut dag, 2);
    for _ in 0..70 {
        let p = with_values(&mut dag, 2);
        assert_eq!(dag.add_edge(child, p), Ok(()));
    }
    assert!(!dag.defaults_fit());
}

#[test]
fn plan_fails_for_a_node_without_values_whatever_the_tables() {
    let mut dag = DAG::new();
    let child = with_values(&mut dag, 2);
    for _ in 0..70 {
        let p = with_values(&mut dag, 2);
        assert_eq!(dag.add_edge(child, p), Ok(()));
    }
    let _ = with_values(&mut dag, 0);
    assert!(dag.degenerate());
    assert!(!dag.defaults_fit());
    assert!(dag.make_bayesnet().is_err());
}

#[test]
fn plan_fails_wherever_the_node_without_values_stands() {
    for empty in 0..3 {
        let mut dag = DAG::new();
        for id in 0..3 {
            let count = if id == empty { 0 } else { 2 };
            assert_eq!(with_values(&mut dag, count), id);
        }
        assert_eq!(dag.add_edge(1, 0), Ok(()));
        assert_eq!(dag.add_edge(2, 1), Ok(()));
        assert!(dag.degenerate());
        assert!(dag.make_bayesnet().is_err());
        assert_eq!(dag.slot_count(), 3);
        assert_eq!(dag.get(2).unwrap().parents, vec![1]);
    }
}

#[test]
fn degenerate_tells_whether_a_node_has_no_values() {
    let mut dag = DAG::new();
    assert!(!dag.degenerate());
    let a = with_values(&mut dag, 1);
    assert!(!dag.degenerate());
    let _ = with_values(&mut dag, 0);
    assert!(dag.degenerate());
    dag.remove_value(a, 0);
    assert!(dag.degenerate());
}
