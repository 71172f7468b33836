use bayes_o_matic::graph::{EdgeError, DAG};
use bayes_o_matic::json::{load_json_into_state, DeserError, JsonNode};
use bayes_o_matic::table::Table;

fn record(label: &str, values: &[&str], parents: &[usize]) -> JsonNode {
    JsonNode {
        label: label.to_string(),
        description: String::new(),
        values: values.iter().map(|v| v.to_string()).collect(),
        parents: parents.to_vec(),
        observation: None,
        credencies: None,
        cred_description: Vec::new(),
    }
}

fn graph_error(result: Result<DAG, DeserError>) -> EdgeError {
    match result {
        Err(DeserError::Graph(e)) => e,
        Err(DeserError::Json(e)) => panic!("a parser error: {}", e),
        Ok(_) => panic!("the records were read"),
    }
}

fn parent_and_child() -> DAG {
    let mut dag = DAG::new();
    let p = dag.insert_node();
    dag.set_label(p, "P".to_string());
    dag.add_value(p, "T".to_string());
    dag.add_value(p, "F".to_string());
    let c = dag.insert_node();
    dag.set_label(c, "C".to_string());
    dag.add_value(c, "x".to_string());
    dag.add_value(c, "y".to_string());
    assert_eq!(dag.add_edge(c, p), Ok(()));
    let zeros = Table::from_shape_vec(&vec![2, 2], vec![0f32.to_bits(); 4]).unwrap();
    assert_eq!(dag.set_credencies(c, zeros), Ok(()));
    dag
}

#[test]
fn records_come_in_topological_order() {
    let mut dag = DAG::new();
    let c = dag.insert_node();
    let p = dag.insert_node();
    dag.set_label(c, "child".to_string());
    dag.set_label(p, "parent".to_string());
    dag.set_description(p, "the cause".to_string());
    dag.add_value(p, "T".to_string());
    dag.add_value(c, "x".to_string());
    dag.set_observation(c, Some(0));
    assert_eq!(dag.add_edge(c, p), Ok(()));
    assert_eq!(dag.set_cred_descriptions(c, vec!["only row".to_string()]), Ok(()));
    let records = dag.to_json();
    assert_eq!(records.len(), 2);
    assert_eq!(records[0].label, "parent");
    assert_eq!(records[0].description, "the cause");
    assert_eq!(records[0].values, vec!["T".to_string()]);
    assert!(records[0].parents.is_empty());
    assert_eq!(records[0].observation, None);
    assert!(records[0].credencies.is_none());
    assert_eq!(records[1].label, "child");
    assert_eq!(records[1].parents, vec![0]);
    assert_eq!(records[1].observation, Some(0));
    assert_eq!(records[1].cred_description, vec!["only row".to_string()]);
}

#[test]
fn record_parents_point_at_earlier_records() {
    let mut dag = DAG::new();
    for _ in 0..5 {
        dag.insert_node();
    }
    for (child, parent) in [(0, 4), (1, 4), (2, 0), (2, 1), (3, 2)] {
        assert_eq!(dag.add_edge(child, parent), Ok(()));
    }
    let records = dag.to_json();
    assert_eq!(records.len(), 5);
    for (at, r) in records.iter().enumerate() {
        for p in r.parents.iter() {
            assert!(*p < at);
        }
    }
}

#[test]
fn record_cells_are_row_major() {
    let mut dag = DAG::new();
    let a = dag.insert_node();
    let b = dag.insert_node();
    let c = dag.insert_node();
    for v in ["a0", "a1"] {
        dag.add_value(a, v.to_string());
    }
    for v in ["b0", "b1", "b2"] {
        dag.add_value(b, v.to_string());
    }
    dag.add_value(c, "c0".to_string());
    assert_eq!(dag.add_edge(c, a), Ok(()));
    assert_eq!(dag.add_edge(c, b), Ok(()));
    let cells: Vec<u32> = [0.0f32, 0.1, 0.2, 1.0, 1.1, 1.2].iter().map(|x| x.to_bits()).collect();
    let t = Table::from_shape_vec(&vec![1, 2, 3], cells.clone()).unwrap();
    assert_eq!(dag.set_credencies(c, t), Ok(()));
    let records = dag.to_json();
    let written = records.iter().find(|r| r.parents.len() == 2).unwrap();
    assert_eq!(written.credencies, Some(cells));
}

#[test]
fn round_trip_keeps_the_graph() {
    let dag = parent_and_child();
    let read = DAG::from_json(Ok(dag.to_json())).expect("the records are read");
    assert_eq!(read.slot_count(), 2);
    let p = read.get(0).unwrap();
    let c = read.get(1).unwrap();
    assert_eq!(p.label, "P");
    assert_eq!(p.values, vec!["T".to_string(), "F".to_string()]);
    assert!(p.parents.is_empty());
    assert_eq!(p.children, vec![1]);
    assert!(p.credencies.is_none());
    assert_eq!(c.label, "C");
    assert_eq!(c.values, vec!["x".to_string(), "y".to_string()]);
    assert_eq!(c.parents, vec![0]);
    assert!(c.children.is_empty());
    let t = c.credencies.as_ref().unwrap();
    assert_eq!(t.shape(), vec![2, 2]);
    let cells: Vec<f32> = t.cells().iter().map(|b| f32::from_bits(*b)).collect();
    assert_eq!(cells, vec![0.0; 4]);
}

#[test]
fn reading_fills_every_field() {
    let mut child = record("child", &["x", "y"], &[0]);
    child.description = "the effect".to_string();
    child.observation = Some(1);
    child.credencies = Some(vec![1, 2, 3, 4, 5, 6]);
    child.cred_description = vec!["r0".to_string(), "r1".to_string(), "r2".to_string()];
    let records = vec![record("parent", &["a", "b", "c"], &[]), child];
    let dag = DAG::from_json(Ok(records)).expect("the records are read");
    let c = dag.get(1).unwrap();
    assert_eq!(c.label, "child");
    assert_eq!(c.description, "the effect");
    assert_eq!(c.observation, Some(1));
    assert_eq!(c.parents, vec![0]);
    assert_eq!(c.cred_description.len(), 3);
    let t = c.credencies.as_ref().unwrap();
    assert_eq!(t.shape(), vec![2, 3]);
    assert_eq!(t.cells(), vec![1, 2, 3, 4, 5, 6]);
    assert_eq!(dag.get(0).unwrap().children, vec![1]);
}

#[test]
fn reading_leaves_out_cells_that_do_not_fit() {
    let mut child = record("child", &["x", "y"], &[0]);
    child.credencies = Some(vec![0; 5]);
    let records = vec![record("parent", &["a", "b"], &[]), child];
    let dag = DAG::from_json(Ok(records)).expect("the records are read");
    assert!(dag.get(1).unwrap().credencies.is_none());
    assert_eq!(dag.get(1).unwrap().parents, vec![0]);
}

#[test]
fn reading_leaves_out_rows_that_do_not_fit() {
    let mut child = record("child", &["x", "y"], &[0]);
    child.cred_description = vec!["r0".to_string()];
    child.credencies = Some(vec![0; 4]);
    let records = vec![record("parent", &["a", "b"], &[]), child];
    let dag = DAG::from_json(Ok(records)).expect("the records are read");
    assert!(dag.get(1).unwrap().cred_description.is_empty());
    assert!(dag.get(1).unwrap().credencies.is_some());
}

#[test]
fn reading_no_records_gives_an_empty_graph() {
    let dag = DAG::from_json(Ok(Vec::new())).expect("the records are read");
    assert_eq!(dag.slot_count(), 0);
}

#[test]
fn parent_that_is_not_there_is_bad_node() {
    let records = vec![record("a", &["x"], &[]), record("b", &["y"], &[5])];
    assert_eq!(graph_error(DAG::from_json(Ok(records))), EdgeError::BadNode);
}

#[test]
fn parent_in_a_later_record_is_bad_node() {
    let records = vec![record("a", &["x"], &[1]), record("b", &["y"], &[])];
    assert_eq!(graph_error(DAG::from_json(Ok(records))), EdgeError::BadNode);
}

#[test]
fn record_as_its_own_parent_would_cycle() {
    let records = vec![record("a", &["x"], &[]), record("b", &["y"], &[1])];
    assert_eq!(graph_error(DAG::from_json(Ok(records))), EdgeError::WouldCycle);
}

#[test]
fn parent_named_twice_is_already_existing() {
    let records = vec![record("a", &["x"], &[]), record("b", &["y"], &[0, 0])];
    assert_eq!(graph_error(DAG::from_json(Ok(records))), EdgeError::AlreadyExisting);
}

#[test]
fn first_fault_decides() {
    let records = vec![
        record("a", &["x"], &[]),
        record("b", &["y"], &[0, 0, 9]),
        record("c", &["z"], &[2]),
    ];
    assert_eq!(graph_error(DAG::from_json(Ok(records))), EdgeError::AlreadyExisting);
}

#[test]
fn parser_error_is_handed_on() {
    let failed = serde_json::from_str::<serde_json::Value>("[{").unwrap_err();
    let text = failed.to_string();
    match DAG::from_json(Err(failed)) {
        Err(DeserError::Json(e)) => assert_eq!(e.to_string(), text),
        _ => panic!("the parser error was lost"),
    }
}

#[test]
fn failed_load_keeps_the_graph() {
    let mut state = parent_and_child();
    let records = vec![record("a", &["x"], &[3])];
    match load_json_into_state(&mut state, Ok(records)) {
        Err(DeserError::Graph(e)) => assert_eq!(e, EdgeError::BadNode),
        _ => panic!("the records were read"),
    }
    assert_eq!(state.slot_count(), 2);
    assert_eq!(state.get(0).unwrap().label, "P");
    assert_eq!(state.get(1).unwrap().parents, vec![0]);
    assert!(state.get(1).unwrap().credencies.is_some());
    let failed = serde_json::from_str::<serde_json::Value>("nonsense").unwrap_err();
    assert!(matches!(load_json_into_state(&mut state, Err(failed)), Err(DeserError::Json(_))));
    assert_eq!(state.slot_count(), 2);
    assert_eq!(state.get(1).unwrap().label, "C");
}

#[test]
fn successful_load_replaces_the_graph() {
    let mut state = parent_and_child();
    let records = vec![record("only", &["x"], &[])];
    assert!(load_json_into_state(&mut state, Ok(records)).is_ok());
    assert_eq!(state.slot_count(), 1);
    assert_eq!(state.get(0).unwrap().label, "only");
}

#[test]
fn reading_leaves_out_cells_for_a_shape_beyond_the_machine() {
    let mut records: Vec<JsonNode> = (0..70).map(|_| record("p", &["T", "F"], &[])).collect();
    let parents: Vec<usize> = (0..70).collect();
    let mut child = record("child", &["x", "y"], &parents);
    child.credencies = Some(vec![0; 16]);
    records.push(child);
    let dag = DAG::from_json(Ok(records)).expect("the records are read");
    assert_eq!(dag.slot_count(), 71);
    assert_eq!(dag.get(70).unwrap().parents.len(), 70);
    assert!(dag.get(70).unwrap().credencies.is_none());
}
