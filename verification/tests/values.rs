use bayes_o_matic::graph::DAG;
use bayes_o_matic::table::Table;

fn bits(x: f32) -> u32 {
    x.to_bits()
}

fn table(shape: &[usize], cells: &[f32]) -> Table {
    let shape: Vec<usize> = shape.to_vec();
    let cells: Vec<u32> = cells.iter().map(|x| bits(*x)).collect();
    Table::from_shape_vec(&shape, cells).expect("the cells fill the shape")
}

fn with_values(dag: &mut DAG, values: &[&str]) -> usize {
    let id = dag.insert_node();
    for v in values {
        dag.add_value(id, v.to_string());
    }
    id
}

#[test]
fn setters_store_what_they_are_given() {
    let mut dag = DAG::new();
    let id = dag.insert_node();
    dag.set_label(id, "Rain".to_string());
    dag.set_description(id, "whether it rains".to_string());
    dag.add_value(id, "yes".to_string());
    dag.add_value(id, "no".to_string());
    dag.set_observation(id, Some(1));
    let node = dag.get(id).unwrap();
    assert_eq!(node.label, "Rain");
    assert_eq!(node.description, "whether it rains");
    assert_eq!(node.values, vec!["yes".to_string(), "no".to_string()]);
    assert_eq!(node.observation, Some(1));
    dag.set_observation(id, None);
    assert_eq!(dag.get(id).unwrap().observation, None);
}

#[test]
fn setters_pass_over_an_empty_slot() {
    let mut dag = DAG::new();
    let id = dag.insert_node();
    dag.set_label(3, "x".to_string());
    dag.set_description(3, "x".to_string());
    dag.set_observation(3, Some(0));
    dag.add_value(3, "x".to_string());
    dag.remove_value(3, 0);
    assert_eq!(dag.slot_count(), 1);
    let node = dag.get(id).unwrap();
    assert_eq!(node.label, "");
    assert!(node.values.is_empty());
}

#[test]
fn values_need_not_be_distinct() {
    let mut dag = DAG::new();
    let id = with_values(&mut dag, &["a", "a"]);
    assert_eq!(dag.get(id).unwrap().values, vec!["a".to_string(), "a".to_string()]);
}

#[test]
fn add_value_clears_the_node() {
    let mut dag = DAG::new();
    let id = with_values(&mut dag, &["a", "b"]);
    assert_eq!(dag.set_credencies(id, table(&[2], &[0.0, -1.0])), Ok(()));
    assert_eq!(dag.set_cred_descriptions(id, vec!["prior".to_string()]), Ok(()));
    dag.set_observation(id, Some(0));
    dag.add_value(id, "c".to_string());
    let node = dag.get(id).unwrap();
    assert_eq!(node.values.len(), 3);
    assert!(node.credencies.is_none());
    assert!(node.cred_description.is_empty());
    assert_eq!(node.observation, None);
}

#[test]
fn add_value_clears_the_tables_of_the_children() {
    let mut dag = DAG::new();
    let parent = with_values(&mut dag, &["T", "F"]);
    let child = with_values(&mut dag, &["x", "y"]);
    let other = with_values(&mut dag, &["u"]);
    assert_eq!(dag.add_edge(child, parent), Ok(()));
    assert_eq!(dag.set_credencies(child, table(&[2, 2], &[0.0; 4])), Ok(()));
    assert_eq!(
        dag.set_cred_descriptions(child, vec!["a".to_string(), "b".to_string()]),
        Ok(())
    );
    dag.set_observation(child, Some(1));
    assert_eq!(dag.set_credencies(other, table(&[1], &[0.0])), Ok(()));
    dag.add_value(parent, "maybe".to_string());
    let node = dag.get(child).unwrap();
    assert!(node.credencies.is_none());
    assert_eq!(node.cred_description.len(), 2);
    assert_eq!(node.observation, Some(1));
    assert!(dag.get(other).unwrap().credencies.is_some());
}

#[test]
fn remove_value_clears_the_node() {
    let mut dag = DAG::new();
    let id = with_values(&mut dag, &["a", "b", "c"]);
    assert_eq!(dag.set_credencies(id, table(&[3], &[0.0, -1.0, -2.0])), Ok(()));
    assert_eq!(dag.set_cred_descriptions(id, vec!["prior".to_string()]), Ok(()));
    dag.set_observation(id, Some(2));
    dag.remove_value(id, 1);
    let node = dag.get(id).unwrap();
    assert_eq!(node.values, vec!["a".to_string(), "c".to_string()]);
    assert!(node.credencies.is_none());
    assert!(node.cred_description.is_empty());
    assert_eq!(node.observation, None);
}

#[test]
fn remove_value_keeps_the_tables_of_the_children() {
    let mut dag = DAG::new();
    let parent = with_values(&mut dag, &["T", "F"]);
    let child = with_values(&mut dag, &["x", "y"]);
    assert_eq!(dag.add_edge(child, parent), Ok(()));
    assert_eq!(dag.set_credencies(child, table(&[2, 2], &[0.0; 4])), Ok(()));
    dag.remove_value(parent, 0);
    let kept = dag.get(child).unwrap().credencies.as_ref().unwrap();
    assert_eq!(kept.shape(), vec![2, 2]);
    assert_eq!(dag.shape_of(child), Some(vec![2, 1]));
}

#[test]
fn remove_value_behind_the_end_does_nothing() {
    let mut dag = DAG::new();
    let id = with_values(&mut dag, &["a", "b"]);
    assert_eq!(dag.set_credencies(id, table(&[2], &[0.0, -1.0])), Ok(()));
    dag.set_observation(id, Some(1));
    dag.remove_value(id, 2);
    let node = dag.get(id).unwrap();
    assert_eq!(node.values.len(), 2);
    assert!(node.credencies.is_some());
    assert_eq!(node.observation, Some(1));
}

#[test]
fn edge_edits_clear_the_table_of_the_child() {
    let mut dag = DAG::new();
    let a = with_values(&mut dag, &["T", "F"]);
    let b = with_values(&mut dag, &["x", "y", "z"]);
    assert_eq!(dag.set_credencies(a, table(&[2], &[0.0, 0.0])), Ok(()));
    assert_eq!(dag.set_credencies(b, table(&[3], &[0.0; 3])), Ok(()));
    assert_eq!(dag.set_cred_descriptions(b, vec!["row".to_string()]), Ok(()));
    assert_eq!(dag.add_edge(b, a), Ok(()));
    assert!(dag.get(b).unwrap().credencies.is_none());
    assert!(dag.get(b).unwrap().cred_description.is_empty());
    assert!(dag.get(a).unwrap().credencies.is_some());
    assert_eq!(dag.set_credencies(b, table(&[3, 2], &[0.0; 6])), Ok(()));
    dag.remove_edge(b, a);
    assert!(dag.get(b).unwrap().credencies.is_none());
    assert!(dag.get(a).unwrap().credencies.is_some());
}

#[test]
fn removing_a_missing_edge_still_clears_the_table_of_the_child() {
    let mut dag = DAG::new();
    let a = with_values(&mut dag, &["T"]);
    let b = with_values(&mut dag, &["x"]);
    assert_eq!(dag.set_credencies(b, table(&[1], &[0.0])), Ok(()));
    dag.remove_edge(b, a);
    assert!(dag.get(b).unwrap().credencies.is_none());
}

#[test]
fn shape_follows_values_and_parents() {
    let mut dag = DAG::new();
    let a = with_values(&mut dag, &["a0", "a1"]);
    let b = with_values(&mut dag, &["b0", "b1", "b2"]);
    let c = with_values(&mut dag, &["c0", "c1", "c2", "c3"]);
    assert_eq!(dag.add_edge(c, b), Ok(()));
    assert_eq!(dag.add_edge(c, a), Ok(()));
    assert_eq!(dag.shape_of(a), Some(vec![2]));
    assert_eq!(dag.shape_of(c), Some(vec![4, 3, 2]));
    assert_eq!(dag.shape_of(17), None);
}

#[test]
fn table_of_the_right_shape_is_stored() {
    let mut dag = DAG::new();
    let parent = with_values(&mut dag, &["T", "F"]);
    let child = with_values(&mut dag, &["x", "y"]);
    assert_eq!(dag.add_edge(child, parent), Ok(()));
    let cells = [-0.5f32, -1.5, -2.5, -3.5];
    assert_eq!(dag.set_credencies(child, table(&[2, 2], &cells)), Ok(()));
    let stored = dag.get(child).unwrap().credencies.as_ref().unwrap();
    assert_eq!(stored.shape(), vec![2, 2]);
    let read: Vec<f32> = stored.cells().iter().map(|b| f32::from_bits(*b)).collect();
    assert_eq!(read, cells.to_vec());
}

#[test]
fn table_of_the_wrong_shape_is_refused() {
    let mut dag = DAG::new();
    let parent = with_values(&mut dag, &["T", "F"]);
    let child = with_values(&mut dag, &["x", "y"]);
    assert_eq!(dag.add_edge(child, parent), Ok(()));
    let first = [-0.5f32, -1.5, -2.5, -3.5];
    assert_eq!(dag.set_credencies(child, table(&[2, 2], &first)), Ok(()));
    assert_eq!(dag.set_credencies(child, table(&[4], &[0.0; 4])), Err(()));
    assert_eq!(dag.set_credencies(child, table(&[2, 3], &[0.0; 6])), Err(()));
    assert_eq!(dag.set_credencies(child, table(&[2, 2, 1], &[0.0; 4])), Err(()));
    let stored = dag.get(child).unwrap().credencies.as_ref().unwrap();
    assert_eq!(stored.shape(), vec![2, 2]);
    let read: Vec<f32> = stored.cells().iter().map(|b| f32::from_bits(*b)).collect();
    assert_eq!(read, first.to_vec());
}

#[test]
fn table_for_an_empty_slot_is_dropped() {
    let mut dag = DAG::new();
    let _ = with_values(&mut dag, &["a"]);
    assert_eq!(dag.set_credencies(4, table(&[1], &[0.0])), Ok(()));
    assert_eq!(dag.slot_count(), 1);
    assert!(dag.get(0).unwrap().credencies.is_none());
}

#[test]
fn one_row_without_parents() {
    let mut dag = DAG::new();
    let id = with_values(&mut dag, &["a", "b"]);
    assert_eq!(dag.set_cred_descriptions(id, vec![]), Err(()));
    assert_eq!(dag.set_cred_descriptions(id, vec!["p".to_string(), "q".to_string()]), Err(()));
    assert_eq!(dag.set_cred_descriptions(id, vec!["prior".to_string()]), Ok(()));
    assert_eq!(dag.get(id).unwrap().cred_description, vec!["prior".to_string()]);
}

#[test]
fn rows_are_the_product_of_parent_values() {
    let mut dag = DAG::new();
    let a = with_values(&mut dag, &["a0", "a1"]);
    let b = with_values(&mut dag, &["b0", "b1", "b2"]);
    let c = with_values(&mut dag, &["c0"]);
    assert_eq!(dag.add_edge(c, a), Ok(()));
    assert_eq!(dag.add_edge(c, b), Ok(()));
    let five: Vec<String> = (0..5).map(|i| format!("row {}", i)).collect();
    let six: Vec<String> = (0..6).map(|i| format!("row {}", i)).collect();
    assert_eq!(dag.set_cred_descriptions(c, five), Err(()));
    assert!(dag.get(c).unwrap().cred_description.is_empty());
    assert_eq!(dag.set_cred_descriptions(c, six.clone()), Ok(()));
    assert_eq!(dag.get(c).unwrap().cred_description, six);
}

#[test]
fn no_rows_when_a_parent_has_no_values() {
    let mut dag = DAG::new();
    let a = with_values(&mut dag, &[]);
    let b = with_values(&mut dag, &["b0", "b1"]);
    let c = with_values(&mut dag, &["c0"]);
    assert_eq!(dag.add_edge(c, b), Ok(()));
    assert_eq!(dag.add_edge(c, a), Ok(()));
    assert_eq!(dag.set_cred_descriptions(c, vec!["row".to_string()]), Err(()));
    assert_eq!(dag.set_cred_descriptions(c, vec![]), Ok(()));
}

#[test]
fn rows_for_an_empty_slot_are_refused() {
    let mut dag = DAG::new();
    assert_eq!(dag.set_cred_descriptions(0, vec![]), Err(()));
    assert_eq!(dag.set_cred_descriptions(0, vec!["row".to_string()]), Err(()));
}

#[test]
fn removing_the_observed_value_clears_the_observation() {
    let mut dag = DAG::new();
    let id = with_values(&mut dag, &["a", "b", "c"]);
    dag.set_observation(id, Some(1));
    dag.remove_value(id, 1);
    assert_eq!(dag.get(id).unwrap().observation, None);
    assert_eq!(dag.get(id).unwrap().values, vec!["a".to_string(), "c".to_string()]);
}
