use bayes_o_matic::table::Table;

#[test]
fn table_keeps_shape_and_cells() {
    let cells: Vec<u32> = (0..12).collect();
    let t = Table::from_shape_vec(&vec![2, 3, 2], cells.clone()).unwrap();
    assert_eq!(t.shape(), vec![2, 3, 2]);
    assert_eq!(t.cells(), cells);
}

#[test]
fn table_needs_as_many_cells_as_the_shape_holds() {
    assert!(Table::from_shape_vec(&vec![2, 2], vec![0; 3]).is_none());
    assert!(Table::from_shape_vec(&vec![2, 2], vec![0; 5]).is_none());
    assert!(Table::from_shape_vec(&vec![2, 2], vec![0; 4]).is_some());
}

#[test]
fn table_without_axes_holds_one_cell() {
    let t = Table::from_shape_vec(&vec![], vec![7]).unwrap();
    assert!(t.shape().is_empty());
    assert_eq!(t.cells(), vec![7]);
    assert!(Table::from_shape_vec(&vec![], vec![]).is_none());
}

#[test]
fn table_with_an_empty_axis_holds_no_cell() {
    let t = Table::from_shape_vec(&vec![3, 0], vec![]).unwrap();
    assert_eq!(t.shape(), vec![3, 0]);
    assert!(t.cells().is_empty());
    assert!(Table::from_shape_vec(&vec![3, 0], vec![1]).is_none());
}

#[test]
fn table_refuses_a_shape_beyond_the_machine() {
    let huge = usize::MAX / 2 + 1;
    assert!(Table::from_shape_vec(&vec![huge, 2, 0], vec![]).is_none());
    assert!(Table::from_shape_vec(&vec![huge, 0], vec![]).is_none());
    assert!(Table::from_shape_vec(&vec![huge - 1, 0], vec![]).is_some());
}

#[test]
fn table_clone_is_equal() {
    let cells: Vec<u32> = vec![5, 6, 7, 8, 9, 10];
    let t = Table::from_shape_vec(&vec![3, 2], cells.clone()).unwrap();
    let copy = t.clone();
    assert_eq!(copy.shape(), vec![3, 2]);
    assert_eq!(copy.cells(), cells);
}

#[test]
fn table_refuses_a_shape_without_empty_axis_beyond_the_machine() {
    let shape = vec![1, 65536, 65536, 65536, 65536];
    assert!(Table::from_shape_vec(&shape, vec![]).is_none());
    assert!(Table::from_shape_vec(&shape, vec![0; 4]).is_none());
    assert!(Table::from_shape_vec(&vec![2; 71], vec![0; 8]).is_none());
    assert!(Table::from_shape_vec(&vec![usize::MAX, usize::MAX], vec![0]).is_none());
}

#[test]
fn table_holds_as_many_cells_as_its_shape() {
    let t = Table::from_shape_vec(&vec![2, 3, 4], (0..24).collect()).unwrap();
    let product: usize = t.shape().iter().product();
    assert_eq!(t.cells().len(), product);
    assert_eq!(product, 24);
}
