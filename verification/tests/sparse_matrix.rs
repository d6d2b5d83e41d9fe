use marklang::sparse::SparseMatrix;

#[derive(Clone, Copy, Debug, PartialEq)]
struct TestType {
    val: u32,
}

#[test]
fn test_row_for_each() {
    let mut sm: SparseMatrix<TestType> = SparseMatrix::new();
    sm.put(0, 0, TestType { val: 0 });
    sm.put(0, 1, TestType { val: 1 });
    sm.put(1, 0, TestType { val: 2 });
    sm.put(1, 1, TestType { val: 3 });
    sm.row_for_each(0, |_v| TestType { val: 1000 });

    assert_eq!(
        sm.iter_row(0).into_iter().collect::<Vec<TestType>>(),
        vec![TestType { val: 1000 }, TestType { val: 1000 }]
    );
}

#[test]
fn test_put_get() {
    let mut sm: SparseMatrix<u32> = SparseMatrix::new();
    sm.put(0, 0, 55);
    assert_eq!(sm.get(0, 0), Some(55));
    sm.put(0, 0, 42);
    assert_eq!(sm.get(0, 0), Some(42));
}

#[test]
fn test_empty() {
    let sm: SparseMatrix<u32> = SparseMatrix::new();
    assert!(sm.get(0, 0).is_none());
}

#[test]
fn test_row_iter() {
    let mut sm: SparseMatrix<u32> = SparseMatrix::new();
    sm.put(0, 0, 0);
    sm.put(1, 0, 1);

    sm.put(0, 1, 0);
    sm.put(1, 1, 1);

    sm.put(0, 2, 2);

    let row: Vec<u32> = sm.iter_row(0).into_iter().collect();

    assert_eq!(row, vec![0, 0, 2]);
}

#[test]
fn row_for_each_leaves_other_rows() {
    let mut sm: SparseMatrix<u32> = SparseMatrix::new();
    sm.put(0, 0, 1);
    sm.put(1, 0, 2);
    sm.put(2, 5, 3);
    sm.put(1, 7, 4);
    sm.row_for_each(1, |v| v * 10);
    assert_eq!(sm.iter_row(0), vec![1]);
    assert_eq!(sm.iter_row(1), vec![20, 40]);
    assert_eq!(sm.iter_row(2), vec![3]);
    assert_eq!(sm.get(1, 7), Some(40));
    assert_eq!(sm.get(2, 5), Some(3));
}

#[test]
fn cells_are_stored_by_row_then_by_first_write() {
    let mut sm: SparseMatrix<u32> = SparseMatrix::new();
    sm.put(2, 9, 29);
    sm.put(0, 4, 4);
    sm.put(2, 1, 21);
    sm.put(1, 1, 11);
    sm.put(0, 0, 0);
    assert_eq!(sm.len(), 5);
    let stored: Vec<(usize, usize, u32)> =
        (0..sm.len()).map(|i| (sm.triple(i).row, sm.triple(i).col, sm.triple(i).value)).collect();
    assert_eq!(stored, vec![(0, 4, 4), (0, 0, 0), (1, 1, 11), (2, 9, 29), (2, 1, 21)]);
    assert_eq!(sm.row_cells(2), vec![(9, 29), (1, 21)]);
    assert_eq!(sm.row_cells(0), vec![(4, 4), (0, 0)]);
}

#[test]
fn overwriting_keeps_the_place_in_the_row() {
    let mut sm: SparseMatrix<u32> = SparseMatrix::new();
    sm.put(3, 1, 10);
    sm.put(3, 2, 20);
    sm.put(3, 3, 30);
    sm.put(3, 2, 99);
    assert_eq!(sm.len(), 3);
    assert_eq!(sm.row_cells(3), vec![(1, 10), (2, 99), (3, 30)]);
    assert_eq!(sm.get(3, 2), Some(99));
}

#[test]
fn absent_cells_and_rows_read_as_nothing() {
    let mut sm: SparseMatrix<u32> = SparseMatrix::new();
    sm.put(1, 1, 5);
    assert_eq!(sm.get(1, 0), None);
    assert_eq!(sm.get(0, 1), None);
    assert!(sm.iter_row(0).is_empty());
    assert!(sm.row_cells(7).is_empty());
    assert_eq!(sm.len(), 1);
}
