use manyzip::manyzip;
use manyzip::Cursor;

#[test]
fn basic() {
    let test1: Vec<Vec<i32>> = manyzip(vec![vec![1, 2, 3], vec![4, 5], vec![6, 7, 8]]).collect();
    let test2: Vec<Vec<i32>> = vec![vec![1, 4, 6], vec![2, 5, 7]];
    assert_eq!(test1, test2);
}

#[test]
fn empty_inner() {
    let test1: Vec<Vec<i32>> = manyzip(vec![vec![], vec![1, 2, 3]]).collect();
    let test2: Vec<Vec<i32>> = vec![];

    assert_eq!(test1, test2);
}

#[test]
fn empty_outer() {
    let test1: Vec<Vec<i32>> = manyzip::<i32>(vec![]).collect();
    let test2: Vec<Vec<i32>> = vec![];

    assert_eq!(test1, test2);
}

#[test]
fn lockstep_rows_then_exhausted() {
    let mut zipper = manyzip(vec![vec![1, 2, 3], vec![4, 5], vec![6, 7, 8]]);
    assert_eq!(zipper.next(), Some(vec![1, 4, 6]));
    assert_eq!(zipper.next(), Some(vec![2, 5, 7]));
    assert_eq!(zipper.next(), None);
}

#[test]
fn exhausted_stays_exhausted() {
    let mut zipper = manyzip(vec![vec![1, 2, 3], vec![4, 5], vec![6, 7, 8]]);
    assert_eq!(zipper.next(), Some(vec![1, 4, 6]));
    assert_eq!(zipper.next(), Some(vec![2, 5, 7]));
    assert_eq!(zipper.next(), None);
    assert_eq!(zipper.next(), None);
    assert_eq!(zipper.next(), None);
}

#[test]
fn empty_inner_first_step_exhausts() {
    let mut zipper = manyzip(vec![vec![], vec![1, 2, 3]]);
    assert_eq!(zipper.next(), None);
    assert_eq!(zipper.next(), None);
}

#[test]
fn empty_inner_last_first_step_exhausts() {
    let mut zipper = manyzip(vec![vec![1, 2], vec![]]);
    assert_eq!(zipper.next(), None);
    assert_eq!(zipper.next(), None);
}

#[test]
fn zero_cursors_never_yield() {
    let mut zipper = manyzip::<i32>(vec![]);
    assert_eq!(zipper.next(), None);
    assert_eq!(zipper.next(), None);
}

#[test]
fn single_row_then_exhausted() {
    let mut zipper = manyzip(vec![vec![1], vec![2], vec![3]]);
    assert_eq!(zipper.next(), Some(vec![1, 2, 3]));
    assert_eq!(zipper.next(), None);
    assert_eq!(zipper.next(), None);
}

#[test]
fn row_count_is_shortest_input_length() {
    let rows: Vec<Vec<i32>> = manyzip(vec![vec![1, 2, 3, 4], vec![5, 6], vec![7, 8, 9]]).collect();
    assert_eq!(rows.len(), 2);
}

#[test]
fn content_and_order() {
    let inputs = vec![vec![10, 11, 12], vec![20, 21, 22], vec![30, 31, 32]];
    let rows: Vec<Vec<i32>> = manyzip(inputs.clone()).collect();
    assert_eq!(rows.len(), 3);
    for (i, row) in rows.iter().enumerate() {
        assert_eq!(row.len(), inputs.len());
        for (j, element) in row.iter().enumerate() {
            assert_eq!(*element, inputs[j][i]);
        }
    }
}

#[test]
fn cursor_yields_in_order() {
    let mut cursor = Cursor::new(vec![7, 8]);
    assert_eq!(cursor.next(), Some(7));
    assert_eq!(cursor.next(), Some(8));
    assert_eq!(cursor.next(), None);
    assert_eq!(cursor.next(), None);
}
