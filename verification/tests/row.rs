use graphula::adj::matrix::row::Row;

#[test]
fn row_new_fills_every_slot() {
    let row = Row::new(4, 7);
    assert_eq!(row.len(), 4);
    for j in 0..4 {
        assert_eq!(row[j], 7);
    }
}

#[test]
fn row_of_size_zero_is_empty() {
    let row = Row::new(0, 3);
    assert_eq!(row.len(), 0);
    assert_eq!(row.to_text(), "");
}

#[test]
fn row_write_changes_one_slot() {
    let mut row = Row::new(3, 0);
    row[1] = -5;
    assert_eq!(row[0], 0);
    assert_eq!(row[1], -5);
    assert_eq!(row[2], 0);
    assert_eq!(row.len(), 3);
}

#[test]
fn row_clone_keeps_weights() {
    let mut row = Row::new(2, 1);
    row[0] = 9;
    let copy = row.clone();
    assert_eq!(copy[0], 9);
    assert_eq!(copy[1], 1);
}

#[test]
fn row_text_joins_weights_with_spaces() {
    let mut row = Row::new(4, 0);
    row[1] = 12;
    row[2] = -7;
    row[3] = 305;
    assert_eq!(row.to_text(), "0 12 -7 305");
}

#[test]
fn row_text_of_single_weight() {
    assert_eq!(Row::new(1, 42).to_text(), "42");
}

#[test]
fn row_text_of_extreme_weights() {
    let mut row = Row::new(2, i32::MIN);
    row[1] = i32::MAX;
    assert_eq!(row.to_text(), "-2147483648 2147483647");
}
