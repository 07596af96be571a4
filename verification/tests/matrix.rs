use graphula::adj::matrix::Matrix;

#[test]
fn new_matrix_holds_filler_everywhere() {
    for n in 0..5usize {
        let matrix = Matrix::new(n, 3);
        assert_eq!(matrix.n, n);
        assert_eq!(matrix.node_count(), n);
        for i in 0..n {
            for j in 0..n {
                assert_eq!(matrix[i][j], 3);
            }
        }
    }
}

#[test]
fn empty_matrix_renders_notice() {
    let matrix = Matrix::new(0, 0);
    assert_eq!(matrix.n, 0);
    assert_eq!(matrix.to_text(), "Matrix is empty!");
}

#[test]
fn matrix_text_has_one_line_per_row() {
    let mut matrix = Matrix::new(3, 0);
    matrix.add_weighted_edge(0, 1, 5);
    matrix.add_weighted_edge(2, 0, -1);
    assert_eq!(matrix.to_text(), "0 5 0\n0 0 0\n-1 0 0\n");
}

#[test]
fn matrix_text_of_one_node() {
    assert_eq!(Matrix::new(1, 8).to_text(), "8\n");
}

#[test]
fn add_weighted_edge_sets_one_cell() {
    let mut matrix = Matrix::new(4, 0);
    matrix.add_weighted_edge(1, 2, 9);
    for i in 0..4 {
        for j in 0..4 {
            let expected = if i == 1 && j == 2 { 9 } else { 0 };
            assert_eq!(matrix[i][j], expected);
        }
    }
}

#[test]
fn writing_through_indices_sets_one_cell() {
    let mut matrix = Matrix::new(3, 0);
    matrix[2][1] = 11;
    for i in 0..3 {
        for j in 0..3 {
            let expected = if i == 2 && j == 1 { 11 } else { 0 };
            assert_eq!(matrix[i][j], expected);
        }
    }
    assert_eq!(matrix.n, 3);
    assert_eq!(matrix.get_adjs(2), vec![1]);
}

#[test]
fn add_weighted_edge_overwrites() {
    let mut matrix = Matrix::new(2, 0);
    matrix.add_weighted_edge(0, 1, 4);
    matrix.add_weighted_edge(0, 1, -6);
    assert_eq!(matrix[0][1], -6);
    assert_eq!(matrix[1][0], 0);
}

#[test]
fn add_weighted_edge_allows_self_loop() {
    let mut matrix = Matrix::new(2, 0);
    matrix.add_weighted_edge(1, 1, 3);
    assert_eq!(matrix[1][1], 3);
    assert_eq!(matrix.get_adjs(1), vec![1]);
}

#[test]
fn add_directed_edge_sets_forward_cell_only() {
    let mut matrix = Matrix::new(3, 0);
    matrix.add_directed_edge(0, 2);
    assert_eq!(matrix[0][2], 1);
    assert_eq!(matrix[2][0], 0);
}

#[test]
fn add_w_directed_edge_sets_forward_cell_only() {
    let mut matrix = Matrix::new(3, 0);
    matrix.add_w_directed_edge(2, 1, 17);
    assert_eq!(matrix[2][1], 17);
    assert_eq!(matrix[1][2], 0);
}

#[test]
fn add_undirected_edge_sets_both_cells() {
    let mut matrix = Matrix::new(3, 0);
    matrix.add_undirected_edge(0, 2);
    assert_eq!(matrix[0][2], 1);
    assert_eq!(matrix[2][0], 1);
    assert_eq!(matrix[0][1], 0);
    assert_eq!(matrix[1][1], 0);
}

#[test]
fn get_adjs_lists_positive_columns_in_order() {
    let mut matrix = Matrix::new(5, 0);
    matrix.add_weighted_edge(2, 4, 3);
    matrix.add_weighted_edge(2, 0, 1);
    matrix.add_weighted_edge(2, 3, -2);
    matrix.add_weighted_edge(2, 2, 8);
    assert_eq!(matrix.get_adjs(2), vec![0, 2, 4]);
    assert_eq!(matrix.get_adjs(0), Vec::<usize>::new());
}

#[test]
fn get_adjs_with_positive_filler_lists_every_column() {
    let matrix = Matrix::new(3, 1);
    assert_eq!(matrix.get_adjs(1), vec![0, 1, 2]);
}

#[test]
fn has_adjs_and_adjs_count_follow_get_adjs() {
    let mut matrix = Matrix::new(4, 0);
    matrix.add_directed_edge(1, 0);
    matrix.add_directed_edge(1, 3);
    matrix.add_weighted_edge(2, 0, -1);
    assert!(matrix.has_adjs(1));
    assert_eq!(matrix.adjs_count(1), 2);
    assert!(!matrix.has_adjs(0));
    assert_eq!(matrix.adjs_count(0), 0);
    assert!(!matrix.has_adjs(2));
    assert_eq!(matrix.adjs_count(2), 0);
}

#[test]
fn adjacency_queries_on_empty_matrix_are_empty() {
    let matrix = Matrix::new(0, 0);
    assert_eq!(matrix.get_adjs(0), Vec::<usize>::new());
    assert!(!matrix.has_adjs(0));
    assert_eq!(matrix.adjs_count(0), 0);
    assert_eq!(matrix.get_adjs(7), Vec::<usize>::new());
    assert!(!matrix.has_adjs(7));
    assert_eq!(matrix.adjs_count(7), 0);
}
