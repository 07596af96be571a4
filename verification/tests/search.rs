use graphula::adj::matrix::Matrix;

fn example_graph() -> Matrix {
    let mut graph = Matrix::new(6, 0);
    graph.add_w_directed_edge(0, 1, 2);
    graph.add_w_directed_edge(0, 2, 1);
    graph.add_w_directed_edge(1, 3, 6);
    graph.add_w_directed_edge(1, 4, 2);
    graph.add_w_directed_edge(2, 3, 2);
    graph.add_w_directed_edge(2, 4, 7);
    graph.add_w_directed_edge(3, 5, 10);
    graph.add_w_directed_edge(4, 5, 2);
    graph
}

fn chain_graph() -> Matrix {
    let mut graph = Matrix::new(6, 0);
    graph.add_directed_edge(0, 1);
    graph.add_directed_edge(0, 2);
    graph.add_directed_edge(1, 4);
    graph.add_directed_edge(2, 3);
    graph.add_directed_edge(3, 5);
    graph
}

#[test]
fn min_distance_picks_smallest_undone() {
    let matrix = Matrix::new(4, 0);
    let mut dists = vec![0, 7, 3, 5];
    let mut done = vec![true, false, false, false];
    assert_eq!(matrix.min_distance(&mut dists, &mut done), 2);
    assert_eq!(dists, vec![0, 7, 3, 5]);
    assert_eq!(done, vec![true, false, false, false]);
}

#[test]
fn min_distance_breaks_ties_by_lowest_index() {
    let matrix = Matrix::new(5, 0);
    let mut dists = vec![9, 4, 6, 4, 4];
    let mut done = vec![false, false, false, false, false];
    assert_eq!(matrix.min_distance(&mut dists, &mut done), 1);
    let mut done = vec![false, true, false, false, false];
    assert_eq!(matrix.min_distance(&mut dists, &mut done), 3);
}

#[test]
fn min_distance_takes_lowest_undone_when_all_are_infinite() {
    let matrix = Matrix::new(3, 0);
    let mut dists = vec![0, i32::MAX, i32::MAX];
    let mut done = vec![true, false, false];
    assert_eq!(matrix.min_distance(&mut dists, &mut done), 1);
}

#[test]
fn min_distance_is_zero_when_all_are_done() {
    let matrix = Matrix::new(3, 0);
    let mut dists = vec![5, 1, 2];
    let mut done = vec![true, true, true];
    assert_eq!(matrix.min_distance(&mut dists, &mut done), 0);
}

#[test]
fn dijsktra_finds_shortest_path_in_example() {
    let graph = example_graph();
    assert_eq!(graph.dijsktra(0, 5), Some((6, vec![0, 1, 4, 5])));
}

#[test]
fn dijsktra_finds_every_distance_in_example() {
    let graph = example_graph();
    assert_eq!(graph.dijsktra(0, 0), Some((0, vec![0])));
    assert_eq!(graph.dijsktra(0, 1), Some((2, vec![0, 1])));
    assert_eq!(graph.dijsktra(0, 2), Some((1, vec![0, 2])));
    assert_eq!(graph.dijsktra(0, 3), Some((3, vec![0, 2, 3])));
    assert_eq!(graph.dijsktra(0, 4), Some((4, vec![0, 1, 4])));
}

#[test]
fn dijsktra_twice_gives_the_same() {
    let graph = example_graph();
    let first = graph.dijsktra(0, 5);
    let second = graph.dijsktra(0, 5);
    assert_eq!(first, second);
    assert_eq!(graph.dijsktra(5, 0), graph.dijsktra(5, 0));
}

#[test]
fn dijsktra_returns_none_for_unreachable_target() {
    let graph = example_graph();
    assert_eq!(graph.dijsktra(5, 0), None);
    let mut other = Matrix::new(3, 0);
    other.add_w_directed_edge(2, 1, 1);
    assert_eq!(other.dijsktra(0, 1), None);
    assert_eq!(other.dijsktra(0, 2), None);
}

#[test]
fn dijsktra_on_single_node() {
    let graph = Matrix::new(1, 0);
    assert_eq!(graph.dijsktra(0, 0), Some((0, vec![0])));
}

#[test]
fn dijsktra_settles_lower_index_first_on_a_tie() {
    let mut graph = Matrix::new(4, 0);
    graph.add_w_directed_edge(0, 1, 1);
    graph.add_w_directed_edge(0, 2, 1);
    graph.add_w_directed_edge(1, 3, 1);
    graph.add_w_directed_edge(2, 3, 1);
    assert_eq!(graph.dijsktra(0, 3), Some((2, vec![0, 1, 3])));
}

#[test]
fn dijsktra_path_begins_at_the_start() {
    let mut graph = Matrix::new(4, 0);
    graph.add_w_directed_edge(2, 3, 5);
    assert_eq!(graph.dijsktra(2, 3), Some((5, vec![2, 3])));
    assert_eq!(graph.dijsktra(2, 2), Some((0, vec![2])));
    let mut other = Matrix::new(3, 0);
    other.add_w_directed_edge(1, 2, 3);
    assert_eq!(other.dijsktra(1, 2), Some((3, vec![1, 2])));
    assert_eq!(other.dijsktra(1, 0), None);
}

#[test]
fn dijsktra_path_may_end_at_or_pass_node_zero() {
    let mut graph = Matrix::new(3, 0);
    graph.add_w_directed_edge(1, 0, 4);
    graph.add_w_directed_edge(0, 2, 1);
    assert_eq!(graph.dijsktra(1, 0), Some((4, vec![1, 0])));
    assert_eq!(graph.dijsktra(1, 2), Some((5, vec![1, 0, 2])));
    assert_eq!(graph.dijsktra(0, 0), Some((0, vec![0])));
}

#[test]
fn dijsktra_from_the_last_node_of_the_example() {
    let mut graph = example_graph();
    graph.add_w_directed_edge(5, 3, 1);
    assert_eq!(graph.dijsktra(5, 3), Some((1, vec![5, 3])));
    assert_eq!(graph.dijsktra(3, 5), Some((10, vec![3, 5])));
    assert_eq!(graph.dijsktra(1, 5), Some((4, vec![1, 4, 5])));
}

#[test]
fn dijsktra_follows_negative_weights() {
    let mut graph = Matrix::new(3, 0);
    graph.add_w_directed_edge(0, 1, -3);
    graph.add_w_directed_edge(1, 2, 1);
    assert_eq!(graph.dijsktra(0, 2), Some((-2, vec![0, 1, 2])));
    assert_eq!(graph.get_adjs(0), Vec::<usize>::new());
}

#[test]
fn dijsktra_never_takes_a_distance_that_does_not_fit() {
    let mut graph = Matrix::new(3, 0);
    graph.add_w_directed_edge(0, 1, i32::MAX - 1);
    graph.add_w_directed_edge(1, 2, 5);
    assert_eq!(graph.dijsktra(0, 1), Some((i32::MAX - 1, vec![0, 1])));
    assert_eq!(graph.dijsktra(0, 2), None);
}

#[test]
fn dijsktra_treats_a_distance_of_max_as_unreached() {
    let mut graph = Matrix::new(2, 0);
    graph.add_w_directed_edge(0, 1, i32::MAX);
    assert_eq!(graph.dijsktra(0, 1), None);
}

#[test]
fn dijsktra_prefers_lighter_detour() {
    let mut graph = Matrix::new(3, 0);
    graph.add_w_directed_edge(0, 2, 10);
    graph.add_w_directed_edge(0, 1, 3);
    graph.add_w_directed_edge(1, 2, 4);
    assert_eq!(graph.dijsktra(0, 2), Some((7, vec![0, 1, 2])));
}

#[test]
fn bfs_reaches_along_chain() {
    let graph = chain_graph();
    assert!(graph.bfs(0, 4));
    assert!(graph.bfs(0, 5));
    assert!(!graph.bfs(5, 0));
}

#[test]
fn bfs_reaches_start_itself() {
    let graph = chain_graph();
    assert!(graph.bfs(3, 3));
    assert!(graph.bfs(5, 5));
}

#[test]
fn bfs_ignores_weights_that_are_not_positive() {
    let mut graph = Matrix::new(3, 0);
    graph.add_weighted_edge(0, 1, -1);
    graph.add_weighted_edge(1, 2, 1);
    assert!(!graph.bfs(0, 1));
    assert!(!graph.bfs(0, 2));
    assert!(graph.bfs(1, 2));
}

#[test]
fn bfs_ends_on_a_cycle() {
    let mut graph = Matrix::new(4, 0);
    graph.add_undirected_edge(0, 1);
    graph.add_undirected_edge(1, 2);
    graph.add_undirected_edge(2, 0);
    assert!(graph.bfs(0, 2));
    assert!(!graph.bfs(0, 3));
}

#[test]
fn bfs_with_target_that_is_no_node() {
    let graph = chain_graph();
    assert!(!graph.bfs(0, 6));
}
