use notears::adjacency::AdjacencyMatrix;
use notears::is_acyclic_adjacency;

fn adjacency(rows: usize, cols: usize, values: Vec<i32>) -> AdjacencyMatrix {
    AdjacencyMatrix::from_shape_vec(rows, cols, values).expect("shape matches the values")
}

/// The adjacency that weights [[0, .5, 0], [-.3, 0, .2], [0, .1, 0]] give
/// with edge threshold 0.2 (an entry is an edge when |w| > 0.2).
fn thresholded_three_node_example() -> AdjacencyMatrix {
    adjacency(3, 3, vec![0, 1, 0, 1, 0, 0, 0, 0, 0])
}

#[test]
fn types_test_optimization_result_edges() {
    let result = thresholded_three_node_example();
    let edges = result.edges();
    assert_eq!(edges.len(), 2);
    assert!(edges.contains(&(0, 1)));
    assert!(edges.contains(&(1, 0)));
}

#[test]
fn integration_tests_test_optimization_result_edges() {
    let result = thresholded_three_node_example();
    let edges = result.edges();
    // Edges with |w| > 0.2: (0,1)=0.5, (1,0)=0.3
    assert_eq!(edges.len(), 2);
    assert!(edges.contains(&(0, 1)));
    assert!(edges.contains(&(1, 0)));
}

#[test]
fn test_optimization_result_edge_count() {
    // Weights [[0, .5], [-.3, 0]] with edge threshold 0.2.
    let result = adjacency(2, 2, vec![0, 1, 1, 0]);
    assert_eq!(result.edge_count(), 2);
}

#[test]
fn test_is_acyclic_cycle_false() {
    let a = adjacency(2, 2, vec![0, 1, 1, 0]);
    assert!(!is_acyclic_adjacency(&a));
}

#[test]
fn test_is_acyclic_zero_matrix() {
    let a = adjacency(3, 3, vec![0; 9]);
    assert!(is_acyclic_adjacency(&a));
}

#[test]
fn test_is_acyclic_valid_dag() {
    // A strictly lower-triangular pattern is a DAG.
    let mut values = vec![0; 25];
    for i in 0..5 {
        for j in 0..i {
            if (i + j) % 2 == 0 {
                values[i * 5 + j] = 1;
            }
        }
    }
    let a = adjacency(5, 5, values);
    assert!(is_acyclic_adjacency(&a));
}

#[test]
fn edges_come_in_row_major_order() {
    let a = adjacency(3, 3, vec![0, 2, 1, 0, 0, 0, 5, 0, 0]);
    assert_eq!(a.edges(), vec![(0, 1), (0, 2), (2, 0)]);
}

#[test]
fn edges_ignore_non_positive_entries() {
    let a = adjacency(2, 2, vec![-1, 0, 0, -7]);
    assert!(a.edges().is_empty());
    assert_eq!(a.edge_count(), 0);
}

#[test]
fn edges_of_a_wide_matrix_stop_at_the_row_count() {
    let a = adjacency(1, 3, vec![0, 1, 1]);
    assert!(a.edges().is_empty());
    assert_eq!(a.edge_count(), 2);
}

#[test]
fn edge_count_equals_number_of_edges_on_square_matrix() {
    let a = adjacency(3, 3, vec![1, 1, 0, 0, 1, 1, 1, 0, 0]);
    assert_eq!(a.edge_count(), a.edges().len());
    assert_eq!(a.edge_count(), 5);
}

#[test]
fn from_shape_vec_rejects_wrong_length() {
    assert!(AdjacencyMatrix::from_shape_vec(2, 2, vec![0, 1, 0]).is_none());
    assert!(AdjacencyMatrix::from_shape_vec(0, 3, vec![1]).is_none());
}

#[test]
fn from_shape_vec_rejects_oversized_shape() {
    assert!(AdjacencyMatrix::from_shape_vec(0, usize::MAX, vec![]).is_none());
}

#[test]
fn from_shape_vec_keeps_row_major_entries() {
    let a = adjacency(2, 3, vec![1, 2, 3, 4, 5, 6]);
    assert_eq!(a.shape(), (2, 3));
    assert_eq!(a.get(0, 2), 3);
    assert_eq!(a.get(1, 0), 4);
    assert_eq!(a.get(1, 2), 6);
}

#[test]
fn empty_matrix_is_acyclic_and_has_no_edges() {
    let a = adjacency(0, 0, vec![]);
    assert!(is_acyclic_adjacency(&a));
    assert!(a.edges().is_empty());
    assert_eq!(a.edge_count(), 0);
}

#[test]
fn self_loop_is_a_cycle() {
    let a = adjacency(3, 3, vec![0, 1, 0, 0, 0, 0, 0, 0, 1]);
    assert!(!is_acyclic_adjacency(&a));
}

#[test]
fn three_cycle_is_detected() {
    let a = adjacency(3, 3, vec![0, 1, 0, 0, 0, 1, 1, 0, 0]);
    assert!(!is_acyclic_adjacency(&a));
}

#[test]
fn chain_is_acyclic() {
    // 0 -> 1 -> 2 -> 3, entered in reverse order of the indices.
    let a = adjacency(4, 4, vec![0, 0, 0, 0, 1, 0, 0, 0, 0, 1, 0, 0, 0, 0, 1, 0]);
    assert!(is_acyclic_adjacency(&a));
}

#[test]
fn cycle_behind_a_dag_part_is_detected() {
    // 0 -> 1, 2 -> 3 -> 2
    let a = adjacency(4, 4, vec![0, 1, 0, 0, 0, 0, 0, 0, 0, 0, 0, 1, 0, 0, 1, 0]);
    assert!(!is_acyclic_adjacency(&a));
}

#[test]
fn non_square_matrix_is_not_a_dag() {
    let a = adjacency(2, 3, vec![0; 6]);
    assert!(!is_acyclic_adjacency(&a));
}

#[test]
fn acyclic_edges_join_distinct_nodes() {
    let a = adjacency(3, 3, vec![0, 1, 1, 0, 0, 1, 0, 0, 0]);
    assert!(is_acyclic_adjacency(&a));
    for (i, j) in a.edges() {
        assert_ne!(i, j);
    }
}

#[test]
fn more_edges_never_lower_the_count() {
    let sparse = adjacency(2, 3, vec![0, 1, 0, 0, 0, 0]);
    let dense = adjacency(2, 3, vec![0, 1, 1, 3, 0, 0]);
    assert!(sparse.edge_count() <= dense.edge_count());
    assert_eq!(sparse.edge_count(), 1);
    assert_eq!(dense.edge_count(), 3);
}

#[test]
fn complete_dag_reaches_the_loopless_bound_of_half() {
    // All edges i -> j with i < j: acyclic, n * (n - 1) / 2 edges.
    let n = 4;
    let mut values = vec![0; n * n];
    for i in 0..n {
        for j in (i + 1)..n {
            values[i * n + j] = 1;
        }
    }
    let a = adjacency(n, n, values);
    assert!(is_acyclic_adjacency(&a));
    assert_eq!(a.edge_count(), n * (n - 1) / 2);
    assert!(a.edge_count() <= n * (n - 1));
}

#[test]
fn utils_path_reaches_the_dag_check() {
    let a = adjacency(2, 2, vec![0, 1, 0, 0]);
    assert!(notears::utils::is_acyclic_adjacency(&a));
}
