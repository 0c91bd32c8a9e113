use trellis_core::grid::params::{
    calculate_cell_size, calculate_max_degree, routing_factor, safety_multiplier_tenths,
};
use trellis_core::labels::measure::{is_arial_like, names_arial_or_helvetica};
use trellis_core::placement::sugiyama::EdgeEnds;

#[test]
fn test_cell_size_sparse_graph() {
    // min_dimension = 40, 2 nodes and 1 edge: density < 1.5 → R=4, cell = floor(40/4) = 10
    assert_eq!(calculate_cell_size(40, 2, 1), 10);
}

#[test]
fn test_cell_size_dense_graph() {
    // min_dimension = 30, density = 7/2 = 3.5 > 3.0 → R=6, cell = floor(30/6) = 5
    assert_eq!(calculate_cell_size(30, 2, 7), 5);
}

#[test]
fn test_cell_size_minimum() {
    // min_dimension = 10, density = 0 → R=4, cell = floor(10/4) = 2 → max(2, 5) = 5
    assert_eq!(calculate_cell_size(10, 1, 0), 5);
}

#[test]
fn cell_size_defaults_without_nodes() {
    assert_eq!(calculate_cell_size(40, 0, 3), 20);
}

#[test]
fn routing_factor_bands() {
    assert_eq!(routing_factor(2, 2), 4); // 1.0
    assert_eq!(routing_factor(2, 3), 5); // exactly 1.5
    assert_eq!(routing_factor(2, 6), 5); // exactly 3.0
    assert_eq!(routing_factor(2, 7), 6); // 3.5
    assert_eq!(calculate_cell_size(100, 2, 3), 20);
    assert_eq!(calculate_cell_size(-7, 2, 3), 5);
}

#[test]
fn safety_multiplier_adds_up() {
    assert_eq!(safety_multiplier_tenths(2, 1, 1, false), 15);
    assert_eq!(safety_multiplier_tenths(2, 4, 1, false), 15); // exactly 2.0 is not more
    assert_eq!(safety_multiplier_tenths(2, 5, 1, false), 18);
    assert_eq!(safety_multiplier_tenths(2, 5, 7, false), 20);
    assert_eq!(safety_multiplier_tenths(2, 5, 7, true), 22);
    assert_eq!(safety_multiplier_tenths(2, 1, 6, true), 17);
}

#[test]
fn max_degree_counts_edge_ends() {
    let es = vec![
        EdgeEnds { from: 0, to: 1 },
        EdgeEnds { from: 0, to: 2 },
        EdgeEnds { from: 3, to: 0 },
        EdgeEnds { from: 1, to: 1 },
    ];
    assert_eq!(calculate_max_degree(4, &es), 3);
    assert_eq!(calculate_max_degree(0, &es), 0);
    assert_eq!(calculate_max_degree(4, &Vec::new()), 0);
    // a self-loop counts twice
    let loops = vec![EdgeEnds { from: 1, to: 1 }, EdgeEnds { from: 1, to: 1 }];
    assert_eq!(calculate_max_degree(2, &loops), 4);
}

#[test]
fn arial_like_families() {
    assert!(is_arial_like("Arial"));
    assert!(is_arial_like("HELVETICA Neue"));
    assert!(is_arial_like("Liberation Sans, Arial, sans-serif"));
    assert!(!is_arial_like("Times New Roman"));
    assert!(!is_arial_like(""));
    // the check itself is on lowercase text
    assert!(!names_arial_or_helvetica("Arial"));
    assert!(names_arial_or_helvetica("arial"));
    assert!(names_arial_or_helvetica("x-helvetica"));
}
