use trellis_core::placement::ordering::{group_by_layer, order_within_layers};
use trellis_core::placement::sugiyama::{assign_layers, break_cycles, EdgeEnds};

fn edges(pairs: &[(usize, usize)]) -> Vec<EdgeEnds> {
    pairs.iter().map(|&(from, to)| EdgeEnds { from, to }).collect()
}

#[test]
fn test_break_cycles_no_cycle() {
    // A=0, B=1, C=2
    let mut es = edges(&[(0, 1), (1, 2)]);
    let reversed = break_cycles(3, &mut es);
    assert!(reversed.is_empty());
}

#[test]
fn test_break_cycles_simple_cycle() {
    // A → B → C → D → A
    let mut es = edges(&[(0, 1), (1, 2), (2, 3), (3, 0)]);
    let reversed = break_cycles(4, &mut es);
    assert!(!reversed.is_empty(), "At least one edge should be reversed");
    let layers = assign_layers(4, &es);
    assert_eq!(layers.len(), 4);
}

#[test]
fn test_assign_layers_linear() {
    let es = edges(&[(0, 1), (1, 2), (2, 3), (3, 4)]);
    let layers = assign_layers(5, &es);
    assert_eq!(layers, vec![0, 1, 2, 3, 4]);
}

#[test]
fn test_assign_layers_diamond() {
    let es = edges(&[(0, 1), (0, 2), (1, 3), (2, 3)]);
    let layers = assign_layers(4, &es);
    assert_eq!(layers[0], 0);
    assert_eq!(layers[1], 1);
    assert_eq!(layers[2], 1);
    assert_eq!(layers[3], 2);
}

#[test]
fn test_assign_layers_wide_branch() {
    let es = edges(&[(0, 1), (0, 2), (0, 3), (0, 4), (0, 5), (0, 6)]);
    let layers = assign_layers(7, &es);
    assert_eq!(layers[0], 0);
    for i in 1..7 {
        assert_eq!(layers[i], 1, "Node {} should be in layer 1", i);
    }
}

#[test]
fn cycle_back_edge_is_the_closing_edge() {
    let mut es = edges(&[(0, 1), (1, 2), (2, 0)]);
    let reversed = break_cycles(3, &mut es);
    assert_eq!(reversed, vec![2]);
    assert_eq!(es[2], EdgeEnds { from: 0, to: 2 });
    assert_eq!(assign_layers(3, &es), vec![0, 1, 2]);
}

#[test]
fn longest_path_wins_over_short_cut() {
    // 0 → 1 → 2 → 3 and a short cut 0 → 3: node 3 sits below the long path.
    let es = edges(&[(0, 3), (0, 1), (1, 2), (2, 3)]);
    assert_eq!(assign_layers(4, &es), vec![0, 1, 2, 3]);
}

#[test]
fn edges_to_unknown_nodes_are_ignored() {
    let mut es = edges(&[(0, 9), (0, 1), (7, 1)]);
    let reversed = break_cycles(2, &mut es);
    assert!(reversed.is_empty());
    assert_eq!(assign_layers(2, &es), vec![0, 1]);
}

#[test]
fn self_loop_is_reversed_in_place() {
    let mut es = edges(&[(0, 0), (0, 1)]);
    let reversed = break_cycles(2, &mut es);
    assert_eq!(reversed, vec![0]);
    assert_eq!(es[0], EdgeEnds { from: 0, to: 0 });
}

#[test]
fn empty_graph_has_no_layers() {
    let mut es: Vec<EdgeEnds> = Vec::new();
    assert!(break_cycles(0, &mut es).is_empty());
    assert!(assign_layers(0, &es).is_empty());
}

#[test]
fn cyclic_input_still_gets_every_node_a_layer() {
    // a cycle that was not broken: Kahn leaves the nodes out, they are appended
    let es = edges(&[(0, 1), (1, 0), (1, 2)]);
    let layers = assign_layers(3, &es);
    assert_eq!(layers.len(), 3);
    assert_eq!(layers, vec![2, 1, 2]);
}

#[test]
fn test_order_within_layers_diamond() {
    // A=0, B=1, C=2, D=3
    let es = edges(&[(0, 1), (0, 2), (1, 3), (2, 3)]);
    let layers = assign_layers(4, &es);
    let positions = order_within_layers(4, &es, &layers);
    // B and C should be in layer 1 with positions 0 and 1
    assert!(positions[1] < 2);
    assert!(positions[2] < 2);
    assert_ne!(positions[1], positions[2]);
    assert_eq!(positions, vec![0, 0, 1, 0]);
}

#[test]
fn test_barycenter_convergence() {
    // A=0, B=1, C=2, X=3, Y=4, Z=5
    let es = edges(&[(0, 3), (1, 4), (2, 5)]);
    let layers = assign_layers(6, &es);
    let positions = order_within_layers(6, &es, &layers);
    // Each node should have a defined position
    assert_eq!(positions.len(), 6);
    assert_eq!(positions, vec![0, 1, 2, 0, 1, 2]);
}

#[test]
fn crossing_pair_is_uncrossed() {
    // layer 0: A=0, B=1; layer 1: X=2, Y=3; A -> Y and B -> X cross at first
    let es = edges(&[(0, 3), (1, 2)]);
    let layers = vec![0, 0, 1, 1];
    let positions = order_within_layers(4, &es, &layers);
    assert_eq!(positions, vec![0, 1, 1, 0]);
}

#[test]
fn nodes_without_edges_keep_node_order() {
    let positions = order_within_layers(4, &Vec::new(), &vec![0, 0, 1, 0]);
    assert_eq!(positions, vec![0, 1, 0, 2]);
}

#[test]
fn mean_of_two_predecessors_places_between() {
    // layer 0: P=0, Q=1, R=2; layer 1: U=3 (from R), V=4 (from P and Q)
    let es = edges(&[(2, 3), (0, 4), (1, 4)]);
    let layers = vec![0, 0, 0, 1, 1];
    let positions = order_within_layers(5, &es, &layers);
    assert_eq!(positions[4], 0);
    assert_eq!(positions[3], 1);
}

#[test]
fn empty_graph_has_no_positions() {
    assert!(order_within_layers(0, &Vec::new(), &Vec::new()).is_empty());
}

#[test]
fn layers_list_their_nodes_by_position() {
    let layers = vec![0, 1, 0, 2, 1, 0];
    let positions = vec![2, 0, 0, 0, 1, 1];
    let groups = group_by_layer(&layers, &positions);
    assert_eq!(groups, vec![vec![2, 5, 0], vec![1, 4], vec![3]]);
    // equal positions keep node order; an empty graph has one empty layer
    assert_eq!(group_by_layer(&vec![1, 1], &vec![0, 0]), vec![vec![], vec![0, 1]]);
    assert_eq!(group_by_layer(&Vec::new(), &Vec::new()), vec![Vec::<usize>::new()]);
}

#[test]
fn nodes_kept_out_by_a_cycle_push_after_the_queue() {
    // Kahn takes 0 only; 1 and 2 follow in node order, and 2 pushes 1 down again
    let es = edges(&[(0, 1), (1, 2), (2, 1)]);
    assert_eq!(assign_layers(3, &es), vec![0, 3, 2]);
    // an unbroken self-loop pushes its node below itself once
    assert_eq!(assign_layers(1, &edges(&[(0, 0)])), vec![1]);
}

#[test]
fn test_layout_with_cycle() {
    // A→B→C→D→A: the closing edge is turned round; every node gets a layer
    // and a position within it
    let mut es = edges(&[(0, 1), (1, 2), (2, 3), (3, 0)]);
    let reversed = break_cycles(4, &mut es);
    assert_eq!(reversed, vec![3]);
    let layers = assign_layers(4, &es);
    assert_eq!(layers, vec![0, 1, 2, 3]);
    let positions = order_within_layers(4, &es, &layers);
    assert_eq!(positions, vec![0, 0, 0, 0]);
}
