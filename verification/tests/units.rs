//! Unit checks of the node arena operations and the solver assembly.

use roft::node::Node;
use roft::soft_body::{masked_endpoint_ids, SoftBody};
use roft::vertex::Vertex;

fn arena(n: usize) -> Vec<Node<u32>> {
    let mut nodes: Vec<Node<u32>> = Vec::new();
    for i in 0..n {
        nodes.push(Node::new(i, i as u32));
    }
    nodes
}

#[test]
fn connect_is_symmetric_and_idempotent() {
    let mut nodes = arena(3);
    Node::connect(&mut nodes, 0, 1);
    Node::connect(&mut nodes, 0, 1);
    Node::connect(&mut nodes, 1, 0);
    Node::connect(&mut nodes, 2, 2);
    assert!(nodes[0].is_adj_to(&nodes[1]));
    assert!(nodes[1].is_adj_to(&nodes[0]));
    assert_eq!(nodes[0].degree(), 1);
    assert_eq!(nodes[1].degree(), 1);
    assert_eq!(nodes[2].degree(), 0);
}

#[test]
fn disconnect_removes_both_directions() {
    let mut nodes = arena(3);
    Node::connect(&mut nodes, 0, 1);
    Node::connect(&mut nodes, 1, 2);
    Node::disconnect(&mut nodes, 1, 0);
    assert!(!nodes[0].is_adj_to(&nodes[1]));
    assert!(!nodes[1].is_adj_to(&nodes[0]));
    assert!(nodes[1].is_adj_to(&nodes[2]));
    Node::disconnect(&mut nodes, 0, 2);
    assert!(nodes[2].is_adj_to(&nodes[1]));
}

#[test]
fn common_neighbour_counting() {
    // 0 and 1 share the neighbours 2 and 3; 4 is private to 0.
    let mut nodes = arena(5);
    Node::connect(&mut nodes, 0, 2);
    Node::connect(&mut nodes, 0, 3);
    Node::connect(&mut nodes, 0, 4);
    Node::connect(&mut nodes, 1, 2);
    Node::connect(&mut nodes, 1, 3);
    assert_eq!(nodes[0].nb_common_adj(&nodes[1]), 2);
    assert_eq!(nodes[1].nb_common_adj(&nodes[0]), 2);
    assert!(nodes[0].share_k_adjs(&nodes[1], 2));
    assert!(!nodes[0].share_k_adjs(&nodes[1], 3));
    assert!(nodes[0].share_k_adjs(&nodes[1], 0));
}

#[test]
fn equals_and_ids() {
    let nodes = arena(2);
    assert!(nodes[0].equals(&nodes[0]));
    assert!(!nodes[0].equals(&nodes[1]));
    assert_eq!(nodes[1].id(), 1);
    assert_eq!(nodes[1].index(), 1);
}

#[test]
fn marks_and_dist_are_scratch_state() {
    let mut nodes = arena(1);
    assert!(!nodes[0].is_marked());
    nodes[0].mark();
    assert!(nodes[0].is_marked());
    nodes[0].unmark();
    assert!(!nodes[0].is_marked());
    nodes[0].intern_unmark();
    nodes[0].reset_dist();
    assert_eq!(nodes[0].dist(), 0);
}

#[test]
fn dsat_counts_distinct_neighbour_colors() {
    let mut nodes = arena(4);
    Node::connect(&mut nodes, 0, 1);
    Node::connect(&mut nodes, 0, 2);
    Node::connect(&mut nodes, 0, 3);
    nodes[1].set_color(0);
    nodes[2].set_color(0);
    assert_eq!(Node::dsat(&nodes, 0, 1), 1);
    nodes[3].set_color(1);
    assert_eq!(Node::dsat(&nodes, 0, 1), 2);
    assert_eq!(Node::dsat(&nodes, 1, 1), 0);
}

#[test]
fn color_with_min_picks_smallest_free_color() {
    let mut nodes = arena(4);
    Node::connect(&mut nodes, 0, 1);
    Node::connect(&mut nodes, 0, 2);
    Node::connect(&mut nodes, 0, 3);
    nodes[1].set_color(0);
    nodes[2].set_color(2);
    let c = Node::color_with_min(&mut nodes, 0, 2);
    assert_eq!(c, 1);
    assert_eq!(nodes[0].color(), 1);
}

#[test]
fn color_graph_on_a_triangle_needs_three_colors() {
    let mut nodes = arena(3);
    Node::connect(&mut nodes, 0, 1);
    Node::connect(&mut nodes, 0, 2);
    Node::connect(&mut nodes, 1, 2);
    let chrom = Node::color_graph(&mut nodes);
    assert_eq!(chrom, 3);
    for i in 0..3 {
        for j in 0..3 {
            if i != j {
                assert_ne!(nodes[i].color(), nodes[j].color());
            }
        }
    }
}

#[test]
fn color_graph_on_a_path_needs_two_colors() {
    let mut nodes = arena(4);
    Node::connect(&mut nodes, 0, 1);
    Node::connect(&mut nodes, 1, 2);
    Node::connect(&mut nodes, 2, 3);
    let chrom = Node::color_graph(&mut nodes);
    assert_eq!(chrom, 2);
    assert_ne!(nodes[0].color(), nodes[1].color());
    assert_ne!(nodes[1].color(), nodes[2].color());
    assert_ne!(nodes[2].color(), nodes[3].color());
}

#[test]
fn color_graph_starts_at_the_highest_degree_node() {
    // A star: the hub has the highest degree, so it is colored first and
    // gets color zero; every leaf then needs color one.
    let mut nodes = arena(4);
    Node::connect(&mut nodes, 3, 0);
    Node::connect(&mut nodes, 3, 1);
    Node::connect(&mut nodes, 3, 2);
    let chrom = Node::color_graph(&mut nodes);
    assert_eq!(chrom, 2);
    assert_eq!(nodes[3].color(), 0);
    assert_eq!(nodes[0].color(), 1);
    assert_eq!(nodes[1].color(), 1);
    assert_eq!(nodes[2].color(), 1);
}

#[test]
fn distant_nodes_respects_the_radius() {
    // A path 0-1-2-3-4.
    let mut nodes = arena(5);
    for i in 0..4 {
        Node::connect(&mut nodes, i, i + 1);
    }
    let within0 = Node::distant_nodes(&nodes, 0, 0);
    assert!(within0.is_empty());
    let mut within1 = Node::distant_nodes(&nodes, 0, 1);
    within1.sort();
    assert_eq!(within1, vec![1]);
    let mut within2 = Node::distant_nodes(&nodes, 0, 2);
    within2.sort();
    assert_eq!(within2, vec![1, 2]);
    let mut within_mid = Node::distant_nodes(&nodes, 2, 1);
    within_mid.sort();
    assert_eq!(within_mid, vec![1, 3]);
    let mut all = Node::distant_nodes(&nodes, 0, 10);
    all.sort();
    assert_eq!(all, vec![1, 2, 3, 4]);
}

#[test]
fn blob_merge_appends_members() {
    let mut a = roft::graph::Blob::new();
    a.sub_nodes.push(0);
    a.sub_nodes.push(1);
    let mut b = roft::graph::Blob::new();
    b.sub_nodes.push(7);
    assert!(b.is_singleton());
    a.merge(&b);
    assert_eq!(a.sub_nodes, vec![0, 1, 7]);
    assert!(!a.is_singleton());
}

#[test]
fn vertex_starts_with_no_incident_edges() {
    let v = Vertex::new();
    assert!(v.edges.is_empty());
}

#[test]
fn soft_body_assembly_from_exported_arrays() {
    // A single spring between two points one unit apart, plus an anchor.
    let vbuf: Vec<[f64; 3]> = vec![[0.0, 0.0, 0.0], [1.0, 0.0, 0.0], [5.0, 0.0, 0.0]];
    let ids1: Vec<usize> = vec![0];
    let ids2: Vec<usize> = vec![1];
    let invmasses: Vec<f64> = vec![1.0, 1.0, 0.0];
    let stiffness: Vec<f64> = vec![50.0];
    let rest_lengths: Vec<f64> = vec![1.0];
    let sb = SoftBody::from_mesh(
        &vbuf,
        &ids1,
        &ids2,
        &invmasses,
        &stiffness,
        &rest_lengths,
        0.0,
        [0.0, 0.0, 0.0],
    );
    assert_eq!(sb.points.len(), 3);
    assert_eq!(sb.constraints.len(), 1);
    assert_eq!(sb.points[1].position, [1.0, 0.0, 0.0]);
    assert_eq!(sb.points[1].velocity, [0.0, 0.0, 0.0]);
    assert_eq!(sb.points[2].invmass, 0.0);
    assert_eq!(sb.constraints[0].rb1, 0);
    assert_eq!(sb.constraints[0].rb2, 1);
    assert_eq!(sb.constraints[0].stiffness, 50.0);
    assert_eq!(sb.constraints[0].rest_length, 1.0);
    assert_eq!(sb.constraints[0].impulse, 0.0);
}

#[test]
fn soft_body_rebuild_keeps_rest_lengths() {
    // Building twice from the same exported arrays gives identical
    // constraint records.
    let vbuf: Vec<[f64; 3]> = vec![[0.0, 0.0, 0.0], [0.0, 2.0, 0.0]];
    let ids1: Vec<usize> = vec![0];
    let ids2: Vec<usize> = vec![1];
    let invmasses: Vec<f64> = vec![1.0, 1.0];
    let stiffness: Vec<f64> = vec![50.0];
    let rest_lengths: Vec<f64> = vec![2.0];
    let a = SoftBody::from_mesh(
        &vbuf,
        &ids1,
        &ids2,
        &invmasses,
        &stiffness,
        &rest_lengths,
        0.0,
        [0.0, 0.0, 0.0],
    );
    let b = SoftBody::from_mesh(
        &vbuf,
        &ids1,
        &ids2,
        &invmasses,
        &stiffness,
        &rest_lengths,
        0.0,
        [0.0, 0.0, 0.0],
    );
    assert_eq!(a.constraints.len(), b.constraints.len());
    for (ca, cb) in a.constraints.iter().zip(b.constraints.iter()) {
        assert_eq!(ca.rest_length, cb.rest_length);
        assert_eq!(ca.rb1, cb.rb1);
        assert_eq!(ca.rb2, cb.rb2);
    }
}

#[test]
fn masked_ids_hide_anchored_endpoints() {
    let ids: Vec<usize> = vec![0, 1, 2, 1];
    let anchored: Vec<bool> = vec![true, false, true];
    let masked = masked_endpoint_ids(&ids, &anchored);
    assert_eq!(masked, vec![-1, 1, -1, 1]);
}
