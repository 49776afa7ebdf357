//! End-to-end checks of the mesh-to-batches pipeline on small meshes.

use roft::builder::{cg2ids, cg2ids_no_blob};
use roft::graph::{Graph, Mesh};

/// A unit quad split into two triangles sharing the diagonal 1-2:
/// 4 vertices, 5 undirected mesh edges.
fn quad_graph() -> Graph {
    let mesh = Mesh::new(4, vec![(0, 1, 2), (2, 1, 3)]);
    Graph::new(mesh)
}

#[test]
fn quad_vertex_graph_adjacency() {
    let g = quad_graph();
    assert_eq!(g.nodes.len(), 4);
    // Mesh adjacency: all pairs but 0-3 share a triangle.
    assert!(g.nodes[0].is_adj_to(&g.nodes[1]));
    assert!(g.nodes[0].is_adj_to(&g.nodes[2]));
    assert!(g.nodes[1].is_adj_to(&g.nodes[2]));
    assert!(g.nodes[1].is_adj_to(&g.nodes[3]));
    assert!(g.nodes[2].is_adj_to(&g.nodes[3]));
    assert!(!g.nodes[0].is_adj_to(&g.nodes[3]));
    assert!(!g.nodes[3].is_adj_to(&g.nodes[0]));
    // Symmetry and no self-loops, checked exhaustively.
    for i in 0..4 {
        assert!(!g.nodes[i].is_adj_to(&g.nodes[i]));
        for j in 0..4 {
            assert_eq!(g.nodes[i].is_adj_to(&g.nodes[j]), g.nodes[j].is_adj_to(&g.nodes[i]));
        }
    }
}

#[test]
fn quad_augment_connects_distance_two_pair() {
    let mut g = quad_graph();
    g.augment();
    // 0 and 3 share the two common neighbours 1 and 2, so augmentation
    // connects them; everything else was adjacent already.
    for i in 0..4 {
        for j in 0..4 {
            assert_eq!(g.nodes[i].is_adj_to(&g.nodes[j]), i != j);
        }
    }
}

#[test]
fn quad_line_graph_has_five_edges() {
    let mut g = quad_graph();
    g.build_edge_graph();
    assert_eq!(g.edges.len(), 5);
    // Vertex adjacency is consumed.
    for i in 0..4 {
        assert_eq!(g.nodes[i].degree(), 0);
    }
    // Each mesh edge appears exactly once, as an unordered pair.
    let mut pairs: Vec<(usize, usize)> = g
        .edges
        .iter()
        .map(|e| {
            let (a, b) = (e.content.node_1, e.content.node_2);
            if a < b {
                (a, b)
            } else {
                (b, a)
            }
        })
        .collect();
    pairs.sort();
    assert_eq!(pairs, vec![(0, 1), (0, 2), (1, 2), (1, 3), (2, 3)]);
    // Line-graph adjacency is exactly "shares an endpoint".
    for i in 0..5 {
        for j in 0..5 {
            let ei = &g.edges[i];
            let ej = &g.edges[j];
            let share = ei.content.node_1 == ej.content.node_1
                || ei.content.node_1 == ej.content.node_2
                || ei.content.node_2 == ej.content.node_1
                || ei.content.node_2 == ej.content.node_2;
            assert_eq!(ei.is_adj_to(ej), i != j && share);
        }
    }
}

#[test]
fn quad_line_graph_degrees() {
    let mut g = quad_graph();
    g.build_edge_graph();
    // The diagonal 1-2 touches every other mesh edge; the four boundary
    // edges each touch three others.
    for e in g.edges.iter() {
        let is_diagonal = (e.content.node_1 == 1 && e.content.node_2 == 2)
            || (e.content.node_1 == 2 && e.content.node_2 == 1);
        if is_diagonal {
            assert_eq!(e.degree(), 4);
        } else {
            assert_eq!(e.degree(), 3);
        }
    }
}

#[test]
fn quad_coloring_is_proper_and_bounded() {
    let mut g = quad_graph();
    g.build_edge_graph();
    g.color_edge_graph();
    let chrom = g.edge_chrom_nb;
    let max_degree = g.edges.iter().map(|e| e.degree()).max().unwrap();
    assert!(chrom >= 1);
    assert!(chrom <= max_degree as i32 + 1);
    let mut max_color = -1;
    for e in g.edges.iter() {
        assert!(e.color() >= 0);
        assert!(e.color() < chrom);
        if e.color() > max_color {
            max_color = e.color();
        }
    }
    assert_eq!(chrom, 1 + max_color);
    for i in 0..g.edges.len() {
        for j in 0..g.edges.len() {
            if i != j && g.edges[i].is_adj_to(&g.edges[j]) {
                assert_ne!(g.edges[i].color(), g.edges[j].color());
            }
        }
    }
    // Two constraints of one color never share a point mass.
    for i in 0..g.edges.len() {
        for j in 0..g.edges.len() {
            if i != j && g.edges[i].color() == g.edges[j].color() {
                let ei = &g.edges[i].content;
                let ej = &g.edges[j].content;
                assert_ne!(ei.node_1, ej.node_1);
                assert_ne!(ei.node_1, ej.node_2);
                assert_ne!(ei.node_2, ej.node_1);
                assert_ne!(ei.node_2, ej.node_2);
            }
        }
    }
}

#[test]
fn quad_export_edges_partitions_all_five() {
    let mut g = quad_graph();
    g.build_edge_graph();
    g.color_edge_graph();
    let groups = g.export_edges();
    assert_eq!(groups.len(), g.edge_chrom_nb as usize);
    let total: usize = groups.iter().map(|grp| grp.len()).sum();
    assert_eq!(total, 5);
    // Every mesh edge appears in exactly one group.
    let mut seen: Vec<(usize, usize)> = Vec::new();
    for grp in groups.iter() {
        for e in grp.iter() {
            let p = if e.node_1 < e.node_2 {
                (e.node_1, e.node_2)
            } else {
                (e.node_2, e.node_1)
            };
            assert!(!seen.contains(&p));
            seen.push(p);
        }
    }
    assert_eq!(seen.len(), 5);
}

#[test]
fn quad_flat_export_no_blob() {
    let mut g = quad_graph();
    g.build_edge_graph();
    g.color_edge_graph();
    let (ids1, ids2, colors, colors_sizes, batches, batch_sizes) = cg2ids_no_blob(&g);
    assert_eq!(ids1.len(), 5);
    assert_eq!(ids2.len(), 5);
    assert_eq!(colors.len(), g.edge_chrom_nb as usize);
    assert_eq!(colors_sizes.len(), g.edge_chrom_nb as usize);
    assert_eq!(batches.len(), 5);
    assert_eq!(batch_sizes.len(), 5);
    // Singleton batches, color offsets are prefix sums of the class sizes.
    assert!(batch_sizes.iter().all(|&s| s == 1));
    let mut offset = 0;
    for (c, &sz) in colors_sizes.iter().enumerate() {
        assert_eq!(colors[c], offset);
        offset += sz;
    }
    assert_eq!(offset, 5);
    // Within each color the batch offsets count up from zero.
    for (c, &sz) in colors_sizes.iter().enumerate() {
        for j in 0..sz {
            assert_eq!(batches[(colors[c] + j) as usize], j);
        }
    }
    // The flattened pairs cover all five mesh edges once.
    let mut pairs: Vec<(i32, i32)> = ids1
        .iter()
        .zip(ids2.iter())
        .map(|(&a, &b)| if a < b { (a, b) } else { (b, a) })
        .collect();
    pairs.sort();
    assert_eq!(pairs, vec![(0, 1), (0, 2), (1, 2), (1, 3), (2, 3)]);
}

#[test]
fn quad_blob_graph_singleton_blobs() {
    let mut g = quad_graph();
    g.build_edge_graph();
    // Distance 0: every edge seeds its own blob.
    g.build_blob_graph(0, 0);
    assert_eq!(g.blobs.len(), 5);
    for (b, blob) in g.blobs.iter().enumerate() {
        assert_eq!(blob.content.sub_nodes.len(), 1);
        assert_eq!(blob.content.sub_nodes[0], b);
        assert!(blob.content.is_singleton());
    }
    // With the threshold at zero, blob adjacency mirrors edge adjacency.
    for i in 0..5 {
        for j in 0..5 {
            assert_eq!(g.blobs[i].is_adj_to(&g.blobs[j]), g.edges[i].is_adj_to(&g.edges[j]));
        }
    }
}

#[test]
fn quad_blob_graph_distance_one() {
    let mut g = quad_graph();
    g.build_edge_graph();
    g.build_blob_graph(1, 0);
    // The first seed absorbs its whole neighbourhood; the rest follow.
    let total: usize = g.blobs.iter().map(|b| b.content.sub_nodes.len()).sum();
    assert_eq!(total, 5);
    // Partition: each edge id in exactly one blob.
    let mut seen = vec![false; 5];
    for blob in g.blobs.iter() {
        for &e in blob.content.sub_nodes.iter() {
            assert!(!seen[e]);
            seen[e] = true;
        }
    }
    assert!(seen.iter().all(|&s| s));
}

#[test]
fn quad_blob_coloring_and_batches() {
    let mut g = quad_graph();
    g.build_edge_graph();
    g.build_blob_graph(1, 0);
    g.color_blob_graph();
    let chrom = g.blob_chrom_nb;
    assert!(chrom >= 1);
    // Proper blob coloring; member edges carry their blob's color.
    for i in 0..g.blobs.len() {
        assert!(g.blobs[i].color() >= 0 && g.blobs[i].color() < chrom);
        for j in 0..g.blobs.len() {
            if i != j && g.blobs[i].is_adj_to(&g.blobs[j]) {
                assert_ne!(g.blobs[i].color(), g.blobs[j].color());
            }
        }
        for &e in g.blobs[i].content.sub_nodes.iter() {
            assert_eq!(g.edges[e].color(), g.blobs[i].color());
        }
    }
    let groups = g.export_batches();
    assert_eq!(groups.len(), chrom as usize);
    let nbatches: usize = groups.iter().map(|grp| grp.batches.len()).sum();
    assert_eq!(nbatches, g.blobs.len());
    let nedges: usize = groups
        .iter()
        .map(|grp| grp.batches.iter().map(|b| b.edges.len()).sum::<usize>())
        .sum();
    assert_eq!(nedges, 5);
}

#[test]
fn quad_flat_export_with_blobs() {
    let mut g = quad_graph();
    g.build_edge_graph();
    g.build_blob_graph(1, 0);
    g.color_blob_graph();
    let (ids1, ids2, colors, colors_sizes, batches, batch_sizes) = cg2ids(&g);
    assert_eq!(ids1.len(), 5);
    assert_eq!(ids2.len(), 5);
    assert_eq!(colors.len(), g.blob_chrom_nb as usize);
    assert_eq!(colors_sizes.len(), g.blob_chrom_nb as usize);
    let nbatches: i32 = colors_sizes.iter().sum();
    assert_eq!(nbatches as usize, g.blobs.len());
    assert_eq!(batches.len(), g.blobs.len());
    assert_eq!(batch_sizes.len(), g.blobs.len());
    let total_sizes: i32 = batch_sizes.iter().sum();
    assert_eq!(total_sizes, 5);
    // Per color, batch offsets are the prefix sums of batch sizes.
    let mut batch_idx = 0usize;
    for &nb in colors_sizes.iter() {
        let mut offset = 0;
        for _ in 0..nb {
            assert_eq!(batches[batch_idx], offset);
            offset += batch_sizes[batch_idx];
            batch_idx += 1;
        }
    }
    // The flattened pairs cover all five mesh edges once.
    let mut pairs: Vec<(i32, i32)> = ids1
        .iter()
        .zip(ids2.iter())
        .map(|(&a, &b)| if a < b { (a, b) } else { (b, a) })
        .collect();
    pairs.sort();
    assert_eq!(pairs, vec![(0, 1), (0, 2), (1, 2), (1, 3), (2, 3)]);
}

#[test]
fn high_threshold_severs_all_blob_adjacency() {
    let mut g = quad_graph();
    g.build_edge_graph();
    // Singleton blobs and a threshold no pair can reach: every blob pair is
    // treated as independent and the element-level adjacency is severed.
    g.build_blob_graph(0, 10);
    assert_eq!(g.blobs.len(), 5);
    for i in 0..5 {
        assert_eq!(g.blobs[i].degree(), 0);
        assert_eq!(g.edges[i].degree(), 0);
    }
    // Coloring the edgeless blob graph needs a single color.
    g.color_blob_graph();
    assert_eq!(g.blob_chrom_nb, 1);
}

#[test]
fn quad_export_lists_endpoint_pairs_in_id_order() {
    let mut g = quad_graph();
    g.build_edge_graph();
    let (ids1, ids2) = g.export();
    assert_eq!(ids1.len(), 5);
    assert_eq!(ids2.len(), 5);
    for (e, edge) in g.edges.iter().enumerate() {
        assert_eq!(ids1[e] as usize, edge.content.node_1);
        assert_eq!(ids2[e] as usize, edge.content.node_2);
    }
}

#[test]
fn graph_mark_resets() {
    let mut g = quad_graph();
    g.build_edge_graph();
    g.unmark();
    for n in g.nodes.iter() {
        assert!(!n.is_marked());
    }
    for e in g.edges.iter() {
        assert!(!e.is_marked());
    }
    g.intern_unmark();
    g.reset_dists();
    for n in g.nodes.iter() {
        assert_eq!(n.dist(), 0);
    }
}

#[test]
fn larger_grid_pipeline_invariants() {
    // A 3x3 vertex grid of quads, each split into two triangles.
    let w = 3usize;
    let mut tris: Vec<(u32, u32, u32)> = Vec::new();
    for y in 0..w - 1 {
        for x in 0..w - 1 {
            let a = (y * w + x) as u32;
            let b = (y * w + x + 1) as u32;
            let c = ((y + 1) * w + x) as u32;
            let d = ((y + 1) * w + x + 1) as u32;
            tris.push((a, b, c));
            tris.push((c, b, d));
        }
    }
    let mesh = Mesh::new(w * w, tris);
    let mut g = Graph::new(mesh);
    g.augment();
    g.build_edge_graph();
    g.color_edge_graph();
    let max_degree = g.edges.iter().map(|e| e.degree()).max().unwrap();
    assert!(g.edge_chrom_nb as usize <= max_degree + 1);
    for i in 0..g.edges.len() {
        assert!(g.edges[i].color() >= 0);
        for j in 0..g.edges.len() {
            if i != j && g.edges[i].is_adj_to(&g.edges[j]) {
                assert_ne!(g.edges[i].color(), g.edges[j].color());
            }
        }
    }
    let groups = g.export_edges();
    let total: usize = groups.iter().map(|grp| grp.len()).sum();
    assert_eq!(total, g.edges.len());
}
