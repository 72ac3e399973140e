use nt_rust_core::color_id::{face_color_indices, loop_color_indices};
use nt_rust_core::edge_map::{build_edge_map, edge_pairs, uv_compare_pairs, EdgeKey, EdgePair, FaceEdgeRef};
use nt_rust_core::graph::{build_adjacency_graph, color_graph, IslandGraph};
use nt_rust_core::islands::detect_uv_islands;
use nt_rust_core::dsu::Dsu;

fn uv_equal(uv: &[f32], a: usize, b: usize) -> bool {
    (uv[a * 2] - uv[b * 2]).abs() < 1e-4 && (uv[a * 2 + 1] - uv[b * 2 + 1]).abs() < 1e-4
}

fn compare(pairs: &[EdgePair], uv: &[f32]) -> Vec<bool> {
    pairs
        .iter()
        .map(|p| uv_equal(uv, p.a_lo, p.b_lo) && uv_equal(uv, p.a_hi, p.b_hi))
        .collect()
}

fn face_colors(
    num_faces: usize,
    starts: &[usize],
    totals: &[usize],
    verts: &[usize],
    uv: &[f32],
) -> Vec<usize> {
    let pairs = edge_pairs(num_faces, starts, totals, verts);
    let connected = compare(&pairs, uv);
    face_color_indices(num_faces, &pairs, &connected)
}

#[test]
fn test_edge_key_order() {
    let k1 = EdgeKey::new(10, 20);
    let k2 = EdgeKey::new(20, 10);
    assert_eq!(k1, k2, "EdgeKey should be order-independent");
    assert_eq!(k1.min, 10);
    assert_eq!(k1.max, 20);
}

#[test]
fn edge_key_equal_vertices() {
    let k = EdgeKey::new(7, 7);
    assert_eq!(k.min, 7);
    assert_eq!(k.max, 7);
}

#[test]
fn single_triangle_is_its_own_island() {
    let starts = vec![0];
    let totals = vec![3];
    let verts = vec![0, 1, 2];
    let uv = vec![0.0, 0.0, 1.0, 0.0, 0.0, 1.0];
    let pairs = edge_pairs(1, &starts, &totals, &verts);
    assert!(pairs.is_empty());
    let colors = face_colors(1, &starts, &totals, &verts, &uv);
    assert_eq!(colors, vec![0]);
    let loops = loop_color_indices(1, &starts, &totals, 3, &colors);
    assert_eq!(loops.len(), 3);
    assert_eq!(loops, vec![0, 0, 0]);
}

#[test]
fn connected_faces_same_island() {
    let starts = vec![0, 3];
    let totals = vec![3, 3];
    let verts = vec![0, 1, 2, 2, 1, 3];
    let uv = vec![
        0.0, 0.0, 1.0, 0.0, 0.0, 1.0, //
        0.0, 1.0, 1.0, 0.0, 1.0, 1.0,
    ];
    let pairs = edge_pairs(2, &starts, &totals, &verts);
    assert_eq!(pairs.len(), 1);
    let connected = compare(&pairs, &uv);
    assert_eq!(connected, vec![true]);
    let colors = face_color_indices(2, &pairs, &connected);
    assert_eq!(colors[0], colors[1], "Connected UVs should result in the same color ID");
    let loops = loop_color_indices(2, &starts, &totals, 6, &colors);
    assert!(loops.iter().all(|c| *c == loops[0]));
}

#[test]
fn disconnected_faces_diff_color() {
    let starts = vec![0, 3];
    let totals = vec![3, 3];
    let verts = vec![0, 1, 2, 2, 1, 3];
    let uv = vec![
        0.0, 0.0, 0.1, 0.0, 0.0, 0.1, //
        0.8, 0.8, 0.9, 0.8, 0.8, 0.9,
    ];
    let colors = face_colors(2, &starts, &totals, &verts, &uv);
    assert_ne!(colors[0], colors[1], "Adjacent islands must have different colors");
    assert_eq!(colors, vec![0, 1]);
}

#[test]
fn uv_within_tolerance_still_connects() {
    let starts = vec![0, 3];
    let totals = vec![3, 3];
    let verts = vec![0, 1, 2, 2, 1, 3];
    let uv = vec![
        0.0, 0.0, 1.0, 0.0, 0.0, 1.0, //
        0.00005, 1.00005, 1.0, 0.0, 1.0, 1.0,
    ];
    let colors = face_colors(2, &starts, &totals, &verts, &uv);
    assert_eq!(colors[0], colors[1]);
}

#[test]
fn sorted_loops_follow_vertex_order() {
    let starts = vec![0, 3];
    let totals = vec![3, 3];
    let verts = vec![0, 1, 2, 2, 1, 3];
    let pairs = edge_pairs(2, &starts, &totals, &verts);
    // face 0 walks 1 -> 2 on loops 1, 2; face 1 walks 2 -> 1 on loops 3, 4
    assert_eq!(
        pairs,
        vec![EdgePair { face_a: 0, face_b: 1, a_lo: 1, a_hi: 2, b_lo: 4, b_hi: 3 }]
    );
}

#[test]
fn edge_map_groups_shared_edges() {
    let starts = vec![0, 3];
    let totals = vec![3, 3];
    let verts = vec![0, 1, 2, 2, 1, 3];
    let m = build_edge_map(2, &starts, &totals, &verts);
    assert_eq!(m.keys.len(), 5);
    assert_eq!(m.entries.len(), 5);
    // groups in the order of their first traversal
    let expected: Vec<EdgeKey> =
        [(0, 1), (1, 2), (0, 2), (1, 3), (2, 3)].iter().map(|&(a, b)| EdgeKey::new(a, b)).collect();
    assert_eq!(m.keys, expected);
    let g = m.keys.iter().position(|k| *k == EdgeKey::new(1, 2)).unwrap();
    assert_eq!(
        m.entries[g],
        vec![
            FaceEdgeRef { face_idx: 0, loop_curr: 1, loop_next: 2 },
            FaceEdgeRef { face_idx: 1, loop_curr: 3, loop_next: 4 },
        ]
    );
    for (k, refs) in m.keys.iter().zip(m.entries.iter()) {
        if *k != EdgeKey::new(1, 2) {
            assert_eq!(refs.len(), 1);
        }
    }
    assert_eq!(uv_compare_pairs(&m, &verts).len(), 1);
}

#[test]
fn non_manifold_edge_compares_every_pair() {
    // three triangles on edge (0, 1)
    let starts = vec![0, 3, 6];
    let totals = vec![3, 3, 3];
    let verts = vec![0, 1, 2, 1, 0, 3, 0, 1, 4];
    let pairs = edge_pairs(3, &starts, &totals, &verts);
    assert_eq!(pairs.len(), 3);
    let faces: Vec<(usize, usize)> = pairs.iter().map(|p| (p.face_a, p.face_b)).collect();
    assert_eq!(faces, vec![(0, 1), (0, 2), (1, 2)]);
    // only the first and third triangles agree along the edge
    let connected = vec![false, true, false];
    let colors = face_color_indices(3, &pairs, &connected);
    assert_eq!(colors[0], colors[2]);
    assert_ne!(colors[0], colors[1]);
}

#[test]
fn boundary_edges_give_no_pairs() {
    let starts = vec![0, 3];
    let totals = vec![3, 3];
    let verts = vec![0, 1, 2, 3, 4, 5];
    assert!(edge_pairs(2, &starts, &totals, &verts).is_empty());
    let colors = face_color_indices(2, &[], &[]);
    assert_eq!(colors, vec![0, 0]);
}

#[test]
fn dsu_merge_and_leader() {
    let mut d = Dsu::new(4);
    assert_eq!(d.size(), 4);
    for i in 0..4 {
        assert_eq!(d.leader(i), i);
    }
    assert_eq!(d.merge(0, 1), 1);
    assert_eq!(d.merge(2, 3), 3);
    assert_eq!(d.merge(1, 3), 3);
    for i in 0..4 {
        assert_eq!(d.leader(i), 3);
    }
    assert_eq!(d.merge(0, 2), 3);
}

#[test]
fn islands_follow_connected_pairs() {
    let p = |a: usize, b: usize| EdgePair { face_a: a, face_b: b, a_lo: 0, a_hi: 0, b_lo: 0, b_hi: 0 };
    let pairs = vec![p(0, 1), p(1, 2), p(3, 4)];
    let connected = vec![true, false, true];
    let (mut dsu, seams) = detect_uv_islands(5, &pairs, &connected);
    assert_eq!(seams, vec![(1, 2)]);
    assert_eq!(dsu.leader(0), dsu.leader(1));
    assert_ne!(dsu.leader(1), dsu.leader(2));
    assert_eq!(dsu.leader(3), dsu.leader(4));
    let g = build_adjacency_graph(5, &mut dsu, &seams);
    assert_eq!(g.islands, vec![1, 2, 4]);
    assert_eq!(g.adjacency[1], vec![2]);
    assert_eq!(g.adjacency[2], vec![1]);
    assert!(g.adjacency[4].is_empty());
}

#[test]
fn seam_inside_one_island_is_dropped() {
    let p = |a: usize, b: usize| EdgePair { face_a: a, face_b: b, a_lo: 0, a_hi: 0, b_lo: 0, b_hi: 0 };
    let pairs = vec![p(0, 1), p(1, 2), p(0, 2)];
    let connected = vec![false, true, true];
    let (mut dsu, seams) = detect_uv_islands(3, &pairs, &connected);
    assert_eq!(seams, vec![(0, 1)]);
    let g = build_adjacency_graph(3, &mut dsu, &seams);
    assert_eq!(g.islands.len(), 1);
    assert!(g.adjacency.iter().all(|a| a.is_empty()));
    assert_eq!(face_color_indices(3, &pairs, &connected), vec![0, 0, 0]);
}

#[test]
fn greedy_colors_by_degree_then_leader() {
    // a path 0 - 1 - 2 and a lone island 3
    let g = IslandGraph {
        islands: vec![0, 1, 2, 3],
        adjacency: vec![vec![1], vec![0, 2], vec![1], vec![]],
    };
    assert_eq!(color_graph(&g), vec![1, 0, 1, 0]);
    // a triangle: all degree 2, colored in leader order
    let t = IslandGraph {
        islands: vec![0, 1, 2],
        adjacency: vec![vec![1, 2], vec![0, 2], vec![0, 1]],
    };
    assert_eq!(color_graph(&t), vec![0, 1, 2]);
}

#[test]
fn coloring_is_deterministic() {
    let starts = vec![0, 3, 6];
    let totals = vec![3, 3, 3];
    let verts = vec![0, 1, 2, 2, 1, 3, 3, 1, 4];
    let uv = vec![
        0.0, 0.0, 0.1, 0.0, 0.0, 0.1, //
        0.5, 0.5, 0.6, 0.5, 0.5, 0.6, //
        0.9, 0.9, 0.8, 0.9, 0.9, 0.8,
    ];
    let a = face_colors(3, &starts, &totals, &verts, &uv);
    let b = face_colors(3, &starts, &totals, &verts, &uv);
    assert_eq!(a, b);
    assert_ne!(a[0], a[1]);
    assert_ne!(a[1], a[2]);
}

#[test]
fn loops_without_polygon_get_color_zero() {
    let starts = vec![0, 2];
    let totals = vec![2, 2];
    let loops = loop_color_indices(2, &starts, &totals, 5, &[4, 7]);
    assert_eq!(loops, vec![4, 4, 7, 7, 0]);
    // one face over loop 0 of two loops
    let loops = loop_color_indices(1, &[0], &[1], 2, &[3]);
    assert_eq!(loops, vec![3, 0]);
    // overlapping polygons: the later one wins
    let loops = loop_color_indices(2, &[0, 1], &[2, 2], 3, &[4, 7]);
    assert_eq!(loops, vec![4, 7, 7]);
}
