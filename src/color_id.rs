//! The coloring pipeline from compared edge pairs to color indices per
//! polygon and per loop.

use crate::edge_map::{lemma_mesh_pairs_unique, lists_mesh_pairs, pairs_within, valid_mesh, EdgePair};
use crate::graph::{
    build_adjacency_graph, color_graph, colored_by_islands, lemma_coloring_determined,
    lemma_graph_well_formed, lemma_proper_coloring, leaders_ok, seam_adjacent,
};
use crate::islands::{
    detect_uv_islands, islands_after, lemma_connected_pair_same_island,
    lemma_islands_leaders_ok, lemma_seam_listed, lemma_seams_within, seams_upto,
};
use vstd::prelude::*;

verus! {

/// The color index of each polygon's island, from the outcome of comparing the
/// texture coordinates of each pair (`connected[k]` for `pairs[k]`).
pub fn face_color_indices(num_faces: usize, pairs: &[EdgePair], connected: &[bool]) -> (res: Vec<usize>)
    requires
        pairs@.len() == connected@.len(),
        pairs_within(pairs@, num_faces as int),
    ensures
        res@.len() == num_faces,
        forall|k: int|
            0 <= k < pairs@.len() && #[trigger] connected@[k] ==> res@[pairs@[k].face_a as int]
                == res@[pairs@[k].face_b as int],
        forall|k: int|
            0 <= k < pairs@.len() && !#[trigger] connected@[k] && ({
                let r = islands_after(num_faces as nat, pairs@, connected@, pairs@.len());
                r[pairs@[k].face_a as int] != r[pairs@[k].face_b as int]
            }) ==> res@[pairs@[k].face_a as int] != res@[pairs@[k].face_b as int],
        forall|x: int, y: int|
            0 <= x < num_faces && 0 <= y < num_faces && ({
                let r = islands_after(num_faces as nat, pairs@, connected@, pairs@.len());
                r[x] == r[y]
            }) ==> res@[x] == res@[y],
        colored_by_islands(
            islands_after(num_faces as nat, pairs@, connected@, pairs@.len()),
            seams_upto(pairs@, connected@, pairs@.len()),
            res@,
        ),
{
    let (mut dsu, seams) = detect_uv_islands(num_faces, pairs, connected);
    let ghost roots = dsu.roots();
    proof {
        dsu.lemma_roots();
    }
    let graph = build_adjacency_graph(num_faces, &mut dsu, seams.as_slice());
    proof {
        lemma_graph_well_formed(graph, roots, seams@);
    }
    let colors = color_graph(&graph);
    let mut res: Vec<usize> = Vec::new();
    let mut f: usize = 0;
    while f < num_faces
        invariant
            f <= num_faces,
            dsu.wf(),
            dsu.len() == num_faces,
            dsu.roots() == roots,
            leaders_ok(roots),
            roots.len() == num_faces,
            colors@.len() == num_faces,
            res@.len() == f,
            forall|x: int| 0 <= x < f ==> #[trigger] res@[x] == colors@[roots[x] as int],
        decreases num_faces - f,
    {
        let r = dsu.leader(f);
        assert(r < num_faces);
        res.push(colors[r]);
        f = f + 1;
    }
    proof {
        let len = pairs@.len();
        assert forall|k: int|
            0 <= k < len && #[trigger] connected@[k] implies res@[pairs@[k].face_a as int]
                == res@[pairs@[k].face_b as int] by {
            lemma_connected_pair_same_island(num_faces as nat, pairs@, connected@, k as nat);
        }
        assert forall|k: int|
            0 <= k < len && !#[trigger] connected@[k] && roots[pairs@[k].face_a as int] != roots[pairs@[k].face_b as int]
                implies res@[pairs@[k].face_a as int] != res@[pairs@[k].face_b as int] by {
            let a = pairs@[k].face_a as int;
            let b = pairs@[k].face_b as int;
            lemma_seam_listed(pairs@, connected@, len, k);
            let j = choose|j: int| 0 <= j < seams@.len() && seams@[j] == (pairs@[k].face_a, pairs@[k].face_b);
            assert(seams@[j] == (pairs@[k].face_a, pairs@[k].face_b));
            assert(seam_adjacent(roots, seams@, seams@.len() as int, roots[a] as int, roots[b] as int));
            assert(roots[a] < num_faces);
            assert(graph.adjacency@[roots[a] as int]@.contains(roots[b] as usize));
            lemma_proper_coloring(graph, colors@, roots[a] as usize, roots[b] as usize);
        }
        assert(res@.len() == roots.len());
        assert(graph.describes(roots, seams@) && graph.greedy_colored(colors@) && forall|f: int|
            0 <= f < roots.len() ==> #[trigger] res@[f] == colors@[roots[f] as int]);
    }
    res
}

/// The polygon among the first `k` that last lists loop `l`, if any.
pub open spec fn last_owner(starts: Seq<usize>, totals: Seq<usize>, l: int, k: int) -> Option<int>
    decreases k,
{
    if k <= 0 {
        None
    } else if starts[k - 1] <= l < starts[k - 1] + totals[k - 1] {
        Some(k - 1)
    } else {
        last_owner(starts, totals, l, k - 1)
    }
}

/// Spreads each polygon's color index over its loops, so that every loop is
/// colored. A loop that several polygons list takes the color of the last of
/// them; a loop that none lists falls back to color index 0.
pub fn loop_color_indices(
    num_faces: usize,
    poly_loop_starts: &[usize],
    poly_loop_totals: &[usize],
    total_loop_count: usize,
    face_colors: &[usize],
) -> (res: Vec<usize>)
    requires
        poly_loop_starts@.len() == num_faces,
        face_colors@.len() == num_faces,
        valid_mesh(poly_loop_starts@, poly_loop_totals@, total_loop_count as int),
    ensures
        res@.len() == total_loop_count,
        forall|l: int|
            0 <= l < total_loop_count ==> #[trigger] res@[l] == match last_owner(
                poly_loop_starts@,
                poly_loop_totals@,
                l,
                num_faces as int,
            ) {
                Some(f) => face_colors@[f],
                None => 0,
            },
{
    let ghost starts = poly_loop_starts@;
    let ghost totals = poly_loop_totals@;
    let mut res: Vec<usize> = Vec::new();
    let mut l: usize = 0;
    while l < total_loop_count
        invariant
            l <= total_loop_count,
            res@.len() == l,
            forall|x: int| 0 <= x < l ==> #[trigger] res@[x] == 0,
        decreases total_loop_count - l,
    {
        res.push(0);
        l = l + 1;
    }
    let mut f: usize = 0;
    while f < num_faces
        invariant
            f <= num_faces,
            starts == poly_loop_starts@,
            totals == poly_loop_totals@,
            starts.len() == num_faces,
            face_colors@.len() == num_faces,
            valid_mesh(starts, totals, total_loop_count as int),
            res@.len() == total_loop_count,
            forall|x: int|
                0 <= x < total_loop_count ==> #[trigger] res@[x] == match last_owner(starts, totals, x, f as int) {
                    Some(g) => face_colors@[g],
                    None => 0,
                },
        decreases num_faces - f,
    {
        let start = poly_loop_starts[f];
        let total = poly_loop_totals[f];
        let c = face_colors[f];
        assert(totals[f as int] >= 1 && starts[f as int] + totals[f as int] <= total_loop_count);
        let mut i: usize = 0;
        while i < total
            invariant
                f < num_faces,
                i <= total,
                start == starts[f as int],
                total == totals[f as int],
                start + total <= total_loop_count,
                c == face_colors@[f as int],
                starts == poly_loop_starts@,
                totals == poly_loop_totals@,
                starts.len() == num_faces,
                face_colors@.len() == num_faces,
                res@.len() == total_loop_count,
                forall|x: int|
                    0 <= x < total_loop_count ==> #[trigger] res@[x] == if start <= x < start + i {
                        c
                    } else {
                        match last_owner(starts, totals, x, f as int) {
                            Some(g) => face_colors@[g],
                            None => 0,
                        }
                    },
            decreases total - i,
        {
            res.set(start + i, c);
            i = i + 1;
        }
        f = f + 1;
    }
    res
}

/// Coloring the polygons twice from the same pairs and comparison outcomes
/// gives the same color indices.
pub proof fn lemma_face_colors_deterministic(
    num_faces: nat,
    pairs: Seq<EdgePair>,
    connected: Seq<bool>,
    res1: Seq<usize>,
    res2: Seq<usize>,
)
    requires
        num_faces <= usize::MAX,
        pairs.len() == connected.len(),
        pairs_within(pairs, num_faces as int),
        colored_by_islands(
            islands_after(num_faces, pairs, connected, pairs.len()),
            seams_upto(pairs, connected, pairs.len()),
            res1,
        ),
        colored_by_islands(
            islands_after(num_faces, pairs, connected, pairs.len()),
            seams_upto(pairs, connected, pairs.len()),
            res2,
        ),
    ensures
        res1 == res2,
{
    lemma_islands_leaders_ok(num_faces, pairs, connected, pairs.len());
    lemma_seams_within(num_faces as int, pairs, connected, pairs.len());
    lemma_coloring_determined(
        islands_after(num_faces, pairs, connected, pairs.len()),
        seams_upto(pairs, connected, pairs.len()),
        res1,
        res2,
    );
}

/// The whole coloring is a function of the mesh: two runs over the same mesh
/// list the same pairs, and where each comparison outcome depends on its pair
/// alone, they color every polygon alike.
pub proof fn lemma_pipeline_deterministic(
    num_faces: nat,
    starts: Seq<usize>,
    totals: Seq<usize>,
    verts: Seq<usize>,
    ps1: Seq<EdgePair>,
    ps2: Seq<EdgePair>,
    c1: Seq<bool>,
    c2: Seq<bool>,
    res1: Seq<usize>,
    res2: Seq<usize>,
)
    requires
        num_faces <= usize::MAX,
        lists_mesh_pairs(starts, totals, verts, ps1),
        lists_mesh_pairs(starts, totals, verts, ps2),
        pairs_within(ps1, num_faces as int),
        c1.len() == ps1.len(),
        c2.len() == ps2.len(),
        forall|k: int, l: int|
            0 <= k < ps1.len() && 0 <= l < ps2.len() && ps1[k] == ps2[l] ==> #[trigger] c1[k] == #[trigger] c2[l],
        colored_by_islands(islands_after(num_faces, ps1, c1, ps1.len()), seams_upto(ps1, c1, ps1.len()), res1),
        colored_by_islands(islands_after(num_faces, ps2, c2, ps2.len()), seams_upto(ps2, c2, ps2.len()), res2),
    ensures
        ps1 == ps2,
        res1 == res2,
{
    lemma_mesh_pairs_unique(starts, totals, verts, ps1, ps2);
    assert forall|k: int| 0 <= k < c1.len() implies c1[k] == c2[k] by {
        assert(ps1[k] == ps2[k]);
    }
    assert(c1 =~= c2);
    lemma_face_colors_deterministic(num_faces, ps1, c1, res1, res2);
}

} // verus!
