//! Edge topology of a polygon mesh: which polygons walk which undirected edge,
//! and the pairs of traversals whose texture coordinates are to be compared.

use std::collections::HashMap;
use vstd::prelude::*;

verus! {

/// An undirected mesh edge, identified by its two vertex indices in ascending order.
#[derive(Debug, Clone, Copy, PartialEq, Eq, Structural)]
pub struct EdgeKey {
    pub min: usize,
    pub max: usize,
}

impl EdgeKey {
    /// The canonical key of the edge between `v1` and `v2`, whatever the direction.
    pub open spec fn spec_new(v1: usize, v2: usize) -> EdgeKey {
        if v1 < v2 {
            EdgeKey { min: v1, max: v2 }
        } else {
            EdgeKey { min: v2, max: v1 }
        }
    }

    pub fn new(v1: usize, v2: usize) -> (r: EdgeKey)
        ensures
            r == EdgeKey::spec_new(v1, v2),
            r.min <= r.max,
            r.min == v1 || r.min == v2,
            r.max == v1 || r.max == v2,
    {
        if v1 < v2 {
            EdgeKey { min: v1, max: v2 }
        } else {
            EdgeKey { min: v2, max: v1 }
        }
    }
}

/// The key of an edge does not depend on the direction in which it is walked.
pub proof fn lemma_edge_key_symmetric(v1: usize, v2: usize)
    ensures
        EdgeKey::spec_new(v1, v2) == EdgeKey::spec_new(v2, v1),
{
}

/// One traversal of an edge by a polygon: the polygon and the two loops that
/// the edge joins, in boundary order.
#[derive(Debug, Clone, Copy, PartialEq, Eq, Structural)]
pub struct FaceEdgeRef {
    pub face_idx: usize,
    pub loop_curr: usize,
    pub loop_next: usize,
}

/// Every polygon has at least one loop and its loops lie inside `0..n_loops`.
pub open spec fn valid_mesh(starts: Seq<usize>, totals: Seq<usize>, n_loops: int) -> bool {
    &&& starts.len() == totals.len()
    &&& forall|f: int|
        0 <= f < starts.len() ==> #[trigger] totals[f] >= 1 && starts[f] + totals[f] <= n_loops
}

/// The boundary edge of polygon `f` that leaves its loop `t`.
pub open spec fn face_edge(starts: Seq<usize>, totals: Seq<usize>, f: int, t: int) -> FaceEdgeRef {
    FaceEdgeRef {
        face_idx: f as usize,
        loop_curr: (starts[f] + t) as usize,
        loop_next: (starts[f] + (t + 1) % (totals[f] as int)) as usize,
    }
}

/// `r` is one of the boundary edges of the mesh.
pub open spec fn is_face_edge(starts: Seq<usize>, totals: Seq<usize>, r: FaceEdgeRef) -> bool {
    let f = r.face_idx as int;
    &&& 0 <= f < starts.len()
    &&& starts[f] <= r.loop_curr < starts[f] + totals[f]
    &&& r == face_edge(starts, totals, f, r.loop_curr - starts[f])
}

/// The undirected edge that `r` walks.
pub open spec fn edge_key_of(verts: Seq<usize>, r: FaceEdgeRef) -> EdgeKey {
    EdgeKey::spec_new(verts[r.loop_curr as int], verts[r.loop_next as int])
}

/// Every boundary edge of every polygon, grouped by undirected edge.
pub struct EdgeMap {
    pub keys: Vec<EdgeKey>,
    pub entries: Vec<Vec<FaceEdgeRef>>,
}

/// `r1` comes before `r2` in a walk over polygons by index, each in loop order.
pub open spec fn ref_precedes(r1: FaceEdgeRef, r2: FaceEdgeRef) -> bool {
    r1.face_idx < r2.face_idx || (r1.face_idx == r2.face_idx && r1.loop_curr < r2.loop_curr)
}

/// A non-empty list of traversals in walk order.
pub open spec fn in_order(s: Seq<FaceEdgeRef>) -> bool {
    &&& s.len() > 0
    &&& forall|a: int, b: int| 0 <= a < b < s.len() ==> ref_precedes(#[trigger] s[a], #[trigger] s[b])
}

impl EdgeMap {
    /// Some group has the key of `r` and holds `r`.
    pub open spec fn has_group(&self, verts: Seq<usize>, r: FaceEdgeRef) -> bool {
        exists|g: int|
            0 <= g < self.keys@.len() && #[trigger] self.keys@[g] == edge_key_of(verts, r)
                && self.entries@[g]@.contains(r)
    }

    /// Group `g` holds, once each and by polygon then loop, exactly the polygon
    /// edges whose key is `keys[g]`; no group is empty, keys are distinct, and
    /// groups come in the order of their first traversal.
    pub open spec fn describes(
        &self,
        starts: Seq<usize>,
        totals: Seq<usize>,
        verts: Seq<usize>,
    ) -> bool {
        let n = self.keys@.len();
        &&& self.entries@.len() == n
        &&& forall|i: int, j: int| 0 <= i < j < n ==> self.keys@[i] != self.keys@[j]
        &&& forall|g: int| 0 <= g < n ==> (#[trigger] self.entries@[g])@.no_duplicates() && in_order(self.entries@[g]@)
        &&& forall|g1: int, g2: int|
            0 <= g1 < g2 < n ==> ref_precedes(#[trigger] self.entries@[g1]@[0], #[trigger] self.entries@[g2]@[0])
        &&& forall|g: int, k: int|
            0 <= g < n && 0 <= k < self.entries@[g]@.len() ==> {
                let r = #[trigger] self.entries@[g]@[k];
                is_face_edge(starts, totals, r) && edge_key_of(verts, r) == self.keys@[g]
            }
        &&& forall|f: int, t: int|
            0 <= f < starts.len() && 0 <= t < totals[f] ==> self.has_group(verts, #[trigger] face_edge(starts, totals, f, t))
    }
}

impl EdgeKey {
    /// Both indices packed in one integer.
    pub open spec fn spec_code(self) -> u128 {
        (self.min as u128 * 0x1_0000_0000_0000_0000u128 + self.max as u128) as u128
    }

    fn code(&self) -> (r: u128)
        ensures
            r == self.spec_code(),
    {
        proof {
            assert(self.min as u128 * 0x1_0000_0000_0000_0000u128 + self.max as u128 <= u128::MAX) by (nonlinear_arith)
                requires self.min <= usize::MAX, self.max <= usize::MAX, usize::MAX <= u64::MAX;
        }
        self.min as u128 * 0x1_0000_0000_0000_0000u128 + self.max as u128
    }
}

proof fn lemma_code_injective(a: EdgeKey, b: EdgeKey)
    requires
        a.spec_code() == b.spec_code(),
    ensures
        a == b,
{
    let (x, y, z, w) = (a.min as int, a.max as int, b.min as int, b.max as int);
    assert(x * 0x1_0000_0000_0000_0000 + y == z * 0x1_0000_0000_0000_0000 + w ==> x == z && y == w) by (nonlinear_arith)
        requires 0 <= y < 0x1_0000_0000_0000_0000, 0 <= w < 0x1_0000_0000_0000_0000, 0 <= x, 0 <= z;
    assert(x * 0x1_0000_0000_0000_0000 + y <= u128::MAX) by (nonlinear_arith)
        requires 0 <= y < 0x1_0000_0000_0000_0000, 0 <= x < 0x1_0000_0000_0000_0000;
    assert(z * 0x1_0000_0000_0000_0000 + w <= u128::MAX) by (nonlinear_arith)
        requires 0 <= w < 0x1_0000_0000_0000_0000, 0 <= z < 0x1_0000_0000_0000_0000;
}

spec fn before(f: int, t: int, cf: int, ci: int) -> bool {
    f < cf || (f == cf && t < ci)
}

/// `m` groups exactly the polygon edges that come before loop `ci` of polygon `cf`.
spec fn built_upto(
    m: EdgeMap,
    starts: Seq<usize>,
    totals: Seq<usize>,
    verts: Seq<usize>,
    cf: int,
    ci: int,
) -> bool {
    let n = m.keys@.len();
    &&& m.entries@.len() == n
    &&& forall|i: int, j: int| 0 <= i < j < n ==> m.keys@[i] != m.keys@[j]
    &&& forall|g: int| 0 <= g < n ==> (#[trigger] m.entries@[g])@.no_duplicates() && in_order(m.entries@[g]@)
    &&& forall|g1: int, g2: int|
        0 <= g1 < g2 < n ==> ref_precedes(#[trigger] m.entries@[g1]@[0], #[trigger] m.entries@[g2]@[0])
    &&& forall|g: int, k: int|
        0 <= g < n && 0 <= k < m.entries@[g]@.len() ==> {
            let r = #[trigger] m.entries@[g]@[k];
            &&& is_face_edge(starts, totals, r)
            &&& edge_key_of(verts, r) == m.keys@[g]
            &&& before(r.face_idx as int, r.loop_curr - starts[r.face_idx as int], cf, ci)
        }
    &&& forall|f: int, t: int|
        0 <= f < starts.len() && 0 <= t < totals[f] && before(f, t, cf, ci) ==> m.has_group(verts, #[trigger] face_edge(starts, totals, f, t))
}

spec fn index_ok(index: Map<u128, usize>, keys: Seq<EdgeKey>) -> bool {
    &&& forall|c: u128|
        #[trigger] index.contains_key(c) ==> index[c] < keys.len() && keys[index[c] as int].spec_code()
            == c
    &&& forall|g: int| 0 <= g < keys.len() ==> index.contains_key(#[trigger] keys[g].spec_code())
}

/// Groups the boundary edges of all polygons by undirected edge. Loop `i` of a
/// polygon with `total` loops joins it to loop `(i + 1) % total`.
pub fn build_edge_map(
    num_faces: usize,
    poly_loop_starts: &[usize],
    poly_loop_totals: &[usize],
    loop_vert_indices: &[usize],
) -> (m: EdgeMap)
    requires
        poly_loop_starts@.len() == num_faces,
        valid_mesh(poly_loop_starts@, poly_loop_totals@, loop_vert_indices@.len() as int),
    ensures
        m.describes(poly_loop_starts@, poly_loop_totals@, loop_vert_indices@),
{
    broadcast use vstd::std_specs::hash::group_hash_axioms;

    let ghost starts = poly_loop_starts@;
    let ghost totals = poly_loop_totals@;
    let ghost verts = loop_vert_indices@;
    let mut index: HashMap<u128, usize> = HashMap::new();
    let mut m = EdgeMap { keys: Vec::new(), entries: Vec::new() };
    let n_loops = loop_vert_indices.len();
    let mut f: usize = 0;
    while f < num_faces
        invariant
            f <= num_faces,
            starts == poly_loop_starts@,
            totals == poly_loop_totals@,
            verts == loop_vert_indices@,
            verts.len() == n_loops,
            starts.len() == num_faces,
            valid_mesh(starts, totals, verts.len() as int),
            built_upto(m, starts, totals, verts, f as int, 0),
            index_ok(index@, m.keys@),
        decreases num_faces - f,
    {
        let start = poly_loop_starts[f];
        let total = poly_loop_totals[f];
        assert(totals[f as int] >= 1 && starts[f as int] + totals[f as int] <= verts.len());
        let mut i: usize = 0;
        while i < total
            invariant
                f < num_faces,
                i <= total,
                start == starts[f as int],
                total == totals[f as int],
                start + total <= verts.len(),
                verts.len() == n_loops,
                starts == poly_loop_starts@,
                totals == poly_loop_totals@,
                verts == loop_vert_indices@,
                starts.len() == num_faces,
                valid_mesh(starts, totals, verts.len() as int),
                built_upto(m, starts, totals, verts, f as int, i as int),
                index_ok(index@, m.keys@),
            decreases total - i,
        {
            let loop_curr = start + i;
            let loop_next = start + (i + 1) % total;
            let key = EdgeKey::new(loop_vert_indices[loop_curr], loop_vert_indices[loop_next]);
            let r = FaceEdgeRef { face_idx: f, loop_curr, loop_next };
            let ghost old_m = m;
            proof {
                assert(r == face_edge(starts, totals, f as int, i as int));
                assert(is_face_edge(starts, totals, r));
                assert(edge_key_of(verts, r) == key);
                assert forall|g: int| 0 <= g < old_m.keys@.len() implies !(#[trigger] old_m.entries@[g])@.contains(r) by {
                    if old_m.entries@[g]@.contains(r) {
                        let k = choose|k: int| 0 <= k < old_m.entries@[g]@.len() && old_m.entries@[g]@[k] == r;
                        assert(before(r.face_idx as int, r.loop_curr - starts[r.face_idx as int], f as int, i as int));
                    }
                }
            }
            let code = key.code();
            match index.get(&code) {
                Some(gi) => {
                    let gi = *gi;
                    proof {
                        lemma_code_injective(m.keys@[gi as int], key);
                    }
                    let ghost old_len = old_m.entries@[gi as int]@.len();
                    let mut v: Vec<FaceEdgeRef> = Vec::new();
                    m.entries.set_and_swap(gi, &mut v);
                    v.push(r);
                    m.entries.set_and_swap(gi, &mut v);
                    proof {
                        assert(m.entries@[gi as int]@ == old_m.entries@[gi as int]@.push(r));
                        assert(m.entries@[gi as int]@[old_len as int] == r);
                        assert(m.entries@[gi as int]@.contains(r));
                        assert forall|ff: int, t: int|
                            0 <= ff < starts.len() && 0 <= t < totals[ff] && before(ff, t, f as int, i + 1) implies m.has_group(verts, #[trigger] face_edge(starts, totals, ff, t)) by {
                            if ff == f && t == i {
                                assert(face_edge(starts, totals, ff, t) == r);
                                assert(m.keys@[gi as int] == edge_key_of(verts, r));
                            } else {
                                assert(before(ff, t, f as int, i as int));
                                assert(old_m.has_group(verts, face_edge(starts, totals, ff, t)));
                                let g = choose|g: int|
                                    0 <= g < old_m.keys@.len() && #[trigger] old_m.keys@[g] == edge_key_of(verts, face_edge(starts, totals, ff, t))
                                        && old_m.entries@[g]@.contains(face_edge(starts, totals, ff, t));
                                assert(m.keys@[g] == old_m.keys@[g]);
                                if g == gi {
                                    assert(m.entries@[g]@[old_m.entries@[g]@.index_of(face_edge(starts, totals, ff, t))]
                                        == face_edge(starts, totals, ff, t));
                                } else {
                                    assert(m.entries@[g] == old_m.entries@[g]);
                                }
                            }
                        }
                        assert forall|g: int, k: int|
                            0 <= g < m.keys@.len() && 0 <= k < m.entries@[g]@.len() implies {
                                let q = #[trigger] m.entries@[g]@[k];
                                &&& is_face_edge(starts, totals, q)
                                &&& edge_key_of(verts, q) == m.keys@[g]
                                &&& before(q.face_idx as int, q.loop_curr - starts[q.face_idx as int], f as int, i + 1)
                            } by {
                            if g == gi && k == old_m.entries@[g]@.len() {
                            } else {
                                assert(m.entries@[g]@[k] == old_m.entries@[g]@[k]);
                            }
                        }
                        assert forall|g: int| 0 <= g < m.keys@.len() implies (#[trigger] m.entries@[g])@.no_duplicates() && in_order(m.entries@[g]@) by {
                            if g != gi {
                                assert(m.entries@[g] == old_m.entries@[g]);
                            } else {
                                assert(in_order(old_m.entries@[g]@));
                                assert forall|a: int, b: int| 0 <= a < b < m.entries@[g]@.len() implies ref_precedes(#[trigger] m.entries@[g]@[a], #[trigger] m.entries@[g]@[b]) by {
                                    let q = old_m.entries@[g]@[a];
                                    assert(m.entries@[g]@[a] == q);
                                    if b == old_len {
                                        assert(is_face_edge(starts, totals, q));
                                        assert(before(q.face_idx as int, q.loop_curr - starts[q.face_idx as int], f as int, i as int));
                                    } else {
                                        assert(m.entries@[g]@[b] == old_m.entries@[g]@[b]);
                                    }
                                }
                            }
                        }
                        assert forall|g: int| 0 <= g < m.keys@.len() implies (#[trigger] m.entries@[g])@[0] == old_m.entries@[g]@[0] by {
                            assert(in_order(old_m.entries@[g]@));
                            if g == gi {
                                assert(m.entries@[g]@[0] == old_m.entries@[g]@[0]);
                            } else {
                                assert(m.entries@[g] == old_m.entries@[g]);
                            }
                        }
                    }
                },
                None => {
                    proof {
                        assert forall|g: int| 0 <= g < m.keys@.len() implies m.keys@[g] != key by {
                            assert(index@.contains_key(m.keys@[g].spec_code()));
                        }
                    }
                    index.insert(code, m.keys.len());
                    m.keys.push(key);
                    m.entries.push(vec![r]);
                    proof {
                        let n = m.keys@.len();
                        assert(m.entries@[n - 1]@ == seq![r]);
                        assert(m.entries@[n - 1]@.contains(r)) by {
                            assert(m.entries@[n - 1]@[0] == r);
                        }
                        assert forall|ff: int, t: int|
                            0 <= ff < starts.len() && 0 <= t < totals[ff] && before(ff, t, f as int, i + 1) implies m.has_group(verts, #[trigger] face_edge(starts, totals, ff, t)) by {
                            if ff == f && t == i {
                                assert(face_edge(starts, totals, ff, t) == r);
                                assert(m.keys@[n - 1] == edge_key_of(verts, r));
                            } else {
                                assert(before(ff, t, f as int, i as int));
                                assert(old_m.has_group(verts, face_edge(starts, totals, ff, t)));
                                let g = choose|g: int|
                                    0 <= g < old_m.keys@.len() && #[trigger] old_m.keys@[g] == edge_key_of(verts, face_edge(starts, totals, ff, t))
                                        && old_m.entries@[g]@.contains(face_edge(starts, totals, ff, t));
                                assert(m.entries@[g] == old_m.entries@[g]);
                                assert(m.keys@[g] == old_m.keys@[g]);
                            }
                        }
                        assert forall|g: int, k: int|
                            0 <= g < m.keys@.len() && 0 <= k < m.entries@[g]@.len() implies {
                                let q = #[trigger] m.entries@[g]@[k];
                                &&& is_face_edge(starts, totals, q)
                                &&& edge_key_of(verts, q) == m.keys@[g]
                                &&& before(q.face_idx as int, q.loop_curr - starts[q.face_idx as int], f as int, i + 1)
                            } by {
                            if g < n - 1 {
                                assert(m.entries@[g] == old_m.entries@[g]);
                            }
                        }
                        assert forall|g: int| 0 <= g < n implies (#[trigger] m.entries@[g])@.no_duplicates() && in_order(m.entries@[g]@) by {
                            if g < n - 1 {
                                assert(m.entries@[g] == old_m.entries@[g]);
                            }
                        }
                        assert forall|g1: int, g2: int|
                            0 <= g1 < g2 < n implies ref_precedes(#[trigger] m.entries@[g1]@[0], #[trigger] m.entries@[g2]@[0]) by {
                            assert(m.entries@[g1] == old_m.entries@[g1]);
                            assert(in_order(old_m.entries@[g1]@));
                            let q = old_m.entries@[g1]@[0];
                            if g2 < n - 1 {
                                assert(m.entries@[g2] == old_m.entries@[g2]);
                            } else {
                                assert(m.entries@[g2]@[0] == r);
                                assert(is_face_edge(starts, totals, q));
                                assert(before(q.face_idx as int, q.loop_curr - starts[q.face_idx as int], f as int, i as int));
                            }
                        }
                        assert forall|c: u128| #[trigger] index@.contains_key(c) implies index@[c] < m.keys@.len()
                            && m.keys@[index@[c] as int].spec_code() == c by {
                            if c != code {
                                assert(old_m.keys@[index@[c] as int] == m.keys@[index@[c] as int]);
                            }
                        }
                        assert forall|g: int| 0 <= g < n implies index@.contains_key(#[trigger] m.keys@[g].spec_code()) by {
                            if g < n - 1 {
                                assert(old_m.keys@[g] == m.keys@[g]);
                            }
                        }
                    }
                },
            }
            i = i + 1;
        }
        proof {
            assert forall|ff: int, t: int|
                0 <= ff < starts.len() && 0 <= t < totals[ff] && before(ff, t, f + 1, 0) implies m.has_group(verts, #[trigger] face_edge(starts, totals, ff, t)) by {
                assert(before(ff, t, f as int, total as int));
            }
            assert forall|g: int, k: int|
                0 <= g < m.keys@.len() && 0 <= k < m.entries@[g]@.len() implies {
                    let q = #[trigger] m.entries@[g]@[k];
                    before(q.face_idx as int, q.loop_curr - starts[q.face_idx as int], f + 1, 0)
                } by {
                let q = m.entries@[g]@[k];
                assert(before(q.face_idx as int, q.loop_curr - starts[q.face_idx as int], f as int, total as int));
            }
        }
        f = f + 1;
    }
    proof {
        let n = m.keys@.len();
        assert forall|f: int, t: int|
            0 <= f < starts.len() && 0 <= t < totals[f] implies m.has_group(verts, #[trigger] face_edge(starts, totals, f, t)) by {
            assert(before(f, t, num_faces as int, 0));
        }
    }
    m
}

/// The loop of `r` that sits at the lower vertex index of its edge.
pub open spec fn lo_loop(verts: Seq<usize>, r: FaceEdgeRef) -> usize {
    if verts[r.loop_curr as int] < verts[r.loop_next as int] {
        r.loop_curr
    } else {
        r.loop_next
    }
}

/// The loop of `r` that sits at the higher vertex index of its edge.
pub open spec fn hi_loop(verts: Seq<usize>, r: FaceEdgeRef) -> usize {
    if verts[r.loop_curr as int] < verts[r.loop_next as int] {
        r.loop_next
    } else {
        r.loop_curr
    }
}

/// Two traversals of one edge whose texture coordinates are to be compared:
/// `a_lo` with `b_lo` and `a_hi` with `b_hi`, each pair at the same vertex.
#[derive(Debug, Clone, Copy, PartialEq, Eq, Structural)]
pub struct EdgePair {
    pub face_a: usize,
    pub face_b: usize,
    pub a_lo: usize,
    pub a_hi: usize,
    pub b_lo: usize,
    pub b_hi: usize,
}

pub open spec fn edge_pair(verts: Seq<usize>, r1: FaceEdgeRef, r2: FaceEdgeRef) -> EdgePair {
    EdgePair {
        face_a: r1.face_idx,
        face_b: r2.face_idx,
        a_lo: lo_loop(verts, r1),
        a_hi: hi_loop(verts, r1),
        b_lo: lo_loop(verts, r2),
        b_hi: hi_loop(verts, r2),
    }
}

/// Orders the two loops of `r` by the vertex index they reference.
fn sorted_loops(r: FaceEdgeRef, loop_vert_indices: &[usize]) -> (res: (usize, usize))
    requires
        r.loop_curr < loop_vert_indices@.len(),
        r.loop_next < loop_vert_indices@.len(),
    ensures
        res == (lo_loop(loop_vert_indices@, r), hi_loop(loop_vert_indices@, r)),
{
    if loop_vert_indices[r.loop_curr] < loop_vert_indices[r.loop_next] {
        (r.loop_curr, r.loop_next)
    } else {
        (r.loop_next, r.loop_curr)
    }
}

impl EdgeMap {
    /// `p` compares two distinct traversals `i < j` listed under one edge.
    pub open spec fn is_pair_of(&self, verts: Seq<usize>, p: EdgePair) -> bool {
        exists|g: int, i: int, j: int|
            0 <= g < self.entries@.len() && 0 <= i < j < self.entries@[g]@.len() && p == #[trigger] edge_pair(
                verts,
                self.entries@[g]@[i],
                self.entries@[g]@[j],
            )
    }

    /// Every loop that the map refers to lies inside `0..n_loops`.
    pub open spec fn loops_within(&self, n_loops: int) -> bool {
        forall|g: int, k: int|
            0 <= g < self.entries@.len() && 0 <= k < self.entries@[g]@.len() ==> {
                let r = #[trigger] self.entries@[g]@[k];
                r.loop_curr < n_loops && r.loop_next < n_loops
            }
    }
}

/// The pairs of traversal `i` of `s` with each of traversals `i + 1 .. j`.
pub open spec fn pairs_at(verts: Seq<usize>, s: Seq<FaceEdgeRef>, i: int, j: int) -> Seq<EdgePair> {
    Seq::new((j - (i + 1)) as nat, |x: int| edge_pair(verts, s[i], s[i + 1 + x]))
}

/// All pairs `(a, b)` with `a < b` of a group whose first traversal is below `i`,
/// by `a` then `b`.
pub open spec fn group_pairs(verts: Seq<usize>, s: Seq<FaceEdgeRef>, i: nat) -> Seq<EdgePair>
    decreases i,
{
    if i == 0 {
        Seq::empty()
    } else {
        group_pairs(verts, s, (i - 1) as nat) + pairs_at(verts, s, i - 1, s.len() as int)
    }
}

/// The pairs of the first `g` groups, group by group.
pub open spec fn all_pairs(verts: Seq<usize>, groups: Seq<Seq<FaceEdgeRef>>, g: nat) -> Seq<EdgePair>
    decreases g,
{
    if g == 0 {
        Seq::empty()
    } else {
        all_pairs(verts, groups, (g - 1) as nat) + group_pairs(verts, groups[g - 1], groups[g - 1].len())
    }
}

impl EdgeMap {
    pub open spec fn groups(&self) -> Seq<Seq<FaceEdgeRef>> {
        self.entries@.map_values(|v: Vec<FaceEdgeRef>| v@)
    }
}

/// Lists, for every edge, each pair of its traversals, so that their texture
/// coordinates can be compared. An edge with one traversal gives no pair.
pub fn uv_compare_pairs(m: &EdgeMap, loop_vert_indices: &[usize]) -> (ps: Vec<EdgePair>)
    requires
        m.loops_within(loop_vert_indices@.len() as int),
    ensures
        ps@ == all_pairs(loop_vert_indices@, m.groups(), m.entries@.len()),
        forall|k: int| 0 <= k < ps@.len() ==> m.is_pair_of(loop_vert_indices@, #[trigger] ps@[k]),
        forall|g: int, i: int, j: int|
            0 <= g < m.entries@.len() && 0 <= i < j < m.entries@[g]@.len() ==> ps@.contains(
                #[trigger] edge_pair(loop_vert_indices@, m.entries@[g]@[i], m.entries@[g]@[j]),
            ),
{
    let ghost verts = loop_vert_indices@;
    let mut ps: Vec<EdgePair> = Vec::new();
    let mut g: usize = 0;
    while g < m.entries.len()
        invariant
            g <= m.entries@.len(),
            ps@ == all_pairs(verts, m.groups(), g as nat),
            verts == loop_vert_indices@,
            m.loops_within(verts.len() as int),
            forall|k: int| 0 <= k < ps@.len() ==> m.is_pair_of(verts, #[trigger] ps@[k]),
            forall|g2: int, i: int, j: int|
                0 <= g2 < g && 0 <= i < j < m.entries@[g2]@.len() ==> ps@.contains(
                    #[trigger] edge_pair(verts, m.entries@[g2]@[i], m.entries@[g2]@[j]),
                ),
        decreases m.entries@.len() - g,
    {
        let refs = &m.entries[g];
        let mut i: usize = 0;
        proof {
            assert(ps@ =~= all_pairs(verts, m.groups(), g as nat) + group_pairs(verts, refs@, 0));
        }
        while i < refs.len()
            invariant
                g < m.entries@.len(),
                refs == m.entries@[g as int],
                i <= refs@.len(),
                ps@ == all_pairs(verts, m.groups(), g as nat) + group_pairs(verts, refs@, i as nat),
                verts == loop_vert_indices@,
                m.loops_within(verts.len() as int),
                forall|k: int| 0 <= k < ps@.len() ==> m.is_pair_of(verts, #[trigger] ps@[k]),
                forall|g2: int, i2: int, j: int|
                    (0 <= g2 < g || (g2 == g && i2 < i)) && 0 <= i2 < j < m.entries@[g2]@.len() ==> ps@.contains(
                        #[trigger] edge_pair(verts, m.entries@[g2]@[i2], m.entries@[g2]@[j]),
                    ),
            decreases refs@.len() - i,
        {
            let r1 = refs[i];
            assert(r1 == m.entries@[g as int]@[i as int]);
            let (a_lo, a_hi) = sorted_loops(r1, loop_vert_indices);
            proof {
                assert(pairs_at(verts, refs@, i as int, i + 1) =~= Seq::<EdgePair>::empty());
                assert(ps@ =~= all_pairs(verts, m.groups(), g as nat) + group_pairs(verts, refs@, i as nat)
                    + pairs_at(verts, refs@, i as int, i + 1));
            }
            let mut j: usize = i + 1;
            while j < refs.len()
                invariant
                    g < m.entries@.len(),
                    refs == m.entries@[g as int],
                    i < j <= refs@.len(),
                    ps@ == all_pairs(verts, m.groups(), g as nat) + group_pairs(verts, refs@, i as nat)
                        + pairs_at(verts, refs@, i as int, j as int),
                    r1 == refs@[i as int],
                    a_lo == lo_loop(verts, r1),
                    a_hi == hi_loop(verts, r1),
                    verts == loop_vert_indices@,
                    m.loops_within(verts.len() as int),
                    forall|k: int| 0 <= k < ps@.len() ==> m.is_pair_of(verts, #[trigger] ps@[k]),
                    forall|g2: int, i2: int, j2: int|
                        (0 <= g2 < g || (g2 == g && i2 < i) || (g2 == g && i2 == i && j2 < j)) && 0 <= i2 < j2
                            < m.entries@[g2]@.len() ==> ps@.contains(
                            #[trigger] edge_pair(verts, m.entries@[g2]@[i2], m.entries@[g2]@[j2]),
                        ),
                decreases refs@.len() - j,
            {
                let r2 = refs[j];
                assert(r2 == m.entries@[g as int]@[j as int]);
                let (b_lo, b_hi) = sorted_loops(r2, loop_vert_indices);
                let p = EdgePair { face_a: r1.face_idx, face_b: r2.face_idx, a_lo, a_hi, b_lo, b_hi };
                let ghost old_ps = ps@;
                ps.push(p);
                proof {
                    assert(p == edge_pair(verts, m.entries@[g as int]@[i as int], m.entries@[g as int]@[j as int]));
                    assert(ps@[old_ps.len() as int] == p);
                    assert(pairs_at(verts, refs@, i as int, j + 1) =~= pairs_at(verts, refs@, i as int, j as int).push(p));
                    assert(ps@ =~= all_pairs(verts, m.groups(), g as nat) + group_pairs(verts, refs@, i as nat)
                        + pairs_at(verts, refs@, i as int, j + 1));
                    assert forall|k: int| 0 <= k < ps@.len() implies m.is_pair_of(verts, #[trigger] ps@[k]) by {
                        if k < old_ps.len() {
                            assert(ps@[k] == old_ps[k]);
                        }
                    }
                    assert forall|g2: int, i2: int, j2: int|
                        (0 <= g2 < g || (g2 == g && i2 < i) || (g2 == g && i2 == i && j2 < j + 1)) && 0 <= i2 < j2
                            < m.entries@[g2]@.len() implies ps@.contains(
                            #[trigger] edge_pair(verts, m.entries@[g2]@[i2], m.entries@[g2]@[j2]),
                        ) by {
                        let q = edge_pair(verts, m.entries@[g2]@[i2], m.entries@[g2]@[j2]);
                        if g2 == g && i2 == i && j2 == j {
                        } else {
                            assert(old_ps.contains(q));
                            let k = choose|k: int| 0 <= k < old_ps.len() && old_ps[k] == q;
                            assert(ps@[k] == q);
                        }
                    }
                }
                j = j + 1;
            }
            proof {
                assert(group_pairs(verts, refs@, (i + 1) as nat) == group_pairs(verts, refs@, i as nat)
                    + pairs_at(verts, refs@, i as int, refs@.len() as int));
                assert(ps@ =~= all_pairs(verts, m.groups(), g as nat) + group_pairs(verts, refs@, (i + 1) as nat));
            }
            i = i + 1;
        }
        proof {
            assert(m.groups()[g as int] == refs@);
            assert(ps@ =~= all_pairs(verts, m.groups(), (g + 1) as nat));
        }
        g = g + 1;
    }
    ps
}

/// Both polygons of every pair are among the first `n`.
pub open spec fn pairs_within(pairs: Seq<EdgePair>, n: int) -> bool {
    forall|k: int| 0 <= k < pairs.len() ==> #[trigger] pairs[k].face_a < n && pairs[k].face_b < n
}

/// Two distinct traversals of one undirected edge.
pub open spec fn share_edge(
    starts: Seq<usize>,
    totals: Seq<usize>,
    verts: Seq<usize>,
    f1: int,
    t1: int,
    f2: int,
    t2: int,
) -> bool {
    &&& 0 <= f1 < starts.len() && 0 <= t1 < totals[f1]
    &&& 0 <= f2 < starts.len() && 0 <= t2 < totals[f2]
    &&& (f1, t1) != (f2, t2)
    &&& edge_key_of(verts, face_edge(starts, totals, f1, t1)) == edge_key_of(
        verts,
        face_edge(starts, totals, f2, t2),
    )
}

/// `p` compares two traversals of one undirected edge.
pub open spec fn compares_shared_edge(
    starts: Seq<usize>,
    totals: Seq<usize>,
    verts: Seq<usize>,
    p: EdgePair,
) -> bool {
    exists|f1: int, t1: int, f2: int, t2: int|
        #[trigger] share_edge(starts, totals, verts, f1, t1, f2, t2) && p == edge_pair(
            verts,
            face_edge(starts, totals, f1, t1),
            face_edge(starts, totals, f2, t2),
        )
}

/// `ps` lists the pairs of the mesh's edge map, group by group, each group by
/// first then second traversal.
pub open spec fn lists_mesh_pairs(
    starts: Seq<usize>,
    totals: Seq<usize>,
    verts: Seq<usize>,
    ps: Seq<EdgePair>,
) -> bool {
    exists|m: EdgeMap|
        #[trigger] m.describes(starts, totals, verts) && ps == all_pairs(verts, m.groups(), m.entries@.len())
}

/// The pair list of a mesh is determined by the mesh.
pub proof fn lemma_mesh_pairs_unique(
    starts: Seq<usize>,
    totals: Seq<usize>,
    verts: Seq<usize>,
    ps1: Seq<EdgePair>,
    ps2: Seq<EdgePair>,
)
    requires
        lists_mesh_pairs(starts, totals, verts, ps1),
        lists_mesh_pairs(starts, totals, verts, ps2),
    ensures
        ps1 == ps2,
{
    let m1 = choose|m: EdgeMap|
        #[trigger] m.describes(starts, totals, verts) && ps1 == all_pairs(verts, m.groups(), m.entries@.len());
    let m2 = choose|m: EdgeMap|
        #[trigger] m.describes(starts, totals, verts) && ps2 == all_pairs(verts, m.groups(), m.entries@.len());
    lemma_edge_map_unique(m1, m2, starts, totals, verts);
    assert(m1.groups().len() == m1.entries@.len());
    assert(m2.groups().len() == m2.entries@.len());
}

/// The pairs of polygon edges whose texture coordinates are to be compared:
/// every two traversals of one undirected edge, and nothing else.
pub fn edge_pairs(
    num_faces: usize,
    poly_loop_starts: &[usize],
    poly_loop_totals: &[usize],
    loop_vert_indices: &[usize],
) -> (ps: Vec<EdgePair>)
    requires
        poly_loop_starts@.len() == num_faces,
        valid_mesh(poly_loop_starts@, poly_loop_totals@, loop_vert_indices@.len() as int),
    ensures
        pairs_within(ps@, num_faces as int),
        lists_mesh_pairs(poly_loop_starts@, poly_loop_totals@, loop_vert_indices@, ps@),
        forall|k: int|
            0 <= k < ps@.len() ==> compares_shared_edge(
                poly_loop_starts@,
                poly_loop_totals@,
                loop_vert_indices@,
                #[trigger] ps@[k],
            ),
        forall|f1: int, t1: int, f2: int, t2: int|
            #[trigger] share_edge(poly_loop_starts@, poly_loop_totals@, loop_vert_indices@, f1, t1, f2, t2)
                ==> ps@.contains(
                edge_pair(
                    loop_vert_indices@,
                    face_edge(poly_loop_starts@, poly_loop_totals@, f1, t1),
                    face_edge(poly_loop_starts@, poly_loop_totals@, f2, t2),
                ),
            ) || ps@.contains(
                edge_pair(
                    loop_vert_indices@,
                    face_edge(poly_loop_starts@, poly_loop_totals@, f2, t2),
                    face_edge(poly_loop_starts@, poly_loop_totals@, f1, t1),
                ),
            ),
{
    let ghost starts = poly_loop_starts@;
    let ghost totals = poly_loop_totals@;
    let ghost verts = loop_vert_indices@;
    let n_loops = loop_vert_indices.len();
    let m = build_edge_map(num_faces, poly_loop_starts, poly_loop_totals, loop_vert_indices);
    proof {
        assert forall|g: int, k: int|
            0 <= g < m.entries@.len() && 0 <= k < m.entries@[g]@.len() implies {
                let r = #[trigger] m.entries@[g]@[k];
                r.loop_curr < verts.len() && r.loop_next < verts.len()
            } by {
            let r = m.entries@[g]@[k];
            let f = r.face_idx as int;
            assert(is_face_edge(starts, totals, r));
            assert(totals[f] >= 1 && starts[f] + totals[f] <= verts.len());
            let t = r.loop_curr - starts[f];
            assert((t + 1) % (totals[f] as int) < totals[f]);
        }
    }
    let ps = uv_compare_pairs(&m, loop_vert_indices);
    proof {
        assert(m.describes(starts, totals, verts));
        assert forall|k: int| 0 <= k < ps@.len() implies #[trigger] ps@[k].face_a < num_faces && ps@[k].face_b < num_faces
            && compares_shared_edge(starts, totals, verts, ps@[k]) by {
            assert(m.is_pair_of(verts, ps@[k]));
            let (g, i, j) = choose|g: int, i: int, j: int|
                0 <= g < m.entries@.len() && 0 <= i < j < m.entries@[g]@.len() && ps@[k] == #[trigger] edge_pair(
                    verts,
                    m.entries@[g]@[i],
                    m.entries@[g]@[j],
                );
            let r1 = m.entries@[g]@[i];
            let r2 = m.entries@[g]@[j];
            assert(is_face_edge(starts, totals, r1) && edge_key_of(verts, r1) == m.keys@[g]);
            assert(is_face_edge(starts, totals, r2) && edge_key_of(verts, r2) == m.keys@[g]);
            assert(r1 != r2);
            let f1 = r1.face_idx as int;
            let t1 = r1.loop_curr - starts[f1];
            let f2 = r2.face_idx as int;
            let t2 = r2.loop_curr - starts[f2];
            assert(share_edge(starts, totals, verts, f1, t1, f2, t2));
        }
        assert forall|k: int| 0 <= k < ps@.len() implies compares_shared_edge(starts, totals, verts, #[trigger] ps@[k]) by {
            assert(ps@[k].face_a < num_faces);
        }
        assert forall|f1: int, t1: int, f2: int, t2: int|
            #[trigger] share_edge(starts, totals, verts, f1, t1, f2, t2) implies ps@.contains(
                edge_pair(verts, face_edge(starts, totals, f1, t1), face_edge(starts, totals, f2, t2)),
            ) || ps@.contains(
                edge_pair(verts, face_edge(starts, totals, f2, t2), face_edge(starts, totals, f1, t1)),
            ) by {
            let o1 = face_edge(starts, totals, f1, t1);
            let o2 = face_edge(starts, totals, f2, t2);
            assert(m.has_group(verts, o1));
            assert(m.has_group(verts, o2));
            let g1 = choose|g: int|
                0 <= g < m.keys@.len() && #[trigger] m.keys@[g] == edge_key_of(verts, o1) && m.entries@[g]@.contains(o1);
            let g2 = choose|g: int|
                0 <= g < m.keys@.len() && #[trigger] m.keys@[g] == edge_key_of(verts, o2) && m.entries@[g]@.contains(o2);
            if g1 != g2 {
                if g1 < g2 {
                    assert(m.keys@[g1] != m.keys@[g2]);
                } else {
                    assert(m.keys@[g2] != m.keys@[g1]);
                }
            }
            let i1 = choose|i: int| 0 <= i < m.entries@[g1]@.len() && m.entries@[g1]@[i] == o1;
            let i2 = choose|i: int| 0 <= i < m.entries@[g1]@.len() && m.entries@[g1]@[i] == o2;
            assert(o1 != o2) by {
                assert(totals[f1] >= 1 && starts[f1] + totals[f1] <= verts.len());
                if f1 == f2 {
                    assert(verts.len() == n_loops);
                    assert(o1.loop_curr == starts[f1] + t1);
                    assert(o2.loop_curr == starts[f1] + t2);
                    assert(o1.loop_curr != o2.loop_curr);
                }
            }
            if i1 < i2 {
                assert(ps@.contains(edge_pair(verts, m.entries@[g1]@[i1], m.entries@[g1]@[i2])));
            } else {
                assert(ps@.contains(edge_pair(verts, m.entries@[g1]@[i2], m.entries@[g1]@[i1])));
            }
        }
    }
    ps
}

/// The endpoints of a traversal are ordered by vertex index, so walking an
/// edge the other way puts the same loops at its lower and higher vertex.
pub proof fn lemma_sorted_loops_ignore_direction(verts: Seq<usize>, r: FaceEdgeRef)
    requires
        r.loop_curr < verts.len(),
        r.loop_next < verts.len(),
        verts[r.loop_curr as int] != verts[r.loop_next as int],
    ensures
        ({
            let back = FaceEdgeRef { face_idx: r.face_idx, loop_curr: r.loop_next, loop_next: r.loop_curr };
            lo_loop(verts, back) == lo_loop(verts, r) && hi_loop(verts, back) == hi_loop(verts, r)
        }),
{
}

/// Two lists, each strictly in walk order, that hold the same traversals are equal.
proof fn lemma_sorted_refs_unique(s1: Seq<FaceEdgeRef>, s2: Seq<FaceEdgeRef>)
    requires
        forall|a: int, b: int| 0 <= a < b < s1.len() ==> ref_precedes(#[trigger] s1[a], #[trigger] s1[b]),
        forall|a: int, b: int| 0 <= a < b < s2.len() ==> ref_precedes(#[trigger] s2[a], #[trigger] s2[b]),
        forall|x: FaceEdgeRef| s1.contains(x) <==> s2.contains(x),
    ensures
        s1 == s2,
    decreases s1.len(),
{
    if s1.len() == 0 {
        if s2.len() > 0 {
            assert(s2.contains(s2[0]));
        }
        assert(s1 =~= s2);
    } else {
        assert(s1.contains(s1[0]));
        let j = choose|j: int| 0 <= j < s2.len() && s2[j] == s1[0];
        assert(s2.contains(s2[0]));
        let i = choose|i: int| 0 <= i < s1.len() && s1[i] == s2[0];
        if s1[0] != s2[0] {
            assert(j > 0 && i > 0);
            assert(ref_precedes(s2[0], s2[j]));
            assert(ref_precedes(s1[0], s1[i]));
        }
        let t1 = s1.drop_first();
        let t2 = s2.drop_first();
        assert forall|a: int, b: int| 0 <= a < b < t1.len() implies ref_precedes(#[trigger] t1[a], #[trigger] t1[b]) by {
            assert(t1[a] == s1[a + 1] && t1[b] == s1[b + 1]);
        }
        assert forall|a: int, b: int| 0 <= a < b < t2.len() implies ref_precedes(#[trigger] t2[a], #[trigger] t2[b]) by {
            assert(t2[a] == s2[a + 1] && t2[b] == s2[b + 1]);
        }
        assert forall|x: FaceEdgeRef| t1.contains(x) <==> t2.contains(x) by {
            if t1.contains(x) {
                let a = choose|a: int| 0 <= a < t1.len() && t1[a] == x;
                assert(s1[a + 1] == x);
                assert(ref_precedes(s1[0], s1[a + 1]));
                assert(s1.contains(x));
                let b = choose|b: int| 0 <= b < s2.len() && s2[b] == x;
                assert(b != 0);
                assert(t2[b - 1] == x);
            }
            if t2.contains(x) {
                let a = choose|a: int| 0 <= a < t2.len() && t2[a] == x;
                assert(s2[a + 1] == x);
                assert(ref_precedes(s2[0], s2[a + 1]));
                assert(s2.contains(x));
                let b = choose|b: int| 0 <= b < s1.len() && s1[b] == x;
                assert(b != 0);
                assert(t1[b - 1] == x);
            }
        }
        lemma_sorted_refs_unique(t1, t2);
        assert(s1 =~= seq![s1[0]] + t1);
        assert(s2 =~= seq![s2[0]] + t2);
    }
}

/// A group holds exactly the polygon edges with its key.
proof fn lemma_group_content(
    m: EdgeMap,
    starts: Seq<usize>,
    totals: Seq<usize>,
    verts: Seq<usize>,
    g: int,
    x: FaceEdgeRef,
)
    requires
        m.describes(starts, totals, verts),
        0 <= g < m.keys@.len(),
    ensures
        m.entries@[g]@.contains(x) <==> (is_face_edge(starts, totals, x) && edge_key_of(verts, x) == m.keys@[g]),
{
    if m.entries@[g]@.contains(x) {
        let k = choose|k: int| 0 <= k < m.entries@[g]@.len() && m.entries@[g]@[k] == x;
        assert(m.entries@[g]@[k] == x);
    }
    if is_face_edge(starts, totals, x) && edge_key_of(verts, x) == m.keys@[g] {
        let f = x.face_idx as int;
        let t = x.loop_curr - starts[f];
        assert(m.has_group(verts, face_edge(starts, totals, f, t)));
        let g2 = choose|g2: int|
            0 <= g2 < m.keys@.len() && #[trigger] m.keys@[g2] == edge_key_of(verts, x) && m.entries@[g2]@.contains(x);
        if g2 != g {
            if g2 < g {
                assert(m.keys@[g2] != m.keys@[g]);
            } else {
                assert(m.keys@[g] != m.keys@[g2]);
            }
        }
    }
}

/// Groups of two maps of one mesh that share a key are equal.
proof fn lemma_same_key_same_group(
    m1: EdgeMap,
    m2: EdgeMap,
    starts: Seq<usize>,
    totals: Seq<usize>,
    verts: Seq<usize>,
    g1: int,
    g2: int,
)
    requires
        m1.describes(starts, totals, verts),
        m2.describes(starts, totals, verts),
        0 <= g1 < m1.keys@.len(),
        0 <= g2 < m2.keys@.len(),
        m1.keys@[g1] == m2.keys@[g2],
    ensures
        m1.entries@[g1]@ == m2.entries@[g2]@,
{
    assert forall|x: FaceEdgeRef| m1.entries@[g1]@.contains(x) <==> m2.entries@[g2]@.contains(x) by {
        lemma_group_content(m1, starts, totals, verts, g1, x);
        lemma_group_content(m2, starts, totals, verts, g2, x);
    }
    assert(in_order(m1.entries@[g1]@));
    assert(in_order(m2.entries@[g2]@));
    lemma_sorted_refs_unique(m1.entries@[g1]@, m2.entries@[g2]@);
}

/// A mesh has one edge map: two maps that both describe it list the same
/// groups in the same order.
pub proof fn lemma_edge_map_unique(
    m1: EdgeMap,
    m2: EdgeMap,
    starts: Seq<usize>,
    totals: Seq<usize>,
    verts: Seq<usize>,
)
    requires
        m1.describes(starts, totals, verts),
        m2.describes(starts, totals, verts),
    ensures
        m1.groups() == m2.groups(),
{
    let n1 = m1.keys@.len();
    let n2 = m2.keys@.len();
    let f1 = Seq::new(n1, |g: int| m1.entries@[g]@[0]);
    let f2 = Seq::new(n2, |g: int| m2.entries@[g]@[0]);
    // the group of `m2` with the key of group `g` of `m1`, and back
    assert forall|g: int| 0 <= g < n1 implies f2.contains(#[trigger] f1[g]) by {
        assert(in_order(m1.entries@[g]@));
        let x = m1.entries@[g]@[0];
        assert(m1.entries@[g]@.contains(x));
        lemma_group_content(m1, starts, totals, verts, g, x);
        let fx = x.face_idx as int;
        assert(m2.has_group(verts, face_edge(starts, totals, fx, x.loop_curr - starts[fx])));
        let h = choose|h: int|
            0 <= h < m2.keys@.len() && #[trigger] m2.keys@[h] == edge_key_of(verts, x) && m2.entries@[h]@.contains(x);
        lemma_same_key_same_group(m1, m2, starts, totals, verts, g, h);
        assert(f2[h] == x);
    }
    assert forall|g: int| 0 <= g < n2 implies f1.contains(#[trigger] f2[g]) by {
        assert(in_order(m2.entries@[g]@));
        let x = m2.entries@[g]@[0];
        assert(m2.entries@[g]@.contains(x));
        lemma_group_content(m2, starts, totals, verts, g, x);
        let fx = x.face_idx as int;
        assert(m1.has_group(verts, face_edge(starts, totals, fx, x.loop_curr - starts[fx])));
        let h = choose|h: int|
            0 <= h < m1.keys@.len() && #[trigger] m1.keys@[h] == edge_key_of(verts, x) && m1.entries@[h]@.contains(x);
        lemma_same_key_same_group(m2, m1, starts, totals, verts, g, h);
        assert(f1[h] == x);
    }
    assert forall|x: FaceEdgeRef| f1.contains(x) <==> f2.contains(x) by {
        if f1.contains(x) {
            let g = choose|g: int| 0 <= g < n1 && f1[g] == x;
            assert(f2.contains(f1[g]));
        }
        if f2.contains(x) {
            let g = choose|g: int| 0 <= g < n2 && f2[g] == x;
            assert(f1.contains(f2[g]));
        }
    }
    assert forall|a: int, b: int| 0 <= a < b < f1.len() implies ref_precedes(#[trigger] f1[a], #[trigger] f1[b]) by {
        assert(ref_precedes(m1.entries@[a]@[0], m1.entries@[b]@[0]));
    }
    assert forall|a: int, b: int| 0 <= a < b < f2.len() implies ref_precedes(#[trigger] f2[a], #[trigger] f2[b]) by {
        assert(ref_precedes(m2.entries@[a]@[0], m2.entries@[b]@[0]));
    }
    lemma_sorted_refs_unique(f1, f2);
    assert forall|g: int| 0 <= g < n1 implies #[trigger] m1.groups()[g] == m2.groups()[g] by {
        assert(f1[g] == f2[g]);
        assert(in_order(m1.entries@[g]@));
        assert(in_order(m2.entries@[g]@));
        let x = m1.entries@[g]@[0];
        assert(m1.entries@[g]@.contains(x));
        assert(m2.entries@[g]@.contains(x));
        lemma_group_content(m1, starts, totals, verts, g, x);
        lemma_group_content(m2, starts, totals, verts, g, x);
        lemma_same_key_same_group(m1, m2, starts, totals, verts, g, g);
    }
    assert(m1.groups() =~= m2.groups());
}

} // verus!
