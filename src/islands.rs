//! Texture islands: polygons joined wherever two traversals of a shared edge
//! agree in texture coordinates, and the seams where they do not.

use crate::dsu::Dsu;
use crate::edge_map::{pairs_within, EdgePair};
use crate::graph::{leaders_ok, seams_within};
use vstd::prelude::*;

verus! {

/// The leaders after the set of `a` joins the set of `b`.
pub open spec fn merged(roots: Seq<nat>, a: int, b: int) -> Seq<nat> {
    Seq::new(roots.len(), |x: int| if roots[x] == roots[a] { roots[b] } else { roots[x] })
}

/// The leader of each of `n` polygons once the first `k` compared pairs were
/// handled: a pair whose coordinates agree joins the two polygons' islands.
pub open spec fn islands_after(n: nat, pairs: Seq<EdgePair>, connected: Seq<bool>, k: nat) -> Seq<nat>
    decreases k,
{
    if k == 0 {
        Seq::new(n, |i: int| i as nat)
    } else {
        let r = islands_after(n, pairs, connected, (k - 1) as nat);
        if connected[k - 1] {
            merged(r, pairs[k - 1].face_a as int, pairs[k - 1].face_b as int)
        } else {
            r
        }
    }
}

/// The polygon pairs, in order, of the first `k` compared pairs whose
/// coordinates disagree.
pub open spec fn seams_upto(pairs: Seq<EdgePair>, connected: Seq<bool>, k: nat) -> Seq<(usize, usize)>
    decreases k,
{
    if k == 0 {
        Seq::empty()
    } else {
        let s = seams_upto(pairs, connected, (k - 1) as nat);
        if connected[k - 1] {
            s
        } else {
            s.push((pairs[k - 1].face_a, pairs[k - 1].face_b))
        }
    }
}

/// Joins into one island the polygons of each pair whose texture coordinates
/// agree (`connected[k]`), and lists the polygons of every other pair as a seam.
pub fn detect_uv_islands(num_faces: usize, pairs: &[EdgePair], connected: &[bool]) -> (res: (
    Dsu,
    Vec<(usize, usize)>,
))
    requires
        pairs@.len() == connected@.len(),
        pairs_within(pairs@, num_faces as int),
    ensures
        res.0.wf(),
        res.0.len() == num_faces,
        res.0.roots() == islands_after(num_faces as nat, pairs@, connected@, pairs@.len()),
        res.1@ == seams_upto(pairs@, connected@, pairs@.len()),
        seams_within(res.1@, num_faces as int),
{
    let mut dsu = Dsu::new(num_faces);
    let mut seams: Vec<(usize, usize)> = Vec::new();
    let mut k: usize = 0;
    proof {
        assert(dsu.roots() =~= islands_after(num_faces as nat, pairs@, connected@, 0));
    }
    while k < pairs.len()
        invariant
            k <= pairs@.len(),
            pairs@.len() == connected@.len(),
            pairs_within(pairs@, num_faces as int),
            dsu.wf(),
            dsu.len() == num_faces,
            dsu.roots() == islands_after(num_faces as nat, pairs@, connected@, k as nat),
            seams@ == seams_upto(pairs@, connected@, k as nat),
            seams_within(seams@, num_faces as int),
        decreases pairs@.len() - k,
    {
        let p = pairs[k];
        proof {
            assert(p == pairs@[k as int]);
            assert(pairs@[k as int].face_a < num_faces);
            assert(pairs@[k as int].face_b < num_faces);
        }
        proof {
            dsu.lemma_roots();
        }
        if connected[k] {
            dsu.merge(p.face_a, p.face_b);
        } else {
            let ghost s0 = seams@;
            seams.push((p.face_a, p.face_b));
            proof {
                assert forall|j: int| 0 <= j < seams@.len() implies #[trigger] seams@[j].0 < num_faces
                    && seams@[j].1 < num_faces by {
                    if j < s0.len() {
                        assert(seams@[j] == s0[j]);
                    }
                }
            }
        }
        k = k + 1;
        proof {
            assert(dsu.roots() =~= islands_after(num_faces as nat, pairs@, connected@, k as nat));
        }
    }
    (dsu, seams)
}

/// Two polygons of a pair whose texture coordinates agree end in one island,
/// whatever pairs come after it.
pub proof fn lemma_connected_pair_same_island(
    n: nat,
    pairs: Seq<EdgePair>,
    connected: Seq<bool>,
    k: nat,
)
    requires
        pairs.len() == connected.len(),
        pairs_within(pairs, n as int),
        k < pairs.len(),
        connected[k as int],
    ensures
        ({
            let r = islands_after(n, pairs, connected, pairs.len());
            r[pairs[k as int].face_a as int] == r[pairs[k as int].face_b as int]
        }),
{
    let a = pairs[k as int].face_a as int;
    let b = pairs[k as int].face_b as int;
    assert(a < n && b < n);
    lemma_islands_len(n, pairs, connected, k);
    lemma_same_island_stays(n, pairs, connected, k + 1, a, b);
}

/// Polygons that share an island keep sharing one as more pairs are handled.
proof fn lemma_same_island_stays(
    n: nat,
    pairs: Seq<EdgePair>,
    connected: Seq<bool>,
    m: nat,
    x: int,
    y: int,
)
    requires
        m <= pairs.len(),
        pairs.len() == connected.len(),
        0 <= x < n,
        0 <= y < n,
        islands_after(n, pairs, connected, m)[x] == islands_after(n, pairs, connected, m)[y],
    ensures
        islands_after(n, pairs, connected, pairs.len())[x] == islands_after(
            n,
            pairs,
            connected,
            pairs.len(),
        )[y],
    decreases pairs.len() - m,
{
    if m < pairs.len() {
        lemma_islands_len(n, pairs, connected, m);
        lemma_same_island_stays(n, pairs, connected, m + 1, x, y);
    }
}

proof fn lemma_islands_len(n: nat, pairs: Seq<EdgePair>, connected: Seq<bool>, k: nat)
    requires
        k <= pairs.len(),
        pairs.len() == connected.len(),
    ensures
        islands_after(n, pairs, connected, k).len() == n,
    decreases k,
{
    if k > 0 {
        lemma_islands_len(n, pairs, connected, (k - 1) as nat);
    }
}

/// Every pair whose coordinates disagree is listed among the seams.
pub(crate) proof fn lemma_seam_listed(pairs: Seq<EdgePair>, connected: Seq<bool>, m: nat, k: int)
    requires
        pairs.len() == connected.len(),
        m <= pairs.len(),
        0 <= k < m,
        !connected[k],
    ensures
        seams_upto(pairs, connected, m).contains((pairs[k].face_a, pairs[k].face_b)),
    decreases m,
{
    let s = seams_upto(pairs, connected, (m - 1) as nat);
    if k == m - 1 {
        assert(seams_upto(pairs, connected, m)[s.len() as int] == (pairs[k].face_a, pairs[k].face_b));
    } else {
        lemma_seam_listed(pairs, connected, (m - 1) as nat, k);
        let j = choose|j: int| 0 <= j < s.len() && s[j] == (pairs[k].face_a, pairs[k].face_b);
        assert(seams_upto(pairs, connected, m)[j] == s[j]);
    }
}

pub(crate) proof fn lemma_islands_leaders_ok(n: nat, pairs: Seq<EdgePair>, connected: Seq<bool>, k: nat)
    requires
        k <= pairs.len(),
        pairs.len() == connected.len(),
        pairs_within(pairs, n as int),
    ensures
        leaders_ok(islands_after(n, pairs, connected, k)),
        islands_after(n, pairs, connected, k).len() == n,
    decreases k,
{
    if k > 0 {
        lemma_islands_leaders_ok(n, pairs, connected, (k - 1) as nat);
        let r = islands_after(n, pairs, connected, (k - 1) as nat);
        assert(pairs[k - 1].face_a < n && pairs[k - 1].face_b < n);
        let m = islands_after(n, pairs, connected, k);
        assert forall|x: int| 0 <= x < m.len() implies #[trigger] m[x] < m.len() && m[m[x] as int] == m[x] by {
            assert(r[x] < n && r[r[x] as int] == r[x]);
            let b = pairs[k - 1].face_b as int;
            assert(r[b] < n && r[r[b] as int] == r[b]);
        }
    }
}

pub(crate) proof fn lemma_seams_within(n: int, pairs: Seq<EdgePair>, connected: Seq<bool>, k: nat)
    requires
        k <= pairs.len(),
        pairs.len() == connected.len(),
        pairs_within(pairs, n),
    ensures
        seams_within(seams_upto(pairs, connected, k), n),
    decreases k,
{
    if k > 0 {
        lemma_seams_within(n, pairs, connected, (k - 1) as nat);
        let s = seams_upto(pairs, connected, (k - 1) as nat);
        let t = seams_upto(pairs, connected, k);
        assert(pairs[k - 1].face_a < n && pairs[k - 1].face_b < n);
        assert forall|j: int| 0 <= j < t.len() implies #[trigger] t[j].0 < n && t[j].1 < n by {
            if j < s.len() {
                assert(t[j] == s[j]);
            }
        }
    }
}

/// A polygon that appears in no compared pair stays an island of its own: it
/// leads itself and no other polygon joins it.
pub proof fn lemma_unpaired_face_alone(
    n: nat,
    pairs: Seq<EdgePair>,
    connected: Seq<bool>,
    k: nat,
    f: int,
)
    requires
        k <= pairs.len(),
        pairs.len() == connected.len(),
        pairs_within(pairs, n as int),
        0 <= f < n,
        forall|j: int| 0 <= j < pairs.len() ==> #[trigger] pairs[j].face_a != f && pairs[j].face_b != f,
    ensures
        islands_after(n, pairs, connected, k)[f] == f,
        forall|g: int| 0 <= g < n && g != f ==> #[trigger] islands_after(n, pairs, connected, k)[g] != f,
    decreases k,
{
    if k > 0 {
        lemma_unpaired_face_alone(n, pairs, connected, (k - 1) as nat, f);
        lemma_islands_leaders_ok(n, pairs, connected, (k - 1) as nat);
        let r = islands_after(n, pairs, connected, (k - 1) as nat);
        let a = pairs[k - 1].face_a as int;
        let b = pairs[k - 1].face_b as int;
        assert(a != f && b != f && a < n && b < n);
        assert(r[a] != f);
        assert(r[b] != f);
    }
}

/// A polygon that appears in no compared pair is in no seam either.
pub proof fn lemma_unpaired_face_no_seam(pairs: Seq<EdgePair>, connected: Seq<bool>, k: nat, f: usize)
    requires
        k <= pairs.len(),
        pairs.len() == connected.len(),
        forall|j: int| 0 <= j < pairs.len() ==> #[trigger] pairs[j].face_a != f && pairs[j].face_b != f,
    ensures
        forall|j: int| 0 <= j < seams_upto(pairs, connected, k).len() ==> #[trigger] seams_upto(pairs, connected, k)[j].0 != f
            && seams_upto(pairs, connected, k)[j].1 != f,
    decreases k,
{
    if k > 0 {
        lemma_unpaired_face_no_seam(pairs, connected, (k - 1) as nat, f);
        let s = seams_upto(pairs, connected, (k - 1) as nat);
        let t = seams_upto(pairs, connected, k);
        assert(pairs[k - 1].face_a != f && pairs[k - 1].face_b != f);
        assert forall|j: int| 0 <= j < t.len() implies #[trigger] t[j].0 != f && t[j].1 != f by {
            if j < s.len() {
                assert(t[j] == s[j]);
            }
        }
    }
}

} // verus!
