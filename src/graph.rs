//! The graph of islands that touch across a seam, and its greedy coloring.

use crate::dsu::Dsu;
use vstd::prelude::*;

verus! {

/// Islands `x` and `y` differ and one of the first `m` seams joins a polygon of
/// each.
pub open spec fn seam_adjacent(roots: Seq<nat>, seams: Seq<(usize, usize)>, m: int, x: int, y: int) -> bool {
    &&& x != y
    &&& exists|k: int|
        0 <= k < m && {
            let (f1, f2) = #[trigger] seams[k];
            (roots[f1 as int] == x && roots[f2 as int] == y) || (roots[f1 as int] == y
                && roots[f2 as int] == x)
        }
}

/// The islands, by leader, and for each leader the leaders of the islands that
/// touch it across a seam.
pub struct IslandGraph {
    pub islands: Vec<usize>,
    pub adjacency: Vec<Vec<usize>>,
}

impl IslandGraph {
    /// `islands` lists the leaders of `roots` in ascending order, and
    /// `adjacency[x]` lists, once each, the islands that touch island `x`.
    pub open spec fn describes(&self, roots: Seq<nat>, seams: Seq<(usize, usize)>) -> bool {
        let n = roots.len();
        &&& forall|i: int, j: int|
            0 <= i < j < self.islands@.len() ==> self.islands@[i] < self.islands@[j]
        &&& forall|x: usize| #[trigger] self.islands@.contains(x) ==> x < n && roots[x as int] == x
        &&& forall|x: usize| x < n && roots[x as int] == x ==> #[trigger] self.islands@.contains(x)
        &&& self.adjacency@.len() == n
        &&& forall|x: int| 0 <= x < n ==> (#[trigger] self.adjacency@[x])@.no_duplicates()
        &&& forall|x: int, y: usize|
            0 <= x < n ==> (#[trigger] self.adjacency@[x]@.contains(y) <==> seam_adjacent(
                roots,
                seams,
                seams.len() as int,
                x,
                y as int,
            ))
    }
}

/// Both polygons of every seam are among the first `n`.
pub open spec fn seams_within(seams: Seq<(usize, usize)>, n: int) -> bool {
    forall|k: int| 0 <= k < seams.len() ==> #[trigger] seams[k].0 < n && seams[k].1 < n
}

fn contains_index(v: &Vec<usize>, y: usize) -> (r: bool)
    ensures
        r == v@.contains(y),
{
    let mut i: usize = 0;
    while i < v.len()
        invariant
            i <= v@.len(),
            forall|j: int| 0 <= j < i ==> v@[j] != y,
        decreases v@.len() - i,
    {
        if v[i] == y {
            return true;
        }
        i = i + 1;
    }
    false
}

/// Adds `y` to the list of `x` unless it is there already.
fn add_neighbor(adjacency: &mut Vec<Vec<usize>>, x: usize, y: usize)
    requires
        x < old(adjacency)@.len(),
        old(adjacency)@[x as int]@.no_duplicates(),
    ensures
        final(adjacency)@.len() == old(adjacency)@.len(),
        forall|z: int| 0 <= z < old(adjacency)@.len() && z != x ==> #[trigger] final(adjacency)@[z] == old(adjacency)@[z],
        final(adjacency)@[x as int]@.no_duplicates(),
        forall|w: usize| #[trigger] final(adjacency)@[x as int]@.contains(w) <==> (old(adjacency)@[x as int]@.contains(w) || w == y),
{
    if !contains_index(&adjacency[x], y) {
        let mut v: Vec<usize> = Vec::new();
        adjacency.set_and_swap(x, &mut v);
        let ghost before = v@;
        v.push(y);
        proof {
            assert forall|w: usize| v@.contains(w) <==> (before.contains(w) || w == y) by {
                if v@.contains(w) {
                    let j = choose|j: int| 0 <= j < v@.len() && v@[j] == w;
                    if j < before.len() {
                        assert(before[j] == w);
                    }
                }
                if before.contains(w) {
                    let j = choose|j: int| 0 <= j < before.len() && before[j] == w;
                    assert(v@[j] == w);
                }
                if w == y {
                    assert(v@[before.len() as int] == w);
                }
            }
        }
        adjacency.set_and_swap(x, &mut v);
    }
}

/// Resolves every polygon and every seam to island leaders: lists the islands,
/// and joins two islands when a seam runs between them. A seam inside one
/// island is dropped.
pub fn build_adjacency_graph(num_faces: usize, dsu: &mut Dsu, island_connections: &[(usize, usize)]) -> (g:
    IslandGraph)
    requires
        old(dsu).wf(),
        old(dsu).len() == num_faces,
        seams_within(island_connections@, num_faces as int),
    ensures
        final(dsu).wf(),
        final(dsu).len() == num_faces,
        final(dsu).roots() == old(dsu).roots(),
        g.describes(old(dsu).roots(), island_connections@),
{
    let ghost roots = dsu.roots();
    proof {
        dsu.lemma_roots();
    }
    let mut islands: Vec<usize> = Vec::new();
    let mut adjacency: Vec<Vec<usize>> = Vec::new();
    let mut f: usize = 0;
    while f < num_faces
        invariant
            f <= num_faces,
            dsu.wf(),
            dsu.len() == num_faces,
            dsu.roots() == roots,
            roots.len() == num_faces,
            adjacency@.len() == f,
            forall|x: int| 0 <= x < f ==> (#[trigger] adjacency@[x])@.len() == 0,
            forall|i: int, j: int| 0 <= i < j < islands@.len() ==> islands@[i] < islands@[j],
            forall|i: int| 0 <= i < islands@.len() ==> islands@[i] < f,
            forall|x: usize| #[trigger] islands@.contains(x) ==> x < f && roots[x as int] == x,
            forall|x: usize| x < f && roots[x as int] == x ==> #[trigger] islands@.contains(x),
        decreases num_faces - f,
    {
        let ghost old_islands = islands@;
        if dsu.leader(f) == f {
            islands.push(f);
            proof {
                assert(islands@[old_islands.len() as int] == f);
                assert forall|x: usize| #[trigger] islands@.contains(x) implies x < f + 1 && roots[x as int] == x by {
                    let j = choose|j: int| 0 <= j < islands@.len() && islands@[j] == x;
                    if j < old_islands.len() {
                        assert(old_islands[j] == x);
                        assert(old_islands.contains(x));
                    }
                }
                assert forall|x: usize| x < f + 1 && roots[x as int] == x implies #[trigger] islands@.contains(x) by {
                    if x < f {
                        assert(old_islands.contains(x));
                        let j = choose|j: int| 0 <= j < old_islands.len() && old_islands[j] == x;
                        assert(islands@[j] == x);
                    }
                }
            }
        } else {
            proof {
                assert forall|x: usize| x < f + 1 && roots[x as int] == x implies #[trigger] islands@.contains(x) by {
                    if x < f {
                    }
                }
            }
        }
        adjacency.push(Vec::new());
        f = f + 1;
    }
    let mut k: usize = 0;
    proof {
        assert forall|x: int, y: usize|
            0 <= x < num_faces implies !(#[trigger] adjacency@[x]@.contains(y)) by {
            assert(adjacency@[x]@.len() == 0);
        }
    }
    while k < island_connections.len()
        invariant
            k <= island_connections@.len(),
            seams_within(island_connections@, num_faces as int),
            dsu.wf(),
            dsu.len() == num_faces,
            dsu.roots() == roots,
            roots.len() == num_faces,
            forall|x: int| 0 <= x < num_faces ==> #[trigger] roots[x] < num_faces,
            adjacency@.len() == num_faces,
            forall|x: int| 0 <= x < num_faces ==> (#[trigger] adjacency@[x])@.no_duplicates(),
            forall|x: int, y: usize|
                0 <= x < num_faces ==> (#[trigger] adjacency@[x]@.contains(y)
                    <==> seam_adjacent(roots, island_connections@, k as int, x, y as int)),
        decreases island_connections@.len() - k,
    {
        let (f1, f2) = island_connections[k];
        assert(f1 < num_faces && f2 < num_faces);
        let r1 = dsu.leader(f1);
        let r2 = dsu.leader(f2);
        let ghost adj0 = adjacency@;
        proof {
            assert(island_connections@[k as int] == (f1, f2));
            assert forall|x: int, y: int|
                seam_adjacent(roots, island_connections@, k + 1, x, y) <==> (seam_adjacent(
                    roots,
                    island_connections@,
                    k as int,
                    x,
                    y,
                ) || (x != y && ((x == r1 && y == r2) || (x == r2 && y == r1)))) by {
                if seam_adjacent(roots, island_connections@, k + 1, x, y) {
                    let kk = choose|kk: int|
                        0 <= kk < k + 1 && {
                            let (g1, g2) = #[trigger] island_connections@[kk];
                            (roots[g1 as int] == x && roots[g2 as int] == y) || (roots[g1 as int] == y
                                && roots[g2 as int] == x)
                        };
                    if kk < k {
                        assert(seam_adjacent(roots, island_connections@, k as int, x, y));
                    }
                }
                if seam_adjacent(roots, island_connections@, k as int, x, y) {
                    let kk = choose|kk: int|
                        0 <= kk < k && {
                            let (g1, g2) = #[trigger] island_connections@[kk];
                            (roots[g1 as int] == x && roots[g2 as int] == y) || (roots[g1 as int] == y
                                && roots[g2 as int] == x)
                        };
                    assert(seam_adjacent(roots, island_connections@, k + 1, x, y));
                }
            }
        }
        if r1 != r2 {
            add_neighbor(&mut adjacency, r1, r2);
            add_neighbor(&mut adjacency, r2, r1);
            proof {
                assert forall|x: int, y: usize|
                    0 <= x < num_faces implies (#[trigger] adjacency@[x]@.contains(y) <==> (
                    adj0[x]@.contains(y) || (x == r1 && y == r2) || (x == r2 && y == r1))) by {
                    if x != r1 && x != r2 {
                        assert(adjacency@[x] == adj0[x]);
                    }
                }
            }
        }
        k = k + 1;
    }
    IslandGraph { islands, adjacency }
}

impl IslandGraph {
    pub open spec fn degree(&self, x: int) -> int {
        self.adjacency@[x]@.len() as int
    }

    /// The order in which islands are colored: higher degree first, then the
    /// lower leader.
    pub open spec fn precedes(&self, x: int, y: int) -> bool {
        self.degree(x) > self.degree(y) || (self.degree(x) == self.degree(y) && x < y)
    }

    /// Leaders ascend; adjacency is symmetric, loop-free, free of repeats and
    /// joins islands only.
    pub open spec fn well_formed(&self) -> bool {
        let n = self.adjacency@.len();
        &&& forall|i: int, j: int|
            0 <= i < j < self.islands@.len() ==> self.islands@[i] < self.islands@[j]
        &&& forall|i: int| 0 <= i < self.islands@.len() ==> #[trigger] self.islands@[i] < n
        &&& forall|x: int| 0 <= x < n ==> (#[trigger] self.adjacency@[x])@.no_duplicates()
        &&& forall|x: int, y: usize|
            0 <= x < n && #[trigger] self.adjacency@[x]@.contains(y) ==> {
                &&& y < n
                &&& y != x
                &&& self.islands@.contains(x as usize)
                &&& self.islands@.contains(y)
                &&& self.adjacency@[y as int]@.contains(x as usize)
            }
    }

    /// Each island has the smallest color index that no neighbor which
    /// precedes it has.
    pub open spec fn greedy_colored(&self, colors: Seq<usize>) -> bool {
        &&& colors.len() == self.adjacency@.len()
        &&& forall|r: usize| #[trigger] self.islands@.contains(r) ==> self.mex_at(colors, r)
    }

    pub open spec fn mex_at(&self, colors: Seq<usize>, r: usize) -> bool {
        &&& forall|y: usize|
            #[trigger] self.adjacency@[r as int]@.contains(y) && self.precedes(y as int, r as int)
                ==> colors[y as int] != colors[r as int]
        &&& forall|c: usize| c < colors[r as int] ==> #[trigger] self.taken_before(colors, r, c)
    }

    /// Some neighbor of `r` that precedes it has color `c`.
    pub open spec fn taken_before(&self, colors: Seq<usize>, r: usize, c: usize) -> bool {
        exists|y: usize|
            #[trigger] self.adjacency@[r as int]@.contains(y) && self.precedes(y as int, r as int)
                && colors[y as int] == c
    }
}

/// A list of distinct indices below `n` holds at most `n` of them.
proof fn lemma_distinct_below(s: Seq<usize>, n: nat)
    requires
        s.no_duplicates(),
        forall|i: int| 0 <= i < s.len() ==> s[i] < n,
    ensures
        s.len() <= n,
    decreases n,
{
    if n == 0 {
        if s.len() > 0 {
            assert(s[0] < n);
        }
    } else if s.contains((n - 1) as usize) {
        let j = choose|j: int| 0 <= j < s.len() && s[j] == (n - 1) as usize;
        let t = s.remove(j);
        assert forall|i: int| 0 <= i < t.len() implies t[i] < n - 1 by {
            if i < j {
                assert(t[i] == s[i]);
            } else {
                assert(t[i] == s[i + 1]);
            }
        }
        assert forall|a: int, b: int| 0 <= a < t.len() && 0 <= b < t.len() && a != b implies t[a] != t[b] by {
            let sa = if a < j { a } else { a + 1 };
            let sb = if b < j { b } else { b + 1 };
            assert(t[a] == s[sa]);
            assert(t[b] == s[sb]);
        }
        lemma_distinct_below(t, (n - 1) as nat);
    } else {
        assert forall|i: int| 0 <= i < s.len() implies s[i] < n - 1 by {
            assert(s[i] != (n - 1) as usize);
        }
        lemma_distinct_below(s, (n - 1) as nat);
    }
}

/// A list of distinct indices below `n` that leaves out `e < n` holds fewer than `n`.
proof fn lemma_distinct_below_except(s: Seq<usize>, n: nat, e: usize)
    requires
        s.no_duplicates(),
        e < n,
        forall|i: int| 0 <= i < s.len() ==> s[i] < n && s[i] != e,
    ensures
        s.len() < n,
{
    let t = Seq::new(s.len(), |i: int| if s[i] > e { (s[i] - 1) as usize } else { s[i] });
    assert forall|a: int, b: int| 0 <= a < t.len() && 0 <= b < t.len() && a != b implies t[a] != t[b] by {
        assert(s[a] != s[b]);
    }
    lemma_distinct_below(t, (n - 1) as nat);
}

/// Some already colored entry among the first `upto` of `neighbors` has color `c`.
spec fn taken_in(neighbors: Seq<usize>, colors: Seq<usize>, assigned: Seq<bool>, upto: int, c: int) -> bool {
    exists|t: int|
        0 <= t < upto && assigned[neighbors[t] as int] && colors[#[trigger] neighbors[t] as int] == c
}

/// The smallest color index that none of the already colored entries of
/// `neighbors` has.
fn smallest_free_color(
    neighbors: &Vec<usize>,
    colors: &Vec<usize>,
    assigned: &Vec<bool>,
    count: usize,
) -> (c: usize)
    requires
        colors@.len() == assigned@.len(),
        count < usize::MAX,
        forall|t: int| 0 <= t < neighbors@.len() ==> #[trigger] neighbors@[t] < colors@.len(),
        forall|y: int| 0 <= y < colors@.len() && #[trigger] assigned@[y] ==> colors@[y] < count,
    ensures
        c <= count,
        forall|t: int|
            0 <= t < neighbors@.len() && assigned@[neighbors@[t] as int] ==> colors@[#[trigger] neighbors@[t] as int] != c,
        forall|c2: usize|
            c2 < c ==> #[trigger] taken_in(neighbors@, colors@, assigned@, neighbors@.len() as int, c2 as int),
{
    let mut top: usize = 0;
    let mut t: usize = 0;
    while t < neighbors.len()
        invariant
            t <= neighbors@.len(),
            top <= count,
            colors@.len() == assigned@.len(),
            forall|t2: int| 0 <= t2 < neighbors@.len() ==> #[trigger] neighbors@[t2] < colors@.len(),
            forall|y: int| 0 <= y < colors@.len() && #[trigger] assigned@[y] ==> colors@[y] < count,
            forall|t2: int|
                0 <= t2 < t && assigned@[neighbors@[t2] as int] ==> colors@[#[trigger] neighbors@[t2] as int] < top,
        decreases neighbors@.len() - t,
    {
        let y = neighbors[t];
        if assigned[y] && colors[y] + 1 > top {
            top = colors[y] + 1;
        }
        t = t + 1;
    }
    let mut used: Vec<bool> = Vec::new();
    let mut i: usize = 0;
    while i <= top
        invariant
            i <= top + 1,
            top <= count,
            count < usize::MAX,
            used@.len() == i,
            forall|k: int| 0 <= k < i ==> !used@[k],
        decreases top + 1 - i,
    {
        used.push(false);
        i = i + 1;
    }
    t = 0;
    while t < neighbors.len()
        invariant
            t <= neighbors@.len(),
            used@.len() == top + 1,
            colors@.len() == assigned@.len(),
            forall|t2: int| 0 <= t2 < neighbors@.len() ==> #[trigger] neighbors@[t2] < colors@.len(),
            forall|t2: int|
                0 <= t2 < neighbors@.len() && assigned@[neighbors@[t2] as int] ==> colors@[#[trigger] neighbors@[t2] as int] < top,
            !used@[top as int],
            forall|k: int|
                0 <= k <= top ==> (#[trigger] used@[k] <==> taken_in(neighbors@, colors@, assigned@, t as int, k)),
        decreases neighbors@.len() - t,
    {
        let y = neighbors[t];
        if assigned[y] {
            let ghost u0 = used@;
            used.set(colors[y], true);
            proof {
                assert forall|k: int|
                    0 <= k <= top implies (#[trigger] used@[k] <==> taken_in(neighbors@, colors@, assigned@, t + 1, k)) by {
                    if k == colors@[y as int] {
                        assert(colors@[neighbors@[t as int] as int] == k);
                    } else {
                        if u0[k] {
                            let t2 = choose|t2: int|
                                0 <= t2 < t && assigned@[neighbors@[t2] as int] && colors@[#[trigger] neighbors@[t2] as int] == k;
                            assert(colors@[neighbors@[t2] as int] == k);
                        }
                    }
                }
            }
        } else {
            proof {
                assert forall|k: int|
                    0 <= k <= top implies (#[trigger] used@[k] <==> taken_in(neighbors@, colors@, assigned@, t + 1, k)) by {
                    if used@[k] {
                        let t2 = choose|t2: int|
                            0 <= t2 < t && assigned@[neighbors@[t2] as int] && colors@[#[trigger] neighbors@[t2] as int] == k;
                        assert(colors@[neighbors@[t2] as int] == k);
                    }
                }
            }
        }
        t = t + 1;
    }
    let mut c: usize = 0;
    while used[c]
        invariant
            c <= top,
            used@.len() == top + 1,
            !used@[top as int],
            forall|k: int| 0 <= k < c ==> #[trigger] used@[k],
        decreases top - c,
    {
        c = c + 1;
    }
    proof {
        assert forall|c2: usize|
            c2 < c implies #[trigger] taken_in(neighbors@, colors@, assigned@, neighbors@.len() as int, c2 as int) by {
            assert(used@[c2 as int]);
        }
    }
    c
}

spec fn ascending(s: Seq<usize>) -> bool {
    forall|a: int, b: int| 0 <= a < b < s.len() ==> s[a] < s[b]
}

/// Colors the islands greedily: in order of descending degree, ties by
/// ascending leader, each island takes the smallest color index that none of
/// its already colored neighbors has. The result is indexed by leader.
pub fn color_graph(graph: &IslandGraph) -> (colors: Vec<usize>)
    requires
        graph.well_formed(),
    ensures
        graph.greedy_colored(colors@),
{
    let n = graph.adjacency.len();
    let ghost islands = graph.islands@;
    let mut buckets: Vec<Vec<usize>> = Vec::new();
    let mut d: usize = 0;
    while d < n
        invariant
            d <= n,
            buckets@.len() == d,
            forall|e: int| 0 <= e < d ==> (#[trigger] buckets@[e])@.len() == 0,
        decreases n - d,
    {
        buckets.push(Vec::new());
        d = d + 1;
    }
    let mut i: usize = 0;
    while i < graph.islands.len()
        invariant
            graph.well_formed(),
            islands == graph.islands@,
            n == graph.adjacency@.len(),
            i <= islands.len(),
            buckets@.len() == n,
            forall|e: int| 0 <= e < n ==> ascending(#[trigger] buckets@[e]@),
            forall|e: int, x: usize|
                0 <= e < n ==> (#[trigger] buckets@[e]@.contains(x) <==> (islands.subrange(0, i as int).contains(x)
                    && graph.degree(x as int) == e)),
        decreases islands.len() - i,
    {
        let x = graph.islands[i];
        let deg = graph.adjacency[x].len();
        proof {
            assert(x < n);
            assert forall|t: int| 0 <= t < graph.adjacency@[x as int]@.len() implies graph.adjacency@[x as int]@[t] < n
                && graph.adjacency@[x as int]@[t] != x by {
                assert(graph.adjacency@[x as int]@.contains(graph.adjacency@[x as int]@[t]));
            }
            lemma_distinct_below_except(graph.adjacency@[x as int]@, n as nat, x);
        }
        let ghost b0 = buckets@;
        let mut v: Vec<usize> = Vec::new();
        buckets.set_and_swap(deg, &mut v);
        let ghost v0 = v@;
        v.push(x);
        buckets.set_and_swap(deg, &mut v);
        proof {
            let pre = islands.subrange(0, i as int);
            let post = islands.subrange(0, i + 1);
            assert(post == pre.push(x));
            assert forall|y: usize| #[trigger] pre.contains(y) implies y < x by {
                let k = choose|k: int| 0 <= k < i && pre[k] == y;
                assert(islands[k] == y);
            }
            assert forall|e: int| 0 <= e < n implies ascending(#[trigger] buckets@[e]@) by {
                if e == deg {
                    assert forall|a: int, b: int| 0 <= a < b < buckets@[e]@.len() implies buckets@[e]@[a] < buckets@[e]@[b] by {
                        if b == v0.len() {
                            assert(v0.contains(v0[a]));
                            assert(b0[e]@.contains(v0[a]));
                        } else {
                            assert(buckets@[e]@[a] == v0[a]);
                        }
                    }
                } else {
                    assert(buckets@[e] == b0[e]);
                }
            }
            assert forall|y: usize| #[trigger] post.contains(y) <==> (pre.contains(y) || y == x) by {
                if post.contains(y) {
                    let k = choose|k: int| 0 <= k < post.len() && post[k] == y;
                    if k < i {
                        assert(pre[k] == y);
                    }
                }
                if pre.contains(y) {
                    let k = choose|k: int| 0 <= k < pre.len() && pre[k] == y;
                    assert(post[k] == y);
                }
                if y == x {
                    assert(post[i as int] == x);
                }
            }
            assert forall|y: usize| #[trigger] buckets@[deg as int]@.contains(y) <==> (b0[deg as int]@.contains(y) || y == x) by {
                if buckets@[deg as int]@.contains(y) {
                    let k = choose|k: int| 0 <= k < buckets@[deg as int]@.len() && buckets@[deg as int]@[k] == y;
                    if k < v0.len() {
                        assert(v0[k] == y);
                    }
                }
                if b0[deg as int]@.contains(y) {
                    let k = choose|k: int| 0 <= k < v0.len() && v0[k] == y;
                    assert(buckets@[deg as int]@[k] == y);
                }
                if y == x {
                    assert(buckets@[deg as int]@[v0.len() as int] == x);
                }
            }
            assert forall|e: int, y: usize|
                0 <= e < n implies (#[trigger] buckets@[e]@.contains(y) <==> (post.contains(y)
                    && graph.degree(y as int) == e)) by {
                if e != deg {
                    assert(buckets@[e] == b0[e]);
                }
            }
        }
        i = i + 1;
    }
    proof {
        assert(islands.subrange(0, islands.len() as int) == islands);
    }
    let mut colors: Vec<usize> = Vec::new();
    let mut assigned: Vec<bool> = Vec::new();
    let mut k: usize = 0;
    while k < n
        invariant
            k <= n,
            colors@.len() == k,
            assigned@.len() == k,
            forall|y: int| 0 <= y < k ==> !(#[trigger] assigned@[y]),
        decreases n - k,
    {
        colors.push(0);
        assigned.push(false);
        k = k + 1;
    }
    proof {
        assert forall|x: usize| #[trigger] islands.contains(x) implies graph.degree(x as int) < n by {
            let xi = choose|xi: int| 0 <= xi < islands.len() && islands[xi] == x;
            assert(islands[xi] < n);
            assert forall|t: int| 0 <= t < graph.adjacency@[x as int]@.len() implies graph.adjacency@[x as int]@[t] < n
                && graph.adjacency@[x as int]@[t] != x by {
                assert(graph.adjacency@[x as int]@.contains(graph.adjacency@[x as int]@[t]));
            }
            lemma_distinct_below_except(graph.adjacency@[x as int]@, n as nat, x);
        }
    }
    let mut count: usize = 0;
    let ghost mut order: Seq<usize> = Seq::empty();
    let mut d: usize = n;
    while d > 0
        invariant
            graph.well_formed(),
            islands == graph.islands@,
            n == graph.adjacency@.len(),
            d <= n,
            buckets@.len() == n,
            forall|e: int| 0 <= e < n ==> ascending(#[trigger] buckets@[e]@),
            forall|e: int, x: usize|
                0 <= e < n ==> (#[trigger] buckets@[e]@.contains(x) <==> (islands.contains(x)
                    && graph.degree(x as int) == e)),
            colors@.len() == n,
            assigned@.len() == n,
            forall|x: usize| x < n ==> (#[trigger] assigned@[x as int] <==> (islands.contains(x) && graph.degree(x as int) >= d)),
            forall|r: usize| r < n && #[trigger] assigned@[r as int] ==> graph.mex_at(colors@, r),
            forall|y: int| 0 <= y < n && #[trigger] assigned@[y] ==> colors@[y] < count,
            order.len() == count,
            order.no_duplicates(),
            forall|t: int| 0 <= t < order.len() ==> #[trigger] order[t] < n && assigned@[order[t] as int],
        decreases d,
    {
        d = d - 1;
        let b = &buckets[d];
        let mut j: usize = 0;
        while j < b.len()
            invariant
                graph.well_formed(),
                islands == graph.islands@,
                n == graph.adjacency@.len(),
                d < n,
                b == buckets@[d as int],
                ascending(b@),
                forall|x: usize| #[trigger] b@.contains(x) <==> (islands.contains(x) && graph.degree(x as int) == d),
                j <= b@.len(),
                colors@.len() == n,
                assigned@.len() == n,
                forall|x: usize|
                    x < n ==> (#[trigger] assigned@[x as int] <==> (islands.contains(x) && (graph.degree(x as int) > d || (
                    graph.degree(x as int) == d && b@.subrange(0, j as int).contains(x))))),
                forall|r: usize| r < n && #[trigger] assigned@[r as int] ==> graph.mex_at(colors@, r),
                forall|y: int| 0 <= y < n && #[trigger] assigned@[y] ==> colors@[y] < count,
                order.len() == count,
                order.no_duplicates(),
                forall|t: int| 0 <= t < order.len() ==> #[trigger] order[t] < n && assigned@[order[t] as int],
            decreases b@.len() - j,
        {
            let r = b[j];
            proof {
                assert(b@.contains(r));
                assert(islands.contains(r));
                let ri = choose|ri: int| 0 <= ri < islands.len() && islands[ri] == r;
                assert(islands[ri] < n);
                // the colored islands are exactly those that precede `r`
                assert forall|y: usize| y < n && y != r implies (#[trigger] assigned@[y as int] <==> (islands.contains(y)
                    && graph.precedes(y as int, r as int))) by {
                    if islands.contains(y) && graph.degree(y as int) == d {
                        assert(b@.contains(y));
                        let ty = choose|ty: int| 0 <= ty < b@.len() && b@[ty] == y;
                        if b@.subrange(0, j as int).contains(y) {
                            let t2 = choose|t2: int| 0 <= t2 < j && b@.subrange(0, j as int)[t2] == y;
                            assert(b@[t2] == y);
                        }
                        if y < r {
                            if ty >= j {
                                assert(ty != j);
                            }
                            assert(b@.subrange(0, j as int)[ty] == y);
                        }
                    }
                }
                assert(!assigned@[r as int]) by {
                    if b@.subrange(0, j as int).contains(r) {
                        let t2 = choose|t2: int| 0 <= t2 < j && b@.subrange(0, j as int)[t2] == r;
                        assert(b@[t2] == r);
                    }
                }
                assert(!order.contains(r));
                {
                    assert forall|t: int| 0 <= t < order.push(r).len() implies order.push(r)[t] < n by {
                        if t < order.len() {
                            assert(order.push(r)[t] == order[t]);
                        }
                    }
                    assert forall|a: int, c: int| 0 <= a < c < order.push(r).len() implies order.push(r)[a] != order.push(r)[c] by {
                        if c == order.len() {
                            assert(order.contains(order[a]));
                        }
                    }
                    lemma_distinct_below(order.push(r), n as nat);
                }
                assert forall|t: int| 0 <= t < graph.adjacency@[r as int]@.len() implies #[trigger] graph.adjacency@[r as int]@[t] < colors@.len() by {
                    assert(graph.adjacency@[r as int]@.contains(graph.adjacency@[r as int]@[t]));
                }
            }
            let c = smallest_free_color(&graph.adjacency[r], &colors, &assigned, count);
            let ghost colors0 = colors@;
            let ghost assigned0 = assigned@;
            colors.set(r, c);
            assigned.set(r, true);
            proof {
                order = order.push(r);
                assert forall|t: int| 0 <= t < order.len() implies #[trigger] order[t] < n && assigned@[order[t] as int] by {
                }
                assert forall|y: int| 0 <= y < n && #[trigger] assigned@[y] implies colors@[y] < count + 1 by {
                    if y != r {
                        assert(assigned0[y]);
                    }
                }
                assert(graph.mex_at(colors@, r)) by {
                    assert forall|y: usize|
                        #[trigger] graph.adjacency@[r as int]@.contains(y) && graph.precedes(y as int, r as int)
                            implies colors@[y as int] != colors@[r as int] by {
                        let t = choose|t: int| 0 <= t < graph.adjacency@[r as int]@.len() && graph.adjacency@[r as int]@[t] == y;
                        assert(assigned0[y as int]);
                        assert(colors0[graph.adjacency@[r as int]@[t] as int] != c);
                    }
                    assert forall|c2: usize| c2 < colors@[r as int] implies #[trigger] graph.taken_before(colors@, r, c2) by {
                        assert(taken_in(graph.adjacency@[r as int]@, colors0, assigned0, graph.adjacency@[r as int]@.len() as int, c2 as int));
                        let t = choose|t: int|
                            0 <= t < graph.adjacency@[r as int]@.len() && assigned0[graph.adjacency@[r as int]@[t] as int]
                                && colors0[#[trigger] graph.adjacency@[r as int]@[t] as int] == c2;
                        let y = graph.adjacency@[r as int]@[t];
                        assert(graph.adjacency@[r as int]@.contains(y));
                        assert(y != r);
                        assert(colors@[y as int] == c2);
                    }
                }
                assert forall|r2: usize| r2 < n && #[trigger] assigned@[r2 as int] implies graph.mex_at(colors@, r2) by {
                    if r2 != r {
                        assert(assigned0[r2 as int]);
                        assert(graph.mex_at(colors0, r2));
                        assert(graph.precedes(r2 as int, r as int));
                        assert forall|y: usize|
                            #[trigger] graph.adjacency@[r2 as int]@.contains(y) && graph.precedes(y as int, r2 as int)
                                implies colors@[y as int] != colors@[r2 as int] by {
                            assert(colors0[y as int] != colors0[r2 as int]);
                        }
                        assert forall|c2: usize| c2 < colors@[r2 as int] implies #[trigger] graph.taken_before(colors@, r2, c2) by {
                            assert(graph.taken_before(colors0, r2, c2));
                            let y = choose|y: usize|
                                #[trigger] graph.adjacency@[r2 as int]@.contains(y) && graph.precedes(y as int, r2 as int)
                                    && colors0[y as int] == c2;
                            assert(colors@[y as int] == c2);
                        }
                    }
                }
                let pre = b@.subrange(0, j as int);
                let post = b@.subrange(0, j + 1);
                assert forall|x: usize|
                    x < n implies (#[trigger] assigned@[x as int] <==> (islands.contains(x) && (graph.degree(x as int) > d || (
                    graph.degree(x as int) == d && b@.subrange(0, j + 1).contains(x))))) by {
                    if pre.contains(x) {
                        let t2 = choose|t2: int| 0 <= t2 < j && pre[t2] == x;
                        assert(post[t2] == x);
                    }
                    if post.contains(x) && x != r {
                        let t2 = choose|t2: int| 0 <= t2 < j + 1 && post[t2] == x;
                        assert(pre[t2] == x);
                    }
                    if x == r {
                        assert(post[j as int] == r);
                    }
                }
            }
            count = count + 1;
            j = j + 1;
        }
        proof {
            assert(b@.subrange(0, b@.len() as int) == b@);
            assert forall|x: usize| x < n implies (#[trigger] assigned@[x as int] <==> (islands.contains(x) && graph.degree(x as int) >= d)) by {
                if islands.contains(x) && graph.degree(x as int) == d {
                    assert(b@.contains(x));
                }
            }
        }
    }
    proof {
        assert forall|r: usize| #[trigger] islands.contains(r) implies graph.mex_at(colors@, r) by {
            let ri = choose|ri: int| 0 <= ri < islands.len() && islands[ri] == r;
            assert(islands[ri] < n);
            assert(assigned@[r as int]);
        }
    }
    colors
}

/// Leaders as a disjoint-set forest gives them: each lies below `n` and leads itself.
pub open spec fn leaders_ok(roots: Seq<nat>) -> bool {
    forall|x: int| 0 <= x < roots.len() ==> #[trigger] roots[x] < roots.len() && roots[roots[x] as int] == roots[x]
}

/// A graph built from leaders and seams is well formed.
pub proof fn lemma_graph_well_formed(g: IslandGraph, roots: Seq<nat>, seams: Seq<(usize, usize)>)
    requires
        leaders_ok(roots),
        roots.len() <= usize::MAX,
        seams_within(seams, roots.len() as int),
        g.describes(roots, seams),
    ensures
        g.well_formed(),
{
    let n = roots.len();
    assert forall|i: int| 0 <= i < g.islands@.len() implies #[trigger] g.islands@[i] < n by {
        assert(g.islands@.contains(g.islands@[i]));
    }
    assert forall|x: int, y: usize|
        0 <= x < n && #[trigger] g.adjacency@[x]@.contains(y) implies {
            &&& y < n
            &&& y != x
            &&& g.islands@.contains(x as usize)
            &&& g.islands@.contains(y)
            &&& g.adjacency@[y as int]@.contains(x as usize)
        } by {
        assert(seam_adjacent(roots, seams, seams.len() as int, x, y as int));
        let k = choose|k: int|
            0 <= k < seams.len() && {
                let (f1, f2) = #[trigger] seams[k];
                (roots[f1 as int] == x && roots[f2 as int] == y) || (roots[f1 as int] == y && roots[f2 as int] == x)
            };
        let (f1, f2) = seams[k];
        assert(f1 < n && f2 < n);
        assert(roots[f1 as int] < n && roots[roots[f1 as int] as int] == roots[f1 as int]);
        assert(roots[f2 as int] < n && roots[roots[f2 as int] as int] == roots[f2 as int]);
        assert(y < n);
        assert(roots[x] == x);
        assert(roots[y as int] == y);
        let xu = x as usize;
        assert(xu as int == x);
        assert(xu < n && roots[xu as int] == xu);
        assert(g.islands@.contains(x as usize));
        assert(g.islands@.contains(y));
        assert(seam_adjacent(roots, seams, seams.len() as int, y as int, x));
    }
}

/// In a greedy coloring, islands that touch across a seam differ in color.
pub proof fn lemma_proper_coloring(g: IslandGraph, colors: Seq<usize>, x: usize, y: usize)
    requires
        g.well_formed(),
        g.greedy_colored(colors),
        x < g.adjacency@.len(),
        g.adjacency@[x as int]@.contains(y),
    ensures
        colors[x as int] != colors[y as int],
{
    assert(g.islands@.contains(x) && g.islands@.contains(y));
    assert(g.adjacency@[y as int]@.contains(x));
    assert(g.mex_at(colors, x));
    assert(g.mex_at(colors, y));
    if g.precedes(y as int, x as int) {
    } else {
        assert(g.precedes(x as int, y as int));
    }
}

/// `res` gives each polygon the color of its island in a greedy coloring of an
/// island graph built from `roots` and `seams`.
pub open spec fn colored_by_islands(roots: Seq<nat>, seams: Seq<(usize, usize)>, res: Seq<usize>) -> bool {
    &&& res.len() == roots.len()
    &&& exists|g: IslandGraph, colors: Seq<usize>|
        #[trigger] g.describes(roots, seams) && #[trigger] g.greedy_colored(colors) && forall|f: int|
            0 <= f < roots.len() ==> #[trigger] res[f] == colors[roots[f] as int]
}

/// An island that touches no other across a seam gets color index 0.
pub proof fn lemma_isolated_island_color_zero(g: IslandGraph, colors: Seq<usize>, r: usize)
    requires
        g.greedy_colored(colors),
        g.islands@.contains(r),
        g.adjacency@[r as int]@.len() == 0,
    ensures
        colors[r as int] == 0,
{
    assert(g.mex_at(colors, r));
    if colors[r as int] > 0 {
        assert(g.taken_before(colors, r, 0));
        let y = choose|y: usize|
            #[trigger] g.adjacency@[r as int]@.contains(y) && g.precedes(y as int, r as int) && colors[y as int] == 0;
    }
}

/// Two lists without repeats that hold the same items are equally long.
proof fn lemma_same_items_same_len(s1: Seq<usize>, s2: Seq<usize>)
    requires
        s1.no_duplicates(),
        s2.no_duplicates(),
        forall|y: usize| s1.contains(y) <==> s2.contains(y),
    ensures
        s1.len() == s2.len(),
{
    s1.unique_seq_to_set();
    s2.unique_seq_to_set();
    assert(s1.to_set() =~= s2.to_set());
}

/// Two greedy colorings of graphs built from the same leaders and seams agree
/// on every island.
proof fn lemma_greedy_unique(
    g1: IslandGraph,
    g2: IslandGraph,
    c1: Seq<usize>,
    c2: Seq<usize>,
    roots: Seq<nat>,
    seams: Seq<(usize, usize)>,
    r: usize,
)
    requires
        leaders_ok(roots),
        roots.len() <= usize::MAX,
        seams_within(seams, roots.len() as int),
        g1.describes(roots, seams),
        g2.describes(roots, seams),
        g1.greedy_colored(c1),
        g2.greedy_colored(c2),
        g1.islands@.contains(r),
    ensures
        c1[r as int] == c2[r as int],
    decreases roots.len() - g1.degree(r as int), r,
{
    let n = roots.len();
    lemma_graph_well_formed(g1, roots, seams);
    lemma_graph_well_formed(g2, roots, seams);
    assert(r < n);
    assert(g2.islands@.contains(r));
    assert forall|x: usize| x < n implies g1.degree(x as int) == g2.degree(x as int) && g1.degree(x as int) <= n by {
        assert forall|y: usize| g1.adjacency@[x as int]@.contains(y) <==> g2.adjacency@[x as int]@.contains(y) by {
            assert(g1.adjacency@[x as int]@.contains(y) <==> seam_adjacent(roots, seams, seams.len() as int, x as int, y as int));
            assert(g2.adjacency@[x as int]@.contains(y) <==> seam_adjacent(roots, seams, seams.len() as int, x as int, y as int));
        }
        lemma_same_items_same_len(g1.adjacency@[x as int]@, g2.adjacency@[x as int]@);
        assert forall|t: int| 0 <= t < g1.adjacency@[x as int]@.len() implies g1.adjacency@[x as int]@[t] < n by {
            assert(g1.adjacency@[x as int]@.contains(g1.adjacency@[x as int]@[t]));
        }
        lemma_distinct_below(g1.adjacency@[x as int]@, n);
    }
    assert forall|y: usize| #[trigger] g1.adjacency@[r as int]@.contains(y) && g1.precedes(y as int, r as int)
        implies c1[y as int] == c2[y as int] by {
        assert(y < n);
        assert(g1.islands@.contains(y));
        lemma_greedy_unique(g1, g2, c1, c2, roots, seams, y);
    }
    assert(g1.mex_at(c1, r));
    assert(g2.mex_at(c2, r));
    if c1[r as int] < c2[r as int] {
        assert(g2.taken_before(c2, r, c1[r as int]));
        let y = choose|y: usize|
            #[trigger] g2.adjacency@[r as int]@.contains(y) && g2.precedes(y as int, r as int) && c2[y as int] == c1[r as int];
        assert(seam_adjacent(roots, seams, seams.len() as int, r as int, y as int));
        assert(g1.adjacency@[r as int]@.contains(y));
        assert(y < n);
    } else if c2[r as int] < c1[r as int] {
        assert(g1.taken_before(c1, r, c2[r as int]));
        let y = choose|y: usize|
            #[trigger] g1.adjacency@[r as int]@.contains(y) && g1.precedes(y as int, r as int) && c1[y as int] == c2[r as int];
        assert(seam_adjacent(roots, seams, seams.len() as int, r as int, y as int));
        assert(g2.adjacency@[r as int]@.contains(y));
        assert(y < n);
    }
}

/// The color of each polygon is a function of the leaders and seams alone: two
/// results that both color polygons by a greedy coloring of the island graph
/// are equal.
pub proof fn lemma_coloring_determined(
    roots: Seq<nat>,
    seams: Seq<(usize, usize)>,
    res1: Seq<usize>,
    res2: Seq<usize>,
)
    requires
        leaders_ok(roots),
        roots.len() <= usize::MAX,
        seams_within(seams, roots.len() as int),
        colored_by_islands(roots, seams, res1),
        colored_by_islands(roots, seams, res2),
    ensures
        res1 == res2,
{
    let (g1, c1) = choose|g: IslandGraph, colors: Seq<usize>|
        #[trigger] g.describes(roots, seams) && #[trigger] g.greedy_colored(colors) && forall|f: int|
            0 <= f < roots.len() ==> #[trigger] res1[f] == colors[roots[f] as int];
    let (g2, c2) = choose|g: IslandGraph, colors: Seq<usize>|
        #[trigger] g.describes(roots, seams) && #[trigger] g.greedy_colored(colors) && forall|f: int|
            0 <= f < roots.len() ==> #[trigger] res2[f] == colors[roots[f] as int];
    assert forall|f: int| 0 <= f < roots.len() implies res1[f] == res2[f] by {
        let r = roots[f];
        assert(r < roots.len() && roots[r as int] == r);
        let ru = r as usize;
        assert(g1.islands@.contains(ru));
        lemma_greedy_unique(g1, g2, c1, c2, roots, seams, ru);
    }
    assert(res1 =~= res2);
}

} // verus!
