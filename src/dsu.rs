use vstd::prelude::*;

verus! {

/// Disjoint-set forest over `0..n` with path compression.
///
/// The model is `roots()`: for each element, the leader of its set. Ghost ranks
/// strictly grow from a node to its parent, which bounds every walk to a root.
pub struct Dsu {
    parent: Vec<usize>,
    rank: Ghost<Seq<nat>>,
    max_rank: Ghost<nat>,
    root_of: Ghost<Seq<nat>>,
}

impl Dsu {
    /// Leader of each element's set.
    pub closed spec fn roots(&self) -> Seq<nat> {
        self.root_of@
    }

    pub closed spec fn len(&self) -> nat {
        self.parent@.len()
    }

    spec fn node_wf(&self, x: int) -> bool {
        let n = self.parent@.len();
        let r = self.root_of@[x];
        let p = self.parent@[x] as int;
        &&& p < n
        &&& r < n
        &&& self.parent@[r as int] == r
        &&& self.root_of@[p] == r
        &&& (p == x ==> r == x)
        &&& (p != x ==> self.rank@[x] < self.rank@[p])
        &&& (p != x ==> self.rank@[x] < self.rank@[r as int])
        &&& self.rank@[x] <= self.max_rank@
    }

    /// Every leader is an element, and it leads its own set.
    pub proof fn lemma_roots(&self)
        requires
            self.wf(),
        ensures
            self.roots().len() == self.len(),
            forall|x: int|
                0 <= x < self.len() ==> #[trigger] self.roots()[x] < self.len() && self.roots()[
                    self.roots()[x] as int
                ] == self.roots()[x],
    {
        assert forall|x: int| 0 <= x < self.len() implies #[trigger] self.roots()[x] < self.len()
            && self.roots()[self.roots()[x] as int] == self.roots()[x] by {
            assert(self.node_wf(x));
            assert(self.node_wf(self.roots()[x] as int));
        }
    }

    pub closed spec fn wf(&self) -> bool {
        &&& self.rank@.len() == self.parent@.len()
        &&& self.root_of@.len() == self.parent@.len()
        &&& forall|x: int| 0 <= x < self.parent@.len() ==> #[trigger] self.node_wf(x)
    }

    /// `n` singleton sets.
    pub fn new(n: usize) -> (d: Dsu)
        ensures
            d.wf(),
            d.len() == n,
            d.roots() == Seq::new(n as nat, |i: int| i as nat),
    {
        let mut parent: Vec<usize> = Vec::new();
        let mut i: usize = 0;
        while i < n
            invariant
                i <= n,
                parent@.len() == i,
                forall|j: int| 0 <= j < i ==> parent@[j] == j,
            decreases n - i,
        {
            parent.push(i);
            i = i + 1;
        }
        let d = Dsu {
            parent,
            rank: Ghost(Seq::new(n as nat, |i: int| 0nat)),
            max_rank: Ghost(0nat),
            root_of: Ghost(Seq::new(n as nat, |i: int| i as nat)),
        };
        d
    }

    pub fn size(&self) -> (r: usize)
        ensures
            r == self.len(),
    {
        self.parent.len()
    }

    /// The leader of `x`'s set; the sets and leaders stay as they were.
    pub fn leader(&mut self, x: usize) -> (r: usize)
        requires
            old(self).wf(),
            x < old(self).len(),
        ensures
            final(self).wf(),
            final(self).len() == old(self).len(),
            final(self).roots() == old(self).roots(),
            r as nat == old(self).roots()[x as int],
    {
        let n = self.parent.len();
        let mut cur = x;
        while self.parent[cur] != cur
            invariant
                self.wf(),
                n == self.parent@.len(),
                cur < n,
                x < n,
                self.root_of@[cur as int] == self.root_of@[x as int],
            decreases self.max_rank@ - self.rank@[cur as int],
        {
            proof {
                assert(self.node_wf(cur as int));
                assert(self.node_wf(self.parent@[cur as int] as int));
            }
            cur = self.parent[cur];
        }
        proof {
            assert(self.node_wf(cur as int));
        }
        let root = cur;
        let ghost roots0 = self.root_of@;
        let mut y = x;
        while self.parent[y] != y
            invariant
                self.wf(),
                n == self.parent@.len(),
                y < n,
                root < n,
                self.root_of@ == roots0,
                roots0[y as int] == root,
                x < n,
                roots0[x as int] == root,
            decreases self.max_rank@ - self.rank@[y as int],
        {
            let next = self.parent[y];
            proof {
                assert(self.node_wf(y as int));
                assert(self.node_wf(next as int));
            }
            let ghost old_self = *self;
            proof {
                assert(self.node_wf(root as int));
            }
            self.parent.set(y, root);
            proof {
                assert forall|z: int| 0 <= z < n implies #[trigger] self.node_wf(z) by {
                    assert(old_self.node_wf(z));
                    assert(old_self.node_wf(old_self.root_of@[z] as int));
                }
            }
            y = next;
        }
        root
    }

    /// Joins the sets of `a` and `b`: every member of `a`'s set takes the leader
    /// of `b`'s set, which is returned.
    pub fn merge(&mut self, a: usize, b: usize) -> (r: usize)
        requires
            old(self).wf(),
            a < old(self).len(),
            b < old(self).len(),
        ensures
            final(self).wf(),
            final(self).len() == old(self).len(),
            r as nat == old(self).roots()[b as int],
            final(self).roots() == Seq::new(
                old(self).roots().len(),
                |x: int|
                    if old(self).roots()[x] == old(self).roots()[a as int] {
                        old(self).roots()[b as int]
                    } else {
                        old(self).roots()[x]
                    },
            ),
    {
        let ra = self.leader(a);
        let rb = self.leader(b);
        if ra == rb {
            proof {
                assert(self.root_of@ =~= Seq::new(
                    self.parent@.len(),
                    |x: int|
                        if self.root_of@[x] == ra as nat {
                            rb as nat
                        } else {
                            self.root_of@[x]
                        },
                ));
            }
            return rb;
        }
        let ghost old_self = *self;
        proof {
            assert(old_self.node_wf(a as int));
            assert(old_self.node_wf(b as int));
            assert(old_self.node_wf(ra as int));
            assert(old_self.node_wf(rb as int));
        }
        self.parent.set(ra, rb);
        let ghost n = self.parent@.len();
        let ghost new_rank: nat = if old_self.rank@[rb as int] > old_self.rank@[ra as int] {
            old_self.rank@[rb as int]
        } else {
            old_self.rank@[ra as int] + 1
        };
        self.rank = Ghost(old_self.rank@.update(rb as int, new_rank));
        self.max_rank = Ghost(if new_rank > old_self.max_rank@ { new_rank } else { old_self.max_rank@ });
        self.root_of = Ghost(
            Seq::new(
                n,
                |x: int|
                    if old_self.root_of@[x] == ra as nat {
                        rb as nat
                    } else {
                        old_self.root_of@[x]
                    },
            ),
        );
        proof {
            assert forall|x: int| 0 <= x < n implies #[trigger] self.node_wf(x) by {
                assert(old_self.node_wf(x));
                assert(old_self.node_wf(old_self.parent@[x] as int));
            }
        }
        rb
    }
}

} // verus!
