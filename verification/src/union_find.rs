//! Union-find over indices, with the clusters it builds tied to the
//! connected components of the edges it was given.

use vstd::prelude::*;

verus! {

/// `u` and `v` are joined by an edge, in either direction.
pub open spec fn adjacent(edges: Set<(int, int)>, u: int, v: int) -> bool {
    edges.contains((u, v)) || edges.contains((v, u))
}

/// Step `k` of the sequence `p` follows an edge.
pub open spec fn path_step(edges: Set<(int, int)>, p: Seq<int>, k: int) -> bool {
    adjacent(edges, p[k], p[k + 1])
}

/// `p` is a walk along the edges.
pub open spec fn is_path(edges: Set<(int, int)>, p: Seq<int>) -> bool {
    &&& p.len() >= 1
    &&& forall|k: int| 0 <= k < p.len() - 1 ==> #[trigger] path_step(edges, p, k)
}

/// `i` and `j` are in the same connected component of the edges.
pub open spec fn connected(edges: Set<(int, int)>, i: int, j: int) -> bool {
    exists|p: Seq<int>| #[trigger] is_path(edges, p) && p[0] == i && p.last() == j
}

pub proof fn lemma_connected_refl(edges: Set<(int, int)>, i: int)
    ensures
        connected(edges, i, i),
{
    let p = seq![i];
    assert(is_path(edges, p));
}

pub proof fn lemma_connected_edge(edges: Set<(int, int)>, u: int, v: int)
    requires
        adjacent(edges, u, v),
    ensures
        connected(edges, u, v),
{
    let p = seq![u, v];
    assert(path_step(edges, p, 0));
    assert(is_path(edges, p));
}

pub proof fn lemma_connected_trans(edges: Set<(int, int)>, i: int, j: int, k: int)
    requires
        connected(edges, i, j),
        connected(edges, j, k),
    ensures
        connected(edges, i, k),
{
    let p = choose|p: Seq<int>| #[trigger] is_path(edges, p) && p[0] == i && p.last() == j;
    let q = choose|q: Seq<int>| #[trigger] is_path(edges, q) && q[0] == j && q.last() == k;
    let r = p + q.drop_first();
    assert forall|m: int| 0 <= m < r.len() - 1 implies #[trigger] path_step(edges, r, m) by {
        if m < p.len() - 1 {
            assert(path_step(edges, p, m));
        } else {
            let t = m - (p.len() - 1);
            assert(path_step(edges, q, t));
        }
    }
    assert(is_path(edges, r));
    if q.len() == 1 {
        assert(r.last() == p.last());
    } else {
        assert(r.last() == q.last());
    }
}

pub proof fn lemma_connected_sym(edges: Set<(int, int)>, i: int, j: int)
    requires
        connected(edges, i, j),
    ensures
        connected(edges, j, i),
{
    let p = choose|p: Seq<int>| #[trigger] is_path(edges, p) && p[0] == i && p.last() == j;
    let r = p.reverse();
    assert forall|m: int| 0 <= m < r.len() - 1 implies #[trigger] path_step(edges, r, m) by {
        let t = p.len() - 2 - m;
        assert(path_step(edges, p, t));
    }
    assert(is_path(edges, r));
}

pub proof fn lemma_connected_mono(e1: Set<(int, int)>, e2: Set<(int, int)>, i: int, j: int)
    requires
        connected(e1, i, j),
        e1.subset_of(e2),
    ensures
        connected(e2, i, j),
{
    let p = choose|p: Seq<int>| #[trigger] is_path(e1, p) && p[0] == i && p.last() == j;
    assert forall|m: int| 0 <= m < p.len() - 1 implies #[trigger] path_step(e2, p, m) by {
        assert(path_step(e1, p, m));
    }
    assert(is_path(e2, p));
}

/// A labelling that agrees on the two ends of every edge agrees on whole components.
pub proof fn lemma_connected_label(edges: Set<(int, int)>, i: int, j: int, label: spec_fn(int) -> int)
    requires
        connected(edges, i, j),
        forall|u: int, v: int| #[trigger] adjacent(edges, u, v) ==> label(u) == label(v),
    ensures
        label(i) == label(j),
{
    let p = choose|p: Seq<int>| #[trigger] is_path(edges, p) && p[0] == i && p.last() == j;
    lemma_path_label(edges, p, label, p.len() - 1);
}

proof fn lemma_path_label(edges: Set<(int, int)>, p: Seq<int>, label: spec_fn(int) -> int, k: int)
    requires
        is_path(edges, p),
        0 <= k < p.len(),
        forall|u: int, v: int| #[trigger] adjacent(edges, u, v) ==> label(u) == label(v),
    ensures
        label(p[0]) == label(p[k]),
    decreases k,
{
    if k > 0 {
        lemma_path_label(edges, p, label, k - 1);
        assert(path_step(edges, p, k - 1));
    }
}

/// Without edges, every element is alone in its component.
pub proof fn lemma_connected_empty(i: int, j: int)
    ensures
        connected(Set::<(int, int)>::empty(), i, j) <==> i == j,
{
    if connected(Set::<(int, int)>::empty(), i, j) {
        let p = choose|p: Seq<int>| #[trigger] is_path(Set::<(int, int)>::empty(), p) && p[0] == i && p.last() == j;
        if p.len() > 1 {
            assert(path_step(Set::<(int, int)>::empty(), p, 0));
        }
    }
    if i == j {
        lemma_connected_refl(Set::<(int, int)>::empty(), i);
    }
}

/// Disjoint sets over `0..n` with path compression.
pub struct UnionFind {
    parent: Vec<usize>,
    root: Ghost<Seq<int>>,
    dist: Ghost<Seq<nat>>,
    edges: Ghost<Set<(int, int)>>,
}

impl UnionFind {
    /// Number of elements.
    pub closed spec fn size(&self) -> nat {
        self.parent@.len()
    }

    /// Representative of every element.
    pub closed spec fn roots(&self) -> Seq<int> {
        self.root@
    }

    /// The pairs that were joined so far.
    pub closed spec fn joined(&self) -> Set<(int, int)> {
        self.edges@
    }

    pub closed spec fn wf(&self) -> bool {
        let n = self.parent@.len();
        &&& self.root@.len() == n
        &&& self.dist@.len() == n
        &&& forall|i: int| 0 <= i < n ==> #[trigger] self.parent@[i] < n
        &&& forall|i: int| 0 <= i < n ==> 0 <= #[trigger] self.root@[i] < n
        &&& forall|i: int| 0 <= i < n ==> self.parent@[#[trigger] self.root@[i]] == self.root@[i]
        &&& forall|i: int| 0 <= i < n ==> self.root@[#[trigger] self.parent@[i] as int] == self.root@[i]
        &&& forall|i: int|
            0 <= i < n && #[trigger] self.parent@[i] == i ==> self.root@[i] == i && self.dist@[i] == 0
        &&& forall|i: int|
            0 <= i < n && #[trigger] self.parent@[i] != i ==> self.dist@[self.parent@[i] as int] < self.dist@[i]
        &&& forall|e: (int, int)| #[trigger] self.edges@.contains(e) ==> 0 <= e.0 < n && 0 <= e.1 < n
        &&& forall|i: int, j: int|
            #![trigger self.root@[i], self.root@[j]]
            #![trigger connected(self.edges@, i, j)]
            0 <= i < n && 0 <= j < n ==> (self.root@[i] == self.root@[j] <==> connected(self.edges@, i, j))
    }

    /// Two elements share a representative exactly when they are connected by joined pairs.
    pub proof fn lemma_classes(&self, i: int, j: int)
        requires
            self.wf(),
            0 <= i < self.size(),
            0 <= j < self.size(),
        ensures
            self.roots()[i] == self.roots()[j] <==> connected(self.joined(), i, j),
            0 <= self.roots()[i] < self.size(),
    {
    }

    /// `n` singletons.
    pub fn new(n: usize) -> (uf: Self)
        ensures
            uf.wf(),
            uf.size() == n,
            uf.joined() == Set::<(int, int)>::empty(),
    {
        let mut parent: Vec<usize> = Vec::with_capacity(n);
        let mut i: usize = 0;
        while i < n
            invariant
                i <= n,
                parent@.len() == i,
                forall|k: int| 0 <= k < i ==> parent@[k] == k,
            decreases n - i,
        {
            parent.push(i);
            i = i + 1;
        }
        let ghost root = Seq::new(n as nat, |k: int| k);
        let ghost dist = Seq::new(n as nat, |k: int| 0nat);
        let uf = UnionFind { parent, root: Ghost(root), dist: Ghost(dist), edges: Ghost(Set::empty()) };
        proof {
            assert forall|a: int, b: int| 0 <= a < n && 0 <= b < n implies (uf.root@[a] == uf.root@[b]
                <==> connected(uf.edges@, a, b)) by {
                lemma_connected_empty(a, b);
            }
        }
        uf
    }

    /// Representative of `x`; compresses the path on the way.
    pub fn find(&mut self, x: usize) -> (r: usize)
        requires
            old(self).wf(),
            x < old(self).size(),
        ensures
            final(self).wf(),
            final(self).size() == old(self).size(),
            final(self).roots() == old(self).roots(),
            final(self).joined() == old(self).joined(),
            r as int == old(self).roots()[x as int],
    {
        let mut r = x;
        while self.parent[r] != r
            invariant
                self.wf(),
                r < self.parent@.len(),
                self.root@[r as int] == self.root@[x as int],
            decreases self.dist@[r as int],
        {
            r = self.parent[r];
        }
        let mut cur = x;
        while self.parent[cur] != cur
            invariant
                self.wf(),
                self.parent@.len() == old(self).parent@.len(),
                self.root@ == old(self).root@,
                self.dist@ == old(self).dist@,
                self.edges@ == old(self).edges@,
                cur < self.parent@.len(),
                r < self.parent@.len(),
                r as int == self.root@[x as int],
                self.root@[cur as int] == self.root@[x as int],
            decreases self.dist@[cur as int],
        {
            let next = self.parent[cur];
            self.parent.set(cur, r);
            proof {
                let n = self.parent@.len();
                assert forall|i: int| 0 <= i < n implies self.root@[#[trigger] self.parent@[i] as int]
                    == self.root@[i] by {}
            }
            cur = next;
        }
        r
    }

    /// Joins the classes of `a` and `b`.
    pub fn union(&mut self, a: usize, b: usize)
        requires
            old(self).wf(),
            a < old(self).size(),
            b < old(self).size(),
        ensures
            final(self).wf(),
            final(self).size() == old(self).size(),
            final(self).joined() == old(self).joined().insert((a as int, b as int)),
    {
        let ra = self.find(a);
        let rb = self.find(b);
        let ghost n = self.parent@.len();
        let ghost old_root = self.root@;
        let ghost old_dist = self.dist@;
        let ghost old_edges = self.edges@;
        let ghost new_edges = old_edges.insert((a as int, b as int));
        if ra != rb {
            self.parent.set(rb, ra);
            let ghost new_root = Seq::new(n, |k: int| if old_root[k] == rb as int { ra as int } else { old_root[k] });
            let ghost new_dist = Seq::new(
                n,
                |k: int| if old_root[k] == rb as int { old_dist[k] + 1 } else { old_dist[k] },
            );
            self.root = Ghost(new_root);
            self.dist = Ghost(new_dist);
            self.edges = Ghost(new_edges);
            proof {
                assert(old_root[b as int] == rb as int && old_root[a as int] == ra as int);
                assert(new_root =~= Seq::new(
                    n,
                    |k: int| if old_root[k] == old_root[b as int] { old_root[a as int] } else { old_root[k] },
                ));
                lemma_union_classes(old_root, old_edges, n as int, a as int, b as int, new_root);
            }
        } else {
            self.edges = Ghost(new_edges);
            proof {
                assert forall|i: int, j: int| 0 <= i < n && 0 <= j < n implies (self.root@[i] == self.root@[j]
                    <==> connected(new_edges, i, j)) by {
                    if old_root[i] == old_root[j] {
                        lemma_connected_mono(old_edges, new_edges, i, j);
                    }
                    if connected(new_edges, i, j) {
                        assert forall|u: int, v: int| #[trigger] adjacent(new_edges, u, v) implies (if 0 <= u < n {
                            old_root[u]
                        } else {
                            -1
                        }) == (if 0 <= v < n {
                            old_root[v]
                        } else {
                            -1
                        }) by {
                            if adjacent(old_edges, u, v) {
                                lemma_connected_edge(old_edges, u, v);
                            }
                        }
                        lemma_connected_label(
                            new_edges,
                            i,
                            j,
                            |k: int|
                                if 0 <= k < n {
                                    old_root[k]
                                } else {
                                    -1
                                },
                        );
                    }
                }
            }
        }
    }
}

impl UnionFind {
    /// The classes with at least two members, each in increasing order, ordered by their
    /// smallest member.
    pub fn clusters(&mut self) -> (groups: Vec<Vec<usize>>)
        requires
            old(self).wf(),
        ensures
            final(self).wf(),
            final(self).size() == old(self).size(),
            final(self).roots() == old(self).roots(),
            final(self).joined() == old(self).joined(),
            clusters_of(groups@.map_values(|g: Vec<usize>| g@), old(self).joined(), old(self).size() as int),
    {
        let n = self.parent.len();
        let mut slot: Vec<usize> = Vec::with_capacity(n);
        let mut k: usize = 0;
        while k < n
            invariant
                k <= n,
                slot@.len() == k,
                forall|t: int| 0 <= t < k ==> slot@[t] == 0,
            decreases n - k,
        {
            slot.push(0);
            k = k + 1;
        }
        let ghost roots = self.root@;
        let mut all: Vec<Vec<usize>> = Vec::new();
        let ghost mut reps: Seq<int> = Seq::empty();
        let mut i: usize = 0;
        while i < n
            invariant
                self.wf(),
                n == self.parent@.len(),
                self.root@ == roots,
                self.edges@ == old(self).edges@,
                old(self).root@ == roots,
                i <= n,
                slot@.len() == n,
                all@.len() == reps.len(),
                forall|r: int| 0 <= r < n && #[trigger] slot@[r] != 0 ==> slot@[r] - 1 < all@.len() && reps[slot@[r] - 1] == r,
                forall|r: int| 0 <= r < n && #[trigger] slot@[r] == 0 ==> forall|t: int| 0 <= t < i ==> roots[t] != r,
                forall|g: int| 0 <= g < reps.len() ==> 0 <= #[trigger] reps[g] < n && slot@[reps[g]] == g + 1,
                forall|g: int| 0 <= g < all@.len() ==> #[trigger] all@[g]@.len() >= 1,
                forall|g: int, j: int|
                    0 <= g < all@.len() && 0 <= j < n ==> (#[trigger] all@[g]@.contains(j as usize) <==> (j < i
                        && roots[j] == reps[g])),
                forall|g: int, a: int, b: int|
                    0 <= g < all@.len() && 0 <= a < b < all@[g]@.len() ==> #[trigger] all@[g]@[a] < #[trigger] all@[g]@[b],
                forall|g: int, a: int| 0 <= g < all@.len() && 0 <= a < all@[g]@.len() ==> #[trigger] all@[g]@[a] < i,
            decreases n - i,
        {
            let r = self.find(i);
            if slot[r] == 0 {
                let mut g: Vec<usize> = Vec::new();
                g.push(i);
                all.push(g);
                slot.set(r, all.len());
                proof {
                    reps = reps.push(r as int);
                    assert forall|gg: int, j: int| 0 <= gg < all@.len() && 0 <= j < n implies (
                    #[trigger] all@[gg]@.contains(j as usize) <==> (j < i + 1 && roots[j] == reps[gg])) by {
                        if gg == all@.len() - 1 {
                            if all@[gg]@.contains(j as usize) {
                                assert(all@[gg]@[0] == i);
                            }
                            if j == i {
                                assert(all@[gg]@[0] == i);
                            }
                        }
                    }
                }
            } else {
                let gi = slot[r] - 1;
                let ghost old_all = all@;
                let ghost before = all@[gi as int]@;
                proof {
                    assert forall|j: int| 0 <= j < n implies (before.contains(j as usize) <==> (j < i
                        && roots[j] == reps[gi as int])) by {
                        assert(old_all[gi as int]@.contains(j as usize) <==> (j < i && roots[j] == reps[gi as int]));
                    }
                }
                all[gi].push(i);
                proof {
                    assert(all@[gi as int]@ == before.push(i));
                    assert forall|gg: int| 0 <= gg < all@.len() && gg != gi as int implies all@[gg] == old_all[gg] by {}
                    assert forall|gg: int, j: int| 0 <= gg < all@.len() && 0 <= j < n implies (
                    #[trigger] all@[gg]@.contains(j as usize) <==> (j < i + 1 && roots[j] == reps[gg])) by {
                        if gg == gi as int {
                            if j == i as int {
                                assert(all@[gg]@[before.len() as int] == i);
                            } else if all@[gg]@.contains(j as usize) {
                                let t = choose|t: int| 0 <= t < all@[gg]@.len() && all@[gg]@[t] == j as usize;
                                assert(before[t] == j as usize);
                                assert(before.contains(j as usize));
                            } else if j < i && roots[j] == reps[gg] {
                                assert(before.contains(j as usize));
                                let t = choose|t: int| 0 <= t < before.len() && before[t] == j as usize;
                                assert(all@[gg]@[t] == j as usize);
                            }
                        } else {
                            assert(old_all[gg]@.contains(j as usize) <==> (j < i && roots[j] == reps[gg]));
                        }
                    }
                    assert forall|gg: int, a: int, b: int|
                        0 <= gg < all@.len() && 0 <= a < b < all@[gg]@.len() implies #[trigger] all@[gg]@[a] < #[trigger] all@[gg]@[b] by {
                        if gg == gi as int {
                            if b == before.len() {
                                assert(old_all[gg]@[a] < i);
                            } else {
                                assert(old_all[gg]@[a] < old_all[gg]@[b]);
                            }
                        } else {
                            assert(old_all[gg]@[a] < old_all[gg]@[b]);
                        }
                    }
                    assert forall|gg: int, a: int| 0 <= gg < all@.len() && 0 <= a < all@[gg]@.len() implies #[trigger] all@[gg]@[a] < i + 1 by {
                        if gg == gi as int && a < before.len() {
                            assert(old_all[gg]@[a] < i);
                        } else if gg != gi as int {
                            assert(old_all[gg]@[a] < i);
                        }
                    }
                }
            }
            i = i + 1;
        }
        let mut groups: Vec<Vec<usize>> = Vec::new();
        let ghost mut picked: Seq<int> = Seq::empty();
        let m = all.len();
        let mut g: usize = 0;
        while g < m
            invariant
                m == all@.len(),
                g <= m,
                groups@.len() == picked.len(),
                forall|q: int| 0 <= q < picked.len() ==> 0 <= #[trigger] picked[q] < g && groups@[q]@ == all@[picked[q]]@,
                forall|q1: int, q2: int| 0 <= q1 < q2 < picked.len() ==> #[trigger] picked[q1] < #[trigger] picked[q2],
                forall|q: int| 0 <= q < picked.len() ==> (#[trigger] groups@[q])@.len() >= 2,
                forall|h: int| 0 <= h < g && #[trigger] all@[h]@.len() >= 2 ==> exists|q: int| 0 <= q < picked.len() && picked[q] == h,
            decreases m - g,
        {
            if all[g].len() >= 2 {
                let c = all[g].clone();
                groups.push(c);
                proof {
                    let old_picked = picked;
                    picked = picked.push(g as int);
                    assert forall|h: int| 0 <= h < g + 1 && #[trigger] all@[h]@.len() >= 2 implies exists|q: int|
                        0 <= q < picked.len() && picked[q] == h by {
                        if h == g as int {
                            assert(picked[picked.len() - 1] == h);
                        } else {
                            let q = choose|q: int| 0 <= q < old_picked.len() && old_picked[q] == h;
                            assert(picked[q] == h);
                        }
                    }
                }
            }
            g = g + 1;
        }
        proof {
            let view = groups@.map_values(|gv: Vec<usize>| gv@);
            let nn = n as int;
            let ed = old(self).edges@;
            assert forall|q: int| 0 <= q < view.len() implies group_is_class(#[trigger] view[q], ed, nn) by {
                let h = picked[q];
                assert(view[q] == groups@[q]@);
                assert(view[q] == all@[h]@);
                assert(all@[h]@.contains(all@[h]@[0]));
                let first = all@[h]@[0] as int;
                assert(all@[h]@[0] < n);
                assert(all@[h]@.contains(first as usize));
                assert(roots[first] == reps[h]);
                assert forall|j: int| 0 <= j < nn implies (view[q].contains(j as usize) <==> connected(ed, j, first)) by {
                    self.lemma_classes(j, first);
                    assert(all@[h]@.contains(j as usize) <==> (j < n && roots[j] == reps[h]));
                }
                assert forall|a: int| 0 <= a < view[q].len() implies #[trigger] view[q][a] < nn by {
                    assert(all@[h]@.contains(all@[h]@[a]));
                }
            }
            assert forall|q1: int, q2: int| 0 <= q1 < view.len() && 0 <= q2 < view.len() && q1 != q2 implies
                !connected(ed, #[trigger] view[q1][0] as int, #[trigger] view[q2][0] as int) by {
                let h1 = picked[q1];
                let h2 = picked[q2];
                assert(h1 != h2);
                assert(all@[h1]@.contains(all@[h1]@[0]));
                assert(all@[h2]@.contains(all@[h2]@[0]));
                self.lemma_classes(view[q1][0] as int, view[q2][0] as int);
                assert(slot@[reps[h1]] == h1 + 1);
                assert(slot@[reps[h2]] == h2 + 1);
            }
            assert forall|a: int, b: int| 0 <= a < nn && 0 <= b < nn && a != b && connected(ed, a, b) implies exists|q: int|
                0 <= q < view.len() && #[trigger] view[q].contains(a as usize) by {
                self.lemma_classes(a, b);
                let r = roots[a];
                assert(0 <= r < nn);
                let h = slot@[r] - 1;
                assert(slot@[r] != 0) by {
                    if slot@[r] == 0 {
                        assert(roots[a] != r);
                    }
                }
                assert(all@[h]@.contains(a as usize));
                assert(all@[h]@.contains(b as usize));
                assert(all@[h]@.len() >= 2) by {
                    let ta = choose|t: int| 0 <= t < all@[h]@.len() && all@[h]@[t] == a as usize;
                    let tb = choose|t: int| 0 <= t < all@[h]@.len() && all@[h]@[t] == b as usize;
                    assert(ta != tb);
                }
                let q = choose|q: int| 0 <= q < picked.len() && picked[q] == h;
                assert(view[q] == all@[h]@);
            }
        }
        groups
    }
}

/// `g` lists, in increasing order and without repetition, all members of the
/// component of its first element.
pub open spec fn group_is_class(g: Seq<usize>, edges: Set<(int, int)>, n: int) -> bool {
    &&& g.len() >= 2
    &&& forall|a: int| 0 <= a < g.len() ==> #[trigger] g[a] < n
    &&& forall|a: int, b: int| 0 <= a < b < g.len() ==> #[trigger] g[a] < #[trigger] g[b]
    &&& forall|j: int| 0 <= j < n ==> (g.contains(j as usize) <==> connected(edges, j, g[0] as int))
}

/// `groups` are the connected components of `edges` over `0..n` that have at least two members,
/// each listed once.
pub open spec fn clusters_of(groups: Seq<Seq<usize>>, edges: Set<(int, int)>, n: int) -> bool {
    &&& forall|q: int| 0 <= q < groups.len() ==> group_is_class(#[trigger] groups[q], edges, n)
    &&& forall|q1: int, q2: int|
        0 <= q1 < groups.len() && 0 <= q2 < groups.len() && q1 != q2 ==> !connected(
            edges,
            #[trigger] groups[q1][0] as int,
            #[trigger] groups[q2][0] as int,
        )
    &&& forall|a: int, b: int|
        0 <= a < n && 0 <= b < n && a != b && connected(edges, a, b) ==> exists|q: int|
            0 <= q < groups.len() && #[trigger] groups[q].contains(a as usize)
}

/// Merging the classes of `a` and `b` gives the components of the edges with `(a, b)` added.
proof fn lemma_union_classes(
    root: Seq<int>,
    edges: Set<(int, int)>,
    n: int,
    a: int,
    b: int,
    new_root: Seq<int>,
)
    requires
        root.len() == n,
        0 <= a < n,
        0 <= b < n,
        root[a] != root[b],
        forall|e: (int, int)| #[trigger] edges.contains(e) ==> 0 <= e.0 < n && 0 <= e.1 < n,
        forall|i: int, j: int|
            #![trigger root[i], root[j]]
            #![trigger connected(edges, i, j)]
            0 <= i < n && 0 <= j < n ==> (root[i] == root[j] <==> connected(edges, i, j)),
        new_root == Seq::new(n as nat, |k: int| if root[k] == root[b] { root[a] } else { root[k] }),
    ensures
        forall|i: int, j: int|
            #![trigger new_root[i], new_root[j]]
            #![trigger connected(edges.insert((a, b)), i, j)]
            0 <= i < n && 0 <= j < n ==> (new_root[i] == new_root[j] <==> connected(edges.insert((a, b)), i, j)),
{
    let ne = edges.insert((a, b));
    let ra = root[a];
    let rb = root[b];
    assert forall|i: int, j: int| 0 <= i < n && 0 <= j < n implies (new_root[i] == new_root[j] <==> connected(
        ne,
        i,
        j,
    )) by {
        if new_root[i] == new_root[j] {
            if root[i] == root[j] {
                lemma_connected_mono(edges, ne, i, j);
            } else if root[i] == rb {
                // i ~ b -- a ~ j
                assert(root[j] == ra);
                assert(connected(edges, i, b));
                assert(connected(edges, a, j));
                lemma_connected_mono(edges, ne, i, b);
                lemma_connected_mono(edges, ne, a, j);
                lemma_connected_edge(ne, a, b);
                lemma_connected_sym(ne, a, b);
                lemma_connected_trans(ne, i, b, a);
                lemma_connected_trans(ne, i, a, j);
            } else {
                assert(root[j] == rb);
                assert(root[i] == ra);
                assert(connected(edges, i, a));
                assert(connected(edges, b, j));
                lemma_connected_mono(edges, ne, i, a);
                lemma_connected_mono(edges, ne, b, j);
                lemma_connected_edge(ne, a, b);
                lemma_connected_trans(ne, i, a, b);
                lemma_connected_trans(ne, i, b, j);
            }
        }
        if connected(ne, i, j) {
            let label = |k: int|
                if 0 <= k < n {
                    new_root[k]
                } else {
                    -1
                };
            assert forall|u: int, v: int| #[trigger] adjacent(ne, u, v) implies label(u) == label(v) by {
                if adjacent(edges, u, v) {
                    lemma_connected_edge(edges, u, v);
                    assert(root[u] == root[v]);
                }
            }
            lemma_connected_label(ne, i, j, label);
        }
    }
}

} // verus!
