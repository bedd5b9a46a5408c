//! BK-tree over 64-bit hashes with the Hamming distance, for radius queries.

use vstd::prelude::*;
use crate::bits::{hamming, hamming_spec, law_hamming_metric, law_hamming_triangle};

verus! {

/// `k` lies in the subtree of `a` (following parents from `k`).
pub open spec fn in_subtree(parent: Seq<int>, a: int, k: int) -> bool
    decreases k,
{
    if k == a {
        true
    } else if k <= 0 || k >= parent.len() || parent[k] >= k || parent[k] < 0 {
        false
    } else {
        in_subtree(parent, a, parent[k])
    }
}

/// The child of `a` on the way down to `k`.
pub open spec fn toward(parent: Seq<int>, a: int, k: int) -> int
    decreases k,
{
    if k <= 0 || k >= parent.len() || parent[k] >= k || parent[k] < 0 {
        k
    } else if parent[k] == a {
        k
    } else {
        toward(parent, a, parent[k])
    }
}

/// Node `c` appears among the children of its parent.
pub open spec fn is_listed(children: Seq<Vec<(u32, usize)>>, parent: Seq<int>, c: int) -> bool {
    exists|t: int| 0 <= t < children[parent[c]]@.len() && (#[trigger] children[parent[c]]@[t]).1 == c
}

/// Nodes hold hashes; a child hangs off its parent under the distance between their hashes.
pub struct BKTree {
    nodes: Vec<u64>,
    children: Vec<Vec<(u32, usize)>>,
    parent: Ghost<Seq<int>>,
    label: Ghost<Seq<int>>,
}

proof fn lemma_toward(parent: Seq<int>, a: int, k: int)
    requires
        in_subtree(parent, a, k),
        k != a,
    ensures
        0 <= parent[toward(parent, a, k)] == a,
        a < toward(parent, a, k) <= k < parent.len(),
        in_subtree(parent, toward(parent, a, k), k),
    decreases k,
{
    if parent[k] != a {
        lemma_toward(parent, a, parent[k]);
        lemma_subtree_step(parent, toward(parent, a, parent[k]), k);
    }
}

proof fn lemma_subtree_step(parent: Seq<int>, c: int, k: int)
    requires
        0 < k < parent.len(),
        0 <= parent[k] < k,
        in_subtree(parent, c, parent[k]),
    ensures
        in_subtree(parent, c, k),
{
}

proof fn lemma_subtree_le(parent: Seq<int>, a: int, k: int)
    requires
        in_subtree(parent, a, k),
    ensures
        a <= k,
    decreases k,
{
    if k != a {
        lemma_subtree_le(parent, a, parent[k]);
    }
}

proof fn lemma_subtree_extend(parent: Seq<int>, p: int, a: int, k: int)
    requires
        0 <= k < parent.len(),
    ensures
        in_subtree(parent.push(p), a, k) == in_subtree(parent, a, k),
        toward(parent.push(p), a, k) == toward(parent, a, k),
    decreases k,
{
    if k > 0 && parent[k] < k && parent[k] >= 0 {
        lemma_subtree_extend(parent, p, a, parent[k]);
    }
}

proof fn lemma_root_reaches_all(parent: Seq<int>, k: int)
    requires
        0 <= k < parent.len(),
        forall|j: int| 0 < j < parent.len() ==> 0 <= #[trigger] parent[j] < j,
    ensures
        in_subtree(parent, 0, k),
    decreases k,
{
    if k > 0 {
        lemma_root_reaches_all(parent, parent[k]);
    }
}

impl BKTree {
    /// The hashes held by the tree.
    pub closed spec fn hashes(&self) -> Seq<u64> {
        self.nodes@
    }

    pub closed spec fn wf(&self) -> bool {
        let n = self.nodes@.len();
        let parent = self.parent@;
        let label = self.label@;
        &&& self.children@.len() == n
        &&& parent.len() == n
        &&& label.len() == n
        &&& forall|k: int| 0 < k < n ==> 0 <= #[trigger] parent[k] < k
        &&& forall|a: int, t: int|
            0 <= a < n && 0 <= t < self.children@[a]@.len() ==> {
                let c = (#[trigger] self.children@[a]@[t]).1 as int;
                &&& 0 < c < n
                &&& parent[c] == a
                &&& label[c] == self.children@[a]@[t].0
            }
        &&& forall|a: int, t1: int, t2: int|
            0 <= a < n && 0 <= t1 < t2 < self.children@[a]@.len() ==> (#[trigger] self.children@[a]@[t1]).1
                != (#[trigger] self.children@[a]@[t2]).1
        &&& forall|a: int, t1: int, t2: int|
            0 <= a < n && 0 <= t1 < t2 < self.children@[a]@.len() ==> (#[trigger] self.children@[a]@[t1]).0
                != (#[trigger] self.children@[a]@[t2]).0
        &&& forall|c: int| 0 < c < n ==> #[trigger] is_listed(self.children@, parent, c)
        &&& forall|a: int, k: int|
            0 <= a < n && 0 <= k < n && k != a && #[trigger] in_subtree(parent, a, k) ==> hamming_spec(
                self.nodes@[a],
                self.nodes@[k],
            ) == label[toward(parent, a, k)]
    }

    /// An empty tree.
    pub fn new() -> (t: Self)
        ensures
            t.wf(),
            t.hashes() == Seq::<u64>::empty(),
    {
        BKTree { nodes: Vec::new(), children: Vec::new(), parent: Ghost(Seq::empty()), label: Ghost(Seq::empty()) }
    }

    /// Adds a hash; a hash already held is not added twice.
    pub fn insert(&mut self, hash: u64)
        requires
            old(self).wf(),
        ensures
            final(self).wf(),
            forall|x: u64| final(self).hashes().contains(x) <==> (old(self).hashes().contains(x) || x == hash),
            final(self).hashes() == (if old(self).hashes().contains(hash) {
                old(self).hashes()
            } else {
                old(self).hashes().push(hash)
            }),
    {
        if self.nodes.len() == 0 {
            self.nodes.push(hash);
            self.children.push(Vec::new());
            let ghost p0: Seq<int> = seq![-1int];
            let ghost l0: Seq<int> = seq![0int];
            self.parent = Ghost(p0);
            self.label = Ghost(l0);
            proof {
                assert(self.nodes@ =~= seq![hash]);
                assert(old(self).nodes@ =~= Seq::<u64>::empty());
                assert(old(self).nodes@.push(hash) =~= seq![hash]);
                assert forall|x: u64| self.hashes().contains(x) <==> (old(self).hashes().contains(x) || x == hash) by {
                    if x == hash {
                        assert(self.nodes@[0] == hash);
                    }
                }
            }
            return;
        }
        let mut idx: usize = 0;
        proof {
            assert forall|k: int| 0 <= k < self.nodes@.len() && self.nodes@[k] == hash implies #[trigger] in_subtree(
                self.parent@,
                0,
                k,
            ) by {
                lemma_root_reaches_all(self.parent@, k);
            }
        }
        loop
            invariant
                self.wf(),
                self.nodes@ == old(self).nodes@,
                self.nodes@.len() > 0,
                idx < self.nodes@.len(),
                forall|a: int|
                    0 <= a < self.nodes@.len() && a != idx && #[trigger] in_subtree(self.parent@, a, idx as int)
                        ==> hamming_spec(self.nodes@[a], hash) == self.label@[toward(self.parent@, a, idx as int)],
                forall|k: int|
                    0 <= k < self.nodes@.len() && self.nodes@[k] == hash ==> #[trigger] in_subtree(
                        self.parent@,
                        idx as int,
                        k,
                    ),
            decreases self.nodes@.len() - idx,
        {
            let d = hamming(self.nodes[idx], hash);
            if d == 0 {
                proof {
                    law_hamming_metric(self.nodes@[idx as int], hash);
                    assert(self.nodes@[idx as int] == hash);
                    assert(old(self).hashes().contains(hash));
                    assert forall|x: u64| self.hashes().contains(x) <==> (old(self).hashes().contains(x) || x == hash) by {
                        if x == hash {
                            assert(self.nodes@[idx as int] == x);
                        }
                    }
                }
                return;
            }
            let kids = &self.children[idx];
            let mut t: usize = 0;
            let mut found: Option<usize> = None;
            while t < kids.len() && found.is_none()
                invariant
                    t <= kids@.len(),
                    kids@ == self.children@[idx as int]@,
                    found matches Some(c) ==> exists|u: int|
                        0 <= u < kids@.len() && kids@[u].1 == c && kids@[u].0 == d,
                    found is None ==> forall|u: int| 0 <= u < t ==> (#[trigger] kids@[u]).0 != d,
                decreases kids@.len() - t,
            {
                if kids[t].0 == d {
                    found = Some(kids[t].1);
                }
                t = t + 1;
            }
            match found {
                Some(c) => {
                    proof {
                        let u = choose|u: int| 0 <= u < kids@.len() && kids@[u].1 == c && kids@[u].0 == d;
                        assert(self.children@[idx as int]@[u].1 == c);
                        let parent = self.parent@;
                        assert(parent[c as int] == idx as int);
                        assert(self.label@[c as int] == d as int);
                        assert forall|a: int|
                            0 <= a < self.nodes@.len() && a != c && #[trigger] in_subtree(parent, a, c as int) implies
                            hamming_spec(self.nodes@[a], hash) == self.label@[toward(parent, a, c as int)] by {
                            if a != idx as int {
                                assert(in_subtree(parent, a, idx as int));
                                assert(toward(parent, a, c as int) == toward(parent, a, idx as int));
                            } else {
                                assert(toward(parent, a, c as int) == c);
                            }
                        }
                        assert forall|k: int| 0 <= k < self.nodes@.len() && self.nodes@[k] == hash implies #[trigger] in_subtree(
                            parent,
                            c as int,
                            k,
                        ) by {
                            assert(in_subtree(parent, idx as int, k));
                            law_hamming_metric(self.nodes@[idx as int], hash);
                            assert(k != idx as int);
                            lemma_toward(parent, idx as int, k);
                            let c2 = toward(parent, idx as int, k);
                            assert(self.label@[c2] == d as int);
                            assert(is_listed(self.children@, parent, c2));
                            let u2 = choose|u2: int|
                                0 <= u2 < self.children@[parent[c2]]@.len() && (#[trigger] self.children@[parent[c2]]@[u2]).1 == c2;
                            assert(kids@[u2].0 == d);
                            if u2 != u {
                                if u2 < u {
                                    assert(self.children@[idx as int]@[u2].0 != self.children@[idx as int]@[u].0);
                                } else {
                                    assert(self.children@[idx as int]@[u].0 != self.children@[idx as int]@[u2].0);
                                }
                            }
                            assert(c2 == c);
                        }
                    }
                    idx = c;
                },
                None => {
                    proof {
                        let parent = self.parent@;
                        assert forall|k: int| 0 <= k < self.nodes@.len() implies self.nodes@[k] != hash by {
                            if self.nodes@[k] == hash {
                                assert(in_subtree(parent, idx as int, k));
                                law_hamming_metric(self.nodes@[idx as int], hash);
                                assert(k != idx as int);
                                lemma_toward(parent, idx as int, k);
                                let c2 = toward(parent, idx as int, k);
                                assert(self.label@[c2] == d as int);
                                assert(is_listed(self.children@, parent, c2));
                                let u2 = choose|u2: int|
                                    0 <= u2 < self.children@[parent[c2]]@.len() && (#[trigger] self.children@[parent[c2]]@[u2]).1 == c2;
                                assert(kids@[u2].0 == d);
                            }
                        }
                        assert(!old(self).hashes().contains(hash));
                    }
                    let n = self.nodes.len();
                    let ghost old_parent = self.parent@;
                    let ghost old_label = self.label@;
                    let ghost old_children = self.children@;
                    let ghost old_nodes = self.nodes@;
                    self.nodes.push(hash);
                    self.children.push(Vec::new());
                    self.children[idx].push((d, n));
                    self.parent = Ghost(old_parent.push(idx as int));
                    self.label = Ghost(old_label.push(d as int));
                    proof {
                        let parent = self.parent@;
                        let nn = n as int;
                        assert forall|k: int| 0 < k < nn + 1 implies 0 <= #[trigger] parent[k] < k by {
                            if k < nn {
                                assert(parent[k] == old_parent[k]);
                            }
                        }
                        assert forall|a: int, t2: int|
                            0 <= a < nn + 1 && 0 <= t2 < self.children@[a]@.len() implies {
                                let c = (#[trigger] self.children@[a]@[t2]).1 as int;
                                &&& 0 < c < nn + 1
                                &&& parent[c] == a
                                &&& self.label@[c] == self.children@[a]@[t2].0
                            } by {
                            if a == idx as int {
                                if t2 < old_children[a]@.len() {
                                    assert(self.children@[a]@[t2] == old_children[a]@[t2]);
                                }
                            } else if a < nn {
                                assert(self.children@[a] == old_children[a]);
                            }
                        }
                        assert forall|a: int, t1: int, t2: int|
                            0 <= a < nn + 1 && 0 <= t1 < t2 < self.children@[a]@.len() implies (#[trigger] self.children@[a]@[t1]).1
                            != (#[trigger] self.children@[a]@[t2]).1 by {
                            if a == idx as int {
                                assert(self.children@[a]@[t1] == old_children[a]@[t1]);
                                if t2 < old_children[a]@.len() {
                                    assert(self.children@[a]@[t2] == old_children[a]@[t2]);
                                }
                            } else if a < nn {
                                assert(self.children@[a] == old_children[a]);
                            }
                        }
                        assert forall|c: int| 0 < c < nn + 1 implies #[trigger] is_listed(self.children@, parent, c) by {
                            if c == nn {
                                let last = self.children@[idx as int]@.len() - 1;
                                assert(self.children@[idx as int]@[last].1 == c);
                            } else {
                                let pc = old_parent[c];
                                assert(is_listed(old_children, old_parent, c));
                                let t2 = choose|t2: int| 0 <= t2 < old_children[pc]@.len() && (#[trigger] old_children[pc]@[t2]).1 == c;
                                if pc == idx as int {
                                    assert(self.children@[pc]@[t2] == old_children[pc]@[t2]);
                                } else {
                                    assert(self.children@[pc] == old_children[pc]);
                                }
                            }
                        }
                        assert forall|a: int, k: int|
                            0 <= a < nn + 1 && 0 <= k < nn + 1 && k != a && #[trigger] in_subtree(parent, a, k) implies hamming_spec(
                                self.nodes@[a],
                                self.nodes@[k],
                            ) == self.label@[toward(parent, a, k)] by {
                            if k < nn {
                                lemma_subtree_extend(old_parent, idx as int, a, k);
                                if a == nn {
                                    lemma_subtree_le(parent, a, k);
                                }
                                assert(in_subtree(old_parent, a, k));
                                assert(self.label@[toward(old_parent, a, k)] == old_label[toward(old_parent, a, k)]) by {
                                    lemma_toward(old_parent, a, k);
                                }
                            } else {
                                // k is the new node
                                assert(parent[k] == idx as int);
                                lemma_subtree_extend(old_parent, idx as int, a, idx as int);
                                if a == idx as int {
                                    assert(toward(parent, a, k) == k);
                                } else {
                                    assert(in_subtree(old_parent, a, idx as int));
                                    assert(toward(parent, a, k) == toward(parent, a, idx as int));
                                    lemma_toward(old_parent, a, idx as int);
                                }
                            }
                        }
                        assert forall|x: u64| self.hashes().contains(x) <==> (old(self).hashes().contains(x) || x == hash) by {
                            if x == hash {
                                assert(self.nodes@[nn] == x);
                            }
                            if self.hashes().contains(x) {
                                let w = choose|w: int| 0 <= w < self.nodes@.len() && self.nodes@[w] == x;
                                if w < nn {
                                    assert(old_nodes[w] == x);
                                }
                            }
                            if old(self).hashes().contains(x) {
                                let w = choose|w: int| 0 <= w < old_nodes.len() && old_nodes[w] == x;
                                assert(self.nodes@[w] == x);
                            }
                        }
                    }
                    return;
                },
            }
        }
    }

    /// The hash held by node `idx`.
    pub fn node_hash(&self, idx: usize) -> (h: u64)
        requires
            idx < self.hashes().len(),
        ensures
            h == self.hashes()[idx as int],
    {
        self.nodes[idx]
    }

    /// The nodes whose hash lies within Hamming distance `radius` of `hash`, each once.
    pub fn query(&self, hash: u64, radius: u32) -> (out: Vec<usize>)
        requires
            self.wf(),
        ensures
            forall|k: int| 0 <= k < out@.len() ==> (#[trigger] out@[k] as int) < self.hashes().len(),
            forall|k: int|
                0 <= k < self.hashes().len() ==> (out@.contains(k as usize) <==> hamming_spec(
                    self.hashes()[k],
                    hash,
                ) <= radius),
            forall|a: int, b: int| 0 <= a < b < out@.len() ==> out@[a] != out@[b],
            self.hashes().len() <= usize::MAX,
    {
        let mut out: Vec<usize> = Vec::new();
        let n = self.nodes.len();
        if n == 0 {
            return out;
        }
        let mut stack: Vec<usize> = Vec::new();
        stack.push(0);
        let ghost mut visited: Set<int> = Set::empty();
        let ghost mut pushed: Set<int> = set![0int];
        let ghost parent = self.parent@;
        proof {
            assert(stack@ =~= seq![0usize]);
            assert forall|k: int| #[trigger] pushed.contains(k) <==> (visited.contains(k) || (0 <= k < n && stack@.contains(k as usize))) by {
                if k == 0 {
                    assert(stack@[0] == 0usize);
                }
            }
            vstd::set_lib::lemma_int_range(0, n as int);
            vstd::set_lib::lemma_len_subset(pushed, vstd::set_lib::set_int_range(0, n as int));
            assert forall|k: int| 0 <= k < n && hamming_spec(self.nodes@[k], hash) <= radius implies exists|s: int|
                0 <= s < stack@.len() && #[trigger] in_subtree(parent, stack@[s] as int, k) by {
                lemma_root_reaches_all(parent, k);
                assert(stack@[0] == 0);
            }
        }
        while stack.len() > 0
            invariant
                self.wf(),
                n == self.nodes@.len(),
                n > 0,
                parent == self.parent@,
                visited.finite(),
                pushed.finite(),
                pushed.len() <= n,
                forall|k: int| #[trigger] pushed.contains(k) <==> (visited.contains(k) || (0 <= k < n && stack@.contains(k as usize))),
                forall|k: int| #[trigger] pushed.contains(k) ==> 0 <= k < n,
                forall|i: int| 0 <= i < stack@.len() ==> (#[trigger] stack@[i] as int) < n,
                forall|i: int| 0 <= i < stack@.len() ==> !visited.contains(#[trigger] stack@[i] as int),
                forall|i: int, j: int| 0 <= i < j < stack@.len() ==> stack@[i] != stack@[j],
                forall|k: int| #[trigger] pushed.contains(k) && k != 0 ==> visited.contains(parent[k]),
                forall|i: int| 0 <= i < out@.len() ==> visited.contains(#[trigger] out@[i] as int),
                forall|i: int| 0 <= i < out@.len() ==> (#[trigger] out@[i] as int) < n,
                forall|k: int|
                    0 <= k < n ==> (out@.contains(k as usize) <==> (visited.contains(k) && hamming_spec(
                        self.nodes@[k],
                        hash,
                    ) <= radius)),
                forall|a: int, b: int| 0 <= a < b < out@.len() ==> out@[a] != out@[b],
                forall|k: int|
                    0 <= k < n && hamming_spec(self.nodes@[k], hash) <= radius && !visited.contains(k) ==> exists|s: int|
                        0 <= s < stack@.len() && #[trigger] in_subtree(parent, stack@[s] as int, k),
            decreases 2 * (n - pushed.len()) + stack@.len(),
        {
            let ghost before = stack@;
            let idx = stack.pop().unwrap();
            let ghost old_out = out@;
            proof {
                assert(before =~= stack@.push(idx));
                assert(before[before.len() - 1] == idx);
                visited = visited.insert(idx as int);
                assert forall|k: int| #[trigger] pushed.contains(k) <==> (visited.contains(k) || (0 <= k < n && stack@.contains(k as usize))) by {
                    if 0 <= k < n && stack@.contains(k as usize) {
                        let i = choose|i: int| 0 <= i < stack@.len() && stack@[i] == k as usize;
                        assert(before[i] == k as usize);
                    }
                    if 0 <= k < n && before.contains(k as usize) && k != idx {
                        let i = choose|i: int| 0 <= i < before.len() && before[i] == k as usize;
                        assert(i != before.len() - 1);
                        assert(stack@[i] == k as usize);
                    }
                    if k == idx {
                        assert(before.contains(idx));
                    }
                }
            }
            let d = hamming(self.nodes[idx], hash);
            if d <= radius {
                out.push(idx);
                proof {
                    assert forall|a: int, b: int| 0 <= a < b < out@.len() implies out@[a] != out@[b] by {
                        if b == out@.len() - 1 {
                            assert(visited.remove(idx as int).contains(old_out[a] as int) || old_out[a] != idx);
                            assert(old_out.contains(old_out[a]));
                        }
                    }
                }
            }
            proof {
                assert forall|k: int| 0 <= k < n implies (out@.contains(k as usize) <==> (visited.contains(k) && hamming_spec(
                        self.nodes@[k],
                        hash,
                    ) <= radius)) by {
                    if out@.contains(k as usize) && k != idx {
                        let i = choose|i: int| 0 <= i < out@.len() && out@[i] == k as usize;
                        assert(old_out[i] == k as usize);
                    }
                    if k != idx && old_out.contains(k as usize) {
                        let i = choose|i: int| 0 <= i < old_out.len() && old_out[i] == k as usize;
                        assert(out@[i] == k as usize);
                    }
                    if k == idx && d <= radius {
                        assert(out@[out@.len() - 1] == idx);
                    }
                }
            }
            let lo: u64 = if d >= radius { (d - radius) as u64 } else { 0 };
            let hi: u64 = d as u64 + radius as u64;
            let kids = &self.children[idx];
            let ghost mid = stack@;
            let ghost p0 = pushed.len();
            proof {
                assert forall|k: int| #[trigger] pushed.contains(k) && k != 0 implies parent[k] != idx as int by {
                    if parent[k] == idx as int {
                        assert(visited.remove(idx as int).contains(parent[k]) || before.contains(k as usize));
                        if before.contains(k as usize) {
                            assert(visited.remove(idx as int).contains(parent[k]));
                        }
                        assert(before[before.len() - 1] == idx);
                        assert(!visited.remove(idx as int).contains(idx as int));
                    }
                }
            }
            let mut t: usize = 0;
            while t < kids.len()
                invariant
                    self.wf(),
                    n == self.nodes@.len(),
                    parent == self.parent@,
                    idx < n,
                    visited.contains(idx as int),
                    kids@ == self.children@[idx as int]@,
                    t <= kids@.len(),
                    visited.finite(),
                    pushed.finite(),
                    pushed.len() <= n,
                    pushed.len() == p0 + (stack@.len() - mid.len()),
                    stack@.len() >= mid.len(),
                    stack@.subrange(0, mid.len() as int) == mid,
                    forall|u: int| 0 <= u < t && lo <= (#[trigger] kids@[u]).0 <= hi ==> stack@.contains(kids@[u].1),
                    forall|k: int|
                        #[trigger] pushed.contains(k) && k != 0 && parent[k] == idx as int ==> exists|u: int|
                            0 <= u < t && kids@[u].1 as int == k,
                    forall|k: int| #[trigger] pushed.contains(k) <==> (visited.contains(k) || (0 <= k < n && stack@.contains(k as usize))),
                    forall|k: int| #[trigger] pushed.contains(k) ==> 0 <= k < n,
                    forall|i: int| 0 <= i < stack@.len() ==> (#[trigger] stack@[i] as int) < n,
                    forall|i: int| 0 <= i < stack@.len() ==> !visited.contains(#[trigger] stack@[i] as int),
                    forall|i: int, j: int| 0 <= i < j < stack@.len() ==> stack@[i] != stack@[j],
                    forall|k: int| #[trigger] pushed.contains(k) && k != 0 ==> visited.contains(parent[k]),
                decreases kids@.len() - t,
            {
                let (dist, child) = kids[t];
                if lo <= dist as u64 && dist as u64 <= hi {
                    let ghost s0 = stack@;
                    proof {
                        assert(0 < child < n && parent[child as int] == idx as int);
                        if pushed.contains(child as int) {
                            let u = choose|u: int| 0 <= u < t && kids@[u].1 as int == child as int;
                            assert(self.children@[idx as int]@[u].1 != self.children@[idx as int]@[t as int].1);
                        }
                        assert(!stack@.contains(child));
                    }
                    stack.push(child);
                    proof {
                        vstd::set_lib::lemma_int_range(0, n as int);
                        pushed = pushed.insert(child as int);
                        vstd::set_lib::lemma_len_subset(pushed, vstd::set_lib::set_int_range(0, n as int));
                        assert(stack@.subrange(0, mid.len() as int) =~= s0.subrange(0, mid.len() as int));
                        assert forall|k: int| #[trigger] pushed.contains(k) <==> (visited.contains(k) || (0 <= k < n && stack@.contains(k as usize))) by {
                            if 0 <= k < n && stack@.contains(k as usize) && k != child {
                                let i = choose|i: int| 0 <= i < stack@.len() && stack@[i] == k as usize;
                                assert(s0[i] == k as usize);
                            }
                            if 0 <= k < n && s0.contains(k as usize) {
                                let i = choose|i: int| 0 <= i < s0.len() && s0[i] == k as usize;
                                assert(stack@[i] == k as usize);
                            }
                            if k == child {
                                assert(stack@[stack@.len() - 1] == child);
                            }
                        }
                        assert forall|u: int| 0 <= u < t + 1 && lo <= (#[trigger] kids@[u]).0 <= hi implies stack@.contains(kids@[u].1) by {
                            if u < t {
                                let i = choose|i: int| 0 <= i < s0.len() && s0[i] == kids@[u].1;
                                assert(stack@[i] == kids@[u].1);
                            } else {
                                assert(stack@[stack@.len() - 1] == child);
                            }
                        }
                    }
                }
                t = t + 1;
            }
            proof {
                assert forall|k: int|
                    0 <= k < n && hamming_spec(self.nodes@[k], hash) <= radius && !visited.contains(k) implies exists|s: int|
                        0 <= s < stack@.len() && #[trigger] in_subtree(parent, stack@[s] as int, k) by {
                    assert(!visited.remove(idx as int).contains(k));
                    let s = choose|s: int| 0 <= s < before.len() && #[trigger] in_subtree(parent, before[s] as int, k);
                    if s < mid.len() {
                        assert(stack@.subrange(0, mid.len() as int)[s] == mid[s]);
                        assert(mid[s] == before[s]);
                        assert(stack@[s] == before[s]);
                    } else {
                        let a = idx as int;
                        assert(before[s] == idx);
                        lemma_toward(parent, a, k);
                        let c = toward(parent, a, k);
                        assert(is_listed(self.children@, parent, c));
                        let u = choose|u: int| 0 <= u < self.children@[parent[c]]@.len() && (#[trigger] self.children@[parent[c]]@[u]).1 == c;
                        assert(kids@[u].1 == c);
                        assert(self.label@[c] == kids@[u].0);
                        let nk = self.nodes@[k];
                        let na = self.nodes@[a];
                        assert(hamming_spec(na, nk) == self.label@[c]);
                        law_hamming_triangle(na, hash, nk);
                        law_hamming_triangle(na, nk, hash);
                        law_hamming_metric(nk, hash);
                        assert(lo <= kids@[u].0 <= hi);
                        assert(stack@.contains(c as usize));
                        let i = choose|i: int| 0 <= i < stack@.len() && stack@[i] == c as usize;
                        assert(in_subtree(parent, stack@[i] as int, k));
                    }
                }
            }
        }
        proof {
            assert forall|k: int| 0 <= k < n implies (out@.contains(k as usize) <==> hamming_spec(self.nodes@[k], hash) <= radius) by {
                if hamming_spec(self.nodes@[k], hash) <= radius && !visited.contains(k) {
                    let s = choose|s: int| 0 <= s < stack@.len() && #[trigger] in_subtree(parent, stack@[s] as int, k);
                }
            }
        }
        out
    }
}

} // verus!
