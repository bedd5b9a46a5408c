//! Splitting files into groups that share a key.

use std::collections::HashMap;
use vstd::prelude::*;
use vstd::hash_map::StringHashMap;
use crate::models::{total_size, DuplicateGroup, FileEntry, GroupKind, KeepStrategy};
use crate::order::{sort_by_keep, sorted_by_keep};

verus! {

broadcast use vstd::std_specs::hash::group_hash_axioms;

/// The files whose key is `Some(k)`, in the order given.
pub open spec fn select<K>(items: Seq<FileEntry>, keys: Seq<Option<K>>, k: K) -> Seq<FileEntry>
    decreases items.len(),
{
    if items.len() == 0 || keys.len() != items.len() {
        Seq::empty()
    } else {
        let rest = select(items.drop_last(), keys.drop_last(), k);
        if keys.last() == Some(k) {
            rest.push(items.last())
        } else {
            rest
        }
    }
}

/// `groups` are exactly the selections of the keys `gkeys`, pairwise distinct keys, and every
/// key whose selection has at least two files is among them.
pub open spec fn keyed_groups_with<K>(
    items: Seq<FileEntry>,
    keys: Seq<Option<K>>,
    groups: Seq<Seq<FileEntry>>,
    gkeys: Seq<K>,
) -> bool {
    &&& gkeys.len() == groups.len()
    &&& forall|g: int|
        0 <= g < groups.len() ==> (#[trigger] groups[g]).len() >= 2 && groups[g] == select(items, keys, gkeys[g])
    &&& forall|g1: int, g2: int| 0 <= g1 < g2 < gkeys.len() ==> #[trigger] gkeys[g1] != #[trigger] gkeys[g2]
    &&& forall|k: K|
        #[trigger] select(items, keys, k).len() >= 2 ==> exists|g: int| 0 <= g < gkeys.len() && gkeys[g] == k
}

/// `groups` are exactly the selections of one key that have at least two files, each once.
pub open spec fn keyed_groups<K>(items: Seq<FileEntry>, keys: Seq<Option<K>>, groups: Seq<Seq<FileEntry>>) -> bool {
    exists|gkeys: Seq<K>| #[trigger] keyed_groups_with(items, keys, groups, gkeys)
}

/// The file sequences held by vectors.
pub open spec fn entry_views(groups: Seq<Vec<FileEntry>>) -> Seq<Seq<FileEntry>> {
    groups.map_values(|g: Vec<FileEntry>| g@)
}

/// `idx` lists, in increasing order, the positions whose key is `Some(k)`.
pub open spec fn indices_of_key<K>(keys: Seq<Option<K>>, idx: Seq<usize>, k: K) -> bool {
    &&& forall|a: int, b: int| 0 <= a < b < idx.len() ==> #[trigger] idx[a] < #[trigger] idx[b]
    &&& forall|a: int| 0 <= a < idx.len() ==> #[trigger] idx[a] < keys.len()
    &&& forall|j: int| 0 <= j < keys.len() ==> (idx.contains(j as usize) <==> keys[j] == Some(k))
}

/// The files at the positions of `idx`.
pub open spec fn pick(items: Seq<FileEntry>, idx: Seq<usize>) -> Seq<FileEntry> {
    idx.map_values(|i: usize| items[i as int])
}

pub proof fn lemma_pick_is_select<K>(items: Seq<FileEntry>, keys: Seq<Option<K>>, idx: Seq<usize>, k: K)
    requires
        items.len() == keys.len(),
        items.len() <= usize::MAX,
        indices_of_key(keys, idx, k),
    ensures
        pick(items, idx) == select(items, keys, k),
    decreases items.len(),
{
    let n = items.len();
    if n == 0 {
        if idx.len() > 0 {
            assert(idx[0] < keys.len());
        }
        assert(pick(items, idx) =~= Seq::<FileEntry>::empty());
    } else {
        let items2 = items.drop_last();
        let keys2 = keys.drop_last();
        if keys[n - 1] == Some(k) {
            assert(idx.contains((n - 1) as usize));
            let t = choose|t: int| 0 <= t < idx.len() && idx[t] == (n - 1) as usize;
            if t < idx.len() - 1 {
                assert(idx[t] < idx[idx.len() - 1]);
                assert(idx[idx.len() - 1] < n);
            }
            assert(t == idx.len() - 1);
            let idx2 = idx.drop_last();
            assert forall|j: int| 0 <= j < keys2.len() implies (idx2.contains(j as usize) <==> keys2[j] == Some(k)) by {
                if idx.contains(j as usize) {
                    let s = choose|s: int| 0 <= s < idx.len() && idx[s] == j as usize;
                    assert(s != idx.len() - 1);
                    assert(idx2[s] == j as usize);
                }
                if idx2.contains(j as usize) {
                    let s = choose|s: int| 0 <= s < idx2.len() && idx2[s] == j as usize;
                    assert(idx[s] == j as usize);
                }
            }
            assert forall|a: int| 0 <= a < idx2.len() implies #[trigger] idx2[a] < keys2.len() by {
                assert(idx[a] < idx[idx.len() - 1]);
            }
            lemma_pick_is_select(items2, keys2, idx2, k);
            assert(pick(items, idx) =~= pick(items2, idx2).push(items[n - 1]));
        } else {
            assert forall|a: int| 0 <= a < idx.len() implies #[trigger] idx[a] < keys2.len() by {
                if idx[a] == n - 1 {
                    assert(idx.contains((n - 1) as usize));
                }
            }
            assert forall|j: int| 0 <= j < keys2.len() implies (idx.contains(j as usize) <==> keys2[j] == Some(k)) by {}
            lemma_pick_is_select(items2, keys2, idx, k);
            assert(pick(items, idx) =~= pick(items2, idx));
        }
    }
}

/// The selection of a key that no position carries is empty.
pub proof fn lemma_select_absent<K>(items: Seq<FileEntry>, keys: Seq<Option<K>>, k: K)
    requires
        forall|j: int| 0 <= j < keys.len() ==> keys[j] != Some(k),
    ensures
        select(items, keys, k) == Seq::<FileEntry>::empty(),
    decreases items.len(),
{
    if items.len() > 0 && keys.len() == items.len() {
        lemma_select_absent(items.drop_last(), keys.drop_last(), k);
    }
}

/// A selection never weighs more than the whole sequence.
pub proof fn lemma_select_total_size<K>(items: Seq<FileEntry>, keys: Seq<Option<K>>, k: K)
    ensures
        crate::models::total_size(select(items, keys, k)) <= crate::models::total_size(items),
    decreases items.len(),
{
    if items.len() > 0 && keys.len() == items.len() {
        lemma_select_total_size(items.drop_last(), keys.drop_last(), k);
        let rest = select(items.drop_last(), keys.drop_last(), k);
        if keys.last() == Some(k) {
            assert(rest.push(items.last()).drop_last() =~= rest);
        }
    }
    crate::models::lemma_total_size_nonneg(items);
}

/// Index groups: every present key gets one group of its positions, in order of first appearance.
pub open spec fn index_groups<K>(keys: Seq<Option<K>>, groups: Seq<Seq<usize>>, gkeys: Seq<K>) -> bool {
    &&& groups.len() == gkeys.len()
    &&& forall|g: int| 0 <= g < groups.len() ==> indices_of_key(keys, #[trigger] groups[g], gkeys[g])
    &&& forall|g: int| 0 <= g < groups.len() ==> (#[trigger] groups[g]).len() >= 1
    &&& forall|g1: int, g2: int| 0 <= g1 < g2 < groups.len() ==> #[trigger] gkeys[g1] != #[trigger] gkeys[g2]
    &&& forall|j: int| 0 <= j < keys.len() && (#[trigger] keys[j]) is Some ==> exists|g: int| 0 <= g < groups.len() && gkeys[g] == keys[j]->0
}

/// The index sequences held by vectors.
pub open spec fn views(groups: Seq<Vec<usize>>) -> Seq<Seq<usize>> {
    groups.map_values(|g: Vec<usize>| g@)
}

/// Equality of grouping keys, as executable code sees it.
pub trait SameKey: Sized {
    fn same_key(&self, other: &Self) -> (r: bool)
        ensures
            r == (*self == *other),
    ;
}

impl SameKey for u128 {
    fn same_key(&self, other: &Self) -> (r: bool) {
        *self == *other
    }
}

impl SameKey for (u64, u128, [u8; 32]) {
    fn same_key(&self, other: &Self) -> (r: bool) {
        self.0 == other.0 && self.1 == other.1 && self.2.same_key(&other.2)
    }
}

impl SameKey for [u8; 32] {
    fn same_key(&self, other: &Self) -> (r: bool) {
        let mut i: usize = 0;
        while i < 32
            invariant
                i <= 32,
                forall|t: int| 0 <= t < i ==> self@[t] == other@[t],
            decreases 32 - i,
        {
            if self[i] != other[i] {
                return false;
            }
            i = i + 1;
        }
        proof {
            assert(*self =~= *other);
        }
        true
    }
}

/// Groups the positions of the present keys by equal key (pairwise comparison).
pub fn group_positions<K: SameKey + Copy>(keys: &Vec<Option<K>>) -> (groups: Vec<Vec<usize>>)
    ensures
        exists|gkeys: Seq<K>| #[trigger] index_groups(keys@, views(groups@), gkeys),
{
    let n = keys.len();
    let mut groups: Vec<Vec<usize>> = Vec::new();
    let mut reps: Vec<K> = Vec::new();
    let mut i: usize = 0;
    while i < n
        invariant
            n == keys@.len(),
            i <= n,
            groups@.len() == reps@.len(),
            forall|g: int| 0 <= g < groups@.len() ==> (#[trigger] groups@[g])@.len() >= 1,
            forall|g: int, a: int, b: int|
                0 <= g < groups@.len() && 0 <= a < b < groups@[g]@.len() ==> #[trigger] groups@[g]@[a] < #[trigger] groups@[g]@[b],
            forall|g: int, a: int| 0 <= g < groups@.len() && 0 <= a < groups@[g]@.len() ==> #[trigger] groups@[g]@[a] < i,
            forall|g: int, j: int|
                0 <= g < groups@.len() && 0 <= j < n ==> (#[trigger] groups@[g]@.contains(j as usize) <==> (j < i
                    && keys@[j] == Some(reps@[g]))),
            forall|g1: int, g2: int| 0 <= g1 < g2 < reps@.len() ==> #[trigger] reps@[g1] != #[trigger] reps@[g2],
            forall|j: int| 0 <= j < i && (#[trigger] keys@[j]) is Some ==> exists|g: int| 0 <= g < reps@.len() && reps@[g] == keys@[j]->0,
        decreases n - i,
    {
        if let Some(k) = keys[i] {
            let mut found: usize = groups.len();
            let mut g: usize = 0;
            while g < reps.len() && found == groups.len()
                invariant
                    g <= reps@.len(),
                    groups@.len() == reps@.len(),
                    found == groups@.len() ==> forall|t: int| 0 <= t < g ==> reps@[t] != k,
                    found != groups@.len() ==> found < reps@.len() && reps@[found as int] == k,
                decreases reps@.len() - g,
            {
                if reps[g].same_key(&k) {
                    found = g;
                }
                g = g + 1;
            }
            let ghost old_reps = reps@;
            if found == groups.len() {
                let mut ng: Vec<usize> = Vec::new();
                ng.push(i);
                groups.push(ng);
                reps.push(k);
                proof {
                    let last = groups@.len() - 1;
                    assert(groups@[last]@ == seq![i]);
                    assert forall|gg: int, j: int| 0 <= gg < groups@.len() && 0 <= j < n implies (
                    #[trigger] groups@[gg]@.contains(j as usize) <==> (j < i + 1 && keys@[j] == Some(reps@[gg]))) by {
                        if gg == last {
                            if groups@[gg]@.contains(j as usize) {
                                assert(groups@[gg]@[0] == i);
                            }
                            if j < i && keys@[j] == Some(reps@[gg]) {
                                let w = choose|w: int| 0 <= w < old_reps.len() && old_reps[w] == keys@[j]->0;
                                assert(old_reps[w] == k);
                            }
                            if j == i {
                                assert(groups@[gg]@[0] == i);
                            }
                        }
                    }
                    assert forall|j: int| 0 <= j < i + 1 && (#[trigger] keys@[j]) is Some implies exists|gg: int|
                        0 <= gg < reps@.len() && reps@[gg] == keys@[j]->0 by {
                        if j == i {
                            assert(reps@[last] == k);
                        } else {
                            let w = choose|w: int| 0 <= w < old_reps.len() && old_reps[w] == keys@[j]->0;
                            assert(reps@[w] == keys@[j]->0);
                        }
                    }
                }
            } else {
                let ghost old_groups = groups@;
                let ghost before = groups@[found as int]@;
                proof {
                    assert forall|j: int| 0 <= j < n implies (before.contains(j as usize) <==> (j < i
                        && keys@[j] == Some(reps@[found as int]))) by {
                        assert(old_groups[found as int]@.contains(j as usize) <==> (j < i && keys@[j] == Some(reps@[found as int])));
                    }
                }
                groups[found].push(i);
                proof {
                    assert(groups@[found as int]@ == before.push(i));
                    assert forall|gg: int| 0 <= gg < groups@.len() && gg != found as int implies groups@[gg] == old_groups[gg] by {}
                    assert forall|gg: int, j: int| 0 <= gg < groups@.len() && 0 <= j < n implies (
                    #[trigger] groups@[gg]@.contains(j as usize) <==> (j < i + 1 && keys@[j] == Some(reps@[gg]))) by {
                        if gg == found as int {
                            if j == i as int {
                                assert(groups@[gg]@[before.len() as int] == i);
                            } else if groups@[gg]@.contains(j as usize) {
                                let t = choose|t: int| 0 <= t < groups@[gg]@.len() && groups@[gg]@[t] == j as usize;
                                assert(before[t] == j as usize);
                                assert(before.contains(j as usize));
                            } else if j < i && keys@[j] == Some(reps@[gg]) {
                                assert(before.contains(j as usize));
                                let t = choose|t: int| 0 <= t < before.len() && before[t] == j as usize;
                                assert(groups@[gg]@[t] == j as usize);
                            }
                        } else {
                            assert(old_groups[gg]@.contains(j as usize) <==> (j < i && keys@[j] == Some(reps@[gg])));
                        }
                    }
                    assert forall|gg: int, a: int, b: int|
                        0 <= gg < groups@.len() && 0 <= a < b < groups@[gg]@.len() implies #[trigger] groups@[gg]@[a]
                        < #[trigger] groups@[gg]@[b] by {
                        if gg == found as int {
                            if b == before.len() {
                                assert(old_groups[gg]@[a] < i);
                            } else {
                                assert(old_groups[gg]@[a] < old_groups[gg]@[b]);
                            }
                        } else {
                            assert(old_groups[gg]@[a] < old_groups[gg]@[b]);
                        }
                    }
                    assert forall|gg: int, a: int| 0 <= gg < groups@.len() && 0 <= a < groups@[gg]@.len() implies #[trigger] groups@[gg]@[a]
                        < i + 1 by {
                        if gg == found as int && a < before.len() {
                            assert(old_groups[gg]@[a] < i);
                        } else if gg != found as int {
                            assert(old_groups[gg]@[a] < i);
                        }
                    }
                    assert forall|j: int| 0 <= j < i + 1 && (#[trigger] keys@[j]) is Some implies exists|gg: int|
                        0 <= gg < reps@.len() && reps@[gg] == keys@[j]->0 by {
                        if j == i {
                            assert(reps@[found as int] == k);
                        }
                    }
                }
            }
        } else {
            proof {
                assert forall|gg: int, j: int| 0 <= gg < groups@.len() && 0 <= j < n implies (
                #[trigger] groups@[gg]@.contains(j as usize) <==> (j < i + 1 && keys@[j] == Some(reps@[gg]))) by {}
            }
        }
        i = i + 1;
    }
    proof {
        let view = views(groups@);
        let gkeys = reps@;
        assert forall|g: int| 0 <= g < view.len() implies indices_of_key(keys@, #[trigger] view[g], gkeys[g]) by {
            assert(view[g] == groups@[g]@);
        }
        assert(index_groups(keys@, view, gkeys));
    }
    groups
}

/// Wraps every key as present.
pub open spec fn somes(keys: Seq<u64>) -> Seq<Option<u64>> {
    keys.map_values(|k: u64| Some(k))
}

/// Groups positions by equal 64-bit key, looking keys up in a hash map.
pub fn group_positions_u64(keys: &Vec<u64>) -> (groups: Vec<Vec<usize>>)
    ensures
        exists|gkeys: Seq<u64>| #[trigger] index_groups(somes(keys@), views(groups@), gkeys),
{
    let ghost skeys = somes(keys@);
    let n = keys.len();
    let mut index: HashMap<u64, usize> = HashMap::new();
    let mut groups: Vec<Vec<usize>> = Vec::new();
    let mut reps: Vec<u64> = Vec::new();
    let mut i: usize = 0;
    while i < n
        invariant
            n == keys@.len(),
            skeys == somes(keys@),
            skeys.len() == n,
            i <= n,
            groups@.len() == reps@.len(),
            forall|kk: u64| #[trigger] index@.contains_key(kk) ==> index@[kk] < reps@.len() && reps@[index@[kk] as int] == kk,
            forall|g: int| 0 <= g < reps@.len() ==> index@.contains_key(#[trigger] reps@[g]) && index@[reps@[g]] == g,
            forall|g: int| 0 <= g < groups@.len() ==> (#[trigger] groups@[g])@.len() >= 1,
            forall|g: int, a: int, b: int|
                0 <= g < groups@.len() && 0 <= a < b < groups@[g]@.len() ==> #[trigger] groups@[g]@[a] < #[trigger] groups@[g]@[b],
            forall|g: int, a: int| 0 <= g < groups@.len() && 0 <= a < groups@[g]@.len() ==> #[trigger] groups@[g]@[a] < i,
            forall|g: int, j: int|
                0 <= g < groups@.len() && 0 <= j < n ==> (#[trigger] groups@[g]@.contains(j as usize) <==> (j < i
                    && skeys[j] == Some(reps@[g]))),
            forall|g1: int, g2: int| 0 <= g1 < g2 < reps@.len() ==> #[trigger] reps@[g1] != #[trigger] reps@[g2],
            forall|j: int| 0 <= j < i && (#[trigger] skeys[j]) is Some ==> exists|g: int| 0 <= g < reps@.len() && reps@[g] == skeys[j]->0,
        decreases n - i,
    {
        {
            let k = keys[i];
            assert(skeys[i as int] == Some(k));
            let found: usize = match index.get(&k) {
                Some(gi) => *gi,
                None => groups.len(),
            };
            proof {
                if found == groups.len() {
                    assert forall|t: int| 0 <= t < reps@.len() implies reps@[t] != k by {
                        assert(index@.contains_key(reps@[t]));
                    }
                }
            }
            let ghost old_reps = reps@;
            if found == groups.len() {
                let mut ng: Vec<usize> = Vec::new();
                ng.push(i);
                groups.push(ng);
                reps.push(k);
                index.insert(k, groups.len() - 1);
                proof {
                    let last = groups@.len() - 1;
                    assert(groups@[last]@ == seq![i]);
                    assert forall|gg: int, j: int| 0 <= gg < groups@.len() && 0 <= j < n implies (
                    #[trigger] groups@[gg]@.contains(j as usize) <==> (j < i + 1 && skeys[j] == Some(reps@[gg]))) by {
                        if gg == last {
                            if groups@[gg]@.contains(j as usize) {
                                assert(groups@[gg]@[0] == i);
                            }
                            if j < i && skeys[j] == Some(reps@[gg]) {
                                let w = choose|w: int| 0 <= w < old_reps.len() && old_reps[w] == skeys[j]->0;
                                assert(old_reps[w] == k);
                            }
                            if j == i {
                                assert(groups@[gg]@[0] == i);
                            }
                        }
                    }
                    assert forall|j: int| 0 <= j < i + 1 && (#[trigger] skeys[j]) is Some implies exists|gg: int|
                        0 <= gg < reps@.len() && reps@[gg] == skeys[j]->0 by {
                        if j == i {
                            assert(reps@[last] == k);
                        } else {
                            let w = choose|w: int| 0 <= w < old_reps.len() && old_reps[w] == skeys[j]->0;
                            assert(reps@[w] == skeys[j]->0);
                        }
                    }
                }
            } else {
                let ghost old_groups = groups@;
                let ghost before = groups@[found as int]@;
                proof {
                    assert forall|j: int| 0 <= j < n implies (before.contains(j as usize) <==> (j < i
                        && skeys[j] == Some(reps@[found as int]))) by {
                        assert(old_groups[found as int]@.contains(j as usize) <==> (j < i && skeys[j] == Some(reps@[found as int])));
                    }
                }
                groups[found].push(i);
                proof {
                    assert(groups@[found as int]@ == before.push(i));
                    assert forall|gg: int| 0 <= gg < groups@.len() && gg != found as int implies groups@[gg] == old_groups[gg] by {}
                    assert forall|gg: int, j: int| 0 <= gg < groups@.len() && 0 <= j < n implies (
                    #[trigger] groups@[gg]@.contains(j as usize) <==> (j < i + 1 && skeys[j] == Some(reps@[gg]))) by {
                        if gg == found as int {
                            if j == i as int {
                                assert(groups@[gg]@[before.len() as int] == i);
                            } else if groups@[gg]@.contains(j as usize) {
                                let t = choose|t: int| 0 <= t < groups@[gg]@.len() && groups@[gg]@[t] == j as usize;
                                assert(before[t] == j as usize);
                                assert(before.contains(j as usize));
                            } else if j < i && skeys[j] == Some(reps@[gg]) {
                                assert(before.contains(j as usize));
                                let t = choose|t: int| 0 <= t < before.len() && before[t] == j as usize;
                                assert(groups@[gg]@[t] == j as usize);
                            }
                        } else {
                            assert(old_groups[gg]@.contains(j as usize) <==> (j < i && skeys[j] == Some(reps@[gg])));
                        }
                    }
                    assert forall|gg: int, a: int, b: int|
                        0 <= gg < groups@.len() && 0 <= a < b < groups@[gg]@.len() implies #[trigger] groups@[gg]@[a]
                        < #[trigger] groups@[gg]@[b] by {
                        if gg == found as int {
                            if b == before.len() {
                                assert(old_groups[gg]@[a] < i);
                            } else {
                                assert(old_groups[gg]@[a] < old_groups[gg]@[b]);
                            }
                        } else {
                            assert(old_groups[gg]@[a] < old_groups[gg]@[b]);
                        }
                    }
                    assert forall|gg: int, a: int| 0 <= gg < groups@.len() && 0 <= a < groups@[gg]@.len() implies #[trigger] groups@[gg]@[a]
                        < i + 1 by {
                        if gg == found as int && a < before.len() {
                            assert(old_groups[gg]@[a] < i);
                        } else if gg != found as int {
                            assert(old_groups[gg]@[a] < i);
                        }
                    }
                    assert forall|j: int| 0 <= j < i + 1 && (#[trigger] skeys[j]) is Some implies exists|gg: int|
                        0 <= gg < reps@.len() && reps@[gg] == skeys[j]->0 by {
                        if j == i {
                            assert(reps@[found as int] == k);
                        }
                    }
                }
            }
        }
        i = i + 1;
    }
    proof {
        let view = views(groups@);
        let gkeys = reps@;
        assert forall|g: int| 0 <= g < view.len() implies indices_of_key(skeys, #[trigger] view[g], gkeys[g]) by {
            assert(view[g] == groups@[g]@);
        }
        assert(index_groups(skeys, view, gkeys));
    }
    groups
}

/// Wraps every string key, by its characters, as present.
pub open spec fn str_somes(keys: Seq<String>) -> Seq<Option<Seq<char>>> {
    keys.map_values(|k: String| Some(k@))
}

/// The characters of the representative strings.
pub open spec fn rep_views(reps: Seq<String>) -> Seq<Seq<char>> {
    reps.map_values(|k: String| k@)
}

/// Groups positions by equal string key, looking keys up in a hash map.
pub fn group_positions_str(keys: &Vec<String>) -> (groups: Vec<Vec<usize>>)
    ensures
        exists|gkeys: Seq<Seq<char>>| #[trigger] index_groups(str_somes(keys@), views(groups@), gkeys),
{
    let ghost skeys = str_somes(keys@);
    let n = keys.len();
    let mut index: StringHashMap<usize> = StringHashMap::new();
    let mut groups: Vec<Vec<usize>> = Vec::new();
    let mut reps: Vec<String> = Vec::new();
    let mut i: usize = 0;
    while i < n
        invariant
            n == keys@.len(),
            skeys == str_somes(keys@),
            skeys.len() == n,
            i <= n,
            groups@.len() == reps@.len(),
            forall|kk: Seq<char>| #[trigger] index@.contains_key(kk) ==> index@[kk] < reps@.len() && reps@[index@[kk] as int]@ == kk,
            forall|g: int| 0 <= g < reps@.len() ==> index@.contains_key((#[trigger] reps@[g])@) && index@[reps@[g]@] == g,
            forall|g: int| 0 <= g < groups@.len() ==> (#[trigger] groups@[g])@.len() >= 1,
            forall|g: int, a: int, b: int|
                0 <= g < groups@.len() && 0 <= a < b < groups@[g]@.len() ==> #[trigger] groups@[g]@[a] < #[trigger] groups@[g]@[b],
            forall|g: int, a: int| 0 <= g < groups@.len() && 0 <= a < groups@[g]@.len() ==> #[trigger] groups@[g]@[a] < i,
            forall|g: int, j: int|
                0 <= g < groups@.len() && 0 <= j < n ==> (#[trigger] groups@[g]@.contains(j as usize) <==> (j < i
                    && skeys[j] == Some(reps@[g]@))),
            forall|g1: int, g2: int| 0 <= g1 < g2 < reps@.len() ==> (#[trigger] reps@[g1])@ != (#[trigger] reps@[g2])@,
            forall|j: int| 0 <= j < i && (#[trigger] skeys[j]) is Some ==> exists|g: int| 0 <= g < reps@.len() && reps@[g]@ == skeys[j]->0,
        decreases n - i,
    {
        {
            let k = keys[i].clone();
            assert(skeys[i as int] == Some(k@));
            let found: usize = match index.get(k.as_str()) {
                Some(gi) => *gi,
                None => groups.len(),
            };
            proof {
                if found == groups.len() {
                    assert forall|t: int| 0 <= t < reps@.len() implies reps@[t]@ != k@ by {
                        assert(index@.contains_key(reps@[t]@));
                    }
                }
            }
            let ghost old_reps = reps@;
            if found == groups.len() {
                let mut ng: Vec<usize> = Vec::new();
                ng.push(i);
                groups.push(ng);
                let k2 = k.clone();
                reps.push(k);
                index.insert(k2, groups.len() - 1);
                proof {
                    let last = groups@.len() - 1;
                    assert(groups@[last]@ == seq![i]);
                    assert forall|gg: int, j: int| 0 <= gg < groups@.len() && 0 <= j < n implies (
                    #[trigger] groups@[gg]@.contains(j as usize) <==> (j < i + 1 && skeys[j] == Some(reps@[gg]@))) by {
                        if gg == last {
                            if groups@[gg]@.contains(j as usize) {
                                assert(groups@[gg]@[0] == i);
                            }
                            if j < i && skeys[j] == Some(reps@[gg]@) {
                                let w = choose|w: int| 0 <= w < old_reps.len() && old_reps[w]@ == skeys[j]->0;
                                assert(old_reps[w]@ == k@);
                            }
                            if j == i {
                                assert(groups@[gg]@[0] == i);
                            }
                        }
                    }
                    assert forall|j: int| 0 <= j < i + 1 && (#[trigger] skeys[j]) is Some implies exists|gg: int|
                        0 <= gg < reps@.len() && reps@[gg]@ == skeys[j]->0 by {
                        if j == i {
                            assert(reps@[last]@ == k@);
                        } else {
                            let w = choose|w: int| 0 <= w < old_reps.len() && old_reps[w]@ == skeys[j]->0;
                            assert(reps@[w]@ == skeys[j]->0);
                        }
                    }
                }
            } else {
                let ghost old_groups = groups@;
                let ghost before = groups@[found as int]@;
                proof {
                    assert forall|j: int| 0 <= j < n implies (before.contains(j as usize) <==> (j < i
                        && skeys[j] == Some(reps@[found as int]@))) by {
                        assert(old_groups[found as int]@.contains(j as usize) <==> (j < i && skeys[j] == Some(reps@[found as int]@)));
                    }
                }
                groups[found].push(i);
                proof {
                    assert(groups@[found as int]@ == before.push(i));
                    assert forall|gg: int| 0 <= gg < groups@.len() && gg != found as int implies groups@[gg] == old_groups[gg] by {}
                    assert forall|gg: int, j: int| 0 <= gg < groups@.len() && 0 <= j < n implies (
                    #[trigger] groups@[gg]@.contains(j as usize) <==> (j < i + 1 && skeys[j] == Some(reps@[gg]@))) by {
                        if gg == found as int {
                            if j == i as int {
                                assert(groups@[gg]@[before.len() as int] == i);
                            } else if groups@[gg]@.contains(j as usize) {
                                let t = choose|t: int| 0 <= t < groups@[gg]@.len() && groups@[gg]@[t] == j as usize;
                                assert(before[t] == j as usize);
                                assert(before.contains(j as usize));
                            } else if j < i && skeys[j] == Some(reps@[gg]@) {
                                assert(before.contains(j as usize));
                                let t = choose|t: int| 0 <= t < before.len() && before[t] == j as usize;
                                assert(groups@[gg]@[t] == j as usize);
                            }
                        } else {
                            assert(old_groups[gg]@.contains(j as usize) <==> (j < i && skeys[j] == Some(reps@[gg]@)));
                        }
                    }
                    assert forall|gg: int, a: int, b: int|
                        0 <= gg < groups@.len() && 0 <= a < b < groups@[gg]@.len() implies #[trigger] groups@[gg]@[a]
                        < #[trigger] groups@[gg]@[b] by {
                        if gg == found as int {
                            if b == before.len() {
                                assert(old_groups[gg]@[a] < i);
                            } else {
                                assert(old_groups[gg]@[a] < old_groups[gg]@[b]);
                            }
                        } else {
                            assert(old_groups[gg]@[a] < old_groups[gg]@[b]);
                        }
                    }
                    assert forall|gg: int, a: int| 0 <= gg < groups@.len() && 0 <= a < groups@[gg]@.len() implies #[trigger] groups@[gg]@[a]
                        < i + 1 by {
                        if gg == found as int && a < before.len() {
                            assert(old_groups[gg]@[a] < i);
                        } else if gg != found as int {
                            assert(old_groups[gg]@[a] < i);
                        }
                    }
                    assert forall|j: int| 0 <= j < i + 1 && (#[trigger] skeys[j]) is Some implies exists|gg: int|
                        0 <= gg < reps@.len() && reps@[gg]@ == skeys[j]->0 by {
                        if j == i {
                            assert(reps@[found as int]@ == k@);
                        }
                    }
                }
            }
        }
        i = i + 1;
    }
    proof {
        let view = views(groups@);
        let gkeys = rep_views(reps@);
        assert forall|g: int| 0 <= g < view.len() implies indices_of_key(skeys, #[trigger] view[g], gkeys[g]) by {
            assert(view[g] == groups@[g]@);
            assert(gkeys[g] == reps@[g]@);
        }
        assert forall|g1: int, g2: int| 0 <= g1 < g2 < groups@.len() implies #[trigger] gkeys[g1] != #[trigger] gkeys[g2] by {
            assert(gkeys[g1] == reps@[g1]@);
            assert(gkeys[g2] == reps@[g2]@);
        }
        assert forall|j: int| 0 <= j < skeys.len() && (#[trigger] skeys[j]) is Some implies exists|g: int|
            0 <= g < view.len() && gkeys[g] == skeys[j]->0 by {
            let g = choose|g: int| 0 <= g < reps@.len() && reps@[g]@ == skeys[j]->0;
            assert(gkeys[g] == reps@[g]@);
        }
        assert forall|g: int| 0 <= g < view.len() implies (#[trigger] view[g]).len() >= 1 by {
            assert(view[g] == groups@[g]@);
        }
        assert(index_groups(skeys, view, gkeys));
    }
    groups
}

/// Files at the positions of each index group that has at least two positions.
pub fn collect_groups<K>(
    items: &Vec<FileEntry>,
    Ghost(keys): Ghost<Seq<Option<K>>>,
    idx_groups: &Vec<Vec<usize>>,
) -> (groups: Vec<Vec<FileEntry>>)
    requires
        keys.len() == items@.len(),
        exists|gk: Seq<K>| #[trigger] index_groups(keys, views(idx_groups@), gk),
    ensures
        keyed_groups(items@, keys, entry_views(groups@)),
{
    let ghost gk = choose|gk: Seq<K>| #[trigger] index_groups(keys, views(idx_groups@), gk);
    let n_items = items.len();
    let m = idx_groups.len();
    let mut groups: Vec<Vec<FileEntry>> = Vec::new();
    let ghost mut picked: Seq<int> = Seq::empty();
    let mut g: usize = 0;
    proof {
        assert forall|q: int| 0 <= q < m implies indices_of_key(keys, (#[trigger] idx_groups@[q])@, gk[q]) by {
            assert(views(idx_groups@)[q] == idx_groups@[q]@);
        }
    }
    while g < m
        invariant
            m == idx_groups@.len(),
            g <= m,
            keys.len() == items@.len(),
            items@.len() == n_items,
            index_groups(keys, views(idx_groups@), gk),
            forall|q: int| 0 <= q < m ==> indices_of_key(keys, (#[trigger] idx_groups@[q])@, gk[q]),
            groups@.len() == picked.len(),
            forall|q: int| 0 <= q < picked.len() ==> 0 <= #[trigger] picked[q] < g,
            forall|q1: int, q2: int| 0 <= q1 < q2 < picked.len() ==> #[trigger] picked[q1] < #[trigger] picked[q2],
            forall|q: int|
                0 <= q < picked.len() ==> (#[trigger] groups@[q])@ == select(items@, keys, gk[picked[q]])
                    && groups@[q]@.len() >= 2,
            forall|h: int|
                0 <= h < g && (#[trigger] idx_groups@[h])@.len() >= 2 ==> exists|q: int| 0 <= q < picked.len() && picked[q] == h,
        decreases m - g,
    {
        let idx = &idx_groups[g];
        if idx.len() >= 2 {
            let mut files: Vec<FileEntry> = Vec::with_capacity(idx.len());
            let mut t: usize = 0;
            while t < idx.len()
                invariant
                    t <= idx@.len(),
                    files@.len() == t,
                    indices_of_key(keys, idx@, gk[g as int]),
                    keys.len() == items@.len(),
                    items@.len() == n_items,
                    forall|a: int| 0 <= a < t ==> files@[a] == items@[idx@[a] as int],
                decreases idx@.len() - t,
            {
                let e = items[idx[t]].clone();
                files.push(e);
                t = t + 1;
            }
            proof {
                assert(files@ =~= pick(items@, idx@));
                lemma_pick_is_select(items@, keys, idx@, gk[g as int]);
                let old_picked = picked;
                picked = picked.push(g as int);
                assert forall|h: int|
                    0 <= h < g + 1 && (#[trigger] idx_groups@[h])@.len() >= 2 implies exists|q: int|
                    0 <= q < picked.len() && picked[q] == h by {
                    if h == g as int {
                        assert(picked[picked.len() - 1] == h);
                    } else {
                        let q = choose|q: int| 0 <= q < old_picked.len() && old_picked[q] == h;
                        assert(picked[q] == h);
                    }
                }
            }
            groups.push(files);
        }
        g = g + 1;
    }
    proof {
        let view = entry_views(groups@);
        let gkeys = Seq::new(picked.len(), |q: int| gk[picked[q]]);
        assert forall|q: int| 0 <= q < view.len() implies (#[trigger] view[q]).len() >= 2 && view[q] == select(
            items@,
            keys,
            gkeys[q],
        ) by {
            assert(view[q] == groups@[q]@);
        }
        assert forall|q1: int, q2: int| 0 <= q1 < q2 < gkeys.len() implies #[trigger] gkeys[q1] != #[trigger] gkeys[q2] by {
            assert(picked[q1] < picked[q2]);
        }
        assert forall|k: K| #[trigger] select(items@, keys, k).len() >= 2 implies exists|q: int|
            0 <= q < gkeys.len() && gkeys[q] == k by {
            let present = exists|j: int| 0 <= j < keys.len() && keys[j] == Some(k);
            if !present {
                lemma_select_absent(items@, keys, k);
            } else {
                let j = choose|j: int| 0 <= j < keys.len() && keys[j] == Some(k);
                assert(keys[j] is Some);
                let h = choose|h: int| 0 <= h < gk.len() && gk[h] == keys[j]->0;
                assert(views(idx_groups@)[h] == idx_groups@[h]@);
                lemma_pick_is_select(items@, keys, idx_groups@[h]@, k);
                assert(pick(items@, idx_groups@[h]@).len() == idx_groups@[h]@.len());
                let q = choose|q: int| 0 <= q < picked.len() && picked[q] == h;
                assert(gkeys[q] == k);
            }
        }
        assert(keyed_groups_with(items@, keys, view, gkeys));
    }
    groups
}

/// `g` was built from `files`: reordered so the reference file comes first under the
/// strategy, of the given kind, with its sizes summed.
pub open spec fn built_from(g: DuplicateGroup, files: Seq<FileEntry>, keep: KeepStrategy, kind: GroupKind) -> bool {
    &&& g.kind == kind
    &&& g.files@.len() == files.len()
    &&& g.files@.to_multiset() == files.to_multiset()
    &&& sorted_by_keep(keep, g.files@)
    &&& keep == KeepStrategy::KeepFirst ==> g.files@ == files
    &&& g.files@.len() > 0 ==> g.file_size == g.files@[0].size
    &&& g.files@.len() > 0 ==> g.reclaimable == total_size(g.files@) - g.files@[0].size
}

/// Turns each list of files into a group of the given kind, its reference file first.
pub fn assemble_groups(groups: Vec<Vec<FileEntry>>, keep: KeepStrategy, kind: GroupKind) -> (out: Vec<DuplicateGroup>)
    requires
        forall|g: int| 0 <= g < groups@.len() ==> total_size((#[trigger] groups@[g])@) <= u64::MAX,
    ensures
        out@.len() == groups@.len(),
        forall|g: int| 0 <= g < out@.len() ==> built_from(#[trigger] out@[g], groups@[g]@, keep, kind),
{
    let ghost orig = entry_views(groups@);
    let mut groups = groups;
    let n = groups.len();
    let mut out: Vec<DuplicateGroup> = Vec::with_capacity(n);
    let mut i: usize = 0;
    while i < n
        invariant
            n == groups@.len(),
            orig.len() == n,
            i <= n,
            out@.len() == i,
            forall|g: int| i <= g < n ==> (#[trigger] groups@[g])@ == orig[g],
            forall|g: int| 0 <= g < n ==> total_size(#[trigger] orig[g]) <= u64::MAX,
            forall|g: int| 0 <= g < i ==> built_from(#[trigger] out@[g], orig[g], keep, kind),
        decreases n - i,
    {
        let mut files: Vec<FileEntry> = Vec::new();
        std::mem::swap(&mut files, &mut groups[i]);
        let ghost before = files@;
        assert(before == orig[i as int]);
        sort_by_keep(&mut files, keep);
        proof {
            if files@.len() > 0 {
                crate::models::lemma_total_size_nonneg(files@.subrange(0, 0));
                assert(total_size(files@) <= u64::MAX);
                assert(files@[0].size <= total_size(files@)) by {
                    lemma_first_size_le_total(files@);
                }
            }
        }
        let g = DuplicateGroup::new(files, kind);
        out.push(g);
        i = i + 1;
    }
    out
}

/// No file weighs more than its whole group.
pub proof fn lemma_first_size_le_total(files: Seq<FileEntry>)
    requires
        files.len() > 0,
    ensures
        files[0].size <= total_size(files),
    decreases files.len(),
{
    if files.len() > 1 {
        lemma_first_size_le_total(files.drop_last());
    } else {
        assert(files.drop_last() =~= Seq::<FileEntry>::empty());
    }
    crate::models::lemma_total_size_nonneg(files.drop_last());
}

/// `groups` are ordered by reclaimable space, largest first.
pub open spec fn sorted_by_reclaimable(groups: Seq<DuplicateGroup>) -> bool {
    forall|a: int, b: int| 0 <= a < b < groups.len() ==> (#[trigger] groups[a]).reclaimable >= (#[trigger] groups[b]).reclaimable
}

/// `out` holds the groups of `orig`, `out[k]` being `orig[pi[k]]`, ordered by reclaimable
/// space, largest first, and groups of equal space in their order in `orig`.
pub open spec fn stable_by_reclaimable(out: Seq<DuplicateGroup>, orig: Seq<DuplicateGroup>, pi: Seq<int>) -> bool {
    &&& pi.len() == out.len() == orig.len()
    &&& forall|k: int| 0 <= k < pi.len() ==> 0 <= #[trigger] pi[k] < orig.len() && out[k] == orig[pi[k]]
    &&& forall|k: int, l: int| 0 <= k < l < pi.len() ==> #[trigger] pi[k] != #[trigger] pi[l]
    &&& forall|k: int, l: int|
        0 <= k < l < out.len() ==> (#[trigger] out[k]).reclaimable > (#[trigger] out[l]).reclaimable || (
        out[k].reclaimable == out[l].reclaimable && pi[k] < pi[l])
}

/// Orders groups by reclaimable space, largest first; groups of equal space keep their order.
pub fn sort_by_reclaimable(groups: Vec<DuplicateGroup>) -> (out: Vec<DuplicateGroup>)
    ensures
        exists|pi: Seq<int>| #[trigger] stable_by_reclaimable(out@, groups@, pi),
        out@.len() == groups@.len(),
        out@.to_multiset() == groups@.to_multiset(),
        sorted_by_reclaimable(out@),
{
    broadcast use vstd::multiset::group_multiset_axioms;
    let ghost orig = groups@;
    let ghost n = orig.len() as int;
    let mut rest = groups;
    let mut out: Vec<DuplicateGroup> = Vec::new();
    let ghost mut pi: Seq<int> = Seq::empty();
    proof {
        vstd::seq_lib::to_multiset_len(out@);
        vstd::multiset::lemma_multiset_empty_len(out@.to_multiset());
        assert(out@.to_multiset().add(rest@.to_multiset()) =~= rest@.to_multiset());
        assert(rest@.subrange(0, rest@.len() as int) =~= rest@);
    }
    while rest.len() > 0
        invariant
            out@.to_multiset().add(rest@.to_multiset()) == orig.to_multiset(),
            out@.len() + rest@.len() == orig.len(),
            n == orig.len(),
            rest@ == orig.subrange(0, rest@.len() as int),
            pi.len() == out@.len(),
            forall|k: int| 0 <= k < pi.len() ==> rest@.len() <= #[trigger] pi[k] < n && out@[k] == orig[pi[k]],
            forall|k: int, l: int| 0 <= k < l < pi.len() ==> #[trigger] pi[k] != #[trigger] pi[l],
            forall|k: int, l: int|
                0 <= k < l < out@.len() ==> (#[trigger] out@[k]).reclaimable > (#[trigger] out@[l]).reclaimable || (
                out@[k].reclaimable == out@[l].reclaimable && pi[k] < pi[l]),
        decreases rest@.len(),
    {
        let ghost old_rest = rest@;
        let x = rest.pop().unwrap();
        let ghost j = rest@.len() as int;
        proof {
            assert(old_rest == rest@.push(x));
            vstd::seq_lib::to_multiset_build(rest@, x);
            assert(x == orig[j]);
            assert(rest@ =~= orig.subrange(0, j));
        }
        let mut p: usize = 0;
        while p < out.len() && out[p].reclaimable > x.reclaimable
            invariant
                p <= out@.len(),
                forall|k: int| 0 <= k < p ==> (#[trigger] out@[k]).reclaimable > x.reclaimable,
            decreases out@.len() - p,
        {
            p = p + 1;
        }
        let ghost old_out = out@;
        let ghost old_pi = pi;
        out.insert(p, x);
        proof {
            pi = old_pi.insert(p as int, j);
            vstd::seq_lib::to_multiset_insert(old_out, p as int, x);
            assert(out@ == old_out.insert(p as int, x));
            let pp = p as int;
            assert forall|k: int| 0 <= k < pi.len() implies rest@.len() <= #[trigger] pi[k] < n && out@[k] == orig[pi[k]] by {
                if k > pp {
                    assert(pi[k] == old_pi[k - 1]);
                } else if k < pp {
                    assert(pi[k] == old_pi[k]);
                }
            }
            assert forall|k: int, l: int| 0 <= k < l < pi.len() implies #[trigger] pi[k] != #[trigger] pi[l] by {
                if k < pp && l < pp {
                } else if k < pp && l == pp {
                    assert(old_pi[k] > j);
                } else if k < pp {
                    assert(pi[l] == old_pi[l - 1]);
                } else if k == pp {
                    assert(pi[l] == old_pi[l - 1]);
                    assert(old_pi[l - 1] > j);
                } else {
                    assert(pi[l] == old_pi[l - 1]);
                    assert(pi[k] == old_pi[k - 1]);
                }
            }
            assert forall|k: int, l: int| 0 <= k < l < out@.len() implies (#[trigger] out@[k]).reclaimable
                > (#[trigger] out@[l]).reclaimable || (out@[k].reclaimable == out@[l].reclaimable && pi[k] < pi[l]) by {
                if l < pp {
                    assert(pi[k] == old_pi[k] && pi[l] == old_pi[l]);
                } else if l == pp {
                    assert(old_out[k].reclaimable > x.reclaimable);
                } else if k < pp {
                    assert(old_out[k].reclaimable > x.reclaimable);
                    assert(pi[k] == old_pi[k] && pi[l] == old_pi[l - 1]);
                    assert(out@[l] == old_out[l - 1]);
                    if l - 1 > k {
                        assert(old_out[k].reclaimable >= old_out[l - 1].reclaimable);
                    }
                } else if k == pp {
                    assert(pi[l] == old_pi[l - 1]);
                    assert(out@[l] == old_out[l - 1]);
                    assert(old_out[pp].reclaimable <= x.reclaimable);
                    if l - 1 > pp {
                        assert(old_out[pp].reclaimable >= old_out[l - 1].reclaimable);
                    }
                    assert(old_pi[l - 1] > j);
                } else {
                    assert(pi[l] == old_pi[l - 1]);
                    assert(pi[k] == old_pi[k - 1]);
                    assert(out@[l] == old_out[l - 1]);
                    assert(out@[k] == old_out[k - 1]);
                }
            }
        }
    }
    proof {
        vstd::seq_lib::to_multiset_len(rest@);
        vstd::multiset::lemma_multiset_empty_len(rest@.to_multiset());
        assert(out@.to_multiset().add(rest@.to_multiset()) =~= out@.to_multiset());
        assert(stable_by_reclaimable(out@, orig, pi));
    }
    out
}

/// `built[i]` is the group made from `lists[i]`.
pub open spec fn assembled_from(
    built: Seq<DuplicateGroup>,
    lists: Seq<Seq<FileEntry>>,
    keep: KeepStrategy,
    kind: GroupKind,
) -> bool {
    &&& built.len() == lists.len()
    &&& forall|i: int| 0 <= i < built.len() ==> built_from(#[trigger] built[i], lists[i], keep, kind)
}

/// Picking positions in increasing order never weighs more than the whole sequence.
pub proof fn lemma_pick_total_size(items: Seq<FileEntry>, idx: Seq<usize>)
    requires
        forall|a: int, b: int| 0 <= a < b < idx.len() ==> #[trigger] idx[a] < #[trigger] idx[b],
        forall|a: int| 0 <= a < idx.len() ==> #[trigger] idx[a] < items.len(),
    ensures
        total_size(pick(items, idx)) <= total_size(items),
    decreases items.len(),
{
    let n = items.len();
    if n == 0 {
        if idx.len() > 0 {
            assert(idx[0] < items.len());
        }
        assert(pick(items, idx) =~= Seq::<FileEntry>::empty());
    } else {
        let items2 = items.drop_last();
        if idx.len() > 0 && idx.last() == n - 1 {
            let idx2 = idx.drop_last();
            assert forall|a: int| 0 <= a < idx2.len() implies #[trigger] idx2[a] < items2.len() by {
                assert(idx[a] < idx[idx.len() - 1]);
            }
            lemma_pick_total_size(items2, idx2);
            assert(pick(items, idx).drop_last() =~= pick(items2, idx2));
        } else {
            assert forall|a: int| 0 <= a < idx.len() implies #[trigger] idx[a] < items2.len() by {
                if idx[a] == n - 1 {
                    assert(idx[a] <= idx[idx.len() - 1]);
                    if a < idx.len() - 1 {
                        assert(idx[a] < idx[idx.len() - 1]);
                    }
                }
            }
            lemma_pick_total_size(items2, idx);
            assert(pick(items, idx) =~= pick(items2, idx));
        }
        crate::models::lemma_total_size_nonneg(items2);
    }
}

/// The files of each cluster of positions.
pub open spec fn cluster_files(items: Seq<FileEntry>, clusters: Seq<Seq<usize>>) -> Seq<Seq<FileEntry>> {
    clusters.map_values(|c: Seq<usize>| pick(items, c))
}

/// `out` are the groups made from the clusters of positions `clusters`, which are the
/// connected components of `edges` with at least two members.
pub open spec fn clustered_groups(
    out: Seq<DuplicateGroup>,
    items: Seq<FileEntry>,
    edges: Set<(int, int)>,
    keep: KeepStrategy,
    kind: GroupKind,
) -> bool {
    exists|clusters: Seq<Seq<usize>>|
        #[trigger] crate::union_find::clusters_of(clusters, edges, items.len() as int) && assembled_from(
            out,
            cluster_files(items, clusters),
            keep,
            kind,
        )
}

/// Turns clusters of positions into groups of the given kind, each ordered by the strategy.
pub fn groups_from_clusters(
    items: &Vec<FileEntry>,
    clusters: &Vec<Vec<usize>>,
    keep: KeepStrategy,
    kind: GroupKind,
) -> (out: Vec<DuplicateGroup>)
    requires
        total_size(items@) <= u64::MAX,
        forall|g: int, a: int, b: int|
            0 <= g < clusters@.len() && 0 <= a < b < clusters@[g]@.len() ==> #[trigger] clusters@[g]@[a]
                < #[trigger] clusters@[g]@[b],
        forall|g: int, a: int| 0 <= g < clusters@.len() && 0 <= a < clusters@[g]@.len() ==> #[trigger] clusters@[g]@[a] < items@.len(),
    ensures
        assembled_from(out@, cluster_files(items@, views(clusters@)), keep, kind),
{
    let m = clusters.len();
    let mut lists: Vec<Vec<FileEntry>> = Vec::with_capacity(m);
    let mut g: usize = 0;
    while g < m
        invariant
            g <= m,
            m == clusters@.len(),
            lists@.len() == g,
            total_size(items@) <= u64::MAX,
            forall|h: int| 0 <= h < g ==> (#[trigger] lists@[h])@ == pick(items@, clusters@[h]@),
            forall|h: int| 0 <= h < g ==> total_size((#[trigger] lists@[h])@) <= u64::MAX,
            forall|h: int, a: int, b: int|
                0 <= h < clusters@.len() && 0 <= a < b < clusters@[h]@.len() ==> #[trigger] clusters@[h]@[a]
                    < #[trigger] clusters@[h]@[b],
            forall|h: int, a: int| 0 <= h < clusters@.len() && 0 <= a < clusters@[h]@.len() ==> #[trigger] clusters@[h]@[a] < items@.len(),
        decreases m - g,
    {
        let c = &clusters[g];
        let mut files: Vec<FileEntry> = Vec::with_capacity(c.len());
        let mut t: usize = 0;
        while t < c.len()
            invariant
                t <= c@.len(),
                c@ == clusters@[g as int]@,
                files@.len() == t,
                forall|a: int| 0 <= a < c@.len() ==> #[trigger] c@[a] < items@.len(),
                forall|a: int| 0 <= a < t ==> files@[a] == items@[c@[a] as int],
            decreases c@.len() - t,
        {
            files.push(items[c[t]].clone());
            t = t + 1;
        }
        proof {
            assert(files@ =~= pick(items@, c@));
            lemma_pick_total_size(items@, c@);
        }
        lists.push(files);
        g = g + 1;
    }
    let ghost lv = entry_views(lists@);
    let out = assemble_groups(lists, keep, kind);
    proof {
        let cf = cluster_files(items@, views(clusters@));
        assert forall|i: int| 0 <= i < out@.len() implies built_from(#[trigger] out@[i], cf[i], keep, kind) by {
            assert(cf[i] == pick(items@, clusters@[i]@));
        }
    }
    out
}

} // verus!
