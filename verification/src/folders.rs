//! Empty folders: which folders of a scanned tree are reported as empty.
//!
//! The caller reads the folders into a tree of `DirNode`s, each listing its entries with their
//! types and, for every subfolder entry, the node that holds that subfolder.

use vstd::prelude::*;
use crate::models::{ToolItem, ToolKind};
use crate::tools::{classify_entry, entry_verdict, EntryType, EntryVerdict};

verus! {

/// A folder as read from the disk: its path, its entries (name and type, `None` where the
/// type could not be read) and, at the position of every subfolder entry, the node of that
/// subfolder (other positions are not read).
pub struct DirNode {
    pub path: String,
    pub entries: Vec<(String, Option<EntryType>)>,
    pub children: Vec<usize>,
}

/// Entry `k` of node `i` is a subfolder.
pub open spec fn is_subfolder(tree: Seq<DirNode>, i: int, k: int) -> bool {
    tree[i].entries@[k].1 == Some(EntryType::Dir)
}

/// Every node lists one child position per entry, and a subfolder's node comes after its
/// parent's.
pub open spec fn tree_wf(tree: Seq<DirNode>) -> bool {
    &&& forall|i: int| 0 <= i < tree.len() ==> (#[trigger] tree[i]).children@.len() == tree[i].entries@.len()
    &&& forall|i: int, k: int|
        0 <= i < tree.len() && 0 <= k < tree[i].entries@.len() && is_subfolder(tree, i, k) ==> i
            < #[trigger] tree[i].children@[k] < tree.len()
}

/// The first `j` entries of node `i` leave it empty: each is skipped, or a subfolder that is
/// itself empty.
pub open spec fn entries_clear(tree: Seq<DirNode>, i: int, j: int) -> bool
    decreases tree.len() - i, j,
{
    if i < 0 || i >= tree.len() || j <= 0 {
        true
    } else {
        let k = j - 1;
        let ok = if k >= tree[i].entries@.len() {
            true
        } else {
            match entry_verdict(tree[i].entries@[k].0@, tree[i].entries@[k].1) {
                EntryVerdict::Skip => true,
                EntryVerdict::Occupied => false,
                EntryVerdict::CheckSubfolder => {
                    let c = tree[i].children@[k] as int;
                    if i < c < tree.len() {
                        entries_clear(tree, c, tree[c].entries@.len() as int)
                    } else {
                        false
                    }
                },
            }
        };
        ok && entries_clear(tree, i, k)
    }
}

/// A folder is empty: it holds only system files, entries of unknown or other type, and empty
/// subfolders.
pub open spec fn folder_empty(tree: Seq<DirNode>, i: int) -> bool {
    entries_clear(tree, i, tree[i].entries@.len() as int)
}

/// The empty subfolders among the first `j` entries of node `d`, in entry order.
pub open spec fn empty_children(tree: Seq<DirNode>, d: int, j: int) -> Seq<usize>
    decreases j,
{
    if j <= 0 {
        Seq::empty()
    } else {
        let prev = empty_children(tree, d, j - 1);
        let c = tree[d].children@[j - 1];
        if is_subfolder(tree, d, j - 1) && folder_empty(tree, c as int) {
            prev.push(c)
        } else {
            prev
        }
    }
}

/// What is reported below the non-empty subfolders among the first `j` entries of node `d`,
/// the last of them first.
pub open spec fn descend(tree: Seq<DirNode>, d: int, j: int) -> Seq<usize>
    decreases tree.len() - d, j,
{
    if d < 0 || d >= tree.len() || j <= 0 {
        Seq::empty()
    } else {
        let c = tree[d].children@[j - 1] as int;
        let here = if is_subfolder(tree, d, j - 1) && d < c < tree.len() && !folder_empty(tree, c) {
            reported_below(tree, c)
        } else {
            Seq::empty()
        };
        here + descend(tree, d, j - 1)
    }
}

/// The topmost empty folders below a non-empty folder `d`: its empty subfolders, then what lies
/// below its non-empty subfolders, the last of them first.
pub open spec fn reported_below(tree: Seq<DirNode>, d: int) -> Seq<usize>
    decreases tree.len() - d, tree[d].entries@.len() + 1,
{
    if d < 0 || d >= tree.len() {
        Seq::empty()
    } else {
        empty_children(tree, d, tree[d].entries@.len() as int) + descend(tree, d, tree[d].entries@.len() as int)
    }
}

/// What is reported for one root: the root alone when it is empty, else (when recursing) the
/// topmost empty folders below it.
pub open spec fn root_report(tree: Seq<DirNode>, r: int, recursive: bool) -> Seq<usize> {
    if folder_empty(tree, r) {
        seq![r as usize]
    } else if recursive {
        reported_below(tree, r)
    } else {
        Seq::empty()
    }
}

/// What is reported for the roots, in their order.
pub open spec fn reported(tree: Seq<DirNode>, roots: Seq<usize>, recursive: bool) -> Seq<usize>
    decreases roots.len(),
{
    if roots.len() == 0 {
        Seq::empty()
    } else {
        reported(tree, roots.drop_last(), recursive) + root_report(tree, roots.last() as int, recursive)
    }
}

/// `t` reports the folder `path` as empty.
pub open spec fn is_empty_folder_item(t: ToolItem, path: Seq<char>) -> bool {
    &&& t.kind == ToolKind::EmptyFolder
    &&& t.path@ == path
    &&& t.size == 0
    &&& t.modified == 0
    &&& t.created == 0
    &&& t.detail@ == "空文件夹"@
}

/// Whether every node is empty, computed from the last node back.
fn emptiness(tree: &Vec<DirNode>) -> (flags: Vec<bool>)
    requires
        tree_wf(tree@),
    ensures
        flags@.len() == tree@.len(),
        forall|c: int| 0 <= c < tree@.len() ==> flags@[c] == folder_empty(tree@, c),
{
    let n = tree.len();
    let mut flags: Vec<bool> = vec![false; n];
    let mut i: usize = n;
    while i > 0
        invariant
            i <= n,
            n == tree@.len(),
            flags@.len() == n,
            tree_wf(tree@),
            forall|c: int| i <= c < n ==> flags@[c] == folder_empty(tree@, c),
        decreases i,
    {
        i = i - 1;
        let node = &tree[i];
        let m = node.entries.len();
        let mut k: usize = 0;
        let mut clear = true;
        while k < m
            invariant
                i < n,
                n == tree@.len(),
                flags@.len() == n,
                tree_wf(tree@),
                *node == tree@[i as int],
                m == node.entries@.len(),
                k <= m,
                forall|c: int| i < c < n ==> flags@[c] == folder_empty(tree@, c),
                clear == entries_clear(tree@, i as int, k as int),
            decreases m - k,
        {
            let v = classify_entry(node.entries[k].0.as_str(), node.entries[k].1);
            let ok = match v {
                EntryVerdict::Skip => true,
                EntryVerdict::Occupied => false,
                EntryVerdict::CheckSubfolder => {
                    proof {
                        assert(is_subfolder(tree@, i as int, k as int));
                    }
                    flags[node.children[k]]
                },
            };
            clear = ok && clear;
            k = k + 1;
        }
        flags.set(i, clear);
    }
    flags
}

fn push_below(tree: &Vec<DirNode>, flags: &Vec<bool>, d: usize, out: &mut Vec<usize>)
    requires
        tree_wf(tree@),
        d < tree@.len(),
        flags@.len() == tree@.len(),
        forall|c: int| 0 <= c < tree@.len() ==> flags@[c] == folder_empty(tree@, c),
    ensures
        final(out)@ == old(out)@ + reported_below(tree@, d as int),
    decreases tree@.len() - d,
{
    let node = &tree[d];
    let m = node.entries.len();
    let ghost start = out@;
    let mut k: usize = 0;
    while k < m
        invariant
            d < tree@.len(),
            *node == tree@[d as int],
            m == node.entries@.len(),
            k <= m,
            tree_wf(tree@),
            flags@.len() == tree@.len(),
            forall|c: int| 0 <= c < tree@.len() ==> flags@[c] == folder_empty(tree@, c),
            out@ == start + empty_children(tree@, d as int, k as int),
        decreases m - k,
    {
        if node.entries[k].1 == Some(EntryType::Dir) {
            proof {
                assert(is_subfolder(tree@, d as int, k as int));
            }
            let c = node.children[k];
            if flags[c] {
                out.push(c);
            }
        }
        proof {
            assert(out@ =~= start + empty_children(tree@, d as int, k + 1));
        }
        k = k + 1;
    }
    let ghost mid = out@;
    let mut j: usize = m;
    proof {
        assert(mid + descend(tree@, d as int, m as int) =~= out@ + descend(tree@, d as int, j as int));
    }
    while j > 0
        invariant
            d < tree@.len(),
            *node == tree@[d as int],
            m == node.entries@.len(),
            j <= m,
            tree_wf(tree@),
            flags@.len() == tree@.len(),
            forall|c: int| 0 <= c < tree@.len() ==> flags@[c] == folder_empty(tree@, c),
            mid + descend(tree@, d as int, m as int) == out@ + descend(tree@, d as int, j as int),
        decreases j,
    {
        j = j - 1;
        let ghost before = out@;
        if node.entries[j].1 == Some(EntryType::Dir) {
            proof {
                assert(is_subfolder(tree@, d as int, j as int));
            }
            let c = node.children[j];
            if !flags[c] {
                push_below(tree, flags, c, out);
            }
        }
        proof {
            let c = tree@[d as int].children@[j as int] as int;
            let here = if is_subfolder(tree@, d as int, j as int) && (d as int) < c < tree@.len() && !folder_empty(
                tree@,
                c,
            ) {
                reported_below(tree@, c)
            } else {
                Seq::empty()
            };
            assert(out@ == before + here);
            assert(descend(tree@, d as int, j + 1) == here + descend(tree@, d as int, j as int));
            assert(before + descend(tree@, d as int, j + 1) =~= out@ + descend(tree@, d as int, j as int));
        }
    }
    proof {
        assert(descend(tree@, d as int, 0) == Seq::<usize>::empty());
        assert(out@ =~= start + reported_below(tree@, d as int));
    }
}

/// The folders reported as empty: for each root in turn, the root itself when it is empty, or
/// else, when `recursive`, the topmost empty folders below it.
pub fn empty_folder_items(tree: &Vec<DirNode>, roots: &Vec<usize>, recursive: bool) -> (out: Vec<ToolItem>)
    requires
        tree_wf(tree@),
        forall|q: int| 0 <= q < roots@.len() ==> #[trigger] roots@[q] < tree@.len(),
    ensures
        out@.len() == reported(tree@, roots@, recursive).len(),
        forall|q: int|
            0 <= q < out@.len() ==> is_empty_folder_item(
                #[trigger] out@[q],
                tree@[reported(tree@, roots@, recursive)[q] as int].path@,
            ),
{
    let flags = emptiness(tree);
    let mut found: Vec<usize> = Vec::new();
    let mut q: usize = 0;
    while q < roots.len()
        invariant
            q <= roots@.len(),
            tree_wf(tree@),
            forall|t: int| 0 <= t < roots@.len() ==> #[trigger] roots@[t] < tree@.len(),
            flags@.len() == tree@.len(),
            forall|c: int| 0 <= c < tree@.len() ==> flags@[c] == folder_empty(tree@, c),
            found@ == reported(tree@, roots@.subrange(0, q as int), recursive),
            forall|t: int| 0 <= t < found@.len() ==> #[trigger] found@[t] < tree@.len(),
        decreases roots@.len() - q,
    {
        let r = roots[q];
        let ghost before = found@;
        if flags[r] {
            found.push(r);
        } else if recursive {
            push_below(tree, &flags, r, &mut found);
        }
        proof {
            assert(roots@.subrange(0, q + 1).drop_last() =~= roots@.subrange(0, q as int));
            assert(found@ =~= reported(tree@, roots@.subrange(0, q + 1), recursive));
            assert forall|t: int| 0 <= t < found@.len() implies #[trigger] found@[t] < tree@.len() by {
                if t >= before.len() {
                    lemma_reported_in_tree(tree@, r as int, recursive);
                    assert(found@[t] == root_report(tree@, r as int, recursive)[t - before.len()]);
                }
            }
        }
        q = q + 1;
    }
    proof {
        assert(roots@.subrange(0, roots@.len() as int) =~= roots@);
    }
    let mut out: Vec<ToolItem> = Vec::new();
    let mut t: usize = 0;
    while t < found.len()
        invariant
            t <= found@.len(),
            found@ == reported(tree@, roots@, recursive),
            forall|s: int| 0 <= s < found@.len() ==> #[trigger] found@[s] < tree@.len(),
            out@.len() == t,
            forall|s: int| 0 <= s < t ==> is_empty_folder_item(#[trigger] out@[s], tree@[found@[s] as int].path@),
        decreases found@.len() - t,
    {
        let path = tree[found[t]].path.clone();
        out.push(
            ToolItem {
                kind: ToolKind::EmptyFolder,
                path,
                size: 0,
                modified: 0,
                created: 0,
                detail: "空文件夹".to_owned(),
            },
        );
        t = t + 1;
    }
    out
}

proof fn lemma_reported_in_tree(tree: Seq<DirNode>, r: int, recursive: bool)
    requires
        tree_wf(tree),
        0 <= r < tree.len(),
    ensures
        forall|t: int|
            0 <= t < root_report(tree, r, recursive).len() ==> #[trigger] root_report(tree, r, recursive)[t] < tree.len(),
{
    if !folder_empty(tree, r) && recursive {
        lemma_below_in_tree(tree, r);
    }
}

proof fn lemma_below_in_tree(tree: Seq<DirNode>, d: int)
    requires
        tree_wf(tree),
        0 <= d < tree.len(),
    ensures
        forall|t: int| 0 <= t < reported_below(tree, d).len() ==> #[trigger] reported_below(tree, d)[t] < tree.len(),
    decreases tree.len() - d, tree[d].entries@.len() + 1,
{
    let m = tree[d].entries@.len() as int;
    lemma_empty_children_in_tree(tree, d, m);
    lemma_descend_in_tree(tree, d, m);
    let a = empty_children(tree, d, m);
    let b = descend(tree, d, m);
    assert(reported_below(tree, d) == a + b);
    assert forall|t: int| 0 <= t < reported_below(tree, d).len() implies #[trigger] reported_below(tree, d)[t] < tree.len() by {
        if t < a.len() {
            assert((a + b)[t] == a[t]);
        } else {
            assert((a + b)[t] == b[t - a.len()]);
        }
    }
}

proof fn lemma_empty_children_in_tree(tree: Seq<DirNode>, d: int, j: int)
    requires
        tree_wf(tree),
        0 <= d < tree.len(),
        j <= tree[d].entries@.len(),
    ensures
        forall|t: int| 0 <= t < empty_children(tree, d, j).len() ==> #[trigger] empty_children(tree, d, j)[t] < tree.len(),
    decreases j,
{
    if j > 0 {
        lemma_empty_children_in_tree(tree, d, j - 1);
        let prev = empty_children(tree, d, j - 1);
        let c = tree[d].children@[j - 1];
        if is_subfolder(tree, d, j - 1) {
            assert(d < c < tree.len());
        }
        assert forall|t: int| 0 <= t < empty_children(tree, d, j).len() implies #[trigger] empty_children(tree, d, j)[t]
            < tree.len() by {
            if t < prev.len() {
                assert(empty_children(tree, d, j)[t] == prev[t]);
            }
        }
    }
}

proof fn lemma_descend_in_tree(tree: Seq<DirNode>, d: int, j: int)
    requires
        tree_wf(tree),
        0 <= d < tree.len(),
        j <= tree[d].entries@.len(),
    ensures
        forall|t: int| 0 <= t < descend(tree, d, j).len() ==> #[trigger] descend(tree, d, j)[t] < tree.len(),
    decreases tree.len() - d, j,
{
    if j > 0 {
        lemma_descend_in_tree(tree, d, j - 1);
        let c = tree[d].children@[j - 1] as int;
        let here = if is_subfolder(tree, d, j - 1) && d < c < tree.len() && !folder_empty(tree, c) {
            reported_below(tree, c)
        } else {
            Seq::empty()
        };
        if is_subfolder(tree, d, j - 1) && d < c < tree.len() && !folder_empty(tree, c) {
            lemma_below_in_tree(tree, c);
        }
        let rest = descend(tree, d, j - 1);
        assert(descend(tree, d, j) == here + rest);
        assert forall|t: int| 0 <= t < descend(tree, d, j).len() implies #[trigger] descend(tree, d, j)[t] < tree.len() by {
            if t < here.len() {
                assert((here + rest)[t] == here[t]);
            } else {
                assert((here + rest)[t] == rest[t - here.len()]);
            }
        }
    }
}

} // verus!
