//! Orders used to pick the reference file of a group.

use vstd::prelude::*;
use crate::models::{lemma_total_size_insert, total_size, FileEntry, KeepStrategy};

verus! {

/// Three-way lexicographic comparison of byte strings: -1, 0 or 1.
pub open spec fn lex_order(a: Seq<u8>, b: Seq<u8>) -> int
    decreases a.len(),
{
    if a.len() == 0 {
        if b.len() == 0 {
            0
        } else {
            -1
        }
    } else if b.len() == 0 {
        1
    } else if a[0] < b[0] {
        -1
    } else if a[0] > b[0] {
        1
    } else {
        lex_order(a.drop_first(), b.drop_first())
    }
}

/// The bytes of a path as `String` comparison sees them.
pub open spec fn path_bytes(e: FileEntry) -> Seq<u8> {
    vstd::utf8::encode_utf8(e.path@)
}

/// Three-way comparison of a primary key, then of the path.
pub open spec fn key_then_path(ka: int, kb: int, a: FileEntry, b: FileEntry) -> int {
    if ka < kb {
        -1
    } else if ka > kb {
        1
    } else {
        lex_order(path_bytes(a), path_bytes(b))
    }
}

/// Three-way comparison of two files under a keep strategy: negative means `a`
/// is preferred as the reference over `b`.
pub open spec fn keep_order(s: KeepStrategy, a: FileEntry, b: FileEntry) -> int {
    match s {
        KeepStrategy::KeepNewest => key_then_path(-(a.modified as int), -(b.modified as int), a, b),
        KeepStrategy::KeepOldest => key_then_path(a.modified as int, b.modified as int, a, b),
        KeepStrategy::KeepLargest => key_then_path(-(a.size as int), -(b.size as int), a, b),
        KeepStrategy::KeepFirst => 0,
    }
}

/// `files` is ordered by the strategy.
pub open spec fn sorted_by_keep(s: KeepStrategy, files: Seq<FileEntry>) -> bool {
    forall|i: int, j: int| 0 <= i < j < files.len() ==> keep_order(s, #[trigger] files[i], #[trigger] files[j]) <= 0
}

pub proof fn lemma_lex_order_props(a: Seq<u8>, b: Seq<u8>)
    ensures
        lex_order(a, b) == -lex_order(b, a),
        -1 <= lex_order(a, b) <= 1,
        lex_order(a, b) == 0 <==> a == b,
    decreases a.len(),
{
    if a.len() > 0 && b.len() > 0 && a[0] == b[0] {
        lemma_lex_order_props(a.drop_first(), b.drop_first());
        if a.drop_first() == b.drop_first() {
            assert(a =~= seq![a[0]] + a.drop_first());
            assert(b =~= seq![b[0]] + b.drop_first());
        }
    }
    if a.len() == 0 && b.len() == 0 {
        assert(a =~= b);
    }
}

pub proof fn lemma_lex_order_trans(a: Seq<u8>, b: Seq<u8>, c: Seq<u8>)
    requires
        lex_order(a, b) <= 0,
        lex_order(b, c) <= 0,
    ensures
        lex_order(a, c) <= 0,
        lex_order(a, b) < 0 || lex_order(b, c) < 0 ==> lex_order(a, c) < 0,
    decreases a.len(),
{
    lemma_lex_order_props(a, b);
    lemma_lex_order_props(b, c);
    lemma_lex_order_props(a, c);
    if a.len() > 0 && b.len() > 0 && c.len() > 0 && a[0] == b[0] && b[0] == c[0] {
        lemma_lex_order_trans(a.drop_first(), b.drop_first(), c.drop_first());
    }
}

/// The order of a strategy is a total preorder: antisymmetric and transitive.
pub proof fn lemma_keep_order_props(s: KeepStrategy, a: FileEntry, b: FileEntry, c: FileEntry)
    ensures
        keep_order(s, a, b) == -keep_order(s, b, a),
        -1 <= keep_order(s, a, b) <= 1,
        keep_order(s, a, b) <= 0 && keep_order(s, b, c) <= 0 ==> keep_order(s, a, c) <= 0,
        keep_order(s, a, b) < 0 && keep_order(s, b, c) <= 0 ==> keep_order(s, a, c) < 0,
        keep_order(s, a, b) <= 0 && keep_order(s, b, c) < 0 ==> keep_order(s, a, c) < 0,
{
    lemma_lex_order_props(path_bytes(a), path_bytes(b));
    if lex_order(path_bytes(a), path_bytes(b)) <= 0 && lex_order(path_bytes(b), path_bytes(c)) <= 0 {
        lemma_lex_order_trans(path_bytes(a), path_bytes(b), path_bytes(c));
    }
}

/// Compares two byte strings as `lex_order` does.
pub fn compare_bytes(a: &[u8], b: &[u8]) -> (r: i8)
    ensures
        r as int == lex_order(a@, b@),
{
    let n = a.len();
    let m = b.len();
    let mut i: usize = 0;
    proof {
        assert(a@.skip(0) =~= a@);
        assert(b@.skip(0) =~= b@);
    }
    while i < n && i < m && a[i] == b[i]
        invariant
            i <= n,
            i <= m,
            n == a@.len(),
            m == b@.len(),
            lex_order(a@, b@) == lex_order(a@.skip(i as int), b@.skip(i as int)),
        decreases n - i,
    {
        proof {
            assert(a@.skip(i as int).drop_first() =~= a@.skip(i as int + 1));
            assert(b@.skip(i as int).drop_first() =~= b@.skip(i as int + 1));
        }
        i = i + 1;
    }
    if i == n {
        if i == m {
            0
        } else {
            -1
        }
    } else if i == m {
        1
    } else if a[i] < b[i] {
        -1
    } else {
        1
    }
}

fn compare_paths(a: &FileEntry, b: &FileEntry) -> (r: i8)
    ensures
        r as int == lex_order(path_bytes(*a), path_bytes(*b)),
{
    compare_bytes(a.path.as_str().as_bytes(), b.path.as_str().as_bytes())
}

/// Compares two files under a strategy as `keep_order` does.
pub fn compare_keep(s: KeepStrategy, a: &FileEntry, b: &FileEntry) -> (r: i8)
    ensures
        r as int == keep_order(s, *a, *b),
{
    match s {
        KeepStrategy::KeepNewest => {
            if a.modified > b.modified {
                -1
            } else if a.modified < b.modified {
                1
            } else {
                compare_paths(a, b)
            }
        },
        KeepStrategy::KeepOldest => {
            if a.modified < b.modified {
                -1
            } else if a.modified > b.modified {
                1
            } else {
                compare_paths(a, b)
            }
        },
        KeepStrategy::KeepLargest => {
            if a.size > b.size {
                -1
            } else if a.size < b.size {
                1
            } else {
                compare_paths(a, b)
            }
        },
        KeepStrategy::KeepFirst => 0,
    }
}

/// Orders a group so that `files[0]` is the reference file under the strategy:
/// newest / oldest modification time or largest size first, ties broken by path;
/// `KeepFirst` keeps the scan order.
pub fn sort_by_keep(files: &mut Vec<FileEntry>, strategy: KeepStrategy)
    ensures
        final(files)@.len() == old(files)@.len(),
        final(files)@.to_multiset() == old(files)@.to_multiset(),
        total_size(final(files)@) == total_size(old(files)@),
        sorted_by_keep(strategy, final(files)@),
        strategy == KeepStrategy::KeepFirst ==> final(files)@ == old(files)@,
{
    if strategy == KeepStrategy::KeepFirst {
        return;
    }
    let n = files.len();
    let mut sorted: Vec<FileEntry> = Vec::with_capacity(n);
    let mut i: usize = 0;
    proof {
        assert(sorted@ =~= files@.subrange(0, 0));
    }
    while i < n
        invariant
            n == files@.len(),
            i <= n,
            sorted@.len() == i,
            sorted@.to_multiset() == files@.subrange(0, i as int).to_multiset(),
            total_size(sorted@) == total_size(files@.subrange(0, i as int)),
            sorted_by_keep(strategy, sorted@),
        decreases n - i,
    {
        let x = files[i].clone();
        let mut p: usize = 0;
        while p < sorted.len() && compare_keep(strategy, &x, &sorted[p]) >= 0
            invariant
                p <= sorted@.len(),
                forall|k: int| 0 <= k < p ==> keep_order(strategy, x, #[trigger] sorted@[k]) >= 0,
            decreases sorted@.len() - p,
        {
            p = p + 1;
        }
        let ghost old_sorted = sorted@;
        sorted.insert(p, x);
        proof {
            assert(sorted@ == old_sorted.insert(p as int, x));
            vstd::seq_lib::to_multiset_insert(old_sorted, p as int, x);
            assert(files@.subrange(0, i as int + 1) =~= files@.subrange(0, i as int).push(files@[i as int]));
            vstd::seq_lib::to_multiset_build(files@.subrange(0, i as int), files@[i as int]);
            lemma_total_size_insert(old_sorted, p as int, x);
            assert(files@.subrange(0, i as int + 1).drop_last() =~= files@.subrange(0, i as int));
            assert forall|a: int, b: int| 0 <= a < b < sorted@.len() implies keep_order(
                strategy,
                #[trigger] sorted@[a],
                #[trigger] sorted@[b],
            ) <= 0 by {
                let pp = p as int;
                if b < pp {
                    assert(keep_order(strategy, old_sorted[a], old_sorted[b]) <= 0);
                } else if a > pp {
                    assert(keep_order(strategy, old_sorted[a - 1], old_sorted[b - 1]) <= 0);
                } else if a == pp {
                    // x is strictly before old_sorted[p], which is not after old_sorted[b - 1]
                    lemma_keep_order_props(strategy, x, old_sorted[pp], old_sorted[b - 1]);
                    if b - 1 > pp {
                        assert(keep_order(strategy, old_sorted[pp], old_sorted[b - 1]) <= 0);
                    }
                } else {
                    // a < p == b
                    assert(keep_order(strategy, x, old_sorted[a]) >= 0);
                    lemma_keep_order_props(strategy, x, old_sorted[a], x);
                    if b > pp {
                        assert(keep_order(strategy, old_sorted[a], old_sorted[b - 1]) <= 0);
                    }
                }
            }
        }
        i = i + 1;
    }
    proof {
        assert(files@.subrange(0, n as int) =~= files@);
    }
    *files = sorted;
}

} // verus!
