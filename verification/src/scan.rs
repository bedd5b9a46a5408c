//! Filters applied to the files met while walking the scanned folders.

use vstd::prelude::*;
use vstd::hash_map::StringHashMap;
use crate::grouping::{
    assembled_from, built_from, cluster_files, clustered_groups, pick, sort_by_reclaimable, stable_by_reclaimable,
};
use crate::union_find::{clusters_of, group_is_class};
use crate::models::{total_size, DuplicateGroup, FileEntry, GroupKind, KeepStrategy, ScanOptions, ScanResult, ToolItem};
use crate::text::{
    chars_of, eq_ignore_ascii_case_spec, extension_of, extension_part, in_list, listed, lowercase_of, matches_any,
    name_part, to_lowercase,
};

verus! {

/// `p` occurs in `s` as a run of consecutive characters.
pub open spec fn is_substring(p: Seq<char>, s: Seq<char>) -> bool {
    exists|i: int| 0 <= i <= s.len() - p.len() && #[trigger] s.subrange(i, i + p.len()) == p
}

/// Whether `p` occurs in `s`.
pub fn contains_str(s: &str, p: &str) -> (r: bool)
    ensures
        r == is_substring(p@, s@),
{
    let cs = chars_of(s);
    let cp = chars_of(p);
    if cp.len() == 0 {
        proof {
            assert(s@.subrange(0int, 0int + p@.len()) =~= p@);
        }
        return true;
    }
    if cp.len() > cs.len() {
        return false;
    }
    let last = cs.len() - cp.len();
    let mut i: usize = 0;
    while i <= last
        invariant
            cs@ == s@,
            cp@ == p@,
            last == cs@.len() - cp@.len(),
            0 < cp@.len() <= cs@.len() <= usize::MAX,
            i <= last + 1,
            forall|k: int| 0 <= k < i ==> #[trigger] s@.subrange(k, k + p@.len()) != p@,
        decreases last + 1 - i,
    {
        let mut j: usize = 0;
        let mut same = true;
        while j < cp.len() && same
            invariant
                cs@ == s@,
                cp@ == p@,
                i <= last,
                last == cs@.len() - cp@.len(),
                0 < cp@.len() <= cs@.len() <= usize::MAX,
                j <= cp@.len(),
                same ==> forall|t: int| 0 <= t < j ==> cs@[i + t] == cp@[t],
                !same ==> s@.subrange(i as int, i + p@.len()) != p@,
            decreases cp@.len() - j + (if same { 1int } else { 0int }),
        {
            assert(i + j < cs@.len());
            if cs[i + j] != cp[j] {
                same = false;
                proof {
                    assert(s@.subrange(i as int, i + p@.len())[j as int] == cs@[i + j]);
                }
            } else {
                j = j + 1;
            }
        }
        if same {
            proof {
                assert(s@.subrange(i as int, i + p@.len()) =~= p@);
            }
            return true;
        }
        i = i + 1;
    }
    proof {
        assert forall|k: int| 0 <= k <= s@.len() - p@.len() implies #[trigger] s@.subrange(k, k + p@.len()) != p@ by {
            assert(k < i);
        }
    }
    false
}

/// The extension of the file name of a path, lowercased.
pub open spec fn lower_ext(path: Seq<char>) -> Option<Seq<char>> {
    match extension_part(name_part(path)) {
        Some(e) => Some(lowercase_of(e)),
        None => None,
    }
}

/// The extension of the file name of a path, lowercased.
pub fn ext_of(path: &str) -> (r: Option<String>)
    ensures
        match r {
            Some(e) => lower_ext(path@) == Some(e@),
            None => lower_ext(path@) is None,
        },
{
    match extension_of(path) {
        Some(e) => Some(to_lowercase(e.as_str())),
        None => None,
    }
}

/// A name equals one of the names of a list, ignoring ASCII letter case.
pub open spec fn listed_strings(list: Seq<String>, name: Seq<char>) -> bool {
    exists|i: int| 0 <= i < list.len() && eq_ignore_ascii_case_spec(#[trigger] list[i]@, name)
}

/// Some non-empty excluded text occurs in the path.
pub open spec fn excluded_path(exclude: Seq<String>, path: Seq<char>) -> bool {
    exists|i: int| 0 <= i < exclude.len() && (#[trigger] exclude[i])@.len() > 0 && is_substring(exclude[i]@, path)
}

/// Whether a non-empty excluded text occurs in the path.
pub fn is_excluded_path(path: &str, exclude: &Vec<String>) -> (r: bool)
    ensures
        r == excluded_path(exclude@, path@),
{
    let mut i: usize = 0;
    while i < exclude.len()
        invariant
            i <= exclude@.len(),
            forall|k: int| 0 <= k < i ==> !((#[trigger] exclude@[k])@.len() > 0 && is_substring(exclude@[k]@, path@)),
        decreases exclude@.len() - i,
    {
        let p = exclude[i].as_str();
        if !p.is_empty() && contains_str(path, p) {
            return true;
        }
        i = i + 1;
    }
    false
}

/// The size lies within the bounds of the options (a bound of 0 is no bound).
pub open spec fn size_in_bounds(opts: ScanOptions, size: u64) -> bool {
    &&& !(opts.min_size > 0 && size < opts.min_size)
    &&& !(opts.max_size > 0 && size > opts.max_size)
}

/// The lowercased extension passes the extension lists: it is among the only-extensions
/// when there are any, and not among the excluded ones.
pub open spec fn extension_allowed(opts: ScanOptions, ext: Option<Seq<char>>) -> bool {
    &&& (opts.only_extensions@.len() == 0 || (ext is Some && listed_strings(opts.only_extensions@, ext->0)))
    &&& !(ext is Some && listed_strings(opts.exclude_extensions@, ext->0))
}

/// A file of the given path and size is collected.
pub open spec fn file_kept(opts: ScanOptions, path: Seq<char>, size: u64) -> bool {
    &&& !excluded_path(opts.exclude_paths@, path)
    &&& size_in_bounds(opts, size)
    &&& extension_allowed(opts, lower_ext(path))
}

/// Whether a regular file of the given path and size is collected by a scan.
pub fn keeps_file(opts: &ScanOptions, path: &str, size: u64) -> (r: bool)
    ensures
        r == file_kept(*opts, path@, size),
{
    if is_excluded_path(path, &opts.exclude_paths) {
        return false;
    }
    if opts.min_size > 0 && size < opts.min_size {
        return false;
    }
    if opts.max_size > 0 && size > opts.max_size {
        return false;
    }
    let ext = ext_of(path);
    if opts.only_extensions.len() > 0 {
        match &ext {
            Some(e) => {
                if !matches_any(e.as_str(), &opts.only_extensions) {
                    return false;
                }
            },
            None => {
                return false;
            },
        }
    }
    match &ext {
        Some(e) => !matches_any(e.as_str(), &opts.exclude_extensions),
        None => true,
    }
}

/// The extension of a file's name is one of the listed ones (ASCII case ignored).
pub open spec fn has_listed_ext(e: FileEntry, list: Seq<&str>) -> bool {
    match extension_part(name_part(e.path@)) {
        Some(x) => listed(list, x),
        None => false,
    }
}

/// The files among `entries` whose extension is listed, in their order.
pub open spec fn files_with_ext(entries: Seq<FileEntry>, list: Seq<&str>) -> Seq<FileEntry>
    decreases entries.len(),
{
    if entries.len() == 0 {
        Seq::empty()
    } else {
        let rest = files_with_ext(entries.drop_last(), list);
        if has_listed_ext(entries.last(), list) {
            rest.push(entries.last())
        } else {
            rest
        }
    }
}

/// Keeps the files whose extension is listed.
pub fn entries_with_ext(entries: &Vec<FileEntry>, list: &[&str]) -> (out: Vec<FileEntry>)
    ensures
        out@ == files_with_ext(entries@, list@),
{
    let mut out: Vec<FileEntry> = Vec::new();
    let mut i: usize = 0;
    while i < entries.len()
        invariant
            i <= entries@.len(),
            out@ == files_with_ext(entries@.subrange(0, i as int), list@),
        decreases entries@.len() - i,
    {
        let keep = match extension_of(entries[i].path.as_str()) {
            Some(e) => in_list(e.as_str(), list),
            None => false,
        };
        proof {
            assert(entries@.subrange(0, i + 1).drop_last() =~= entries@.subrange(0, i as int));
        }
        if keep {
            out.push(entries[i].clone());
        }
        i = i + 1;
    }
    proof {
        assert(entries@.subrange(0, entries@.len() as int) =~= entries@);
    }
    out
}

/// Some file of the groups has this path.
pub open spec fn grouped_path(groups: Seq<DuplicateGroup>, p: Seq<char>) -> bool {
    exists|g: int, k: int|
        0 <= g < groups.len() && 0 <= k < groups[g].files@.len() && (#[trigger] groups[g].files@[k]).path@ == p
}

/// The files whose path is in none of the groups, in their order.
pub open spec fn ungrouped(entries: Seq<FileEntry>, groups: Seq<DuplicateGroup>) -> Seq<FileEntry>
    decreases entries.len(),
{
    if entries.len() == 0 {
        Seq::empty()
    } else {
        let rest = ungrouped(entries.drop_last(), groups);
        if grouped_path(groups, entries.last().path@) {
            rest
        } else {
            rest.push(entries.last())
        }
    }
}

/// The files that no group holds yet, for the later, looser comparisons.
pub fn ungrouped_entries(entries: &Vec<FileEntry>, groups: &Vec<DuplicateGroup>) -> (out: Vec<FileEntry>)
    ensures
        out@ == ungrouped(entries@, groups@),
{
    let mut used: StringHashMap<()> = StringHashMap::new();
    let mut g: usize = 0;
    while g < groups.len()
        invariant
            g <= groups@.len(),
            forall|p: Seq<char>| #[trigger] used@.contains_key(p) <==> grouped_path(groups@.subrange(0, g as int), p),
        decreases groups@.len() - g,
    {
        let files = &groups[g].files;
        let ghost before = used@;
        let mut k: usize = 0;
        while k < files.len()
            invariant
                g < groups@.len(),
                files@ == groups@[g as int].files@,
                k <= files@.len(),
                forall|p: Seq<char>|
                    #[trigger] used@.contains_key(p) <==> (before.contains_key(p) || exists|t: int|
                        0 <= t < k && (#[trigger] files@[t]).path@ == p),
            decreases files@.len() - k,
        {
            let ghost prev = used@;
            let key = files[k].path.clone();
            let ghost kp = key@;
            used.insert(key, ());
            proof {
                assert(kp == files@[k as int].path@);
                assert(used@ == prev.insert(kp, ()));
                assert forall|p: Seq<char>|
                    #[trigger] used@.contains_key(p) <==> (before.contains_key(p) || exists|t: int|
                        0 <= t < k + 1 && (#[trigger] files@[t]).path@ == p) by {
                    if p == kp {
                        assert(files@[k as int].path@ == p);
                    } else {
                        assert(used@.contains_key(p) == prev.contains_key(p));
                        if exists|t: int| 0 <= t < k + 1 && (#[trigger] files@[t]).path@ == p {
                            let t = choose|t: int| 0 <= t < k + 1 && (#[trigger] files@[t]).path@ == p;
                            assert(t < k);
                        }
                    }
                }
            }
            k = k + 1;
        }
        proof {
            let gs = groups@.subrange(0, g + 1);
            assert forall|p: Seq<char>| #[trigger] used@.contains_key(p) <==> grouped_path(gs, p) by {
                if used@.contains_key(p) {
                    if before.contains_key(p) {
                        let (g0, k0) = choose|g0: int, k0: int|
                            0 <= g0 < g && 0 <= k0 < groups@.subrange(0, g as int)[g0].files@.len() && (#[trigger] groups@.subrange(
                                0,
                                g as int,
                            )[g0].files@[k0]).path@ == p;
                        assert(gs[g0] == groups@[g0]);
                        assert(gs[g0].files@[k0].path@ == p);
                    } else {
                        let t = choose|t: int| 0 <= t < files@.len() && (#[trigger] files@[t]).path@ == p;
                        assert(gs[g as int] == groups@[g as int]);
                        assert(gs[g as int].files@[t].path@ == p);
                    }
                }
                if grouped_path(gs, p) {
                    let (g0, k0) = choose|g0: int, k0: int|
                        0 <= g0 < gs.len() && 0 <= k0 < gs[g0].files@.len() && (#[trigger] gs[g0].files@[k0]).path@ == p;
                    if g0 < g {
                        assert(groups@.subrange(0, g as int)[g0] == gs[g0]);
                        assert(groups@.subrange(0, g as int)[g0].files@[k0].path@ == p);
                        assert(grouped_path(groups@.subrange(0, g as int), p));
                    } else {
                        assert(files@[k0].path@ == p);
                    }
                }
            }
        }
        g = g + 1;
    }
    proof {
        assert(groups@.subrange(0, groups@.len() as int) =~= groups@);
    }
    let mut out: Vec<FileEntry> = Vec::new();
    let mut i: usize = 0;
    while i < entries.len()
        invariant
            i <= entries@.len(),
            forall|p: Seq<char>| #[trigger] used@.contains_key(p) <==> grouped_path(groups@, p),
            out@ == ungrouped(entries@.subrange(0, i as int), groups@),
        decreases entries@.len() - i,
    {
        proof {
            assert(entries@.subrange(0, i + 1).drop_last() =~= entries@.subrange(0, i as int));
        }
        if !used.contains_key(entries[i].path.as_str()) {
            out.push(entries[i].clone());
        }
        i = i + 1;
    }
    proof {
        assert(entries@.subrange(0, entries@.len() as int) =~= entries@);
    }
    out
}

/// The total size of the files.
pub fn scanned_bytes(entries: &Vec<FileEntry>) -> (r: u64)
    requires
        total_size(entries@) <= u64::MAX,
    ensures
        r == total_size(entries@),
{
    let mut sum: u64 = 0;
    let mut i: usize = 0;
    while i < entries.len()
        invariant
            i <= entries@.len(),
            total_size(entries@) <= u64::MAX,
            sum == total_size(entries@.subrange(0, i as int)),
        decreases entries@.len() - i,
    {
        proof {
            crate::models::lemma_total_size_prefix_monotone(entries@, i + 1);
            assert(entries@.subrange(0, i + 1).drop_last() =~= entries@.subrange(0, i as int));
        }
        sum = sum + entries[i].size;
        i = i + 1;
    }
    proof {
        assert(entries@.subrange(0, entries@.len() as int) =~= entries@);
    }
    sum
}

/// The result of a scan: the groups ordered by reclaimable space (largest first, ties in
/// their order), the tool findings, and the totals over the collected files.
pub fn finish_scan(
    groups: Vec<DuplicateGroup>,
    tools: Vec<ToolItem>,
    entries: &Vec<FileEntry>,
    cache_hits: u64,
    elapsed_ms: u128,
) -> (r: ScanResult)
    requires
        total_size(entries@) <= u64::MAX,
    ensures
        exists|pi: Seq<int>| #[trigger] stable_by_reclaimable(r.groups@, groups@, pi),
        r.tools@ == tools@,
        r.scanned_files as int == entries@.len(),
        r.scanned_bytes == total_size(entries@),
        r.cache_hits == cache_hits,
        r.elapsed_ms == elapsed_ms,
{
    let bytes = scanned_bytes(entries);
    let ghost orig = groups@;
    let sorted = sort_by_reclaimable(groups);
    let r = ScanResult {
        groups: sorted,
        tools,
        scanned_files: entries.len() as u64,
        scanned_bytes: bytes,
        cache_hits,
        elapsed_ms,
    };
    proof {
        let pi = choose|pi: Seq<int>| #[trigger] stable_by_reclaimable(r.groups@, orig, pi);
        assert(stable_by_reclaimable(r.groups@, orig, pi));
        assert(orig == groups@);
    }
    r
}

proof fn lemma_ungrouped_not_grouped(entries: Seq<FileEntry>, groups: Seq<DuplicateGroup>, e: FileEntry)
    requires
        ungrouped(entries, groups).contains(e),
    ensures
        !grouped_path(groups, e.path@),
        entries.contains(e),
    decreases entries.len(),
{
    if entries.len() > 0 {
        let rest = ungrouped(entries.drop_last(), groups);
        if rest.contains(e) {
            lemma_ungrouped_not_grouped(entries.drop_last(), groups, e);
            let i = choose|i: int| 0 <= i < entries.drop_last().len() && entries.drop_last()[i] == e;
            assert(entries[i] == e);
        } else {
            let u = ungrouped(entries, groups);
            assert(!grouped_path(groups, entries.last().path@));
            assert(u == rest.push(entries.last()));
            let i = choose|i: int| 0 <= i < u.len() && u[i] == e;
            assert(i == rest.len());
            assert(entries[entries.len() - 1] == e);
        }
    }
}

/// Law: groups found among the files that the exact groups left out (as the fuzzy-name,
/// similar-image, music and video passes do) hold no file of an exact group.
pub proof fn law_later_groups_avoid_exact(
    entries: Seq<FileEntry>,
    exact: Seq<DuplicateGroup>,
    later: Seq<DuplicateGroup>,
    edges: Set<(int, int)>,
    keep: KeepStrategy,
    kind: GroupKind,
)
    requires
        clustered_groups(later, ungrouped(entries, exact), edges, keep, kind),
    ensures
        forall|g: int, k: int|
            0 <= g < later.len() && 0 <= k < later[g].files@.len() ==> !grouped_path(
                exact,
                (#[trigger] later[g].files@[k]).path@,
            ),
{
    let rem = ungrouped(entries, exact);
    let clusters = choose|clusters: Seq<Seq<usize>>|
        #[trigger] clusters_of(clusters, edges, rem.len() as int) && assembled_from(
            later,
            cluster_files(rem, clusters),
            keep,
            kind,
        );
    assert forall|g: int, k: int| 0 <= g < later.len() && 0 <= k < later[g].files@.len() implies !grouped_path(
        exact,
        (#[trigger] later[g].files@[k]).path@,
    ) by {
        let f = later[g].files@[k];
        let files = cluster_files(rem, clusters)[g];
        assert(built_from(later[g], files, keep, kind));
        assert(files == pick(rem, clusters[g]));
        assert(later[g].files@.contains(f));
        vstd::seq_lib::to_multiset_contains(later[g].files@, f);
        vstd::seq_lib::to_multiset_contains(files, f);
        assert(files.contains(f));
        let a = choose|a: int| 0 <= a < files.len() && files[a] == f;
        assert(group_is_class(clusters[g], edges, rem.len() as int));
        assert(clusters[g][a] < rem.len());
        assert(rem[clusters[g][a] as int] == f);
        assert(rem.contains(f));
        lemma_ungrouped_not_grouped(entries, exact, f);
    }
}

} // verus!
