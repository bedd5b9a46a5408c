//! Cleanup tools: the largest files, temporary files, and what counts when a folder is
//! judged empty.

use vstd::prelude::*;
use crate::models::{FileEntry, ToolItem, ToolKind};
use crate::scan::{contains_str, ext_of, is_substring, lower_ext};
use crate::text::{
    append_chars, base_name, chars_of, decimal_string, decimal_text, in_list, listed, lowercase_of, name_part,
    string_from_chars, to_lowercase, DEC_DIGITS,
};

verus! {

/// Powers of two.
pub open spec fn p2(e: nat) -> int
    decreases e,
{
    if e == 0 {
        1
    } else {
        2 * p2((e - 1) as nat)
    }
}

/// `x / m` rounded to the nearest integer, ties to the even one.
pub open spec fn round_half_even(x: int, m: int) -> int {
    let q = x / m;
    let r = x % m;
    if 2 * r > m || (2 * r == m && q % 2 == 1) {
        q + 1
    } else {
        q
    }
}

/// How many low bits of `x` do not fit in a 53-bit significand.
pub open spec fn excess_bits(x: int) -> nat
    decreases x,
{
    if x < 0x20_0000_0000_0000 {
        0
    } else {
        1 + excess_bits(x / 2)
    }
}

/// The value of `x as f64`: `x` rounded to 53 significant bits, ties to even.
pub open spec fn as_double(x: u64) -> int {
    let e = excess_bits(x as int);
    round_half_even(x as int, p2(e)) * p2(e)
}

/// A size in mebibytes, in tenths, rounded as `{:.1}` rounds `size as f64 / 1048576.0`.
pub open spec fn mib_tenths(size: u64) -> int {
    round_half_even(as_double(size) * 10, 1048576)
}

fn double_of(x: u64) -> (r: u128)
    ensures
        r as int == as_double(x),
        r <= 0x4_0000_0000_0000_0000,
{
    let mut q: u64 = x;
    let mut p: u128 = 1;
    let ghost mut e: nat = 0;
    while q >= 0x20_0000_0000_0000
        invariant
            q as int == x as int / p as int,
            p as int == p2(e),
            excess_bits(x as int) == e + excess_bits(q as int),
            1 <= p <= 0x1000,
            p * (q as int) <= x,
        decreases q,
    {
        proof {
            vstd::arithmetic::div_mod::lemma_div_denominator(x as int, p as int, 2);
            assert(p * 0x20_0000_0000_0000 <= p * (q as int)) by (nonlinear_arith)
                requires
                    q >= 0x20_0000_0000_0000,
                    p >= 1,
            ;
            assert(p * 2 <= 0x1000);
            vstd::arithmetic::div_mod::lemma_fundamental_div_mod(x as int, (p * 2) as int);
            assert((p * 2) * (x as int / (p * 2) as int) <= x) by (nonlinear_arith)
                requires
                    x as int == (p * 2) * (x as int / (p * 2) as int) + (x as int % (p * 2) as int),
                    0 <= x as int % (p * 2) as int,
            ;
        }
        q = q / 2;
        p = p * 2;
        proof {
            e = e + 1;
        }
    }
    proof {
        vstd::arithmetic::div_mod::lemma_fundamental_div_mod(x as int, p as int);
        assert(0 <= (x as int) % (p as int) < p) by (nonlinear_arith)
            requires
                p > 0,
        ;
    }
    proof {
        assert((q as u128) * p <= x) by (nonlinear_arith)
            requires
                p * (q as int) <= x,
        ;
    }
    let r: u128 = (x as u128) - (q as u128) * p;
    proof {
        assert(excess_bits(q as int) == 0);
        assert(p as int == p2(excess_bits(x as int)));
        assert(r as int == (x as int) % (p as int)) by (nonlinear_arith)
            requires
                x as int == (p as int) * ((x as int) / (p as int)) + (x as int) % (p as int),
                q as int == (x as int) / (p as int),
                r as int == (x as int) - (q as int) * (p as int),
        ;
    }
    let rounded: u128 = if 2 * r > p || (2 * r == p && q % 2 == 1) {
        (q as u128) + 1
    } else {
        q as u128
    };
    proof {
        assert(rounded * p <= 0x4_0000_0000_0000_0000) by (nonlinear_arith)
            requires
                rounded <= 0x20_0000_0000_0000,
                p <= 0x1000,
        ;
    }
    rounded * p
}

fn mib_tenths_of(size: u64) -> (r: u128)
    ensures
        r as int == mib_tenths(size),
{
    let v = double_of(size) * 10;
    let q = v / 1048576;
    let r = v % 1048576;
    if 2 * r > 1048576 || (2 * r == 1048576 && q % 2 == 1) {
        q + 1
    } else {
        q
    }
}

/// In the order of the big-files list, position `a` comes before position `b`: a larger
/// size first, and between equal sizes the earlier position first.
pub open spec fn size_before(sizes: Seq<u64>, a: int, b: int) -> bool {
    sizes[a] > sizes[b] || (sizes[a] == sizes[b] && a < b)
}

/// `o` lists the first `min(count, n)` of the positions `0..n` in size order: the
/// `count` largest, largest first, ties in the order given.
pub open spec fn largest_first(sizes: Seq<u64>, n: int, count: int, o: Seq<usize>) -> bool {
    &&& o.len() == (if count < n { count } else { n })
    &&& forall|k: int| 0 <= k < o.len() ==> #[trigger] o[k] < n
    &&& forall|k: int, l: int| 0 <= k < l < o.len() ==> size_before(sizes, #[trigger] o[k] as int, #[trigger] o[l] as int)
    &&& forall|j: int, k: int|
        0 <= j < n && 0 <= k < o.len() && !o.contains(j as usize) ==> #[trigger] size_before(sizes, o[k] as int, j)
}

proof fn lemma_size_before_trans(sizes: Seq<u64>, a: int, b: int, c: int)
    requires
        size_before(sizes, a, b),
        size_before(sizes, b, c),
    ensures
        size_before(sizes, a, c),
{
}

/// The positions of the `count` largest sizes, largest first, ties in the order given.
pub fn largest_positions(sizes: &Vec<u64>, count: usize) -> (o: Vec<usize>)
    ensures
        largest_first(sizes@, sizes@.len() as int, count as int, o@),
{
    let n = sizes.len();
    let mut buf: Vec<usize> = Vec::new();
    let mut i: usize = 0;
    while i < n
        invariant
            n == sizes@.len(),
            i <= n,
            largest_first(sizes@, i as int, count as int, buf@),
            buf@.len() < count ==> forall|j: int| 0 <= j < i ==> #[trigger] buf@.contains(j as usize),
        decreases n - i,
    {
        let len = buf.len();
        let take = len < count || (len > 0 && sizes[buf[len - 1]] < sizes[i]);
        if take {
            // first position whose size is smaller than that of `i`
            let mut p: usize = 0;
            while p < len && sizes[buf[p]] >= sizes[i]
                invariant
                    p <= len,
                    len == buf@.len(),
                    n == sizes@.len(),
                    i < n,
                    forall|k: int| 0 <= k < buf@.len() ==> #[trigger] buf@[k] < i,
                    forall|k: int| 0 <= k < p ==> sizes@[#[trigger] buf@[k] as int] >= sizes@[i as int],
                decreases len - p,
            {
                p = p + 1;
            }
            let ghost old_buf = buf@;
            buf.insert(p, i);
            proof {
                assert(buf@ == old_buf.insert(p as int, i));
                assert forall|k: int| 0 <= k < buf@.len() implies #[trigger] buf@[k] < i + 1 by {
                    if k > p {
                        assert(buf@[k] == old_buf[k - 1]);
                    }
                }
                assert forall|k: int| p <= k < old_buf.len() implies sizes@[#[trigger] old_buf[k] as int] < sizes@[i as int] by {
                    if k > p {
                        assert(size_before(sizes@, old_buf[p as int] as int, old_buf[k] as int));
                    }
                }
                assert forall|k: int, l: int| 0 <= k < l < buf@.len() implies size_before(sizes@, #[trigger] buf@[k] as int, #[trigger] buf@[l] as int) by {
                    if l < p {
                    } else if l == p {
                        assert(buf@[k] == old_buf[k]);
                    } else if k < p {
                        assert(buf@[l] == old_buf[l - 1]);
                        assert(buf@[k] == old_buf[k]);
                    } else if k == p {
                        assert(buf@[l] == old_buf[l - 1]);
                    } else {
                        assert(buf@[l] == old_buf[l - 1]);
                        assert(buf@[k] == old_buf[k - 1]);
                    }
                }
            }
            if buf.len() > count {
                let ghost full = buf@;
                let gone = buf.pop().unwrap();
                proof {
                    assert(full =~= buf@.push(gone));
                    assert(forall|k: int| 0 <= k < buf@.len() ==> buf@[k] == #[trigger] full[k]);
                    assert forall|j: int, k: int|
                        0 <= j < i + 1 && 0 <= k < buf@.len() && !buf@.contains(j as usize) implies #[trigger] size_before(sizes@, buf@[k] as int, j) by {
                        assert(full[k] == buf@[k]);
                        if j as usize == gone {
                            assert(size_before(sizes@, full[k] as int, full[full.len() - 1] as int));
                        } else if j == i {
                            assert(full[p as int] == i);
                            assert(full.contains(i));
                            let t = choose|t: int| 0 <= t < full.len() && full[t] == i;
                            if t < buf@.len() {
                                assert(buf@[t] == i);
                            }
                        } else {
                            // j was left out before: it comes after the old last, which is
                            // smaller than `i`
                            if old_buf.contains(j as usize) {
                                let t = choose|t: int| 0 <= t < old_buf.len() && old_buf[t] == j as usize;
                                if t < p {
                                    assert(buf@[t] == j as usize);
                                } else {
                                    assert(full[t + 1] == j as usize);
                                    if t + 1 < buf@.len() {
                                        assert(buf@[t + 1] == j as usize);
                                    }
                                }
                            }
                            assert(!old_buf.contains(j as usize));
                            let last = old_buf[old_buf.len() - 1] as int;
                            assert(size_before(sizes@, last, j));
                            if buf@[k] == i {
                                assert(sizes@[last] < sizes@[i as int]);
                            } else {
                                let t = choose|t: int| 0 <= t < old_buf.len() && old_buf[t] == buf@[k];
                                if k < p {
                                    assert(old_buf[k] == buf@[k]);
                                } else {
                                    assert(full[k] == old_buf[k - 1]);
                                }
                                assert(old_buf.contains(buf@[k]));
                            }
                        }
                    }
                }
            } else {
                proof {
                    assert forall|j: int, k: int|
                        0 <= j < i + 1 && 0 <= k < buf@.len() && !buf@.contains(j as usize) implies #[trigger] size_before(sizes@, buf@[k] as int, j) by {
                        assert(buf@[p as int] == i);
                        assert(j < i);
                        assert(old_buf.contains(j as usize));
                        let t = choose|t: int| 0 <= t < old_buf.len() && old_buf[t] == j as usize;
                        if t < p {
                            assert(buf@[t] == j as usize);
                        } else {
                            assert(buf@[t + 1] == j as usize);
                        }
                    }
                    assert(buf@.len() < count ==> forall|j: int| 0 <= j < i + 1 ==> #[trigger] buf@.contains(j as usize)) by {
                        if buf@.len() < count {
                            assert forall|j: int| 0 <= j < i + 1 implies #[trigger] buf@.contains(j as usize) by {
                                if j == i {
                                    assert(buf@[p as int] == i);
                                } else {
                                    assert(old_buf.contains(j as usize));
                                    let t = choose|t: int| 0 <= t < old_buf.len() && old_buf[t] == j as usize;
                                    if t < p {
                                        assert(buf@[t] == j as usize);
                                    } else {
                                        assert(buf@[t + 1] == j as usize);
                                    }
                                }
                            }
                        }
                    }
                }
            }
        } else {
            proof {
                assert forall|j: int, k: int|
                    0 <= j < i + 1 && 0 <= k < buf@.len() && !buf@.contains(j as usize) implies #[trigger] size_before(sizes@, buf@[k] as int, j) by {
                    if j == i {
                        let last = buf@[len - 1] as int;
                        assert(size_before(sizes@, last, i as int));
                        if k < len - 1 {
                            lemma_size_before_trans(sizes@, buf@[k] as int, last, i as int);
                        }
                    }
                }
            }
        }
        i = i + 1;
    }
    buf
}

/// The explanation given for a big file: its size in MiB with one decimal.
pub open spec fn big_detail(size: u64) -> Seq<char> {
    let t = mib_tenths(size);
    "大文件（"@ + decimal_text((t / 10) as nat) + seq!['.', DEC_DIGITS@[t % 10]] + " MB）"@
}

fn big_detail_of(size: u64) -> (r: String)
    ensures
        r@ == big_detail(size),
{
    let t = mib_tenths_of(size);
    let mut cs = chars_of("大文件（");
    let whole = decimal_string(t / 10);
    append_chars(&mut cs, whole.as_slice());
    cs.push('.');
    cs.push(DEC_DIGITS[(t % 10) as usize]);
    let tail = chars_of(" MB）");
    append_chars(&mut cs, tail.as_slice());
    proof {
        let a = "大文件（"@;
        let b = decimal_text((t / 10) as nat);
        let c = seq!['.', DEC_DIGITS@[(t % 10) as int]];
        assert(cs@ =~= a + b + c + " MB）"@);
    }
    string_from_chars(cs.as_slice())
}

/// The files of a size above zero, in their order.
pub open spec fn nonempty_files(entries: Seq<FileEntry>) -> Seq<FileEntry>
    decreases entries.len(),
{
    if entries.len() == 0 {
        Seq::empty()
    } else {
        let rest = nonempty_files(entries.drop_last());
        if entries.last().size > 0 {
            rest.push(entries.last())
        } else {
            rest
        }
    }
}

/// The sizes of the files.
pub open spec fn sizes_of(files: Seq<FileEntry>) -> Seq<u64> {
    files.map_values(|e: FileEntry| e.size)
}

/// `t` reports `e` as a big file.
pub open spec fn is_big_item(t: ToolItem, e: FileEntry) -> bool {
    &&& t.kind == ToolKind::BigFile
    &&& t.path@ == e.path@
    &&& t.size == e.size
    &&& t.modified == e.modified
    &&& t.created == e.created
    &&& t.detail@ == big_detail(e.size)
}

/// The `count` largest non-empty files, largest first (files of equal size in their order).
pub fn find_big_files(entries: &Vec<FileEntry>, count: usize) -> (out: Vec<ToolItem>)
    ensures
        exists|o: Seq<usize>|
            #[trigger] largest_first(
                sizes_of(nonempty_files(entries@)),
                nonempty_files(entries@).len() as int,
                count as int,
                o,
            ) && out@.len() == o.len() && forall|k: int|
                0 <= k < o.len() ==> is_big_item(#[trigger] out@[k], nonempty_files(entries@)[o[k] as int]),
{
    let mut big: Vec<FileEntry> = Vec::new();
    let mut sizes: Vec<u64> = Vec::new();
    let mut i: usize = 0;
    while i < entries.len()
        invariant
            i <= entries@.len(),
            big@ == nonempty_files(entries@.subrange(0, i as int)),
            sizes@ == sizes_of(big@),
        decreases entries@.len() - i,
    {
        proof {
            assert(entries@.subrange(0, i + 1).drop_last() =~= entries@.subrange(0, i as int));
        }
        if entries[i].size > 0 {
            big.push(entries[i].clone());
            sizes.push(entries[i].size);
            proof {
                assert(sizes@ =~= sizes_of(big@));
            }
        }
        i = i + 1;
    }
    proof {
        assert(entries@.subrange(0, entries@.len() as int) =~= entries@);
    }
    let o = largest_positions(&sizes, count);
    let mut out: Vec<ToolItem> = Vec::new();
    let mut k: usize = 0;
    while k < o.len()
        invariant
            k <= o@.len(),
            big@ == nonempty_files(entries@),
            sizes@ == sizes_of(big@),
            largest_first(sizes@, sizes@.len() as int, count as int, o@),
            out@.len() == k,
            forall|t: int| 0 <= t < k ==> is_big_item(#[trigger] out@[t], big@[o@[t] as int]),
        decreases o@.len() - k,
    {
        let e = &big[o[k]];
        out.push(
            ToolItem {
                kind: ToolKind::BigFile,
                path: e.path.clone(),
                size: e.size,
                modified: e.modified,
                created: e.created,
                detail: big_detail_of(e.size),
            },
        );
        k = k + 1;
    }
    out
}

/// Extensions of temporary files (compared after lowercasing).
pub const TEMP_EXTS: [&'static str; 11] = [
    "tmp",
    "temp",
    "crdownload",
    "part",
    "partial",
    "download",
    "swp",
    "lock",
    "dmp",
    "bak~",
    "cache",
];

/// Names of files that the system creates by itself, ignored when a folder is judged empty.
pub const IGNORABLE_FILES: [&'static str; 3] = ["desktop.ini", "thumbs.db", ".ds_store"];

/// Whether a file name is one the system creates by itself (ASCII case ignored).
pub fn is_ignorable(name: &str) -> (r: bool)
    ensures
        r == listed(IGNORABLE_FILES@, name@),
{
    in_list(name, &IGNORABLE_FILES)
}

/// What a directory entry is.
#[derive(Debug, Clone, Copy, PartialEq, Eq, Structural)]
pub enum EntryType {
    Dir,
    File,
    Symlink,
    Other,
}

/// What an entry tells about whether its folder is empty.
#[derive(Debug, Clone, Copy, PartialEq, Eq, Structural)]
pub enum EntryVerdict {
    /// The entry does not count.
    Skip,
    /// A subfolder: the folder is empty only if the subfolder is.
    CheckSubfolder,
    /// A file or link: the folder is not empty.
    Occupied,
}

/// The verdict on an entry of a folder: ignorable names, entries of unknown type and other
/// entries do not count, subfolders count as they are, files and links make it non-empty.
pub open spec fn entry_verdict(name: Seq<char>, kind: Option<EntryType>) -> EntryVerdict {
    if listed(IGNORABLE_FILES@, name) {
        EntryVerdict::Skip
    } else {
        match kind {
            Some(EntryType::Dir) => EntryVerdict::CheckSubfolder,
            Some(EntryType::File) => EntryVerdict::Occupied,
            Some(EntryType::Symlink) => EntryVerdict::Occupied,
            _ => EntryVerdict::Skip,
        }
    }
}

/// Judges one entry of a folder (`kind` is `None` where its type could not be read).
pub fn classify_entry(name: &str, kind: Option<EntryType>) -> (r: EntryVerdict)
    ensures
        r == entry_verdict(name@, kind),
{
    if is_ignorable(name) {
        return EntryVerdict::Skip;
    }
    match kind {
        Some(EntryType::Dir) => EntryVerdict::CheckSubfolder,
        Some(EntryType::File) => EntryVerdict::Occupied,
        Some(EntryType::Symlink) => EntryVerdict::Occupied,
        _ => EntryVerdict::Skip,
    }
}

/// The extension of the path, lowercased, is one of the temporary ones.
pub open spec fn temp_ext(path: Seq<char>) -> bool {
    match lower_ext(path) {
        Some(x) => exists|i: int| 0 <= i < TEMP_EXTS@.len() && (#[trigger] TEMP_EXTS@[i])@ == x,
        None => false,
    }
}

/// The lowercased file name starts with `~$` (an Office lock file).
pub open spec fn tilde_name(path: Seq<char>) -> bool {
    let n = lowercase_of(name_part(path));
    n.len() >= 2 && n[0] == '~' && n[1] == '$'
}

/// The path runs through a folder named `Temp` or `TEMP`.
pub open spec fn in_temp_dir(path: Seq<char>) -> bool {
    is_substring("\\Temp\\"@, path) || is_substring("/Temp/"@, path) || is_substring("\\TEMP\\"@, path)
}

/// A file is reported as temporary.
pub open spec fn is_temp_file(e: FileEntry) -> bool {
    temp_ext(e.path@) || tilde_name(e.path@) || in_temp_dir(e.path@)
}

/// The explanation given for a temporary file.
pub open spec fn temp_detail(path: Seq<char>) -> Seq<char> {
    if tilde_name(path) {
        "Office 临时锁定文件"@
    } else if in_temp_dir(path) {
        "位于临时目录"@
    } else {
        "临时文件扩展名 ."@ + match lower_ext(path) {
            Some(x) => x,
            None => Seq::empty(),
        }
    }
}

/// The temporary files among `entries`, in their order.
pub open spec fn temp_files(entries: Seq<FileEntry>) -> Seq<FileEntry>
    decreases entries.len(),
{
    if entries.len() == 0 {
        Seq::empty()
    } else {
        let rest = temp_files(entries.drop_last());
        if is_temp_file(entries.last()) {
            rest.push(entries.last())
        } else {
            rest
        }
    }
}

/// `t` reports `e` as a temporary file.
pub open spec fn is_temp_item(t: ToolItem, e: FileEntry) -> bool {
    &&& t.kind == ToolKind::TempFile
    &&& t.path@ == e.path@
    &&& t.size == e.size
    &&& t.modified == e.modified
    &&& t.created == e.created
    &&& t.detail@ == temp_detail(e.path@)
}

fn same_text(a: &str, b: &str) -> (r: bool)
    ensures
        r == (a@ == b@),
{
    let ca = chars_of(a);
    let cb = chars_of(b);
    if ca.len() != cb.len() {
        return false;
    }
    let mut i: usize = 0;
    while i < ca.len()
        invariant
            ca@ == a@,
            cb@ == b@,
            ca@.len() == cb@.len(),
            i <= ca@.len(),
            forall|k: int| 0 <= k < i ==> ca@[k] == cb@[k],
        decreases ca@.len() - i,
    {
        if ca[i] != cb[i] {
            return false;
        }
        i = i + 1;
    }
    proof {
        assert(ca@ =~= cb@);
    }
    true
}

fn is_temp_ext(x: &str) -> (r: bool)
    ensures
        r == exists|i: int| 0 <= i < TEMP_EXTS@.len() && (#[trigger] TEMP_EXTS@[i])@ == x@,
{
    let mut i: usize = 0;
    while i < TEMP_EXTS.len()
        invariant
            i <= TEMP_EXTS@.len(),
            forall|k: int| 0 <= k < i ==> (#[trigger] TEMP_EXTS@[k])@ != x@,
        decreases TEMP_EXTS@.len() - i,
    {
        if same_text(TEMP_EXTS[i], x) {
            return true;
        }
        i = i + 1;
    }
    false
}

/// The temporary files, by extension, Office lock-file name or temporary folder, each with
/// its explanation.
pub fn find_temp_files(entries: &Vec<FileEntry>) -> (out: Vec<ToolItem>)
    ensures
        out@.len() == temp_files(entries@).len(),
        forall|k: int| 0 <= k < out@.len() ==> is_temp_item(#[trigger] out@[k], temp_files(entries@)[k]),
{
    let mut out: Vec<ToolItem> = Vec::new();
    let mut i: usize = 0;
    while i < entries.len()
        invariant
            i <= entries@.len(),
            out@.len() == temp_files(entries@.subrange(0, i as int)).len(),
            forall|k: int|
                0 <= k < out@.len() ==> is_temp_item(#[trigger] out@[k], temp_files(entries@.subrange(0, i as int))[k]),
        decreases entries@.len() - i,
    {
        let e = &entries[i];
        let path = e.path.as_str();
        let name = to_lowercase(base_name(path).as_str());
        let nc = chars_of(name.as_str());
        let is_tilde = nc.len() >= 2 && nc[0] == '~' && nc[1] == '$';
        let ext = ext_of(path);
        let is_ext = match &ext {
            Some(x) => is_temp_ext(x.as_str()),
            None => false,
        };
        let in_temp = contains_str(path, "\\Temp\\") || contains_str(path, "/Temp/") || contains_str(path, "\\TEMP\\");
        let ghost prev = temp_files(entries@.subrange(0, i as int));
        proof {
            assert(entries@.subrange(0, i + 1).drop_last() =~= entries@.subrange(0, i as int));
            assert(entries@.subrange(0, i + 1).last() == *e);
        }
        if is_ext || is_tilde || in_temp {
            let why = if is_tilde {
                "Office 临时锁定文件".to_owned()
            } else if in_temp {
                "位于临时目录".to_owned()
            } else {
                let mut cs = chars_of("临时文件扩展名 .");
                match &ext {
                    Some(x) => {
                        let xc = chars_of(x.as_str());
                        append_chars(&mut cs, xc.as_slice());
                    },
                    None => {},
                }
                string_from_chars(cs.as_slice())
            };
            out.push(
                ToolItem {
                    kind: ToolKind::TempFile,
                    path: e.path.clone(),
                    size: e.size,
                    modified: e.modified,
                    created: e.created,
                    detail: why,
                },
            );
            proof {
                let cur = temp_files(entries@.subrange(0, i + 1));
                assert(cur == prev.push(*e));
                assert forall|k: int| 0 <= k < out@.len() implies is_temp_item(#[trigger] out@[k], cur[k]) by {
                    if k < prev.len() {
                        assert(cur[k] == prev[k]);
                    }
                }
            }
        }
        i = i + 1;
    }
    proof {
        assert(entries@.subrange(0, entries@.len() as int) =~= entries@);
    }
    out
}

proof fn lemma_temp_files_hold(entries: Seq<FileEntry>, i: int)
    requires
        0 <= i < entries.len(),
        is_temp_file(entries[i]),
    ensures
        temp_files(entries).contains(entries[i]),
    decreases entries.len(),
{
    let rest = temp_files(entries.drop_last());
    if i < entries.len() - 1 {
        assert(entries.drop_last()[i] == entries[i]);
        lemma_temp_files_hold(entries.drop_last(), i);
        let k = choose|k: int| 0 <= k < rest.len() && rest[k] == entries[i];
        if is_temp_file(entries.last()) {
            assert(temp_files(entries)[k] == entries[i]);
        }
    } else {
        assert(temp_files(entries) == rest.push(entries.last()));
        assert(temp_files(entries)[rest.len() as int] == entries[i]);
    }
}

/// Law: a file whose path runs through a folder `\Temp\`, `/Temp/` or `\TEMP\` is listed as
/// a temporary file, with the explanation that it lies in a temporary folder unless its name
/// marks an Office lock file.
pub proof fn law_files_in_temp_folders_listed(entries: Seq<FileEntry>, i: int)
    requires
        0 <= i < entries.len(),
        is_substring("\\Temp\\"@, entries[i].path@) || is_substring("/Temp/"@, entries[i].path@) || is_substring(
            "\\TEMP\\"@,
            entries[i].path@,
        ),
    ensures
        temp_files(entries).contains(entries[i]),
        !tilde_name(entries[i].path@) ==> temp_detail(entries[i].path@) == "位于临时目录"@,
{
    lemma_temp_files_hold(entries, i);
}

} // verus!
