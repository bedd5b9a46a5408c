//! File name similarity (word based, in the manner of dupeGuru).
//!
//! - A name is split into words: each run of ASCII letters and digits is a word, and each
//!   CJK ideograph is a word of its own.
//! - Similarity = matched words × 2 / total number of words of both names; identical words
//!   match first, then (optionally) words at edit distance 1.
//! - By default only files of the same folder are compared, and only when their sizes are
//!   within a factor of 4.

use vstd::prelude::*;
use crate::grouping::{
    clustered_groups, group_positions_str, groups_from_clusters, index_groups, indices_of_key, lemma_pick_is_select,
    select, str_somes, views,
};
use crate::models::{total_size, DuplicateGroup, FileEntry, GroupKind, Ratio, ScanOptions};
use crate::text::{base_name, name_part, parent_dir, parent_part};
use crate::union_find::UnionFind;
use crate::text::{chars_of, lowercase_of, string_from_chars, to_lowercase};

verus! {

/// What `strsim::levenshtein` returns for two strings (edit distance over characters).
pub uninterp spec fn levenshtein_distance(a: Seq<char>, b: Seq<char>) -> usize;

/// The two texts are equal or one edit apart: one character replaced, inserted or removed.
pub open spec fn within_one_edit(a: Seq<char>, b: Seq<char>) -> bool {
    ||| a == b
    ||| (a.len() == b.len() && exists|i: int| 0 <= i < a.len() && #[trigger] a.update(i, b[i]) == b)
    ||| (b.len() == a.len() + 1 && exists|i: int| 0 <= i <= a.len() && #[trigger] a.insert(i, b[i]) == b)
    ||| (a.len() == b.len() + 1 && exists|i: int| 0 <= i <= b.len() && #[trigger] b.insert(i, a[i]) == a)
}

/// `strsim::levenshtein`: the least number of single-character insertions, deletions and
/// substitutions that turn one string into the other. The distance is named; of it is stated
/// that it is at most 1 exactly when the strings are equal or one such edit apart.
#[verifier::external_body]
fn levenshtein(a: &str, b: &str) -> (r: usize)
    ensures
        r == levenshtein_distance(a@, b@),
        (r <= 1) == within_one_edit(a@, b@),
{
    strsim::levenshtein(a, b)
}

/// An ASCII letter or digit.
pub open spec fn is_word_char(c: char) -> bool {
    ('0' <= c && c <= '9') || ('a' <= c && c <= 'z') || ('A' <= c && c <= 'Z')
}

/// A CJK unified ideograph (basic block, extension A, compatibility block).
pub open spec fn is_cjk_spec(c: char) -> bool {
    (0x4E00 <= (c as u32) <= 0x9FFF) || (0x3400 <= (c as u32) <= 0x4DBF) || (0xF900 <= (c as u32) <= 0xFAFF)
}

/// Whether a character is a CJK ideograph.
pub fn is_cjk(c: char) -> (r: bool)
    ensures
        r == is_cjk_spec(c),
{
    let x = c as u32;
    (0x4E00 <= x && x <= 0x9FFF) || (0x3400 <= x && x <= 0x4DBF) || (0xF900 <= x && x <= 0xFAFF)
}

/// Words finished so far and the word being read, after one more character.
pub open spec fn word_step(st: (Seq<Seq<char>>, Seq<char>), c: char) -> (Seq<Seq<char>>, Seq<char>) {
    let flushed = if st.1.len() > 0 { st.0.push(st.1) } else { st.0 };
    if is_word_char(c) {
        (st.0, st.1.push(c))
    } else if is_cjk_spec(c) {
        (flushed.push(seq![c]), Seq::empty())
    } else {
        (flushed, Seq::empty())
    }
}

/// The state after reading all characters.
pub open spec fn word_scan(cs: Seq<char>) -> (Seq<Seq<char>>, Seq<char>)
    decreases cs.len(),
{
    if cs.len() == 0 {
        (Seq::empty(), Seq::empty())
    } else {
        word_step(word_scan(cs.drop_last()), cs.last())
    }
}

/// The words of a character sequence, in order.
pub open spec fn split_words(cs: Seq<char>) -> Seq<Seq<char>> {
    let st = word_scan(cs);
    if st.1.len() > 0 {
        st.0.push(st.1)
    } else {
        st.0
    }
}

/// The words of a name: those of its Unicode lowercase form.
pub open spec fn name_words(s: Seq<char>) -> Seq<Seq<char>> {
    split_words(lowercase_of(s))
}

/// The character sequences of a list of strings.
pub open spec fn string_views(ws: Seq<String>) -> Seq<Seq<char>> {
    ws.map_values(|w: String| w@)
}

/// Splits a file name into words: runs of ASCII letters and digits, and single CJK
/// ideographs, after lowercasing; every other character separates words.
pub fn words(s: &str) -> (out: Vec<String>)
    ensures
        string_views(out@) == name_words(s@),
{
    let lower = to_lowercase(s);
    split_words_of(lower.as_str())
}

/// Splits a text, taken as it is, into words: runs of ASCII letters and digits, and single
/// CJK ideographs; every other character separates words.
pub fn split_words_of(text: &str) -> (out: Vec<String>)
    ensures
        string_views(out@) == split_words(text@),
{
    let cs = chars_of(text);
    let mut out: Vec<String> = Vec::new();
    let mut cur: Vec<char> = Vec::new();
    let mut i: usize = 0;
    proof {
        assert(cs@.subrange(0, 0) =~= Seq::<char>::empty());
        assert(string_views(out@) =~= Seq::<Seq<char>>::empty());
    }
    while i < cs.len()
        invariant
            i <= cs@.len(),
            cs@ == text@,
            (string_views(out@), cur@) == word_scan(cs@.subrange(0, i as int)),
        decreases cs@.len() - i,
    {
        let c = cs[i];
        let ghost before = (string_views(out@), cur@);
        proof {
            assert(cs@.subrange(0, i as int + 1).drop_last() =~= cs@.subrange(0, i as int));
        }
        let is_w = ('0' <= c && c <= '9') || ('a' <= c && c <= 'z') || ('A' <= c && c <= 'Z');
        if is_w {
            cur.push(c);
        } else {
            if cur.len() > 0 {
                let w = string_from_chars(cur.as_slice());
                let ghost old_out = out@;
                out.push(w);
                proof {
                    assert(string_views(out@) =~= string_views(old_out).push(cur@));
                }
                cur = Vec::new();
            }
            if is_cjk(c) {
                let single: [char; 1] = [c];
                let w = string_from_chars(&single);
                let ghost old_out = out@;
                out.push(w);
                proof {
                    assert(single@ =~= seq![c]);
                    assert(string_views(out@) =~= string_views(old_out).push(seq![c]));
                }
            }
        }
        proof {
            assert((string_views(out@), cur@) =~= word_step(before, c));
        }
        i = i + 1;
    }
    proof {
        assert(cs@.subrange(0, cs@.len() as int) =~= cs@);
    }
    if cur.len() > 0 {
        let w = string_from_chars(cur.as_slice());
        let ghost old_out = out@;
        out.push(w);
        proof {
            assert(string_views(out@) =~= string_views(old_out).push(cur@));
        }
    }
    out
}

/// First position at or after `j` of an unused word equal to `x`, or `wb.len()`.
pub open spec fn find_exact(x: Seq<char>, wb: Seq<Seq<char>>, used: Seq<bool>, j: int) -> int
    decreases wb.len() - j,
{
    if j >= wb.len() || j < 0 {
        wb.len() as int
    } else if !used[j] && wb[j] == x {
        j
    } else {
        find_exact(x, wb, used, j + 1)
    }
}

/// First position at or after `j` of an unused word of at least two characters within one
/// edit of `x` (edit distance at most 1), or `wb.len()`.
pub open spec fn find_similar(x: Seq<char>, wb: Seq<Seq<char>>, used: Seq<bool>, j: int) -> int
    decreases wb.len() - j,
{
    if j >= wb.len() || j < 0 {
        wb.len() as int
    } else if !used[j] && wb[j].len() >= 2 && within_one_edit(x, wb[j]) {
        j
    } else {
        find_similar(x, wb, used, j + 1)
    }
}

/// The word of `wb` that `x` is matched with, or `wb.len()`: an identical word first; then,
/// if allowed and `x` has at least two characters, a similar one.
pub open spec fn match_for(x: Seq<char>, wb: Seq<Seq<char>>, used: Seq<bool>, similar: bool) -> int {
    let e = find_exact(x, wb, used, 0);
    if e < wb.len() {
        e
    } else if similar && x.len() >= 2 {
        find_similar(x, wb, used, 0)
    } else {
        wb.len() as int
    }
}

/// Greedy matching of the words of `wa`, in order, against the words of `wb`, each used at
/// most once: the number of matches and which words of `wb` were used.
pub open spec fn greedy_match(wa: Seq<Seq<char>>, wb: Seq<Seq<char>>, similar: bool) -> (nat, Seq<bool>)
    decreases wa.len(),
{
    if wa.len() == 0 {
        (0, Seq::new(wb.len(), |i: int| false))
    } else {
        let prev = greedy_match(wa.drop_last(), wb, similar);
        let m = match_for(wa.last(), wb, prev.1, similar);
        if m < wb.len() {
            (prev.0 + 1, prev.1.update(m, true))
        } else {
            prev
        }
    }
}

/// Similarity of two word lists as a fraction: matched words × 2 / all words, and 0 when
/// either list is empty.
pub open spec fn words_similarity(wa: Seq<Seq<char>>, wb: Seq<Seq<char>>, similar: bool) -> (int, int) {
    if wa.len() == 0 || wb.len() == 0 {
        (0, 1)
    } else {
        ((2 * greedy_match(wa, wb, similar).0) as int, (wa.len() + wb.len()) as int)
    }
}

/// Number of `true` entries.
pub open spec fn count_true(s: Seq<bool>) -> nat
    decreases s.len(),
{
    if s.len() == 0 {
        0
    } else {
        count_true(s.drop_last()) + if s.last() {
            1nat
        } else {
            0nat
        }
    }
}

proof fn lemma_count_true_update(s: Seq<bool>, i: int)
    requires
        0 <= i < s.len(),
        !s[i],
    ensures
        count_true(s.update(i, true)) == count_true(s) + 1,
    decreases s.len(),
{
    if i == s.len() - 1 {
        assert(s.update(i, true).drop_last() =~= s.drop_last());
    } else {
        lemma_count_true_update(s.drop_last(), i);
        assert(s.update(i, true).drop_last() =~= s.drop_last().update(i, true));
    }
}

proof fn lemma_count_true_le(s: Seq<bool>)
    ensures
        count_true(s) <= s.len(),
    decreases s.len(),
{
    if s.len() > 0 {
        lemma_count_true_le(s.drop_last());
    }
}

proof fn lemma_count_true_none(n: nat)
    ensures
        count_true(Seq::new(n, |i: int| false)) == 0,
    decreases n,
{
    if n > 0 {
        lemma_count_true_none((n - 1) as nat);
        assert(Seq::new(n, |i: int| false).drop_last() =~= Seq::new((n - 1) as nat, |i: int| false));
    }
}

proof fn lemma_greedy_used_len(wa: Seq<Seq<char>>, wb: Seq<Seq<char>>, similar: bool)
    ensures
        greedy_match(wa, wb, similar).1.len() == wb.len(),
        greedy_match(wa, wb, similar).0 <= wa.len(),
        greedy_match(wa, wb, similar).0 == count_true(greedy_match(wa, wb, similar).1),
        greedy_match(wa, wb, similar).0 <= wb.len(),
    decreases wa.len(),
{
    if wa.len() > 0 {
        lemma_greedy_used_len(wa.drop_last(), wb, similar);
        let prev = greedy_match(wa.drop_last(), wb, similar);
        lemma_find_exact_bounds(wa.last(), wb, prev.1, 0);
        lemma_find_similar_bounds(wa.last(), wb, prev.1, 0);
        let m = match_for(wa.last(), wb, prev.1, similar);
        if 0 <= m < wb.len() {
            lemma_count_true_update(prev.1, m);
        }
    } else {
        lemma_count_true_none(wb.len());
    }
    lemma_count_true_le(greedy_match(wa, wb, similar).1);
}

/// Law: a name compared with itself matches all of its words, so its similarity is 1.
pub proof fn law_identical_names_fully_similar(s: Seq<char>, similar: bool)
    requires
        name_words(s).len() > 0,
    ensures
        words_similarity(name_words(s), name_words(s), similar).0 == words_similarity(
            name_words(s),
            name_words(s),
            similar,
        ).1,
{
    let w = name_words(s);
    lemma_greedy_self(w, similar, w.len() as int);
    assert(w.take(w.len() as int) =~= w);
}

proof fn lemma_find_exact_at(x: Seq<char>, wb: Seq<Seq<char>>, used: Seq<bool>, j: int, k: int)
    requires
        0 <= j <= k < wb.len(),
        used.len() == wb.len(),
        forall|t: int| j <= t < k ==> #[trigger] used[t],
        !used[k],
        wb[k] == x,
    ensures
        find_exact(x, wb, used, j) == k,
    decreases k - j,
{
    if j < k {
        lemma_find_exact_at(x, wb, used, j + 1, k);
    }
}

proof fn lemma_greedy_self(w: Seq<Seq<char>>, similar: bool, k: int)
    requires
        0 <= k <= w.len(),
    ensures
        greedy_match(w.take(k), w, similar).0 == k,
        greedy_match(w.take(k), w, similar).1 == Seq::new(w.len(), |t: int| t < k),
    decreases k,
{
    if k == 0 {
        assert(Seq::new(w.len(), |t: int| false) =~= Seq::new(w.len(), |t: int| t < 0));
    } else {
        lemma_greedy_self(w, similar, k - 1);
        let p = w.take(k);
        assert(p.drop_last() =~= w.take(k - 1));
        let used = Seq::new(w.len(), |t: int| t < k - 1);
        lemma_find_exact_at(w[k - 1], w, used, 0, k - 1);
        assert(used.update(k - 1, true) =~= Seq::new(w.len(), |t: int| t < k));
    }
}

/// Law: similarity never exceeds 1, and its denominator is never 0.
pub proof fn law_similarity_at_most_one(wa: Seq<Seq<char>>, wb: Seq<Seq<char>>, similar: bool)
    ensures
        0 <= words_similarity(wa, wb, similar).0 <= words_similarity(wa, wb, similar).1,
        words_similarity(wa, wb, similar).1 > 0,
{
    lemma_greedy_used_len(wa, wb, similar);
}

proof fn lemma_find_exact_bounds(x: Seq<char>, wb: Seq<Seq<char>>, used: Seq<bool>, j: int)
    requires
        0 <= j,
    ensures
        j <= find_exact(x, wb, used, j) <= wb.len() || find_exact(x, wb, used, j) == wb.len(),
        find_exact(x, wb, used, j) < wb.len() ==> !used[find_exact(x, wb, used, j)] && wb[find_exact(x, wb, used, j)] == x,
    decreases wb.len() - j,
{
    if j < wb.len() && !(!used[j] && wb[j] == x) {
        lemma_find_exact_bounds(x, wb, used, j + 1);
    }
}

proof fn lemma_find_similar_bounds(x: Seq<char>, wb: Seq<Seq<char>>, used: Seq<bool>, j: int)
    requires
        0 <= j,
    ensures
        j <= find_similar(x, wb, used, j) <= wb.len() || find_similar(x, wb, used, j) == wb.len(),
        find_similar(x, wb, used, j) < wb.len() ==> !used[find_similar(x, wb, used, j)],
    decreases wb.len() - j,
{
    if j < wb.len() && !(!used[j] && wb[j].len() >= 2 && within_one_edit(x, wb[j])) {
        lemma_find_similar_bounds(x, wb, used, j + 1);
    }
}

/// The character counts of a list of words.
fn char_counts(ws: &Vec<String>) -> (r: Vec<usize>)
    ensures
        r@.len() == ws@.len(),
        forall|i: int| 0 <= i < ws@.len() ==> #[trigger] r@[i] == ws@[i]@.len(),
{
    let mut r: Vec<usize> = Vec::with_capacity(ws.len());
    let mut i: usize = 0;
    while i < ws.len()
        invariant
            i <= ws@.len(),
            r@.len() == i,
            forall|k: int| 0 <= k < i ==> #[trigger] r@[k] == ws@[k]@.len(),
        decreases ws@.len() - i,
    {
        let n = chars_of(ws[i].as_str()).len();
        r.push(n);
        i = i + 1;
    }
    r
}

/// Number of words of `wa` matched with distinct words of `wb` by the greedy rule.
pub fn count_matches(wa: &Vec<String>, wb: &Vec<String>, similar: bool) -> (r: usize)
    ensures
        r == greedy_match(string_views(wa@), string_views(wb@), similar).0,
{
    let ghost va = string_views(wa@);
    let ghost vb = string_views(wb@);
    let la = char_counts(wa);
    let lb = char_counts(wb);
    let nb = wb.len();
    let mut used: Vec<bool> = Vec::with_capacity(nb);
    let mut k: usize = 0;
    while k < nb
        invariant
            k <= nb,
            used@.len() == k,
            forall|t: int| 0 <= t < k ==> used@[t] == false,
        decreases nb - k,
    {
        used.push(false);
        k = k + 1;
    }
    let mut common: usize = 0;
    let mut i: usize = 0;
    proof {
        assert(va.subrange(0, 0) =~= Seq::<Seq<char>>::empty());
        assert(used@ =~= Seq::new(vb.len(), |t: int| false));
    }
    while i < wa.len()
        invariant
            va == string_views(wa@),
            vb == string_views(wb@),
            nb == wb@.len(),
            la@.len() == wa@.len(),
            lb@.len() == wb@.len(),
            forall|t: int| 0 <= t < wa@.len() ==> #[trigger] la@[t] == wa@[t]@.len(),
            forall|t: int| 0 <= t < wb@.len() ==> #[trigger] lb@[t] == wb@[t]@.len(),
            i <= wa@.len(),
            common <= i,
            (common as nat, used@) == greedy_match(va.subrange(0, i as int), vb, similar),
        decreases wa@.len() - i,
    {
        let ghost prefix = va.subrange(0, i as int + 1);
        proof {
            assert(prefix.drop_last() =~= va.subrange(0, i as int));
            assert(prefix.last() == wa@[i as int]@);
            lemma_greedy_used_len(va.subrange(0, i as int), vb, similar);
        }
        let ghost x = wa@[i as int]@;
        // identical word first
        let mut j: usize = 0;
        while j < nb && !(!used[j] && wb[j] == wa[i])
            invariant
                j <= nb,
                nb == wb@.len(),
                used@.len() == nb,
                vb == string_views(wb@),
                i < wa@.len(),
                x == wa@[i as int]@,
                find_exact(x, vb, used@, 0) == find_exact(x, vb, used@, j as int),
            decreases nb - j,
        {
            j = j + 1;
        }
        let mut m = j;
        if m == nb && similar && la[i] >= 2 {
            let mut q: usize = 0;
            while q < nb && !(!used[q] && lb[q] >= 2 && levenshtein(wa[i].as_str(), wb[q].as_str()) <= 1)
                invariant
                    q <= nb,
                    nb == wb@.len(),
                    used@.len() == nb,
                    lb@.len() == nb,
                    forall|t: int| 0 <= t < wb@.len() ==> #[trigger] lb@[t] == wb@[t]@.len(),
                    vb == string_views(wb@),
                    i < wa@.len(),
                    x == wa@[i as int]@,
                    find_similar(x, vb, used@, 0) == find_similar(x, vb, used@, q as int),
                decreases nb - q,
            {
                q = q + 1;
            }
            m = q;
        }
        proof {
            assert(m as int == match_for(x, vb, used@, similar));
        }
        if m < nb {
            used.set(m, true);
            common = common + 1;
        }
        i = i + 1;
    }
    proof {
        assert(va.subrange(0, wa@.len() as int) =~= va);
    }
    common
}

/// Similarity of two file names as an exact fraction of matched words
/// (matched × 2 / all words, 0 when either name has no word). With `similar_words`, words of at
/// least two characters at edit distance 1 also match.
pub fn filename_similarity(a: &str, b: &str, similar_words: bool) -> (r: Ratio)
    ensures
        r.num as int == words_similarity(name_words(a@), name_words(b@), similar_words).0,
        r.den as int == words_similarity(name_words(a@), name_words(b@), similar_words).1,
        r.num <= r.den,
        0 < r.den <= 2 * (usize::MAX as int),
{
    let wa = words(a);
    let wb = words(b);
    word_list_similarity(&wa, &wb, similar_words)
}

/// Similarity of two word lists, as `filename_similarity` computes it.
pub fn word_list_similarity(wa: &Vec<String>, wb: &Vec<String>, similar_words: bool) -> (r: Ratio)
    ensures
        r.num as int == words_similarity(string_views(wa@), string_views(wb@), similar_words).0,
        r.den as int == words_similarity(string_views(wa@), string_views(wb@), similar_words).1,
        r.num <= r.den,
        0 < r.den <= 2 * (usize::MAX as int),
{
    if wa.len() == 0 || wb.len() == 0 {
        return Ratio { num: 0, den: 1 };
    }
    let c = count_matches(wa, wb, similar_words);
    proof {
        lemma_greedy_used_len(string_views(wa@), string_views(wb@), similar_words);
        law_similarity_at_most_one(string_views(wa@), string_views(wb@), similar_words);
    }
    Ratio { num: 2 * (c as u128), den: (wa.len() as u128) + (wb.len() as u128) }
}

/// Two sizes are within a factor of 4 of each other (two empty files always are, an empty
/// and a non-empty one never).
pub open spec fn size_ratio_ok_spec(a: u64, b: u64) -> bool {
    if a == 0 || b == 0 {
        a == b
    } else if a > b {
        a <= 4 * (b as int)
    } else {
        b <= 4 * (a as int)
    }
}

/// Whether two sizes are within a factor of 4 of each other.
pub fn size_ratio_ok(a: u64, b: u64) -> (r: bool)
    ensures
        r == size_ratio_ok_spec(a, b),
{
    if a == 0 || b == 0 {
        return a == b;
    }
    let (big, small) = if a > b {
        (a, b)
    } else {
        (b, a)
    };
    (big as u128) <= (small as u128) * 4
}

/// Threshold in percent, clamped to 1..=100.
pub open spec fn threshold_pct(t: u8) -> int {
    if t < 1 {
        1
    } else if t > 100 {
        100
    } else {
        t as int
    }
}

/// A similarity fraction reaches a threshold given in percent.
pub open spec fn reaches(r: (int, int), pct: int) -> bool {
    100 * r.0 >= pct * r.1
}

/// Whether a similarity reaches a threshold in percent.
pub fn reaches_threshold(r: Ratio, pct: u8) -> (b: bool)
    requires
        r.num <= 0x1_0000_0000_0000_0000_0000,
        r.den <= 0x1_0000_0000_0000_0000_0000,
    ensures
        b == reaches((r.num as int, r.den as int), pct as int),
{
    proof {
        assert((pct as u128) * r.den <= 256 * 0x1_0000_0000_0000_0000_0000) by (nonlinear_arith)
            requires
                pct < 256,
                r.den <= 0x1_0000_0000_0000_0000_0000,
        ;
    }
    100 * r.num >= (pct as u128) * r.den
}

/// The bucket a file is compared in: its folder, or one bucket for all.
pub open spec fn fuzzy_key(e: FileEntry, same_dir: bool) -> Seq<char> {
    if same_dir {
        parent_part(e.path@)
    } else {
        Seq::empty()
    }
}

/// The bucket of every file.
pub open spec fn fuzzy_keys(entries: Seq<FileEntry>, same_dir: bool) -> Seq<Option<Seq<char>>> {
    entries.map_values(|e: FileEntry| Some(fuzzy_key(e, same_dir)))
}

/// Number of files in a bucket.
pub open spec fn bucket_size(entries: Seq<FileEntry>, same_dir: bool, k: Seq<char>) -> nat {
    select(entries, fuzzy_keys(entries, same_dir), k).len()
}

/// Largest bucket in which names are compared.
pub const MAX_BUCKET: usize = 3000;

/// Names of two files are similar enough (words of at most one edit apart count).
pub open spec fn names_similar(a: FileEntry, b: FileEntry, pct: int) -> bool {
    reaches(words_similarity(name_words(name_part(a.path@)), name_words(name_part(b.path@)), true), pct)
}

/// Files `i` and `j` are linked: same bucket of 2 to 3000 files, sizes within a factor of 4,
/// and similar names.
pub open spec fn fuzzy_linked(entries: Seq<FileEntry>, threshold: u8, same_dir: bool, i: int, j: int) -> bool {
    let k = fuzzy_key(entries[i], same_dir);
    &&& fuzzy_key(entries[j], same_dir) == k
    &&& 2 <= bucket_size(entries, same_dir, k) <= MAX_BUCKET
    &&& size_ratio_ok_spec(entries[i].size, entries[j].size)
    &&& names_similar(entries[i], entries[j], threshold_pct(threshold))
}

/// The links between files, as ordered pairs of positions.
pub open spec fn fuzzy_edges(entries: Seq<FileEntry>, threshold: u8, same_dir: bool) -> Set<(int, int)> {
    Set::new(|e: (int, int)| 0 <= e.0 < e.1 < entries.len() && fuzzy_linked(entries, threshold, same_dir, e.0, e.1))
}

/// Groups of files with similar names: the connected components (of at least two files) of the
/// links, each ordered by the keep strategy.
pub fn find_fuzzy_name_duplicates(entries: &Vec<FileEntry>, opts: &ScanOptions) -> (out: Vec<DuplicateGroup>)
    requires
        total_size(entries@) <= u64::MAX,
    ensures
        clustered_groups(
            out@,
            entries@,
            fuzzy_edges(entries@, opts.fuzzy_threshold, opts.fuzzy_same_dir_only),
            opts.keep_strategy,
            GroupKind::FuzzyName,
        ),
{
    let n = entries.len();
    let same_dir = opts.fuzzy_same_dir_only;
    let pct: u8 = if opts.fuzzy_threshold < 1 {
        1
    } else if opts.fuzzy_threshold > 100 {
        100
    } else {
        opts.fuzzy_threshold
    };
    let ghost edges = fuzzy_edges(entries@, opts.fuzzy_threshold, same_dir);
    let ghost fk = fuzzy_keys(entries@, same_dir);
    // bucket keys and the words of every name
    let mut keys: Vec<String> = Vec::with_capacity(n);
    let mut names: Vec<Vec<String>> = Vec::with_capacity(n);
    let mut i: usize = 0;
    while i < n
        invariant
            n == entries@.len(),
            i <= n,
            keys@.len() == i,
            names@.len() == i,
            forall|t: int| 0 <= t < i ==> (#[trigger] keys@[t])@ == fuzzy_key(entries@[t], same_dir),
            forall|t: int|
                0 <= t < i ==> string_views((#[trigger] names@[t])@) == name_words(name_part(entries@[t].path@)),
        decreases n - i,
    {
        let k = if same_dir {
            parent_dir(entries[i].path.as_str())
        } else {
            String::new()
        };
        keys.push(k);
        let nm = base_name(entries[i].path.as_str());
        names.push(words(nm.as_str()));
        i = i + 1;
    }
    proof {
        assert(str_somes(keys@) =~= fk);
    }
    let buckets = group_positions_str(&keys);
    let ghost gk = choose|gk: Seq<Seq<char>>| #[trigger] index_groups(fk, views(buckets@), gk);
    proof {
        assert forall|b: int| 0 <= b < buckets@.len() implies indices_of_key(fk, (#[trigger] buckets@[b])@, gk[b]) by {
            assert(views(buckets@)[b] == buckets@[b]@);
        }
    }
    let mut uf = UnionFind::new(n);
    let nb = buckets.len();
    let mut b: usize = 0;
    while b < nb
        invariant
            n == entries@.len(),
            nb == buckets@.len(),
            b <= nb,
            keys@.len() == n,
            names@.len() == n,
            forall|t: int|
                0 <= t < n ==> string_views((#[trigger] names@[t])@) == name_words(name_part(entries@[t].path@)),
            pct as int == threshold_pct(opts.fuzzy_threshold),
            same_dir == opts.fuzzy_same_dir_only,
            edges == fuzzy_edges(entries@, opts.fuzzy_threshold, same_dir),
            fk == fuzzy_keys(entries@, same_dir),
            index_groups(fk, views(buckets@), gk),
            forall|q: int| 0 <= q < nb ==> indices_of_key(fk, (#[trigger] buckets@[q])@, gk[q]),
            uf.wf(),
            uf.size() == n,
            forall|e: (int, int)| #[trigger] uf.joined().contains(e) ==> edges.contains(e),
            forall|q: int, x: int, y: int|
                0 <= q < b && 0 <= x < y < buckets@[q]@.len() && edges.contains(
                    (#[trigger] buckets@[q]@[x] as int, #[trigger] buckets@[q]@[y] as int),
                ) ==> uf.joined().contains((buckets@[q]@[x] as int, buckets@[q]@[y] as int)),
        decreases nb - b,
    {
        let idx = &buckets[b];
        let len = idx.len();
        let ghost bk = gk[b as int];
        proof {
            lemma_pick_is_select(entries@, fk, idx@, bk);
            assert(bucket_size(entries@, same_dir, bk) == len);
        }
        if len >= 2 && len <= MAX_BUCKET {
            let mut x: usize = 0;
            while x < len
                invariant
                    n == entries@.len(),
                    nb == buckets@.len(),
                    b < nb,
                    idx@ == buckets@[b as int]@,
                    len == idx@.len(),
                    2 <= len <= MAX_BUCKET,
                    bucket_size(entries@, same_dir, bk) == len,
                    bk == gk[b as int],
                    x <= len,
                    keys@.len() == n,
                    names@.len() == n,
                    forall|t: int|
                        0 <= t < n ==> string_views((#[trigger] names@[t])@) == name_words(name_part(entries@[t].path@)),
                    pct as int == threshold_pct(opts.fuzzy_threshold),
                    same_dir == opts.fuzzy_same_dir_only,
                    edges == fuzzy_edges(entries@, opts.fuzzy_threshold, same_dir),
                    fk == fuzzy_keys(entries@, same_dir),
                    forall|q: int| 0 <= q < nb ==> indices_of_key(fk, (#[trigger] buckets@[q])@, gk[q]),
                    uf.wf(),
                    uf.size() == n,
                    forall|e: (int, int)| #[trigger] uf.joined().contains(e) ==> edges.contains(e),
                    forall|q: int, x1: int, y1: int|
                        0 <= q < b && 0 <= x1 < y1 < buckets@[q]@.len() && edges.contains(
                            (#[trigger] buckets@[q]@[x1] as int, #[trigger] buckets@[q]@[y1] as int),
                        ) ==> uf.joined().contains((buckets@[q]@[x1] as int, buckets@[q]@[y1] as int)),
                    forall|x1: int, y1: int|
                        0 <= x1 < x && x1 < y1 < len && edges.contains(
                            (#[trigger] idx@[x1] as int, #[trigger] idx@[y1] as int),
                        ) ==> uf.joined().contains((idx@[x1] as int, idx@[y1] as int)),
                decreases len - x,
            {
                let mut y: usize = x + 1;
                while y < len
                    invariant
                        n == entries@.len(),
                        nb == buckets@.len(),
                        b < nb,
                        idx@ == buckets@[b as int]@,
                        len == idx@.len(),
                        2 <= len <= MAX_BUCKET,
                        bucket_size(entries@, same_dir, bk) == len,
                        bk == gk[b as int],
                        x < len,
                        x + 1 <= y <= len,
                        keys@.len() == n,
                        names@.len() == n,
                        forall|t: int|
                            0 <= t < n ==> string_views((#[trigger] names@[t])@) == name_words(name_part(entries@[t].path@)),
                        pct as int == threshold_pct(opts.fuzzy_threshold),
                        same_dir == opts.fuzzy_same_dir_only,
                        edges == fuzzy_edges(entries@, opts.fuzzy_threshold, same_dir),
                        fk == fuzzy_keys(entries@, same_dir),
                        forall|q: int| 0 <= q < nb ==> indices_of_key(fk, (#[trigger] buckets@[q])@, gk[q]),
                        uf.wf(),
                        uf.size() == n,
                        forall|e: (int, int)| #[trigger] uf.joined().contains(e) ==> edges.contains(e),
                        forall|q: int, x1: int, y1: int|
                            0 <= q < b && 0 <= x1 < y1 < buckets@[q]@.len() && edges.contains(
                                (#[trigger] buckets@[q]@[x1] as int, #[trigger] buckets@[q]@[y1] as int),
                            ) ==> uf.joined().contains((buckets@[q]@[x1] as int, buckets@[q]@[y1] as int)),
                        forall|x1: int, y1: int|
                            0 <= x1 < x && x1 < y1 < len && edges.contains(
                                (#[trigger] idx@[x1] as int, #[trigger] idx@[y1] as int),
                            ) ==> uf.joined().contains((idx@[x1] as int, idx@[y1] as int)),
                        forall|y1: int|
                            x < y1 < y && edges.contains((idx@[x as int] as int, #[trigger] idx@[y1] as int))
                                ==> uf.joined().contains((idx@[x as int] as int, idx@[y1] as int)),
                    decreases len - y,
                {
                    let p = idx[x];
                    let q = idx[y];
                    proof {
                        assert(idx@[x as int] < idx@[y as int]);
                        assert(idx@.contains(p));
                        assert(idx@.contains(q));
                        assert(fk[p as int] == Some(bk));
                        assert(fk[q as int] == Some(bk));
                    }
                    let ok_size = size_ratio_ok(entries[p].size, entries[q].size);
                    let mut linked = false;
                    if ok_size {
                        let r = word_list_similarity(&names[p], &names[q], true);
                        linked = reaches_threshold(r, pct);
                    }
                    proof {
                        assert(fuzzy_key(entries@[p as int], same_dir) == bk);
                        assert(fuzzy_key(entries@[q as int], same_dir) == bk);
                        assert(linked == fuzzy_linked(entries@, opts.fuzzy_threshold, same_dir, p as int, q as int));
                        assert(linked == edges.contains((p as int, q as int)));
                    }
                    if linked {
                        uf.union(p, q);
                    }
                    y = y + 1;
                }
                x = x + 1;
            }
        } else {
            proof {
                assert forall|x1: int, y1: int|
                    0 <= x1 < y1 < len implies !edges.contains((#[trigger] idx@[x1] as int, #[trigger] idx@[y1] as int)) by {
                    assert(idx@.contains(idx@[x1]));
                    assert(fk[idx@[x1] as int] == Some(bk));
                }
            }
        }
        b = b + 1;
    }
    proof {
        assert forall|e: (int, int)| edges.contains(e) implies #[trigger] uf.joined().contains(e) by {
            let p = e.0;
            let q = e.1;
            assert(fk[p] == Some(fuzzy_key(entries@[p], same_dir)));
            assert(fk[p] is Some);
            let bb = choose|g: int| 0 <= g < gk.len() && gk[g] == fk[p]->0;
            let ib = buckets@[bb]@;
            assert(fuzzy_linked(entries@, opts.fuzzy_threshold, same_dir, p, q));
            assert(fk[q] == Some(fuzzy_key(entries@[q], same_dir)));
            assert(indices_of_key(fk, ib, gk[bb]));
            assert(ib.contains(p as usize));
            assert(ib.contains(q as usize));
            let x1 = choose|t: int| 0 <= t < ib.len() && ib[t] == p as usize;
            let y1 = choose|t: int| 0 <= t < ib.len() && ib[t] == q as usize;
            if y1 < x1 {
                assert(ib[y1] < ib[x1]);
            }
            assert(x1 != y1);
            assert(x1 < y1);
        }
        assert(uf.joined() =~= edges);
    }
    let clusters = uf.clusters();
    proof {
        let cv = views(clusters@);
        assert forall|g: int, a: int, c: int|
            0 <= g < clusters@.len() && 0 <= a < c < clusters@[g]@.len() implies #[trigger] clusters@[g]@[a]
            < #[trigger] clusters@[g]@[c] by {
            assert(cv[g] == clusters@[g]@);
        }
        assert forall|g: int, a: int| 0 <= g < clusters@.len() && 0 <= a < clusters@[g]@.len() implies #[trigger] clusters@[g]@[a]
            < entries@.len() by {
            assert(cv[g] == clusters@[g]@);
        }
    }
    let out = groups_from_clusters(entries, &clusters, opts.keep_strategy, GroupKind::FuzzyName);
    proof {
        let cv = views(clusters@);
        assert(crate::union_find::clusters_of(cv, edges, n as int));
    }
    out
}

/// Law: two files are linked by their names only when their sizes are within a factor of 4
/// of each other (both empty, or both non-empty with neither more than 4 times the other),
/// and, when comparing within folders only, when they lie in the same folder.
pub proof fn law_linked_files_have_close_sizes(entries: Seq<FileEntry>, threshold: u8, same_dir: bool, i: int, j: int)
    requires
        fuzzy_edges(entries, threshold, same_dir).contains((i, j)),
    ensures
        0 <= i < j < entries.len(),
        (entries[i].size == 0) == (entries[j].size == 0),
        entries[i].size <= 4 * entries[j].size,
        entries[j].size <= 4 * entries[i].size,
        same_dir ==> parent_part(entries[i].path@) == parent_part(entries[j].path@),
{
    assert(fuzzy_linked(entries, threshold, same_dir, i, j));
}

} // verus!
