//! Music duplicates: audio files whose artist and title tags read alike and whose
//! durations are close.

use vstd::prelude::*;
use crate::fuzzy::{filename_similarity, name_words, reaches, reaches_threshold, threshold_pct, words_similarity};
use crate::grouping::{clustered_groups, groups_from_clusters, views};
use crate::models::{total_size, DuplicateGroup, FileEntry, GroupKind, Ratio, ScanOptions};
use crate::scan::{entries_with_ext, files_with_ext, has_listed_ext};
use crate::text::{chars_of, extension_of, in_list, listed, opt_view, string_from_chars};
use crate::union_find::UnionFind;

verus! {

/// Extensions of the audio formats whose tags are read.
pub const MUSIC_EXTS: [&'static str; 10] = ["mp3", "flac", "m4a", "aac", "ogg", "opus", "wma", "wav", "ape", "wv"];

/// An extension names an audio format (ASCII case ignored).
pub open spec fn music_ext_spec(ext: Option<Seq<char>>) -> bool {
    match ext {
        Some(e) => listed(MUSIC_EXTS@, e),
        None => false,
    }
}

/// Whether an extension names an audio format (ASCII case ignored).
pub fn is_music_ext(ext: Option<&str>) -> (r: bool)
    ensures
        r == music_ext_spec(opt_view(ext)),
{
    match ext {
        Some(e) => in_list(e, &MUSIC_EXTS),
        None => false,
    }
}

/// Keeps the files whose extension names an audio format.
pub fn music_entries(entries: &Vec<FileEntry>) -> (out: Vec<FileEntry>)
    ensures
        out@ == files_with_ext(entries@, MUSIC_EXTS@),
{
    entries_with_ext(entries, &MUSIC_EXTS)
}

/// Tags of an audio file.
#[derive(Debug, Clone)]
pub struct TagInfo {
    pub artist: String,
    pub title: String,
    pub album: String,
    /// Duration in seconds, 0 when unknown.
    pub duration: u64,
}

impl Default for TagInfo {
    fn default() -> (t: Self)
        ensures
            t.artist@ == Seq::<char>::empty(),
            t.title@ == Seq::<char>::empty(),
            t.album@ == Seq::<char>::empty(),
            t.duration == 0,
    {
        TagInfo { artist: String::new(), title: String::new(), album: String::new(), duration: 0 }
    }
}

/// A character of the Unicode `White_Space` property (what `char::is_whitespace` accepts).
pub open spec fn is_white_space(c: char) -> bool {
    ||| '\t' <= c <= '\r'
    ||| c == ' '
    ||| c == '\u{85}'
    ||| c == '\u{A0}'
    ||| c == '\u{1680}'
    ||| '\u{2000}' <= c <= '\u{200A}'
    ||| c == '\u{2028}'
    ||| c == '\u{2029}'
    ||| c == '\u{202F}'
    ||| c == '\u{205F}'
    ||| c == '\u{3000}'
}

/// Whether a character is white space (Unicode `White_Space`).
pub fn white_space(c: char) -> (r: bool)
    ensures
        r == is_white_space(c),
{
    ('\t' <= c && c <= '\r') || c == ' ' || c == '\u{85}' || c == '\u{A0}' || c == '\u{1680}' || ('\u{2000}' <= c
        && c <= '\u{200A}') || c == '\u{2028}' || c == '\u{2029}' || c == '\u{202F}' || c == '\u{205F}' || c
        == '\u{3000}'
}

/// The text is empty once white space is trimmed from both ends.
pub open spec fn blank(s: Seq<char>) -> bool {
    forall|i: int| 0 <= i < s.len() ==> is_white_space(#[trigger] s[i])
}

/// Whether a text is empty once trimmed.
pub fn is_blank(s: &str) -> (r: bool)
    ensures
        r == blank(s@),
{
    let cs = chars_of(s);
    let mut i: usize = 0;
    while i < cs.len()
        invariant
            cs@ == s@,
            i <= cs@.len(),
            forall|k: int| 0 <= k < i ==> is_white_space(#[trigger] cs@[k]),
        decreases cs@.len() - i,
    {
        if !white_space(cs[i]) {
            return false;
        }
        i = i + 1;
    }
    true
}

/// Tags can be compared: the artist or the title is not blank.
pub open spec fn comparable_spec(t: TagInfo) -> bool {
    !blank(t.artist@) || !blank(t.title@)
}

impl TagInfo {
    /// Whether the artist or the title is not blank.
    pub fn comparable(&self) -> (r: bool)
        ensures
            r == comparable_spec(*self),
    {
        !is_blank(self.artist.as_str()) || !is_blank(self.title.as_str())
    }
}

/// Two durations fall in the same bucket: one is unknown, or the shorter is at least 85% of
/// the longer (rounded down).
pub open spec fn same_bucket(a: u64, b: u64) -> bool {
    if a == 0 || b == 0 {
        true
    } else {
        let big = if a > b { a as int } else { b as int };
        let small = if a > b { b as int } else { a as int };
        small >= big * 85 / 100
    }
}

/// Whether two durations fall in the same bucket.
pub fn duration_in_same_bucket(a: u64, b: u64) -> (r: bool)
    ensures
        r == same_bucket(a, b),
{
    if a == 0 || b == 0 {
        return true;
    }
    let (big, small) = if a > b {
        (a, b)
    } else {
        (b, a)
    };
    (small as u128) >= (big as u128) * 85 / 100
}

/// Closeness of two durations in halves: 2 within 10%, 1 within 20%, else 0 (0 when either
/// is unknown).
pub open spec fn duration_score(a: u64, b: u64) -> int {
    if a == 0 || b == 0 {
        0
    } else {
        let big = if a > b { a as int } else { b as int };
        let small = if a > b { b as int } else { a as int };
        if small >= big * 9 / 10 {
            2
        } else if small >= big * 8 / 10 {
            1
        } else {
            0
        }
    }
}

fn duration_closeness(a: u64, b: u64) -> (r: u128)
    ensures
        r as int == duration_score(a, b),
{
    if a == 0 || b == 0 {
        return 0;
    }
    let (big, small) = if a > b {
        (a as u128, b as u128)
    } else {
        (b as u128, a as u128)
    };
    if small >= big * 9 / 10 {
        2
    } else if small >= big * 8 / 10 {
        1
    } else {
        0
    }
}

/// The text compared of a song: artist, a space, title.
pub open spec fn tag_text(t: TagInfo) -> Seq<char> {
    t.artist@ + seq![' '] + t.title@
}

fn tag_text_of(t: &TagInfo) -> (r: String)
    ensures
        r@ == tag_text(*t),
{
    let mut cs = chars_of(t.artist.as_str());
    cs.push(' ');
    let ct = chars_of(t.title.as_str());
    let ghost mid = cs@;
    let mut i: usize = 0;
    while i < ct.len()
        invariant
            i <= ct@.len(),
            cs@ == mid + ct@.subrange(0, i as int),
        decreases ct@.len() - i,
    {
        cs.push(ct[i]);
        proof {
            assert(cs@ =~= mid + ct@.subrange(0, i + 1));
        }
        i = i + 1;
    }
    proof {
        assert(ct@.subrange(0, ct@.len() as int) =~= ct@);
    }
    string_from_chars(cs.as_slice())
}

/// Similarity of two songs as a fraction: nine tenths the word similarity of their texts
/// (words at edit distance 1 match) plus one tenth the closeness of their durations.
pub open spec fn music_similarity_spec(a: TagInfo, b: TagInfo) -> (int, int) {
    let w = words_similarity(name_words(tag_text(a)), name_words(tag_text(b)), true);
    (18 * w.0 + duration_score(a.duration, b.duration) * w.1, 20 * w.1)
}

/// Similarity of two songs, as an exact fraction between 0 and 1.
pub fn music_similarity(a: &TagInfo, b: &TagInfo) -> (r: Ratio)
    ensures
        (r.num as int, r.den as int) == music_similarity_spec(*a, *b),
        r.num <= r.den,
        0 < r.den <= 40 * (usize::MAX as int),
{
    let ta = tag_text_of(a);
    let tb = tag_text_of(b);
    let w = filename_similarity(ta.as_str(), tb.as_str(), true);
    let k = duration_closeness(a.duration, b.duration);
    proof {
        assert(k * w.den <= 2 * w.den) by (nonlinear_arith)
            requires
                k <= 2,
        ;
    }
    Ratio { num: 18 * w.num + k * w.den, den: 20 * w.den }
}

/// A file takes part in the comparison: an audio file with readable, comparable tags.
pub open spec fn music_valid(entries: Seq<FileEntry>, infos: Seq<Option<TagInfo>>, i: int) -> bool {
    &&& has_listed_ext(entries[i], MUSIC_EXTS@)
    &&& infos[i] is Some
    &&& comparable_spec(infos[i]->0)
}

/// Files `i` and `j` are the same song: both take part, their durations fall in the same
/// bucket and their similarity reaches the threshold.
pub open spec fn music_linked(entries: Seq<FileEntry>, infos: Seq<Option<TagInfo>>, pct: int, i: int, j: int) -> bool {
    &&& music_valid(entries, infos, i)
    &&& music_valid(entries, infos, j)
    &&& same_bucket(infos[i]->0.duration, infos[j]->0.duration)
    &&& reaches(music_similarity_spec(infos[i]->0, infos[j]->0), pct)
}

/// The links between songs, as ordered pairs of positions.
pub open spec fn music_edges(entries: Seq<FileEntry>, infos: Seq<Option<TagInfo>>, pct: int) -> Set<(int, int)> {
    Set::new(|e: (int, int)| 0 <= e.0 < e.1 < entries.len() && music_linked(entries, infos, pct, e.0, e.1))
}

/// Groups of copies of the same song: the connected components (of at least two files) of the
/// links, each ordered by the keep strategy. `infos[i]` holds the tags read from
/// `entries[i]`, or `None` where there are none.
pub fn find_music_duplicates(entries: &Vec<FileEntry>, infos: &Vec<Option<TagInfo>>, opts: &ScanOptions) -> (out: Vec<
    DuplicateGroup,
>)
    requires
        infos@.len() == entries@.len(),
        total_size(entries@) <= u64::MAX,
    ensures
        clustered_groups(
            out@,
            entries@,
            music_edges(entries@, infos@, threshold_pct(opts.music_threshold)),
            opts.keep_strategy,
            GroupKind::MusicTag,
        ),
{
    let n = entries.len();
    let pct: u8 = if opts.music_threshold < 1 {
        1
    } else if opts.music_threshold > 100 {
        100
    } else {
        opts.music_threshold
    };
    let ghost edges = music_edges(entries@, infos@, pct as int);
    // which files take part
    let mut valid: Vec<bool> = Vec::with_capacity(n);
    let mut i: usize = 0;
    while i < n
        invariant
            n == entries@.len(),
            n == infos@.len(),
            i <= n,
            valid@.len() == i,
            forall|k: int| 0 <= k < i ==> #[trigger] valid@[k] == music_valid(entries@, infos@, k),
        decreases n - i,
    {
        let music = match extension_of(entries[i].path.as_str()) {
            Some(e) => in_list(e.as_str(), &MUSIC_EXTS),
            None => false,
        };
        let ok = music && match &infos[i] {
            Some(t) => t.comparable(),
            None => false,
        };
        valid.push(ok);
        i = i + 1;
    }
    let mut uf = UnionFind::new(n);
    let mut i: usize = 0;
    while i < n
        invariant
            n == entries@.len(),
            n == infos@.len(),
            valid@.len() == n,
            forall|k: int| 0 <= k < n ==> #[trigger] valid@[k] == music_valid(entries@, infos@, k),
            i <= n,
            pct as int == threshold_pct(opts.music_threshold),
            edges == music_edges(entries@, infos@, pct as int),
            uf.wf(),
            uf.size() == n,
            forall|e: (int, int)| #[trigger] uf.joined().contains(e) ==> edges.contains(e),
            forall|a: int, b: int| 0 <= a < i && edges.contains((a, b)) ==> #[trigger] uf.joined().contains((a, b)),
        decreases n - i,
    {
        if valid[i] {
            let mut j: usize = i + 1;
            while j < n
                invariant
                    n == entries@.len(),
                    n == infos@.len(),
                    valid@.len() == n,
                    forall|k: int| 0 <= k < n ==> #[trigger] valid@[k] == music_valid(entries@, infos@, k),
                    i < j <= n,
                    valid@[i as int],
                    pct as int == threshold_pct(opts.music_threshold),
                    edges == music_edges(entries@, infos@, pct as int),
                    uf.wf(),
                    uf.size() == n,
                    forall|e: (int, int)| #[trigger] uf.joined().contains(e) ==> edges.contains(e),
                    forall|a: int, b: int| 0 <= a < i && edges.contains((a, b)) ==> #[trigger] uf.joined().contains((a, b)),
                    forall|b: int| i < b < j && edges.contains((i as int, b)) ==> #[trigger] uf.joined().contains((i as int, b)),
                decreases n - j,
            {
                if valid[j] {
                    match (&infos[i], &infos[j]) {
                        (Some(ta), Some(tb)) => {
                            let linked = duration_in_same_bucket(ta.duration, tb.duration) && reaches_threshold(
                                music_similarity(ta, tb),
                                pct,
                            );
                            proof {
                                assert(linked == music_linked(entries@, infos@, pct as int, i as int, j as int));
                            }
                            if linked {
                                uf.union(i, j);
                            }
                        },
                        _ => {},
                    }
                }
                j = j + 1;
            }
        }
        i = i + 1;
    }
    proof {
        assert forall|e: (int, int)| edges.contains(e) implies #[trigger] uf.joined().contains(e) by {
            assert(uf.joined().contains((e.0, e.1)));
        }
        assert(uf.joined() =~= edges);
    }
    let clusters = uf.clusters();
    proof {
        let cv = views(clusters@);
        assert forall|g: int, a: int, c: int|
            0 <= g < clusters@.len() && 0 <= a < c < clusters@[g]@.len() implies #[trigger] clusters@[g]@[a]
            < #[trigger] clusters@[g]@[c] by {
            assert(cv[g] == clusters@[g]@);
        }
        assert forall|g: int, a: int| 0 <= g < clusters@.len() && 0 <= a < clusters@[g]@.len() implies #[trigger] clusters@[g]@[a]
            < entries@.len() by {
            assert(cv[g] == clusters@[g]@);
        }
    }
    let out = groups_from_clusters(entries, &clusters, opts.keep_strategy, GroupKind::MusicTag);
    proof {
        let cv = views(clusters@);
        assert(crate::union_find::clusters_of(cv, edges, n as int));
    }
    out
}

/// Law: the text compared for two songs is, for each, its artist, a space and its title; the
/// similarity is nine tenths of the word similarity of those texts plus one tenth of the
/// closeness of the durations.
pub proof fn law_music_compares_artist_and_title(a: TagInfo, b: TagInfo)
    ensures
        music_similarity_spec(a, b) == (
            18 * words_similarity(
                name_words(a.artist@ + seq![' '] + a.title@),
                name_words(b.artist@ + seq![' '] + b.title@),
                true,
            ).0 + duration_score(a.duration, b.duration) * words_similarity(
                name_words(a.artist@ + seq![' '] + a.title@),
                name_words(b.artist@ + seq![' '] + b.title@),
                true,
            ).1,
            20 * words_similarity(
                name_words(a.artist@ + seq![' '] + a.title@),
                name_words(b.artist@ + seq![' '] + b.title@),
                true,
            ).1,
        ),
{
}

} // verus!
