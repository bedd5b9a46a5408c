//! Similar videos: frame-hash signatures, their text form, and clustering by frame matches.

use vstd::prelude::*;
use crate::bits::{hamming, hamming_spec};
use crate::grouping::{clustered_groups, groups_from_clusters, views};
use crate::models::{total_size, DuplicateGroup, FileEntry, GroupKind, Ratio, ScanOptions};
use crate::union_find::UnionFind;
use crate::hex::{hex16, lemma_hex16, parse_hex, parse_hex_u64, write_hex};
use crate::scan::{entries_with_ext, files_with_ext};
use crate::text::{in_list, listed, opt_view, string_from_chars, chars_of};

verus! {

/// Extensions of the video formats that are compared.
pub const VIDEO_EXTS: [&'static str; 14] = [
    "mp4",
    "mkv",
    "avi",
    "mov",
    "wmv",
    "flv",
    "webm",
    "ts",
    "m4v",
    "mpg",
    "mpeg",
    "3gp",
    "m2ts",
    "rmvb",
];

/// Most frames taken from one video.
pub const MAX_FRAMES: u32 = 24;

/// Width and height of a sampled frame.
pub const FRAME_SIZE: u32 = 64;

/// Bytes of one grey sampled frame.
pub const FRAME_BYTES: usize = 4096;

/// An extension names a video format (ASCII case ignored).
pub open spec fn video_ext_spec(ext: Option<Seq<char>>) -> bool {
    match ext {
        Some(e) => listed(VIDEO_EXTS@, e),
        None => false,
    }
}

/// Whether an extension names a video format (ASCII case ignored).
pub fn is_video_ext(ext: Option<&str>) -> (r: bool)
    ensures
        r == video_ext_spec(opt_view(ext)),
{
    match ext {
        Some(e) => in_list(e, &VIDEO_EXTS),
        None => false,
    }
}

/// Keeps the files whose extension names a video format.
pub fn video_entries(entries: &Vec<FileEntry>) -> (out: Vec<FileEntry>)
    ensures
        out@ == files_with_ext(entries@, VIDEO_EXTS@),
{
    entries_with_ext(entries, &VIDEO_EXTS)
}

/// A signature as text: its hashes in `hex16` form joined by commas.
pub open spec fn sig_text(sig: Seq<u64>) -> Seq<char>
    decreases sig.len(),
{
    if sig.len() == 0 {
        Seq::empty()
    } else if sig.len() == 1 {
        hex16(sig[0])
    } else {
        sig_text(sig.drop_last()) + seq![','] + hex16(sig.last())
    }
}

/// Writes a signature as text.
pub fn sig_to_string(sig: &[u64]) -> (r: String)
    ensures
        r@ == sig_text(sig@),
{
    let mut out: Vec<char> = Vec::new();
    let mut i: usize = 0;
    while i < sig.len()
        invariant
            i <= sig@.len(),
            out@ == sig_text(sig@.subrange(0, i as int)),
        decreases sig@.len() - i,
    {
        let ghost before = out@;
        if i > 0 {
            out.push(',');
        }
        let h = sig[i];
        let buf = write_hex(h as u128, 16);
        let mut t: usize = 0;
        let ghost mid = out@;
        while t < 16
            invariant
                t <= 16,
                buf@.len() == 16,
                out@ == mid + buf@.subrange(0, t as int),
            decreases 16 - t,
        {
            out.push(buf[t]);
            proof {
                assert(out@ =~= mid + buf@.subrange(0, t + 1));
            }
            t = t + 1;
        }
        proof {
            let s = sig@.subrange(0, i + 1);
            assert(s.drop_last() =~= sig@.subrange(0, i as int));
            assert(buf@.subrange(0, 16) =~= buf@);
            if i == 0 {
                assert(out@ =~= hex16(h));
            } else {
                assert(out@ =~= before + seq![','] + hex16(h));
            }
        }
        i = i + 1;
    }
    proof {
        assert(sig@.subrange(0, sig@.len() as int) =~= sig@);
    }
    string_from_chars(out.as_slice())
}

/// The pieces of a text between commas (`str::split(',')`): one more than there are commas.
pub open spec fn split_commas(s: Seq<char>) -> Seq<Seq<char>>
    decreases s.len(),
{
    if s.len() == 0 {
        seq![Seq::empty()]
    } else {
        let p = split_commas(s.drop_last());
        if s.last() == ',' {
            p.push(Seq::empty())
        } else {
            p.update(p.len() - 1, p.last().push(s.last()))
        }
    }
}

/// Every piece parsed, or `None` as soon as one piece does not parse.
pub open spec fn parse_all(ps: Seq<Seq<char>>) -> Option<Seq<u64>>
    decreases ps.len(),
{
    if ps.len() == 0 {
        Some(Seq::empty())
    } else {
        match (parse_all(ps.drop_last()), parse_hex(ps.last())) {
            (Some(v), Some(x)) => Some(v.push(x)),
            _ => None,
        }
    }
}

/// A signature read back from text: every comma-separated piece a hexadecimal number.
pub open spec fn parse_sig(s: Seq<char>) -> Option<Seq<u64>> {
    parse_all(split_commas(s))
}

proof fn lemma_split_len(s: Seq<char>)
    ensures
        split_commas(s).len() >= 1,
    decreases s.len(),
{
    if s.len() > 0 {
        lemma_split_len(s.drop_last());
    }
}

proof fn lemma_parse_all_prefix(ps: Seq<Seq<char>>, m: int)
    requires
        0 <= m <= ps.len(),
        parse_all(ps.subrange(0, m)) is None,
    ensures
        parse_all(ps) is None,
    decreases ps.len() - m,
{
    if m < ps.len() {
        assert(ps.subrange(0, m + 1).drop_last() =~= ps.subrange(0, m));
        lemma_parse_all_prefix(ps, m + 1);
    } else {
        assert(ps.subrange(0, m) =~= ps);
    }
}

/// Reads a signature back from its text; `None` where a piece is not a hexadecimal number
/// (the empty text gives `None`).
pub fn sig_from_string(s: &str) -> (r: Option<Vec<u64>>)
    ensures
        match r {
            Some(v) => parse_sig(s@) == Some(v@),
            None => parse_sig(s@) is None,
        },
{
    let cs = chars_of(s);
    let mut pieces: Vec<Vec<char>> = Vec::new();
    pieces.push(Vec::new());
    let mut i: usize = 0;
    proof {
        assert(cs@.subrange(0, 0) =~= Seq::<char>::empty());
    }
    while i < cs.len()
        invariant
            i <= cs@.len(),
            pieces@.len() >= 1,
            pieces@.map_values(|p: Vec<char>| p@) == split_commas(cs@.subrange(0, i as int)),
        decreases cs@.len() - i,
    {
        let ghost before = pieces@.map_values(|p: Vec<char>| p@);
        let c = cs[i];
        proof {
            assert(cs@.subrange(0, i + 1).drop_last() =~= cs@.subrange(0, i as int));
        }
        if c == ',' {
            pieces.push(Vec::new());
            proof {
                assert(pieces@.map_values(|p: Vec<char>| p@) =~= before.push(Seq::empty()));
            }
        } else {
            let last = pieces.len() - 1;
            pieces[last].push(c);
            proof {
                assert(pieces@.map_values(|p: Vec<char>| p@) =~= before.update(before.len() - 1, before.last().push(c)));
            }
        }
        i = i + 1;
    }
    let ghost ps = pieces@.map_values(|p: Vec<char>| p@);
    proof {
        assert(cs@.subrange(0, cs@.len() as int) =~= s@);
    }
    let mut out: Vec<u64> = Vec::new();
    let mut k: usize = 0;
    proof {
        assert(ps.subrange(0, 0) =~= Seq::<Seq<char>>::empty());
    }
    while k < pieces.len()
        invariant
            k <= pieces@.len(),
            ps == pieces@.map_values(|p: Vec<char>| p@),
            ps == split_commas(s@),
            parse_all(ps.subrange(0, k as int)) == Some(out@),
        decreases pieces@.len() - k,
    {
        let v = parse_hex_u64(pieces[k].as_slice());
        proof {
            assert(ps.subrange(0, k + 1).drop_last() =~= ps.subrange(0, k as int));
            assert(ps.subrange(0, k + 1).last() == pieces@[k as int]@);
        }
        match v {
            Some(x) => {
                out.push(x);
            },
            None => {
                proof {
                    lemma_parse_all_prefix(ps, k + 1);
                }
                return None;
            },
        }
        k = k + 1;
    }
    proof {
        assert(ps.subrange(0, ps.len() as int) =~= ps);
    }
    Some(out)
}

proof fn lemma_split_plain(q: Seq<char>)
    requires
        forall|i: int| 0 <= i < q.len() ==> #[trigger] q[i] != ',',
    ensures
        split_commas(q) == seq![q],
    decreases q.len(),
{
    if q.len() > 0 {
        let d = q.drop_last();
        assert forall|i: int| 0 <= i < d.len() implies #[trigger] d[i] != ',' by {
            assert(d[i] == q[i]);
        }
        lemma_split_plain(d);
        assert(q.last() == q[q.len() - 1]);
        assert(d.push(q.last()) =~= q);
        assert(seq![d].update(0, d.push(q.last())) =~= seq![q]);
    } else {
        assert(q =~= Seq::<char>::empty());
    }
}

proof fn lemma_split_join(x: Seq<char>, q: Seq<char>)
    ensures
        split_commas(x.push(',') + q) == split_commas(x) + split_commas(q),
    decreases q.len(),
{
    lemma_split_len(q);
    if q.len() == 0 {
        assert(x.push(',') + q =~= x.push(','));
        assert((x.push(',')).drop_last() =~= x);
        assert(split_commas(x) + split_commas(q) =~= split_commas(x).push(Seq::empty()));
    } else {
        let d = q.drop_last();
        let c = q.last();
        lemma_split_join(x, d);
        lemma_split_len(d);
        let w = x.push(',') + q;
        assert(w.drop_last() =~= x.push(',') + d);
        assert(w.last() == c);
        let a = split_commas(x);
        let b = split_commas(d);
        if c == ',' {
            assert(split_commas(w) == (a + b).push(Seq::empty()));
            assert((a + b).push(Seq::empty()) =~= a + b.push(Seq::empty()));
        } else {
            let ab = a + b;
            assert(split_commas(w) == ab.update(ab.len() - 1, ab.last().push(c)));
            assert(ab.update(ab.len() - 1, ab.last().push(c)) =~= a + b.update(b.len() - 1, b.last().push(c)));
        }
    }
}

/// The pieces of a signature's text are the texts of its hashes.
proof fn lemma_sig_pieces(sig: Seq<u64>)
    requires
        sig.len() >= 1,
    ensures
        split_commas(sig_text(sig)) == sig.map_values(|h: u64| hex16(h)),
    decreases sig.len(),
{
    let last = sig.last();
    lemma_hex16(last);
    lemma_split_plain(hex16(last));
    if sig.len() == 1 {
        assert(sig.map_values(|h: u64| hex16(h)) =~= seq![hex16(sig[0])]);
    } else {
        let d = sig.drop_last();
        lemma_sig_pieces(d);
        assert(sig_text(sig) == sig_text(d) + seq![','] + hex16(last));
        assert(sig_text(d) + seq![','] + hex16(last) =~= sig_text(d).push(',') + hex16(last));
        lemma_split_join(sig_text(d), hex16(last));
        assert(sig.map_values(|h: u64| hex16(h)) =~= d.map_values(|h: u64| hex16(h)) + seq![hex16(last)]);
    }
}

proof fn lemma_parse_hex16_all(sig: Seq<u64>)
    ensures
        parse_all(sig.map_values(|h: u64| hex16(h))) == Some(sig),
    decreases sig.len(),
{
    if sig.len() > 0 {
        let d = sig.drop_last();
        lemma_parse_hex16_all(d);
        lemma_hex16(sig.last());
        assert(sig.map_values(|h: u64| hex16(h)).drop_last() =~= d.map_values(|h: u64| hex16(h)));
        assert(d.push(sig.last()) =~= sig);
    } else {
        assert(sig.map_values(|h: u64| hex16(h)) =~= Seq::<Seq<char>>::empty());
        assert(sig =~= Seq::<u64>::empty());
    }
}

/// Law: a signature of at least one hash reads back from its text unchanged. (The empty
/// signature is written as the empty text, which reads back as `None`.)
pub proof fn law_signature_roundtrip(sig: Seq<u64>)
    requires
        sig.len() >= 1,
    ensures
        parse_sig(sig_text(sig)) == Some(sig),
{
    lemma_sig_pieces(sig);
    lemma_parse_hex16_all(sig);
}

/// The empty text is no signature.
pub proof fn law_empty_text_is_no_signature()
    ensures
        parse_sig(Seq::empty()) is None,
{
    assert(split_commas(Seq::empty()) == seq![Seq::<char>::empty()]);
    assert(seq![Seq::<char>::empty()].drop_last() =~= Seq::<Seq<char>>::empty());
}

/// Frame hash `x` lies within `radius` bits of some frame of `b`.
pub open spec fn frame_matched(x: u64, b: Seq<u64>, radius: int) -> bool {
    exists|j: int| 0 <= j < b.len() && hamming_spec(x, #[trigger] b[j]) <= radius
}

/// Number of frames of `a` that lie within `radius` bits of some frame of `b`.
pub open spec fn matched_count(a: Seq<u64>, b: Seq<u64>, radius: int) -> nat
    decreases a.len(),
{
    if a.len() == 0 {
        0
    } else {
        matched_count(a.drop_last(), b, radius) + if frame_matched(a.last(), b, radius) {
            1nat
        } else {
            0nat
        }
    }
}

/// Similarity of two signatures as a fraction (numerator, denominator): the mean of the two
/// matched shares `ma / la` and `mb / lb`; 0 when either signature is empty.
pub open spec fn video_similarity(a: Seq<u64>, b: Seq<u64>, radius: int) -> (int, int) {
    if a.len() == 0 || b.len() == 0 {
        (0, 1)
    } else {
        let ma = matched_count(a, b, radius) as int;
        let mb = matched_count(b, a, radius) as int;
        (ma * b.len() + mb * a.len(), 2 * ((a.len() as int) * (b.len() as int)))
    }
}

/// Most hashes in a signature: a slice of 8-byte values spans at most `isize::MAX` bytes.
pub open spec fn sig_len_ok(a: Seq<u64>) -> bool {
    a.len() < 0x1000_0000_0000_0000
}

proof fn lemma_matched_le(a: Seq<u64>, b: Seq<u64>, radius: int)
    ensures
        matched_count(a, b, radius) <= a.len(),
    decreases a.len(),
{
    if a.len() > 0 {
        lemma_matched_le(a.drop_last(), b, radius);
    }
}

/// Number of frames of `a` within `radius` bits of some frame of `b`.
fn count_matched(a: &[u64], b: &[u64], radius: u32) -> (r: usize)
    ensures
        r == matched_count(a@, b@, radius as int),
{
    let mut count: usize = 0;
    let mut i: usize = 0;
    while i < a.len()
        invariant
            i <= a@.len(),
            count == matched_count(a@.subrange(0, i as int), b@, radius as int),
            count <= i,
        decreases a@.len() - i,
    {
        let mut j: usize = 0;
        let mut found = false;
        while j < b.len() && !found
            invariant
                j <= b@.len(),
                i < a@.len(),
                found ==> frame_matched(a@[i as int], b@, radius as int),
                !found ==> forall|t: int| 0 <= t < j ==> hamming_spec(a@[i as int], #[trigger] b@[t]) > radius,
            decreases b@.len() - j + (if found { 0int } else { 1int }),
        {
            if hamming(a[i], b[j]) <= radius {
                found = true;
            } else {
                j = j + 1;
            }
        }
        proof {
            let s = a@.subrange(0, i + 1);
            assert(s.drop_last() =~= a@.subrange(0, i as int));
            assert(s.last() == a@[i as int]);
        }
        if found {
            count = count + 1;
        }
        i = i + 1;
    }
    proof {
        assert(a@.subrange(0, a@.len() as int) =~= a@);
    }
    count
}

/// Similarity of two signatures: the mean of the shares of frames of each that lie within
/// `threshold` bits of some frame of the other, as an exact fraction; 0 when either is empty.
pub fn videos_similar(a: &[u64], b: &[u64], threshold: u32) -> (r: Ratio)
    requires
        sig_len_ok(a@),
        sig_len_ok(b@),
    ensures
        (r.num as int, r.den as int) == video_similarity(a@, b@, threshold as int),
        r.num <= r.den,
        0 < r.den < 0x200_0000_0000_0000_0000_0000_0000_0000,
{
    if a.len() == 0 || b.len() == 0 {
        return Ratio { num: 0, den: 1 };
    }
    let ma = count_matched(a, b, threshold);
    let mb = count_matched(b, a, threshold);
    let la = a.len() as u128;
    let lb = b.len() as u128;
    proof {
        lemma_matched_le(a@, b@, threshold as int);
        lemma_matched_le(b@, a@, threshold as int);
        assert((ma as u128) * lb <= la * lb) by (nonlinear_arith)
            requires
                ma as u128 <= la,
        ;
        assert((mb as u128) * la <= la * lb) by (nonlinear_arith)
            requires
                mb as u128 <= lb,
        ;
        assert(0 < la * lb < 0x100_0000_0000_0000_0000_0000_0000_0000) by (nonlinear_arith)
            requires
                0 < la < 0x1000_0000_0000_0000,
                0 < lb < 0x1000_0000_0000_0000,
        ;
    }
    Ratio { num: (ma as u128) * lb + (mb as u128) * la, den: 2 * (la * lb) }
}

/// A similarity reaches the share of matched frames that makes two videos similar (60%).
pub open spec fn reaches_match_ratio(r: (int, int)) -> bool {
    5 * r.0 >= 3 * r.1
}

/// Videos `i` and `j` both have a signature, and the signatures are similar enough.
pub open spec fn video_linked(sigs: Seq<Option<Vec<u64>>>, radius: int, i: int, j: int) -> bool {
    &&& sigs[i] is Some
    &&& sigs[j] is Some
    &&& reaches_match_ratio(video_similarity(sigs[i]->0@, sigs[j]->0@, radius))
}

/// The links between videos, as ordered pairs of positions.
pub open spec fn video_edges(sigs: Seq<Option<Vec<u64>>>, radius: int) -> Set<(int, int)> {
    Set::new(|e: (int, int)| 0 <= e.0 < e.1 < sigs.len() && video_linked(sigs, radius, e.0, e.1))
}

/// The frame comparison radius: the threshold, at most 64.
pub open spec fn video_radius(threshold: u32) -> int {
    if threshold < 64 {
        threshold as int
    } else {
        64
    }
}

/// Groups of similar videos: the connected components (of at least two videos) of the links
/// between videos whose signatures are similar, each ordered by the keep strategy.
/// `sigs[i]` is the signature of `videos[i]`, or `None` where it could not be had.
pub fn find_similar_videos(videos: &Vec<FileEntry>, sigs: &Vec<Option<Vec<u64>>>, opts: &ScanOptions) -> (out: Vec<
    DuplicateGroup,
>)
    requires
        sigs@.len() == videos@.len(),
        forall|i: int| 0 <= i < sigs@.len() && (#[trigger] sigs@[i]) is Some ==> sig_len_ok(sigs@[i]->0@),
        total_size(videos@) <= u64::MAX,
    ensures
        clustered_groups(
            out@,
            videos@,
            video_edges(sigs@, video_radius(opts.video_threshold)),
            opts.keep_strategy,
            GroupKind::SimilarVideo,
        ),
{
    let n = videos.len();
    let radius: u32 = if opts.video_threshold < 64 {
        opts.video_threshold
    } else {
        64
    };
    let ghost edges = video_edges(sigs@, radius as int);
    let mut uf = UnionFind::new(n);
    let mut i: usize = 0;
    while i < n
        invariant
            n == sigs@.len(),
            n == videos@.len(),
            i <= n,
            forall|k: int| 0 <= k < sigs@.len() && (#[trigger] sigs@[k]) is Some ==> sig_len_ok(sigs@[k]->0@),
            edges == video_edges(sigs@, radius as int),
            uf.wf(),
            uf.size() == n,
            forall|e: (int, int)| #[trigger] uf.joined().contains(e) ==> edges.contains(e),
            forall|a: int, b: int| 0 <= a < i && edges.contains((a, b)) ==> #[trigger] uf.joined().contains((a, b)),
        decreases n - i,
    {
        match &sigs[i] {
            Some(si) => {
                let mut j: usize = i + 1;
                while j < n
                    invariant
                        n == sigs@.len(),
                        i < j <= n,
                        sigs@[i as int] == Some(*si),
                        sig_len_ok(si@),
                        forall|k: int| 0 <= k < sigs@.len() && (#[trigger] sigs@[k]) is Some ==> sig_len_ok(sigs@[k]->0@),
                        edges == video_edges(sigs@, radius as int),
                        uf.wf(),
                        uf.size() == n,
                        forall|e: (int, int)| #[trigger] uf.joined().contains(e) ==> edges.contains(e),
                        forall|a: int, b: int| 0 <= a < i && edges.contains((a, b)) ==> #[trigger] uf.joined().contains((a, b)),
                        forall|b: int| i < b < j && edges.contains((i as int, b)) ==> #[trigger] uf.joined().contains((i as int, b)),
                    decreases n - j,
                {
                    match &sigs[j] {
                        Some(sj) => {
                            let r = videos_similar(si.as_slice(), sj.as_slice(), radius);
                            if 5 * r.num >= 3 * r.den {
                                proof {
                                    assert(video_linked(sigs@, radius as int, i as int, j as int));
                                }
                                uf.union(i, j);
                            } else {
                                proof {
                                    assert(!video_linked(sigs@, radius as int, i as int, j as int));
                                }
                            }
                        },
                        None => {},
                    }
                    j = j + 1;
                }
            },
            None => {},
        }
        i = i + 1;
    }
    proof {
        assert forall|e: (int, int)| edges.contains(e) implies #[trigger] uf.joined().contains(e) by {
            assert(uf.joined().contains((e.0, e.1)));
        }
        assert(uf.joined() =~= edges);
    }
    let clusters = uf.clusters();
    proof {
        let cv = views(clusters@);
        assert forall|g: int, a: int, c: int|
            0 <= g < clusters@.len() && 0 <= a < c < clusters@[g]@.len() implies #[trigger] clusters@[g]@[a]
            < #[trigger] clusters@[g]@[c] by {
            assert(cv[g] == clusters@[g]@);
        }
        assert forall|g: int, a: int| 0 <= g < clusters@.len() && 0 <= a < clusters@[g]@.len() implies #[trigger] clusters@[g]@[a]
            < videos@.len() by {
            assert(cv[g] == clusters@[g]@);
        }
    }
    let out = groups_from_clusters(videos, &clusters, opts.keep_strategy, GroupKind::SimilarVideo);
    proof {
        let cv = views(clusters@);
        assert(crate::union_find::clusters_of(cv, edges, n as int));
    }
    out
}

/// Law: two videos are linked only when both have a signature and their similarity, the mean
/// of the shares of matched frames, is at least 60%.
pub proof fn law_linked_videos_reach_sixty_percent(sigs: Seq<Option<Vec<u64>>>, radius: int, i: int, j: int)
    requires
        video_edges(sigs, radius).contains((i, j)),
    ensures
        0 <= i < j < sigs.len(),
        sigs[i] is Some,
        sigs[j] is Some,
        5 * video_similarity(sigs[i]->0@, sigs[j]->0@, radius).0 >= 3 * video_similarity(
            sigs[i]->0@,
            sigs[j]->0@,
            radius,
        ).1,
{
}

proof fn lemma_no_match_count(a: Seq<u64>, b: Seq<u64>, radius: int)
    requires
        forall|x: int, y: int| 0 <= x < a.len() && 0 <= y < b.len() ==> hamming_spec(a[x], b[y]) > radius,
    ensures
        matched_count(a, b, radius) == 0,
    decreases a.len(),
{
    if a.len() > 0 {
        let d = a.drop_last();
        assert forall|x: int, y: int| 0 <= x < d.len() && 0 <= y < b.len() implies hamming_spec(d[x], b[y]) > radius by {
            assert(d[x] == a[x]);
        }
        lemma_no_match_count(d, b, radius);
        if frame_matched(a.last(), b, radius) {
            let y = choose|y: int| 0 <= y < b.len() && hamming_spec(a.last(), #[trigger] b[y]) <= radius;
            assert(hamming_spec(a[a.len() - 1], b[y]) > radius);
        }
    }
}

/// Law: two videos of which no frame lies within the radius of a frame of the other have
/// similarity 0 and are never linked.
pub proof fn law_videos_without_close_frames_not_linked(sigs: Seq<Option<Vec<u64>>>, radius: int, i: int, j: int)
    requires
        0 <= i < sigs.len(),
        0 <= j < sigs.len(),
        sigs[i] is Some,
        sigs[j] is Some,
        forall|x: int, y: int|
            0 <= x < sigs[i]->0@.len() && 0 <= y < sigs[j]->0@.len() ==> hamming_spec(sigs[i]->0@[x], sigs[j]->0@[y])
                > radius,
    ensures
        video_similarity(sigs[i]->0@, sigs[j]->0@, radius).0 == 0,
        !video_edges(sigs, radius).contains((i, j)),
{
    let a = sigs[i]->0@;
    let b = sigs[j]->0@;
    lemma_no_match_count(a, b, radius);
    assert forall|x: int, y: int| 0 <= x < b.len() && 0 <= y < a.len() implies hamming_spec(b[x], a[y]) > radius by {
        crate::bits::law_hamming_metric(a[y], b[x]);
    }
    lemma_no_match_count(b, a, radius);
    if a.len() > 0 && b.len() > 0 {
        assert((a.len() as int) * (b.len() as int) > 0) by (nonlinear_arith)
            requires
                a.len() > 0,
                b.len() > 0,
        ;
    }
}

} // verus!
