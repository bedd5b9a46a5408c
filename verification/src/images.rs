//! Similar images: 64-bit perceptual hashes within a Hamming radius, clustered.

use std::collections::HashMap;
use vstd::prelude::*;
use crate::bits::{hamming_spec, law_hamming_metric};
use crate::bktree::BKTree;
use crate::grouping::{clustered_groups, groups_from_clusters, views};
use crate::models::{total_size, DuplicateGroup, FileEntry, GroupKind, ScanOptions};
use crate::scan::{entries_with_ext, files_with_ext};
use crate::text::{in_list, listed, opt_view};
use crate::union_find::UnionFind;

verus! {

broadcast use vstd::std_specs::hash::group_hash_axioms;

/// Extensions of the image formats that are hashed.
pub const IMAGE_EXTS: [&'static str; 7] = ["jpg", "jpeg", "png", "gif", "bmp", "webp", "ico"];

/// An extension names an image format (ASCII case ignored).
pub open spec fn image_ext_spec(ext: Option<Seq<char>>) -> bool {
    match ext {
        Some(e) => listed(IMAGE_EXTS@, e),
        None => false,
    }
}

/// Whether an extension names an image format (ASCII case ignored).
pub fn is_image_ext(ext: Option<&str>) -> (r: bool)
    ensures
        r == image_ext_spec(opt_view(ext)),
{
    match ext {
        Some(e) => in_list(e, &IMAGE_EXTS),
        None => false,
    }
}

/// Keeps the files whose extension names an image format.
pub fn image_entries(entries: &Vec<FileEntry>) -> (out: Vec<FileEntry>)
    ensures
        out@ == files_with_ext(entries@, IMAGE_EXTS@),
{
    entries_with_ext(entries, &IMAGE_EXTS)
}

/// The comparison radius: the threshold, at most 64.
pub open spec fn image_radius(threshold: u32) -> int {
    if threshold < 64 {
        threshold as int
    } else {
        64
    }
}

/// Images `i` and `j` both have a hash, and the hashes lie within `radius` bits.
pub open spec fn image_linked(hashes: Seq<Option<u64>>, radius: int, i: int, j: int) -> bool {
    &&& hashes[i] is Some
    &&& hashes[j] is Some
    &&& hamming_spec(hashes[i]->0, hashes[j]->0) <= radius
}

/// The links between images, as ordered pairs of positions.
pub open spec fn image_edges(hashes: Seq<Option<u64>>, radius: int) -> Set<(int, int)> {
    Set::new(|e: (int, int)| 0 <= e.0 < e.1 < hashes.len() && image_linked(hashes, radius, e.0, e.1))
}

/// Groups of similar images: the connected components (of at least two images) of the links
/// between images whose hashes lie within the threshold, each ordered by the keep strategy.
/// `hashes[i]` is the perceptual hash of `images[i]`, or `None` where it could not be had.
pub fn find_similar_images(images: &Vec<FileEntry>, hashes: &Vec<Option<u64>>, opts: &ScanOptions) -> (out: Vec<
    DuplicateGroup,
>)
    requires
        hashes@.len() == images@.len(),
        total_size(images@) <= u64::MAX,
    ensures
        clustered_groups(
            out@,
            images@,
            image_edges(hashes@, image_radius(opts.image_threshold)),
            opts.keep_strategy,
            GroupKind::SimilarImage,
        ),
{
    let n = images.len();
    let radius: u32 = if opts.image_threshold < 64 {
        opts.image_threshold
    } else {
        64
    };
    let ghost hs = hashes@;
    let ghost edges = image_edges(hs, radius as int);
    // one tree node per distinct hash, and the images of every hash
    let mut tree = BKTree::new();
    let mut index: HashMap<u64, Vec<usize>> = HashMap::new();
    let mut i: usize = 0;
    while i < n
        invariant
            n == hs.len(),
            hs == hashes@,
            i <= n,
            tree.wf(),
            forall|x: u64| tree.hashes().contains(x) <==> exists|j: int| 0 <= j < i && hs[j] == Some(x),
            forall|x: u64| index@.contains_key(x) <==> exists|j: int| 0 <= j < i && hs[j] == Some(x),
            forall|x: u64, j: int|
                index@.contains_key(x) && 0 <= j < n ==> (#[trigger] index@[x]@.contains(j as usize) <==> (j < i
                    && hs[j] == Some(x))),
            forall|x: u64, t: int| index@.contains_key(x) && 0 <= t < index@[x]@.len() ==> #[trigger] index@[x]@[t] < n,
        decreases n - i,
    {
        match hashes[i] {
            Some(h) => {
                tree.insert(h);
                let ghost old_index = index@;
                let mut list = match index.remove(&h) {
                    Some(v) => v,
                    None => Vec::new(),
                };
                let ghost before = list@;
                proof {
                    if !old_index.contains_key(h) {
                        assert(before.len() == 0);
                    }
                }
                list.push(i);
                index.insert(h, list);
                proof {
                    assert forall|x: u64| index@.contains_key(x) <==> exists|j: int| 0 <= j < i + 1 && hs[j] == Some(x) by {
                        if x == h {
                            assert(hs[i as int] == Some(x));
                        } else if exists|j: int| 0 <= j < i + 1 && hs[j] == Some(x) {
                            let j = choose|j: int| 0 <= j < i + 1 && hs[j] == Some(x);
                            assert(j < i);
                            assert(old_index.contains_key(x));
                        }
                    }
                    assert forall|x: u64| tree.hashes().contains(x) <==> exists|j: int| 0 <= j < i + 1 && hs[j] == Some(x) by {
                        if x == h {
                            assert(hs[i as int] == Some(x));
                        } else if exists|j: int| 0 <= j < i + 1 && hs[j] == Some(x) {
                            let j = choose|j: int| 0 <= j < i + 1 && hs[j] == Some(x);
                            assert(j < i);
                        }
                    }
                    assert forall|x: u64, j: int| index@.contains_key(x) && 0 <= j < n implies (
                        #[trigger] index@[x]@.contains(j as usize) <==> (j < i + 1 && hs[j] == Some(x))) by {
                        if x == h {
                            assert(index@[x]@ == before.push(i));
                            if j == i {
                                assert(index@[x]@[before.len() as int] == i);
                            } else if index@[x]@.contains(j as usize) {
                                let t = choose|t: int| 0 <= t < index@[x]@.len() && index@[x]@[t] == j as usize;
                                assert(before[t] == j as usize);
                                assert(old_index.contains_key(x));
                                assert(old_index[x]@.contains(j as usize));
                            } else if j < i && hs[j] == Some(x) {
                                assert(old_index.contains_key(x));
                                assert(old_index[x]@.contains(j as usize));
                                let t = choose|t: int| 0 <= t < before.len() && before[t] == j as usize;
                                assert(index@[x]@[t] == j as usize);
                            }
                        } else {
                            assert(index@[x] == old_index[x]);
                        }
                    }
                    assert forall|x: u64, t: int| index@.contains_key(x) && 0 <= t < index@[x]@.len() implies #[trigger] index@[x]@[t] < n by {
                        if x == h {
                            if t < before.len() {
                                assert(old_index[x]@[t] == before[t]);
                            }
                        } else {
                            assert(index@[x] == old_index[x]);
                        }
                    }
                }
            },
            None => {
                proof {
                    assert forall|x: u64| tree.hashes().contains(x) <==> exists|j: int| 0 <= j < i + 1 && hs[j] == Some(x) by {
                        if exists|j: int| 0 <= j < i + 1 && hs[j] == Some(x) {
                            let j = choose|j: int| 0 <= j < i + 1 && hs[j] == Some(x);
                            assert(j != i);
                        }
                    }
                    assert forall|x: u64| index@.contains_key(x) <==> exists|j: int| 0 <= j < i + 1 && hs[j] == Some(x) by {
                        if exists|j: int| 0 <= j < i + 1 && hs[j] == Some(x) {
                            let j = choose|j: int| 0 <= j < i + 1 && hs[j] == Some(x);
                            assert(j != i);
                        }
                    }
                }
            },
        }
        i = i + 1;
    }
    let mut uf = UnionFind::new(n);
    let mut i: usize = 0;
    while i < n
        invariant
            n == hs.len(),
            hs == hashes@,
            n == images@.len(),
            i <= n,
            tree.wf(),
            edges == image_edges(hs, radius as int),
            radius as int == image_radius(opts.image_threshold),
            forall|x: u64| tree.hashes().contains(x) <==> exists|j: int| 0 <= j < n && hs[j] == Some(x),
            forall|x: u64| index@.contains_key(x) <==> exists|j: int| 0 <= j < n && hs[j] == Some(x),
            forall|x: u64, j: int|
                index@.contains_key(x) && 0 <= j < n ==> (#[trigger] index@[x]@.contains(j as usize) <==> hs[j]
                    == Some(x)),
            forall|x: u64, t: int| index@.contains_key(x) && 0 <= t < index@[x]@.len() ==> #[trigger] index@[x]@[t] < n,
            uf.wf(),
            uf.size() == n,
            forall|e: (int, int)| #[trigger] uf.joined().contains(e) ==> edges.contains(e),
            forall|a: int, b: int| 0 <= a < i && edges.contains((a, b)) ==> #[trigger] uf.joined().contains((a, b)),
        decreases n - i,
    {
        match hashes[i] {
            Some(h) => {
                let near = tree.query(h, radius);
                let mut p: usize = 0;
                while p < near.len()
                    invariant
                        n == hs.len(),
                        hs == hashes@,
                        i < n,
                        hs[i as int] == Some(h),
                        tree.wf(),
                        edges == image_edges(hs, radius as int),
                        forall|k: int| 0 <= k < near@.len() ==> (#[trigger] near@[k] as int) < tree.hashes().len(),
                        forall|k: int| 0 <= k < near@.len() ==> hamming_spec(tree.hashes()[#[trigger] near@[k] as int], h) <= radius,
                        forall|k: int|
                            0 <= k < tree.hashes().len() ==> (near@.contains(k as usize) <==> hamming_spec(
                                tree.hashes()[k],
                                h,
                            ) <= radius),
                        p <= near@.len(),
                        forall|x: u64, j: int|
                            index@.contains_key(x) && 0 <= j < n ==> (#[trigger] index@[x]@.contains(j as usize)
                                <==> hs[j] == Some(x)),
                        forall|x: u64, t: int|
                            index@.contains_key(x) && 0 <= t < index@[x]@.len() ==> #[trigger] index@[x]@[t] < n,
                        forall|x: u64| index@.contains_key(x) <==> exists|j: int| 0 <= j < n && hs[j] == Some(x),
                        uf.wf(),
                        uf.size() == n,
                        forall|e: (int, int)| #[trigger] uf.joined().contains(e) ==> edges.contains(e),
                        forall|a: int, b: int| 0 <= a < i && edges.contains((a, b)) ==> #[trigger] uf.joined().contains((a, b)),
                        forall|q: int, b: int|
                            0 <= q < p && i < b < n && hs[b] == Some(tree.hashes()[#[trigger] near@[q] as int]) ==> #[trigger] uf.joined().contains(
                                (i as int, b),
                            ),
                    decreases near@.len() - p,
                {
                    let nh = tree.node_hash(near[p]);
                    match index.get(&nh) {
                        Some(idxs) => {
                            proof {
                                assert forall|t: int| 0 <= t < idxs@.len() implies hs[#[trigger] idxs@[t] as int] == Some(nh) by {
                                    assert(index@.contains_key(nh));
                                    assert(index@[nh] == *idxs);
                                    assert(idxs@[t] < n);
                                    let j: int = idxs@[t] as int;
                                    assert(idxs@.contains(j as usize));
                                    assert(index@[nh]@.contains(j as usize));
                                }
                            }
                            let mut r: usize = 0;
                            while r < idxs.len()
                                invariant
                                    n == hs.len(),
                                    i < n,
                                    hs[i as int] == Some(h),
                                    hamming_spec(nh, h) <= radius,
                                    edges == image_edges(hs, radius as int),
                                    forall|t: int| 0 <= t < idxs@.len() ==> #[trigger] idxs@[t] < n,
                                    forall|t: int| 0 <= t < idxs@.len() ==> hs[#[trigger] idxs@[t] as int] == Some(nh),
                                    r <= idxs@.len(),
                                    uf.wf(),
                                    uf.size() == n,
                                    forall|e: (int, int)| #[trigger] uf.joined().contains(e) ==> edges.contains(e),
                                    forall|a: int, b: int|
                                        0 <= a < i && edges.contains((a, b)) ==> #[trigger] uf.joined().contains((a, b)),
                                    forall|q: int, b: int|
                                        0 <= q < p && i < b < n && hs[b] == Some(tree.hashes()[#[trigger] near@[q] as int])
                                            ==> #[trigger] uf.joined().contains((i as int, b)),
                                    forall|t: int| 0 <= t < r && i < #[trigger] idxs@[t] ==> uf.joined().contains((i as int, idxs@[t] as int)),
                                decreases idxs@.len() - r,
                            {
                                let j = idxs[r];
                                if j > i {
                                    proof {
                                        law_hamming_metric(nh, h);
                                        assert(image_linked(hs, radius as int, i as int, j as int));
                                        assert(edges.contains((i as int, j as int)));
                                    }
                                    uf.union(i, j);
                                }
                                r = r + 1;
                            }
                            proof {
                                assert forall|b: int| i < b < n && hs[b] == Some(nh) implies uf.joined().contains((i as int, b)) by {
                                    assert(idxs@.contains(b as usize));
                                    let t = choose|t: int| 0 <= t < idxs@.len() && idxs@[t] == b as usize;
                                }
                            }
                        },
                        None => {
                            proof {
                                assert forall|b: int| i < b < n implies hs[b] != Some(nh) by {}
                            }
                        },
                    }
                    p = p + 1;
                }
                proof {
                    assert forall|b: int| i < b < n && edges.contains((i as int, b)) implies #[trigger] uf.joined().contains((i as int, b)) by {
                        let hb = hs[b]->0;
                        assert(image_linked(hs, radius as int, i as int, b));
                        assert(tree.hashes().contains(hb));
                        let k = choose|k: int| 0 <= k < tree.hashes().len() && tree.hashes()[k] == hb;
                        law_hamming_metric(hb, h);
                        assert(hs[i as int] == Some(h));
                        assert(hamming_spec(h, hb) <= radius);
                        assert(hamming_spec(tree.hashes()[k], h) <= radius);
                        assert(near@.contains(k as usize));
                        let q = choose|q: int| 0 <= q < near@.len() && near@[q] == k as usize;
                        assert(hs[b] == Some(tree.hashes()[near@[q] as int]));
                    }
                }
            },
            None => {},
        }
        i = i + 1;
    }
    proof {
        assert forall|e: (int, int)| edges.contains(e) implies #[trigger] uf.joined().contains(e) by {
            assert(uf.joined().contains((e.0, e.1)));
        }
        assert(uf.joined() =~= edges);
    }
    let clusters = uf.clusters();
    proof {
        let cv = views(clusters@);
        assert forall|g: int, a: int, c: int|
            0 <= g < clusters@.len() && 0 <= a < c < clusters@[g]@.len() implies #[trigger] clusters@[g]@[a]
            < #[trigger] clusters@[g]@[c] by {
            assert(cv[g] == clusters@[g]@);
        }
        assert forall|g: int, a: int| 0 <= g < clusters@.len() && 0 <= a < clusters@[g]@.len() implies #[trigger] clusters@[g]@[a]
            < images@.len() by {
            assert(cv[g] == clusters@[g]@);
        }
    }
    let out = groups_from_clusters(images, &clusters, opts.keep_strategy, GroupKind::SimilarImage);
    proof {
        let cv = views(clusters@);
        assert(crate::union_find::clusters_of(cv, edges, n as int));
    }
    out
}

/// What the image crate makes of an image file of the given extension: the image decoded,
/// resized to 32×32 with the triangle filter and turned to 8-bit grey, row by row; `None` where
/// the extension names no format it knows or the bytes do not decode.
pub uninterp spec fn gray32_of(bytes: Seq<u8>, ext: Seq<char>) -> Option<Seq<u8>>;

/// `image::ImageFormat::from_extension`, `image::ImageReader::with_format` over the bytes and
/// `decode`, then `resize_exact(32, 32, FilterType::Triangle)`, `to_luma8` and `into_raw`. The
/// pixels are named, not stated; there are 32 × 32 of them.
#[verifier::external_body]
fn image_gray32(bytes: &[u8], ext: &str) -> (r: Option<Vec<u8>>)
    ensures
        match r {
            Some(v) => gray32_of(bytes@, ext@) == Some(v@) && v@.len() == 1024,
            None => gray32_of(bytes@, ext@) is None,
        },
{
    let format = image::ImageFormat::from_extension(ext)?;
    let reader = image::ImageReader::with_format(std::io::Cursor::new(bytes), format);
    let img = reader.decode().ok()?;
    Some(img.resize_exact(32, 32, image::imageops::FilterType::Triangle).to_luma8().into_raw())
}

/// The 32×32 grey thumbnail from which the perceptual hash of an image is computed; `ext` is
/// the extension of its name, which decides the format.
pub fn gray_thumbnail(bytes: &[u8], ext: &str) -> (r: Option<Vec<u8>>)
    ensures
        match r {
            Some(v) => gray32_of(bytes@, ext@) == Some(v@) && v@.len() == 1024,
            None => gray32_of(bytes@, ext@) is None,
        },
{
    image_gray32(bytes, ext)
}

} // verus!
