//! Three-stage funnel for exact duplicates.
//!
//! Stage 1 groups files by size (a unique size rules a file out). Stage 2 compares a
//! partial hash: files under 64 KiB are hashed whole (and their full digest comes for
//! free), larger ones by their size, first 4 KiB and last 4 KiB. Stage 3 compares the
//! BLAKE3 digest of the whole content. Reading the files is the caller's part; it hands
//! the bytes and the hashes back to the functions here.

use vstd::prelude::*;
use crate::grouping::{
    assemble_groups, assembled_from, built_from, collect_groups, entry_views, group_positions, group_positions_u64,
    keyed_groups, keyed_groups_with, sort_by_reclaimable, sorted_by_reclaimable, somes, stable_by_reclaimable,
};
use crate::models::{total_size, DuplicateGroup, FileEntry, GroupKind, KeepStrategy};


verus! {

/// Files below this size are read and hashed whole in stage 2.
pub const PARTIAL_THRESHOLD: u64 = 65536;

/// Number of bytes read from the head and from the tail of a large file in stage 2.
pub const HEAD_TAIL_SIZE: u64 = 4096;

/// What `xxhash_rust::xxh3::xxh3_128` returns for the given bytes.
pub uninterp spec fn xxh3_128_of(data: Seq<u8>) -> u128;

/// What `blake3::hash` returns for the given bytes.
pub uninterp spec fn blake3_digest(data: Seq<u8>) -> Seq<u8>;

/// The bytes fed to a `blake3::Hasher` so far.
pub uninterp spec fn hasher_input(h: blake3::Hasher) -> Seq<u8>;

#[verifier::external_type_specification]
#[verifier::external_body]
pub struct ExBlake3Hasher(blake3::Hasher);

/// `xxhash_rust::xxh3::xxh3_128`: the 128-bit XXH3 hash (seed 0) of the bytes; the result is
/// named, not stated.
#[verifier::external_body]
fn xxh3_128(data: &[u8]) -> (r: u128)
    ensures
        r == xxh3_128_of(data@),
{
    xxhash_rust::xxh3::xxh3_128(data)
}

/// `blake3::hash`: the 32-byte BLAKE3 digest of the bytes; the digest is named, not stated.
#[verifier::external_body]
fn blake3_hash(data: &[u8]) -> (r: [u8; 32])
    ensures
        r@ == blake3_digest(data@),
{
    *blake3::hash(data).as_bytes()
}

/// `blake3::Hasher::new`: a hasher that has been fed nothing.
#[verifier::external_body]
fn blake3_hasher_new() -> (h: blake3::Hasher)
    ensures
        hasher_input(h) == Seq::<u8>::empty(),
{
    blake3::Hasher::new()
}

/// `blake3::Hasher::update`: appends the bytes to what the hasher was fed.
#[verifier::external_body]
fn blake3_hasher_update(h: &mut blake3::Hasher, data: &[u8])
    ensures
        hasher_input(*final(h)) == hasher_input(*old(h)) + data@,
{
    h.update(data);
}

/// `blake3::Hasher::finalize`: the digest of everything fed so far, the same as
/// `blake3::hash` of those bytes (the crate's documentation shows the two agree).
#[verifier::external_body]
fn blake3_hasher_finalize(h: &blake3::Hasher) -> (r: [u8; 32])
    ensures
        r@ == blake3_digest(hasher_input(*h)),
{
    *h.finalize().as_bytes()
}

/// Incremental BLAKE3 digest of a file's content, fed chunk by chunk.
pub struct ContentHasher {
    hasher: blake3::Hasher,
}

impl ContentHasher {
    /// The bytes fed so far.
    pub closed spec fn fed(&self) -> Seq<u8> {
        hasher_input(self.hasher)
    }

    pub fn new() -> (h: Self)
        ensures
            h.fed() == Seq::<u8>::empty(),
    {
        ContentHasher { hasher: blake3_hasher_new() }
    }

    pub fn update(&mut self, chunk: &[u8])
        ensures
            final(self).fed() == old(self).fed() + chunk@,
    {
        blake3_hasher_update(&mut self.hasher, chunk);
    }

    /// Digest of all bytes fed.
    pub fn finish(&self) -> (d: [u8; 32])
        ensures
            d@ == blake3_digest(self.fed()),
    {
        blake3_hasher_finalize(&self.hasher)
    }
}

/// Stage 2 reads the whole file when it is smaller than the threshold.
pub fn reads_whole_file(size: u64) -> (r: bool)
    ensures
        r == (size < PARTIAL_THRESHOLD),
{
    size < PARTIAL_THRESHOLD
}

/// Where stage 2 starts reading the tail of a large file.
pub fn tail_offset(size: u64) -> (r: u64)
    ensures
        r == (if size >= HEAD_TAIL_SIZE { size - HEAD_TAIL_SIZE } else { 0 }),
{
    if size >= HEAD_TAIL_SIZE {
        size - HEAD_TAIL_SIZE
    } else {
        0
    }
}

/// The bytes hashed for a large file: its size (little endian), then head, then tail.
pub open spec fn partial_input(size: u64, head: Seq<u8>, tail: Seq<u8>) -> Seq<u8> {
    vstd::bytes::spec_u64_to_le_bytes(size) + head + tail
}

/// Stage 2 hash of a file of `size` bytes. For a small file `head` is its whole content and the
/// full digest comes with it; for a large file `head` and `tail` are its first and last bytes.
pub fn compute_partial(size: u64, head: &[u8], tail: &[u8]) -> (r: (u128, Option<[u8; 32]>))
    ensures
        size < PARTIAL_THRESHOLD ==> (r.0 == xxh3_128_of(head@) && (r.1 matches Some(d) && d@ == blake3_digest(head@))),
        size >= PARTIAL_THRESHOLD ==> r.0 == xxh3_128_of(partial_input(size, head@, tail@)) && r.1 is None,
{
    if size < PARTIAL_THRESHOLD {
        let p = xxh3_128(head);
        let full = blake3_hash(head);
        (p, Some(full))
    } else {
        let le = vstd::bytes::u64_to_le_bytes(size);
        let mut buf: Vec<u8> = Vec::new();
        buf.extend_from_slice(le.as_slice());
        buf.extend_from_slice(head);
        buf.extend_from_slice(tail);
        proof {
            assert(buf@ =~= partial_input(size, head@, tail@));
        }
        (xxh3_128(buf.as_slice()), None)
    }
}

/// Keys of stage 1: the size of every file.
pub open spec fn size_keys(entries: Seq<FileEntry>) -> Seq<Option<u64>> {
    somes(entries.map_values(|e: FileEntry| e.size))
}

/// Stage 1: the groups of files that share a size with at least one other file.
pub fn size_candidates(entries: &Vec<FileEntry>) -> (groups: Vec<Vec<FileEntry>>)
    ensures
        keyed_groups(entries@, size_keys(entries@), entry_views(groups@)),
{
    let n = entries.len();
    let mut sizes: Vec<u64> = Vec::with_capacity(n);
    let mut i: usize = 0;
    while i < n
        invariant
            n == entries@.len(),
            i <= n,
            sizes@.len() == i,
            forall|t: int| 0 <= t < i ==> sizes@[t] == entries@[t].size,
        decreases n - i,
    {
        sizes.push(entries[i].size);
        i = i + 1;
    }
    proof {
        assert(sizes@ =~= entries@.map_values(|e: FileEntry| e.size));
    }
    let idx = group_positions_u64(&sizes);
    collect_groups::<u64>(entries, Ghost(size_keys(entries@)), &idx)
}

/// Stage 2: splits a candidate group by partial hash; `partials[i]` is the hash of `group[i]`,
/// `None` where it could not be computed (such files drop out).
pub fn split_by_partial(group: &Vec<FileEntry>, partials: &Vec<Option<u128>>) -> (groups: Vec<Vec<FileEntry>>)
    requires
        partials@.len() == group@.len(),
    ensures
        keyed_groups(group@, partials@, entry_views(groups@)),
{
    let idx = group_positions(partials);
    collect_groups::<u128>(group, Ghost(partials@), &idx)
}

/// Stage 3: splits a candidate group by full-content digest; `digests[i]` is the digest of
/// `group[i]`, `None` where it could not be computed (such files drop out).
pub fn split_by_digest(group: &Vec<FileEntry>, digests: &Vec<Option<[u8; 32]>>) -> (groups: Vec<Vec<FileEntry>>)
    requires
        digests@.len() == group@.len(),
    ensures
        keyed_groups(group@, digests@, entry_views(groups@)),
{
    let idx = group_positions(digests);
    collect_groups::<[u8; 32]>(group, Ghost(digests@), &idx)
}

/// Final assembly: every confirmed list of identical files becomes an exact group with its
/// reference file first, and the groups are ordered by reclaimable space, largest first.
pub fn exact_groups(confirmed: Vec<Vec<FileEntry>>, keep: KeepStrategy) -> (out: Vec<DuplicateGroup>)
    requires
        forall|g: int| 0 <= g < confirmed@.len() ==> total_size((#[trigger] confirmed@[g])@) <= u64::MAX,
    ensures
        sorted_by_reclaimable(out@),
        exists|built: Seq<DuplicateGroup>, pi: Seq<int>|
            #[trigger] assembled_from(built, entry_views(confirmed@), keep, GroupKind::Exact) && #[trigger] stable_by_reclaimable(
                out@,
                built,
                pi,
            ),
{
    let ghost lists = entry_views(confirmed@);
    let built = assemble_groups(confirmed, keep, GroupKind::Exact);
    let ghost b = built@;
    proof {
        assert forall|i: int| 0 <= i < b.len() implies built_from(#[trigger] b[i], lists[i], keep, GroupKind::Exact) by {
            assert(lists[i] == confirmed@[i]@);
        }
        assert(assembled_from(b, lists, keep, GroupKind::Exact));
    }
    let out = sort_by_reclaimable(built);
    proof {
        let pi = choose|pi: Seq<int>| #[trigger] stable_by_reclaimable(out@, b, pi);
        assert(assembled_from(b, lists, keep, GroupKind::Exact) && stable_by_reclaimable(out@, b, pi));
    }
    out
}

/// The key of a file at the end of the funnel: its size, partial hash and content digest, or
/// `None` where either hash is missing.
pub open spec fn funnel_keys(
    entries: Seq<FileEntry>,
    partials: Seq<Option<u128>>,
    digests: Seq<Option<[u8; 32]>>,
) -> Seq<Option<(u64, u128, [u8; 32])>> {
    Seq::new(
        entries.len(),
        |i: int|
            if partials[i] is Some && digests[i] is Some {
                Some((entries[i].size, partials[i]->0, digests[i]->0))
            } else {
                None
            },
    )
}

/// The exact groups of a scan: the classes of at least two files that agree in size, partial
/// hash and content digest, each an exact group with its reference file first, ordered by
/// reclaimable space. `partials[i]` and `digests[i]` are the hashes of `entries[i]`, `None`
/// where a stage did not compute one (such files are in no group).
pub fn exact_duplicates(
    entries: &Vec<FileEntry>,
    partials: &Vec<Option<u128>>,
    digests: &Vec<Option<[u8; 32]>>,
    keep: KeepStrategy,
) -> (out: Vec<DuplicateGroup>)
    requires
        partials@.len() == entries@.len(),
        digests@.len() == entries@.len(),
        total_size(entries@) <= u64::MAX,
    ensures
        exists|lists: Seq<Seq<FileEntry>>, built: Seq<DuplicateGroup>, pi: Seq<int>|
            #[trigger] keyed_groups(entries@, funnel_keys(entries@, partials@, digests@), lists) && #[trigger] assembled_from(
                built,
                lists,
                keep,
                GroupKind::Exact,
            ) && #[trigger] stable_by_reclaimable(out@, built, pi),
{
    let n = entries.len();
    let ghost fk = funnel_keys(entries@, partials@, digests@);
    let mut keys: Vec<Option<(u64, u128, [u8; 32])>> = Vec::with_capacity(n);
    let mut i: usize = 0;
    while i < n
        invariant
            i <= n,
            n == entries@.len(),
            partials@.len() == n,
            digests@.len() == n,
            fk == funnel_keys(entries@, partials@, digests@),
            keys@.len() == i,
            forall|t: int| 0 <= t < i ==> keys@[t] == fk[t],
        decreases n - i,
    {
        let k = match (partials[i], digests[i]) {
            (Some(p), Some(d)) => Some((entries[i].size, p, d)),
            _ => None,
        };
        keys.push(k);
        i = i + 1;
    }
    proof {
        assert(keys@ =~= fk);
    }
    let idx = group_positions(&keys);
    let confirmed = collect_groups::<(u64, u128, [u8; 32])>(entries, Ghost(fk), &idx);
    let ghost lists = entry_views(confirmed@);
    proof {
        let gk = choose|gk: Seq<(u64, u128, [u8; 32])>| #[trigger] keyed_groups_with(entries@, fk, lists, gk);
        assert forall|g: int| 0 <= g < confirmed@.len() implies total_size((#[trigger] confirmed@[g])@) <= u64::MAX by {
            assert(lists[g] == confirmed@[g]@);
            crate::grouping::lemma_select_total_size(entries@, fk, gk[g]);
        }
    }
    let out = exact_groups(confirmed, keep);
    proof {
        let (built, pi) = choose|built: Seq<DuplicateGroup>, pi: Seq<int>|
            #[trigger] assembled_from(built, lists, keep, GroupKind::Exact) && #[trigger] stable_by_reclaimable(
                out@,
                built,
                pi,
            );
        assert(keyed_groups(entries@, fk, lists));
    }
    out
}

} // verus!
