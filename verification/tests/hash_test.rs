use dedup_core::hash::{compute_partial, exact_duplicates, exact_groups, reads_whole_file, size_candidates, split_by_digest, split_by_partial, tail_offset, ContentHasher};
use dedup_core::models::{FileEntry, GroupKind, KeepStrategy};

fn entry(path: &str, size: u64, modified: u64) -> FileEntry {
    FileEntry { path: path.to_string(), size, modified, created: 0 }
}

#[test]
fn partial_hash_of_small_and_large_files() {
    let (p, full) = compute_partial(5, b"hello", b"");
    assert_eq!(p, xxhash_rust::xxh3::xxh3_128(b"hello"));
    assert_eq!(full, Some(*blake3::hash(b"hello").as_bytes()));
    let head = vec![1u8; 4096];
    let tail = vec![2u8; 4096];
    let (p, full) = compute_partial(70000, &head, &tail);
    let mut buf = 70000u64.to_le_bytes().to_vec();
    buf.extend_from_slice(&head);
    buf.extend_from_slice(&tail);
    assert_eq!(p, xxhash_rust::xxh3::xxh3_128(&buf));
    assert!(full.is_none());
    assert!(reads_whole_file(65535));
    assert!(!reads_whole_file(65536));
    assert_eq!(tail_offset(70000), 70000 - 4096);
    assert_eq!(tail_offset(100), 0);
}

#[test]
fn streamed_digest_matches_whole() {
    let mut h = ContentHasher::new();
    h.update(b"hello ");
    h.update(b"world");
    assert_eq!(h.finish(), *blake3::hash(b"hello world").as_bytes());
    assert_ne!(ContentHasher::new().finish(), *blake3::hash(b"x").as_bytes());
}

#[test]
fn exact_pipeline_groups_identical_content() {
    let content_a: &[u8] = b"hello duplicate world, this is a test payload";
    let content_b: &[u8] = b"a completely different file body";
    let files: Vec<(FileEntry, &[u8])> = vec![
        (entry("/t/a.txt", content_a.len() as u64, 3), content_a),
        (entry("/t/b.txt", content_a.len() as u64, 1), content_a),
        (entry("/t/sub/c.txt", content_b.len() as u64, 2), content_b),
        (entry("/t/sub/d.txt", content_a.len() as u64, 2), content_a),
        (entry("/t/e.bin", 6, 2), b"unique"),
    ];
    let entries: Vec<FileEntry> = files.iter().map(|(e, _)| e.clone()).collect();
    let content_of = |e: &FileEntry| files.iter().find(|(f, _)| f.path == e.path).unwrap().1;
    let candidates = size_candidates(&entries);
    assert_eq!(candidates.len(), 1);
    let mut confirmed = Vec::new();
    for g in &candidates {
        let partials: Vec<Option<u128>> = g.iter().map(|e| Some(compute_partial(e.size, content_of(e), &[]).0)).collect();
        for pg in split_by_partial(g, &partials) {
            let digests: Vec<Option<[u8; 32]>> = pg.iter().map(|e| Some(*blake3::hash(content_of(e)).as_bytes())).collect();
            confirmed.extend(split_by_digest(&pg, &digests));
        }
    }
    let groups = exact_groups(confirmed, KeepStrategy::KeepOldest);
    assert_eq!(groups.len(), 1);
    let g = &groups[0];
    assert!(g.kind == GroupKind::Exact);
    assert_eq!(g.files.len(), 3);
    assert_eq!(g.files[0].path, "/t/b.txt");
    assert_eq!(g.reclaimable, 2 * content_a.len() as u64);
}

#[test]
fn failed_hashes_drop_out() {
    let g = vec![entry("/x/1", 10, 0), entry("/x/2", 10, 0), entry("/x/3", 10, 0)];
    let parts = split_by_partial(&g, &vec![Some(7u128), None, Some(7u128)]);
    assert_eq!(parts.len(), 1);
    let paths: Vec<&str> = parts[0].iter().map(|e| e.path.as_str()).collect();
    assert_eq!(paths, vec!["/x/1", "/x/3"]);
    let d = split_by_digest(&g, &vec![Some([1u8; 32]), Some([2u8; 32]), None]);
    assert!(d.is_empty());
}

#[test]
fn exact_groups_ordered_by_reclaimable() {
    let small = vec![entry("/s/1", 10, 0), entry("/s/2", 10, 0)];
    let large = vec![entry("/l/1", 99, 0), entry("/l/2", 99, 0)];
    let other = vec![entry("/o/1", 10, 5), entry("/o/2", 10, 4)];
    let groups = exact_groups(vec![small, large, other], KeepStrategy::KeepFirst);
    let firsts: Vec<&str> = groups.iter().map(|g| g.files[0].path.as_str()).collect();
    assert_eq!(firsts, vec!["/l/1", "/s/1", "/o/1"]);
}

#[test]
fn funnel_classes_by_size_partial_and_digest() {
    let entries = vec![
        entry("/f/1", 10, 3),
        entry("/f/2", 10, 1),
        entry("/f/3", 10, 2),
        entry("/f/4", 20, 0),
        entry("/f/5", 20, 0),
        entry("/f/6", 10, 0),
    ];
    let partials = vec![Some(1u128), Some(1), Some(1), Some(1), Some(1), None];
    let digests = vec![Some([7u8; 32]), Some([7u8; 32]), Some([8u8; 32]), Some([7u8; 32]), Some([7u8; 32]), Some([7u8; 32])];
    let groups = exact_duplicates(&entries, &partials, &digests, KeepStrategy::KeepOldest);
    let got: Vec<Vec<&str>> = groups.iter().map(|g| g.files.iter().map(|f| f.path.as_str()).collect()).collect();
    assert_eq!(got, vec![vec!["/f/4", "/f/5"], vec!["/f/2", "/f/1"]]);
}
