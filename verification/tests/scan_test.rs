use dedup_core::models::{DuplicateGroup, FileEntry, GroupKind, ScanOptions, ToolItem, ToolKind};
use dedup_core::order::sort_by_keep;
use dedup_core::models::KeepStrategy;
use dedup_core::progress::is_cancelled;
use dedup_core::scan::{contains_str, ext_of, finish_scan, is_excluded_path, keeps_file, scanned_bytes, ungrouped_entries};
use dedup_core::text::{base_name, extension_of, parent_dir};
use dedup_core::union_find::UnionFind;
use std::sync::atomic::AtomicBool;

fn entry(path: &str, size: u64, modified: u64) -> FileEntry {
    FileEntry { path: path.to_string(), size, modified, created: 0 }
}

#[test]
fn file_filters() {
    let mut opts = ScanOptions::default();
    assert!(keeps_file(&opts, "/a/b.txt", 0));
    opts.min_size = 10;
    opts.max_size = 100;
    assert!(!keeps_file(&opts, "/a/b.txt", 9));
    assert!(!keeps_file(&opts, "/a/b.txt", 101));
    assert!(keeps_file(&opts, "/a/b.txt", 50));
    opts.only_extensions = vec!["TXT".to_string()];
    assert!(keeps_file(&opts, "/a/b.Txt", 50));
    assert!(!keeps_file(&opts, "/a/b.jpg", 50));
    assert!(!keeps_file(&opts, "/a/noext", 50));
    opts.only_extensions = vec![];
    opts.exclude_extensions = vec!["jpg".to_string()];
    assert!(!keeps_file(&opts, "/a/b.JPG", 50));
    assert!(keeps_file(&opts, "/a/noext", 50));
    opts.exclude_paths = vec!["".to_string(), "node_modules".to_string()];
    assert!(!keeps_file(&opts, "/a/node_modules/x.txt", 50));
    assert!(keeps_file(&opts, "/a/src/x.txt", 50));
    assert!(is_excluded_path("/x/cache/y", &vec!["cache".to_string()]));
    assert!(!is_excluded_path("/x/y", &vec!["".to_string()]));
}

#[test]
fn text_helpers() {
    assert!(contains_str("abcabd", "abd"));
    assert!(!contains_str("abc", "abcd"));
    assert!(contains_str("abc", ""));
    assert_eq!(ext_of("C:\\dir\\Photo.JPG").as_deref(), Some("jpg"));
    assert_eq!(ext_of("/dir/.hidden"), None);
    assert_eq!(extension_of("/dir/archive.tar.gz").as_deref(), Some("gz"));
    assert_eq!(parent_dir("C:\\a\\b.txt"), "C:\\a");
    assert_eq!(base_name("/a/b/c.txt"), "c.txt");
}

fn group(files: Vec<FileEntry>) -> DuplicateGroup {
    DuplicateGroup::new(files, GroupKind::Exact)
}

#[test]
fn grouped_files_leave_later_passes() {
    let entries = vec![entry("/1", 5, 0), entry("/2", 5, 0), entry("/3", 7, 0), entry("/4", 7, 0)];
    let groups = vec![group(vec![entry("/1", 5, 0), entry("/2", 5, 0)])];
    let rest = ungrouped_entries(&entries, &groups);
    let paths: Vec<&str> = rest.iter().map(|e| e.path.as_str()).collect();
    assert_eq!(paths, vec!["/3", "/4"]);
}

#[test]
fn scan_result_totals_and_order() {
    let entries = vec![entry("/1", 5, 0), entry("/2", 5, 0), entry("/3", 70, 0), entry("/4", 70, 0), entry("/5", 1, 0)];
    assert_eq!(scanned_bytes(&entries), 151);
    let g1 = group(vec![entry("/1", 5, 0), entry("/2", 5, 0)]);
    let g2 = group(vec![entry("/3", 70, 0), entry("/4", 70, 0)]);
    let g3 = DuplicateGroup::new(vec![entry("/6", 5, 0), entry("/7", 5, 0)], GroupKind::FuzzyName);
    let tools = vec![ToolItem { kind: ToolKind::BigFile, path: "/3".into(), size: 70, modified: 0, created: 0, detail: String::new() }];
    let r = finish_scan(vec![g1, g2, g3], tools, &entries, 4, 12);
    assert_eq!(r.scanned_files, 5);
    assert_eq!(r.scanned_bytes, 151);
    assert_eq!(r.cache_hits, 4);
    assert_eq!(r.elapsed_ms, 12);
    assert_eq!(r.tools.len(), 1);
    let order: Vec<(&str, GroupKind)> = r.groups.iter().map(|g| (g.files[0].path.as_str(), g.kind)).collect();
    assert_eq!(order, vec![("/3", GroupKind::Exact), ("/1", GroupKind::Exact), ("/6", GroupKind::FuzzyName)]);
}

#[test]
fn group_totals() {
    let g = group(vec![entry("/a", 10, 0), entry("/b", 10, 0), entry("/c", 10, 0)]);
    assert_eq!(g.file_size, 10);
    assert_eq!(g.reclaimable, 20);
    let e = group(vec![]);
    assert_eq!((e.file_size, e.reclaimable), (0, 0));
}

#[test]
fn keep_strategies() {
    let files = vec![entry("/b", 5, 20), entry("/a", 9, 10), entry("/c", 5, 20)];
    let mut f = files.clone();
    sort_by_keep(&mut f, KeepStrategy::KeepNewest);
    assert_eq!(f.iter().map(|e| e.path.as_str()).collect::<Vec<_>>(), vec!["/b", "/c", "/a"]);
    let mut f = files.clone();
    sort_by_keep(&mut f, KeepStrategy::KeepOldest);
    assert_eq!(f.iter().map(|e| e.path.as_str()).collect::<Vec<_>>(), vec!["/a", "/b", "/c"]);
    let mut f = files.clone();
    sort_by_keep(&mut f, KeepStrategy::KeepLargest);
    assert_eq!(f.iter().map(|e| e.path.as_str()).collect::<Vec<_>>(), vec!["/a", "/b", "/c"]);
    let mut f = files.clone();
    sort_by_keep(&mut f, KeepStrategy::KeepFirst);
    assert_eq!(f.iter().map(|e| e.path.as_str()).collect::<Vec<_>>(), vec!["/b", "/a", "/c"]);
}

#[test]
fn union_find_classes() {
    let mut uf = UnionFind::new(5);
    uf.union(0, 2);
    uf.union(3, 2);
    assert_eq!(uf.find(0), uf.find(3));
    assert_ne!(uf.find(0), uf.find(1));
    assert_eq!(uf.clusters(), vec![vec![0, 2, 3]]);
}

#[test]
fn cancellation_flag() {
    assert!(!is_cancelled(None));
    let flag = AtomicBool::new(true);
    assert!(is_cancelled(Some(&flag)));
}
