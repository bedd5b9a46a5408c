use dedup_core::fuzzy::{filename_similarity, find_fuzzy_name_duplicates, is_cjk, size_ratio_ok, split_words_of, words};
use dedup_core::models::{FileEntry, GroupKind, Ratio, ScanOptions};

fn ratio(r: Ratio) -> f64 {
    r.num as f64 / r.den as f64
}

fn entry(path: &str, size: u64, modified: u64) -> FileEntry {
    FileEntry { path: path.to_string(), size, modified, created: 0 }
}

#[test]
fn similarity_dupeguru_example() {
    let sim = ratio(filename_similarity("a b c d", "c d e", false));
    assert!((sim - 4.0 / 7.0).abs() < 0.02, "expected about 0.571, got {sim}");
}

#[test]
fn similarity_identical_names() {
    assert_eq!(ratio(filename_similarity("report.txt", "report.txt", true)), 1.0);
}

#[test]
fn similarity_copy_variant() {
    let sim = ratio(filename_similarity("报告.txt", "报告 副本.txt", true));
    assert!(sim > 0.5, "expected a high similarity, got {sim}");
}

#[test]
fn words_split_underscore() {
    assert_eq!(words("report_final_v2.txt"), vec!["report", "final", "v2", "txt"]);
}

#[test]
fn words_chinese() {
    assert_eq!(words("文档A.txt"), vec!["文", "档", "a", "txt"]);
}

#[test]
fn fuzzy_similarity_threshold_respects() {
    assert!((ratio(filename_similarity("a b c d", "c d e", false)) - 4.0 / 7.0).abs() < 0.02);
    assert_eq!(ratio(filename_similarity("report.txt", "report.txt", true)), 1.0);
}

#[test]
fn fuzzy_filename_matching() {
    let entries = vec![
        entry("/scan/fuzzy/report.txt", 13, 1),
        entry("/scan/fuzzy/report copy.txt", 22, 2),
        entry("/scan/fuzzy/report final.txt", 31, 3),
        entry("/scan/fuzzy/unrelated.txt", 23, 4),
    ];
    let mut opts = ScanOptions::default();
    opts.fuzzy_filename = true;
    opts.fuzzy_threshold = 60;
    opts.fuzzy_same_dir_only = true;
    let fuzzy = find_fuzzy_name_duplicates(&entries, &opts);
    assert_eq!(fuzzy.len(), 1, "expected one group, got {}", fuzzy.len());
    assert_eq!(fuzzy[0].files.len(), 3);
    assert!(fuzzy[0].kind == GroupKind::FuzzyName);
    for f in &fuzzy[0].files {
        assert!(!f.path.ends_with("unrelated.txt"));
    }
    // oldest first under the default strategy
    assert_eq!(fuzzy[0].files[0].path, "/scan/fuzzy/report.txt");
    assert_eq!(fuzzy[0].reclaimable, 22 + 31);
}

#[test]
fn similarity_exact_fractions() {
    let r = filename_similarity("a b c d", "c d e", false);
    assert_eq!((r.num, r.den), (4, 7));
    let none = filename_similarity("", "abc", true);
    assert_eq!(none.num, 0);
    // "report" and "reports" are one edit apart: they match only with similar words on
    let strict = filename_similarity("report.txt", "reports.txt", false);
    let loose = filename_similarity("report.txt", "reports.txt", true);
    assert_eq!((strict.num, strict.den), (2, 4));
    assert_eq!((loose.num, loose.den), (4, 4));
}

#[test]
fn similarity_never_exceeds_one() {
    let pairs = [("a a a", "a"), ("x y", "y x y x"), ("报告 报告", "报告")];
    for (a, b) in pairs {
        let r = filename_similarity(a, b, true);
        assert!(r.num <= r.den, "{a} / {b}: {} over {}", r.num, r.den);
    }
}

#[test]
fn same_dir_only_keeps_folders_apart() {
    let entries = vec![entry("/a/report.txt", 10, 1), entry("/b/report.txt", 10, 2)];
    let mut opts = ScanOptions::default();
    opts.fuzzy_threshold = 80;
    opts.fuzzy_same_dir_only = true;
    assert_eq!(find_fuzzy_name_duplicates(&entries, &opts).len(), 0);
    opts.fuzzy_same_dir_only = false;
    assert_eq!(find_fuzzy_name_duplicates(&entries, &opts).len(), 1);
}

#[test]
fn size_ratio_rule() {
    assert!(size_ratio_ok(100, 400));
    assert!(!size_ratio_ok(100, 401));
    assert!(size_ratio_ok(0, 0));
    assert!(!size_ratio_ok(0, 5));
}

#[test]
fn cjk_characters() {
    assert!(is_cjk('文'));
    assert!(!is_cjk('a'));
}

#[test]
fn split_words_takes_text_as_is() {
    assert_eq!(split_words_of("Report_V2文档.TXT"), vec!["Report", "V2", "文", "档", "TXT"]);
    assert!(split_words_of("--  ..").is_empty());
}

#[test]
fn similar_words_one_edit_apart() {
    // substitution, insertion and deletion each count; two edits do not
    for (a, b, m) in [("cat dog", "cut dog", 4), ("cat dog", "cart dog", 4), ("cart dog", "cat dog", 4), ("cat dog", "cup dog", 2), ("abc", "xyz", 0)] {
        let r = filename_similarity(a, b, true);
        assert_eq!(r.num, m, "{a} / {b}");
    }
}
