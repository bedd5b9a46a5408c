use dedup_core::models::{FileEntry, ToolKind};
use dedup_core::tools::{classify_entry, find_big_files, find_temp_files, is_ignorable, largest_positions, EntryType, EntryVerdict};

fn entry(path: &str, size: u64) -> FileEntry {
    FileEntry { path: path.to_string(), size, modified: 7, created: 3 }
}

#[test]
fn big_files_sorted() {
    let entries = vec![entry("/big/small", 100), entry("/big/big", 10000), entry("/big/mid", 1000)];
    let items = find_big_files(&entries, 2);
    assert_eq!(items.len(), 2);
    assert!(items[0].path.ends_with("big"), "the largest comes first");
    assert_eq!(items[1].path, "/big/mid");
}

#[test]
fn big_file_details() {
    let entries = vec![
        entry("/d/a", 1572864),
        entry("/d/b", 262144),
        entry("/d/c", 786432),
        entry("/d/empty", 0),
        entry("/d/huge", 5 * 1048576 * 1024),
    ];
    let items = find_big_files(&entries, 10);
    assert_eq!(items.len(), 4);
    let details: Vec<&str> = items.iter().map(|t| t.detail.as_str()).collect();
    assert_eq!(details, vec!["大文件（5120.0 MB）", "大文件（1.5 MB）", "大文件（0.8 MB）", "大文件（0.2 MB）"]);
    assert!(items.iter().all(|t| t.kind == ToolKind::BigFile && t.modified == 7 && t.created == 3));
    for (size, text) in [(10000u64, "大文件（0.0 MB）"), (104857, "大文件（0.1 MB）"), (u64::MAX, "大文件（17592186044416.0 MB）")] {
        let one = find_big_files(&vec![entry("/x", size)], 1);
        assert_eq!(one[0].detail, text);
        assert_eq!(one[0].detail, format!("大文件（{:.1} MB）", size as f64 / 1048576.0));
    }
}

#[test]
fn largest_positions_keep_ties_in_order() {
    let sizes = vec![5u64, 9, 5, 9, 1];
    assert_eq!(largest_positions(&sizes, 3), vec![1, 3, 0]);
    assert_eq!(largest_positions(&sizes, 10), vec![1, 3, 0, 2, 4]);
    assert!(largest_positions(&sizes, 0).is_empty());
}

#[test]
fn temp_files_found() {
    let entries = vec![
        entry("C:\\Users\\me\\AppData\\Local\\Temp\\a.txt", 1),
        entry("/home/x/~$report.docx", 2),
        entry("/home/x/file.TMP", 3),
        entry("/home/x/keep.txt", 4),
        entry("/home/x/~$old.tmp", 5),
        entry("/data/TEMP/x.bin", 6),
    ];
    let items = find_temp_files(&entries);
    let got: Vec<(&str, &str)> = items.iter().map(|t| (t.path.as_str(), t.detail.as_str())).collect();
    assert_eq!(
        got,
        vec![
            ("C:\\Users\\me\\AppData\\Local\\Temp\\a.txt", "位于临时目录"),
            ("/home/x/~$report.docx", "Office 临时锁定文件"),
            ("/home/x/file.TMP", "临时文件扩展名 .tmp"),
            ("/home/x/~$old.tmp", "Office 临时锁定文件"),
        ]
    );
    assert!(items.iter().all(|t| t.kind == ToolKind::TempFile));
    assert_eq!(items[2].size, 3);
}

#[test]
fn folder_entries_judged() {
    assert!(is_ignorable("Thumbs.DB"));
    assert!(!is_ignorable("thumbs.db.bak"));
    assert_eq!(classify_entry("desktop.ini", Some(EntryType::File)), EntryVerdict::Skip);
    assert_eq!(classify_entry("a.txt", Some(EntryType::File)), EntryVerdict::Occupied);
    assert_eq!(classify_entry("link", Some(EntryType::Symlink)), EntryVerdict::Occupied);
    assert_eq!(classify_entry("sub", Some(EntryType::Dir)), EntryVerdict::CheckSubfolder);
    assert_eq!(classify_entry("sub", None), EntryVerdict::Skip);
    assert_eq!(classify_entry("pipe", Some(EntryType::Other)), EntryVerdict::Skip);
}
