use dedup_core::action::{batch_from_request, check_unchanged, folder_has_real_entry, result_of};
use dedup_core::models::{ActionKind, ActionRequest, FileEntry};

fn entry(path: &str, size: u64, modified: u64) -> FileEntry {
    FileEntry { path: path.to_string(), size, modified, created: 0 }
}

#[test]
fn unchanged_check_messages() {
    let e = entry("/a.txt", 16, 100);
    assert!(check_unchanged(&e, true, 16, 100).is_ok());
    assert_eq!(check_unchanged(&e, true, 44, 100).unwrap_err(), "大小已变化（扫描时 16，现在 44），已跳过");
    assert_eq!(check_unchanged(&e, true, 16, 101).unwrap_err(), "修改时间已变化，已跳过");
    assert_eq!(check_unchanged(&e, false, 16, 100).unwrap_err(), "不再是普通文件");
}

#[test]
fn group_request_becomes_batch() {
    let req = ActionRequest {
        kind: ActionKind::Hardlink,
        items: vec![entry("/x/1", 1, 1), entry("/x/2", 2, 2)],
        reference: "/x/ref".to_string(),
        dest_dir: Some("/dest".to_string()),
    };
    let b = batch_from_request(&req);
    assert_eq!(b.kind, ActionKind::Hardlink);
    assert_eq!(b.items.len(), 2);
    assert_eq!(b.items[1].file.path, "/x/2");
    assert!(b.items.iter().all(|i| i.reference == "/x/ref"));
    assert_eq!(b.dest_dir.as_deref(), Some("/dest"));
}

#[test]
fn results_reported() {
    let ok = result_of("/p", Ok(()));
    assert!(ok.ok && ok.message == "成功" && ok.path == "/p");
    let bad = result_of("/q", Err("删除失败: x".to_string()));
    assert!(!bad.ok && bad.message == "删除失败: x");
}

#[test]
fn system_files_do_not_fill_a_folder() {
    assert!(!folder_has_real_entry(&vec!["desktop.ini".to_string(), "Thumbs.db".to_string()]));
    assert!(folder_has_real_entry(&vec!["desktop.ini".to_string(), "a.txt".to_string()]));
    assert!(!folder_has_real_entry(&vec![]));
}
