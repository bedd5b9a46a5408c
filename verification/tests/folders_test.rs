use dedup_core::folders::{empty_folder_items, DirNode};
use dedup_core::models::ToolKind;
use dedup_core::tools::EntryType;

fn node(path: &str, entries: Vec<(&str, Option<EntryType>, usize)>) -> DirNode {
    DirNode {
        path: path.to_string(),
        entries: entries.iter().map(|(n, k, _)| (n.to_string(), *k)).collect(),
        children: entries.iter().map(|(_, _, c)| *c).collect(),
    }
}

fn paths(tree: &Vec<DirNode>, roots: &Vec<usize>, recursive: bool) -> Vec<String> {
    empty_folder_items(tree, roots, recursive).into_iter().map(|t| {
        assert!(t.kind == ToolKind::EmptyFolder && t.size == 0 && t.detail == "空文件夹");
        t.path
    }).collect()
}

#[test]
fn empty_folder_detection_on_a_tree() {
    // base/{a/{empty1, empty2}, b/file.txt}
    let tree = vec![
        node("base", vec![("a", Some(EntryType::Dir), 1), ("b", Some(EntryType::Dir), 4)]),
        node("base/a", vec![("empty1", Some(EntryType::Dir), 2), ("empty2", Some(EntryType::Dir), 3)]),
        node("base/a/empty1", vec![]),
        node("base/a/empty2", vec![("Thumbs.db", Some(EntryType::File), 0)]),
        node("base/b", vec![("file.txt", Some(EntryType::File), 0)]),
    ];
    // `a` holds only empty folders: it is reported, its subfolders are not
    assert_eq!(paths(&tree, &vec![0], true), vec!["base/a"]);
    assert!(paths(&tree, &vec![0], false).is_empty());
    assert_eq!(paths(&tree, &vec![1], false), vec!["base/a"]);
}

#[test]
fn topmost_empty_folders_in_stack_order() {
    // root/{x/{e1, f.txt}, y/{e2, z/{e3, g.bin}}, e4, link}
    let tree = vec![
        node("root", vec![
            ("x", Some(EntryType::Dir), 1),
            ("y", Some(EntryType::Dir), 3),
            ("e4", Some(EntryType::Dir), 8),
            ("link", Some(EntryType::Symlink), 0),
        ]),
        node("root/x", vec![("e1", Some(EntryType::Dir), 2), ("f.txt", Some(EntryType::File), 0)]),
        node("root/x/e1", vec![]),
        node("root/y", vec![("e2", Some(EntryType::Dir), 4), ("z", Some(EntryType::Dir), 5)]),
        node("root/y/e2", vec![("odd", None, 0)]),
        node("root/y/z", vec![("e3", Some(EntryType::Dir), 6), ("g.bin", Some(EntryType::File), 0)]),
        node("root/y/z/e3", vec![("desktop.ini", Some(EntryType::File), 0)]),
        node("unused", vec![]),
        node("root/e4", vec![]),
    ];
    assert_eq!(paths(&tree, &vec![0], true), vec!["root/e4", "root/y/e2", "root/y/z/e3", "root/x/e1"]);
}
