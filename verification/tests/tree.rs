use rove::tree::{folder_node, folder_scanned, folder_tree, scan_step, EntryMeta, FolderNode, ScanAction, ScanItem, ScanProgress, ScannedEntry};

fn node(path: &str, items: Vec<ScanItem>) -> FolderNode {
    folder_node(path, items)
}

#[test]
fn folder_node_counts_files_through_sub_folders() {
    let small = node("/r/small", vec![ScanItem::File(10)]);
    let big = node("/r/big", vec![ScanItem::File(500), ScanItem::File(700)]);
    let root = node("/r", vec![ScanItem::File(1), ScanItem::Folder(small), ScanItem::Folder(big)]);
    assert_eq!(root.name, "r");
    assert_eq!(root.path, "/r");
    assert_eq!(root.file_count, 4);
    assert_eq!(root.total_size, 1211);
    let names: Vec<&str> = root.children.iter().map(|c| c.name.as_str()).collect();
    assert_eq!(names, vec!["big", "small"]);
}

#[test]
fn folder_node_keeps_scan_order_for_equal_sizes() {
    let a = node("/r/a", vec![ScanItem::File(5)]);
    let b = node("/r/b", vec![ScanItem::File(5)]);
    let c = node("/r/c", vec![ScanItem::File(9)]);
    let root = node("/r", vec![ScanItem::Folder(a), ScanItem::Folder(b), ScanItem::Folder(c)]);
    let names: Vec<&str> = root.children.iter().map(|c| c.name.as_str()).collect();
    assert_eq!(names, vec!["c", "a", "b"]);
}

#[test]
fn folder_node_of_root_is_named_by_its_path() {
    let root = node("/", vec![]);
    assert_eq!(root.name, "/");
    assert_eq!(root.file_count, 0);
    assert_eq!(root.total_size, 0);
    assert!(root.children.is_empty());
}

#[test]
fn folder_node_lists_sub_folders_largest_first_at_every_level() {
    let tiny = node("/r/a/tiny", vec![ScanItem::File(1)]);
    let huge = node("/r/a/huge", vec![ScanItem::File(100)]);
    let a = node("/r/a", vec![ScanItem::Folder(tiny), ScanItem::Folder(huge)]);
    let b = node("/r/b", vec![ScanItem::File(500)]);
    let root = node("/r", vec![ScanItem::Folder(a), ScanItem::Folder(b)]);
    assert_eq!(root.file_count, 3);
    assert_eq!(root.total_size, 601);
    let names: Vec<&str> = root.children.iter().map(|c| c.name.as_str()).collect();
    assert_eq!(names, vec!["b", "a"]);
    let inner: Vec<&str> = root.children[1].children.iter().map(|c| c.name.as_str()).collect();
    assert_eq!(inner, vec!["huge", "tiny"]);
}

fn scanned_file(size: u64) -> ScannedEntry {
    ScannedEntry { is_dir: false, path: String::new(), size, entries: vec![] }
}

fn scanned_dir(path: &str, entries: Vec<ScannedEntry>) -> ScannedEntry {
    ScannedEntry { is_dir: true, path: path.to_string(), size: 0, entries }
}

#[test]
fn folder_tree_counts_every_file_under_the_folder() {
    let tree = scanned_dir(
        "/r",
        vec![
            scanned_file(3),
            scanned_dir("/r/a", vec![scanned_file(10), scanned_dir("/r/a/deep", vec![scanned_file(100), scanned_file(1)])]),
            scanned_dir("/r/b", vec![scanned_file(50)]),
            scanned_dir("/r/empty", vec![]),
        ],
    );
    let root = folder_tree(tree);
    assert_eq!(root.name, "r");
    assert_eq!(root.file_count, 5);
    assert_eq!(root.total_size, 164);
    let names: Vec<&str> = root.children.iter().map(|c| c.name.as_str()).collect();
    assert_eq!(names, vec!["a", "b", "empty"]);
    assert_eq!(root.children[0].file_count, 3);
    assert_eq!(root.children[0].children[0].total_size, 101);
}

#[test]
fn scan_step_stops_when_cancelled_and_counts_files() {
    let start = ScanProgress { files: 2, folders: 1 };
    assert!(scan_step(start, true, EntryMeta::File(5)).1 == ScanAction::Stop);
    assert!(scan_step(start, false, EntryMeta::Unreadable).1 == ScanAction::Skip);
    assert!(scan_step(start, false, EntryMeta::Folder).1 == ScanAction::Descend);
    let (next, action) = scan_step(start, false, EntryMeta::File(5));
    assert!(action == ScanAction::Count(5));
    assert_eq!((next.files, next.folders), (3, 1));
    let after = folder_scanned(next);
    assert_eq!((after.files, after.folders), (3, 2));
}
