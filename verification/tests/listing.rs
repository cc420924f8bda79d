use rove::entries::{directory_entries, entry_kind_rank, is_hidden, DirItem};
use rove::drives::{drive_details, list_drives, DiskInfo};

fn item(name: &str, is_dir: bool, len: u64) -> DirItem {
    DirItem {
        name: name.to_string(),
        path: format!("/home/u/{}", name),
        is_dir,
        len,
        modified: Some(1700000000),
        attributes: None,
    }
}

#[test]
fn entry_kind_rank_puts_folders_first() {
    assert_eq!(entry_kind_rank("folder"), 0);
    assert_eq!(entry_kind_rank("file"), 1);
    assert_eq!(entry_kind_rank("Folder"), 1);
    assert_eq!(entry_kind_rank(""), 1);
}

#[test]
fn is_hidden_by_dot_or_windows_attributes() {
    assert!(is_hidden(".bashrc", None));
    assert!(!is_hidden("notes.txt", None));
    assert!(is_hidden("desktop.ini", Some(0x2)));
    assert!(is_hidden("pagefile.sys", Some(0x4)));
    assert!(!is_hidden("report.doc", Some(0x20)));
    assert!(!is_hidden("report.doc", Some(u32::MAX)));
    assert!(!is_hidden("", None));
}

#[test]
fn directory_entries_lists_folders_first_then_by_lowercase_name() {
    let items = vec![item("b.txt", false, 10), item("Zeta", true, 0), item("A.md", false, 2048), item("alpha", true, 0)];
    let entries = directory_entries(&items, false);
    let names: Vec<&str> = entries.iter().map(|e| e.name.as_str()).collect();
    assert_eq!(names, vec!["alpha", "Zeta", "A.md", "b.txt"]);
    assert_eq!(entries[0].kind, "folder");
    assert_eq!(entries[0].extension, "\u{2014}");
    assert_eq!(entries[0].size, "\u{2014}");
    assert_eq!(entries[2].kind, "file");
    assert_eq!(entries[2].extension, ".md");
    assert_eq!(entries[2].size, "2.0 KB");
    assert_eq!(entries[2].modified, "1700000000");
    assert_eq!(entries[2].path, "/home/u/A.md");
}

#[test]
fn directory_entries_keeps_read_order_for_equal_keys() {
    let items = vec![item("B", false, 1), item("b", false, 2), item("a", false, 3)];
    let entries = directory_entries(&items, true);
    let sizes: Vec<&str> = entries.iter().map(|e| e.size.as_str()).collect();
    assert_eq!(sizes, vec!["3 B", "1 B", "2 B"]);
}

#[test]
fn directory_entries_hides_hidden_unless_asked() {
    let mut items = vec![item(".git", true, 0), item("src", true, 0), item("secret", false, 0)];
    items[2].attributes = Some(2);
    let shown = directory_entries(&items, false);
    assert_eq!(shown.len(), 1);
    assert_eq!(shown[0].name, "src");
    let all = directory_entries(&items, true);
    assert_eq!(all.len(), 3);
}

#[test]
fn directory_entries_extension_and_modified_edge_cases() {
    let mut items = vec![item(".profile", false, 0), item("archive.tar.gz", false, 0), item("noext", false, 0), item("trail.", false, 0)];
    items[1].modified = None;
    let entries = directory_entries(&items, true);
    let by_name = |n: &str| entries.iter().find(|e| e.name == n).unwrap();
    assert_eq!(by_name(".profile").extension, "\u{2014}");
    assert_eq!(by_name("archive.tar.gz").extension, ".gz");
    assert_eq!(by_name("archive.tar.gz").modified, "\u{2014}");
    assert_eq!(by_name("noext").extension, "\u{2014}");
    assert_eq!(by_name("trail.").extension, ".");
}

#[test]
fn list_drives_sorts_by_path_and_names_by_label() {
    let disks = vec![
        DiskInfo { mount_point: "/mnt/usb".to_string(), label: "USB".to_string(), total_space: 8 * 1024 * 1024 * 1024, available_space: 1024, file_system: "vfat".to_string() },
        DiskInfo { mount_point: "/".to_string(), label: "".to_string(), total_space: 512, available_space: 100, file_system: "ext4".to_string() },
    ];
    let drives = list_drives(&disks);
    assert_eq!(drives.len(), 2);
    assert_eq!(drives[0].path, "/");
    assert_eq!(drives[0].name, "/");
    assert_eq!(drives[0].total, "512 B");
    assert_eq!(drives[0].kind, "drive");
    assert_eq!(drives[1].name, "USB");
    assert_eq!(drives[1].total, "8.0 GB");
    assert_eq!(drives[1].free, "1.0 KB");
    assert_eq!(drives[1].file_system, "vfat");
}

#[test]
fn drive_details_names_the_letter() {
    let drive = drive_details('C', 1024, 0, Some("NTFS".to_string()));
    assert_eq!(drive.name, "C:");
    assert_eq!(drive.path, "C:\\");
    assert_eq!(drive.file_system, "NTFS");
    assert_eq!(drive_details('D', 0, 0, None).file_system, "\u{2014}");
}
