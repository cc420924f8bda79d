use rove::fsplan::{FsOp, SourceEntry};
use rove::copies::{continue_name_search, start_name_search, NameSearch};
use rove::paste::{conflict_resolution, copy_to, plan_source, scan_paste_conflicts, ConflictResolution, PasteAction, PasteSource, PasteStep, SourcePlan};

fn file(name: &str, target_exists: bool) -> SourceEntry {
    SourceEntry { name: name.to_string(), is_dir: false, target_exists, target_is_dir: false, children: vec![] }
}

fn folder(name: &str, target_is_dir: bool, children: Vec<SourceEntry>) -> SourceEntry {
    SourceEntry { name: name.to_string(), is_dir: true, target_exists: target_is_dir, target_is_dir, children }
}

fn source_file(path: &str) -> PasteSource {
    PasteSource { path: path.to_string(), is_dir: false, target_is_dir: false, entries: vec![] }
}

/// A destination folder as a file system keeps it: its entries' paths, and which are
/// folders; with `fold`, names that differ only in case are the same name.
struct Disk {
    entries: Vec<(String, bool)>,
    fold: bool,
}

impl Disk {
    fn new(dest_dir: &str, entries: &[(&str, bool)], fold: bool) -> Disk {
        Disk { entries: entries.iter().map(|(n, d)| (format!("{dest_dir}/{n}"), *d)).collect(), fold }
    }

    fn find(&self, path: &str) -> Option<bool> {
        self.entries
            .iter()
            .find(|(p, _)| if self.fold { p.to_lowercase() == path.to_lowercase() } else { p == path })
            .map(|(_, d)| *d)
    }
}

/// Pastes `sources` into `dest_dir` as the app does, one after the other: each source's
/// target is looked up just before it is pasted, and a free name is searched by asking
/// the disk about each candidate.
fn paste_entries(
    sources: Vec<PasteSource>,
    dest_dir: &str,
    existing: &[(&str, bool)],
    cut: bool,
    choice: &Option<String>,
    fold: bool,
) -> Vec<PasteStep> {
    let mut disk = Disk::new(dest_dir, existing, fold);
    let mut steps = Vec::new();
    for mut src in sources {
        let name = src.path.rsplit('/').next().unwrap_or("").to_string();
        src.target_is_dir = disk.find(&format!("{dest_dir}/{name}")) == Some(true);
        match plan_source(&src, dest_dir, cut, choice) {
            SourcePlan::Skip => {}
            SourcePlan::Ready(step) => {
                if disk.find(&step.target).is_none() {
                    disk.entries.push((step.target.clone(), src.is_dir));
                }
                steps.push(step);
            }
            SourcePlan::NeedsName(name) => {
                let mut search = start_name_search(dest_dir, &name);
                let target = loop {
                    match search {
                        NameSearch::Check { attempt, path } => {
                            let taken = disk.find(&path).is_some();
                            search = continue_name_search(dest_dir, &name, attempt, taken);
                        }
                        NameSearch::Found { path } => break path,
                    }
                };
                disk.entries.push((target.clone(), src.is_dir));
                steps.push(copy_to(&src, &target, cut));
            }
        }
    }
    steps
}

fn targets(steps: &[PasteStep]) -> Vec<String> {
    steps.iter().map(|s| s.target.clone()).collect()
}

fn copy(from: &str, to: &str) -> FsOp {
    FsOp::CopyFile { from: from.to_string(), to: to.to_string() }
}

fn remove(path: &str) -> FsOp {
    FsOp::RemoveFile { path: path.to_string() }
}

fn mkdir(path: &str) -> FsOp {
    FsOp::CreateDirAll { path: path.to_string() }
}

fn ops(step: &PasteStep) -> &Vec<FsOp> {
    match &step.action {
        PasteAction::Run { ops } => ops,
        PasteAction::Rename { fallback } => fallback,
        PasteAction::Stay => panic!("no operations"),
    }
}

fn same_ops(a: &[FsOp], b: &[FsOp]) -> bool {
    a.len() == b.len()
        && a.iter().zip(b.iter()).all(|(x, y)| match (x, y) {
            (FsOp::CreateDirAll { path: p }, FsOp::CreateDirAll { path: q }) => p == q,
            (FsOp::CopyFile { from: f, to: t }, FsOp::CopyFile { from: g, to: u }) => f == g && t == u,
            (FsOp::RemoveFile { path: p }, FsOp::RemoveFile { path: q }) => p == q,
            (FsOp::PruneDir { path: p }, FsOp::PruneDir { path: q }) => p == q,
            (FsOp::RemoveDirAll { path: p }, FsOp::RemoveDirAll { path: q }) => p == q,
            _ => false,
        })
}

#[test]
fn conflict_resolution_defaults_to_skip() {
    assert!(conflict_resolution(&Some("replace".to_string())) == ConflictResolution::Replace);
    assert!(conflict_resolution(&Some("skip".to_string())) == ConflictResolution::Skip);
    assert!(conflict_resolution(&Some("Replace".to_string())) == ConflictResolution::Skip);
    assert!(conflict_resolution(&None) == ConflictResolution::Skip);
}

#[test]
fn copy_paste_duplicates_into_new_name_in_same_folder() {
    let steps = paste_entries(vec![source_file("/s/a.txt")], "/s", &[("a.txt", false)], false, &None, false);
    assert_eq!(targets(&steps), vec!["/s/a - Copy.txt".to_string()]);
    assert!(matches!(steps[0].action, PasteAction::Run { .. }));
    assert!(same_ops(ops(&steps[0]), &[copy("/s/a.txt", "/s/a - Copy.txt")]));
}

#[test]
fn cut_paste_into_same_folder_is_a_no_op() {
    let steps = paste_entries(vec![source_file("/s/a.txt")], "/s", &[("a.txt", false)], true, &None, false);
    assert_eq!(targets(&steps), vec!["/s/a.txt".to_string()]);
    assert!(matches!(steps[0].action, PasteAction::Stay));
}

#[test]
fn cut_paste_moves_into_a_different_folder() {
    let steps = paste_entries(vec![source_file("/src/a.txt")], "/dst", &[], true, &None, false);
    assert_eq!(targets(&steps), vec!["/dst/a.txt".to_string()]);
    assert!(matches!(steps[0].action, PasteAction::Rename { .. }));
    assert!(same_ops(ops(&steps[0]), &[copy("/src/a.txt", "/dst/a.txt"), remove("/src/a.txt")]));
}

#[test]
fn copy_paste_directory_recurses() {
    let source = PasteSource {
        path: "/src/folder".to_string(),
        is_dir: true,
        target_is_dir: false,
        entries: vec![folder("nested", false, vec![file("inner.txt", false)]), file("file.txt", false)],
    };
    let steps = paste_entries(vec![source], "/dst", &[], false, &None, false);
    assert_eq!(targets(&steps), vec!["/dst/folder".to_string()]);
    assert!(same_ops(
        ops(&steps[0]),
        &[
            mkdir("/dst/folder"),
            mkdir("/dst/folder/nested"),
            copy("/src/folder/nested/inner.txt", "/dst/folder/nested/inner.txt"),
            copy("/src/folder/file.txt", "/dst/folder/file.txt"),
        ]
    ));
}

#[test]
fn scan_finds_conflicts_only_for_files_that_already_exist_in_the_destination() {
    let source = PasteSource {
        path: "/src/folder".to_string(),
        is_dir: true,
        target_is_dir: true,
        entries: vec![
            folder("nested", true, vec![file("deep-clash.txt", true)]),
            file("new.txt", false),
            file("clash.txt", true),
        ],
    };
    let mut conflicts = scan_paste_conflicts(&vec![source], "/dst");
    conflicts.sort();
    let mut expected = vec!["/dst/folder/clash.txt".to_string(), "/dst/folder/nested/deep-clash.txt".to_string()];
    expected.sort();
    assert_eq!(conflicts, expected);
}

#[test]
fn scan_reports_no_conflicts_when_folder_is_new() {
    let source = PasteSource { path: "/src/folder".to_string(), is_dir: true, target_is_dir: false, entries: vec![file("a.txt", false)] };
    let conflicts = scan_paste_conflicts(&vec![source], "/dst");
    assert!(conflicts.is_empty());
}

#[test]
fn copy_paste_merges_into_existing_folder_of_the_same_name_and_skips_by_default() {
    let source = PasteSource {
        path: "/src/folder".to_string(),
        is_dir: true,
        target_is_dir: false,
        entries: vec![file("new.txt", false), file("clash.txt", true)],
    };
    let steps = paste_entries(vec![source], "/dst", &[("folder", true)], false, &Some("skip".to_string()), false);
    assert_eq!(targets(&steps), vec!["/dst/folder".to_string()]);
    assert!(same_ops(ops(&steps[0]), &[mkdir("/dst/folder"), copy("/src/folder/new.txt", "/dst/folder/new.txt")]));
}

#[test]
fn copy_paste_merge_replaces_conflicts_when_asked() {
    let source = PasteSource { path: "/src/folder".to_string(), is_dir: true, target_is_dir: false, entries: vec![file("clash.txt", true)] };
    let steps = paste_entries(vec![source], "/dst", &[("folder", true)], false, &Some("replace".to_string()), false);
    assert!(same_ops(ops(&steps[0]), &[mkdir("/dst/folder"), copy("/src/folder/clash.txt", "/dst/folder/clash.txt")]));
}

#[test]
fn cut_paste_merge_moves_non_conflicting_files_and_leaves_skipped_ones_behind() {
    let source = PasteSource {
        path: "/src/folder".to_string(),
        is_dir: true,
        target_is_dir: false,
        entries: vec![file("moved.txt", false), file("clash.txt", true)],
    };
    let steps = paste_entries(vec![source], "/dst", &[("folder", true)], true, &Some("skip".to_string()), false);
    assert!(same_ops(
        ops(&steps[0]),
        &[
            mkdir("/dst/folder"),
            copy("/src/folder/moved.txt", "/dst/folder/moved.txt"),
            remove("/src/folder/moved.txt"),
            FsOp::PruneDir { path: "/src/folder".to_string() },
        ]
    ));
}

#[test]
fn pasting_twice_in_one_batch_takes_the_next_copy_name() {
    let sources = vec![source_file("/a/x.txt"), source_file("/b/x.txt"), source_file("/c/x.txt")];
    let steps = paste_entries(sources, "/d", &[("x.txt", false)], false, &None, false);
    assert_eq!(
        targets(&steps),
        vec!["/d/x - Copy.txt".to_string(), "/d/x - Copy (2).txt".to_string(), "/d/x - Copy (3).txt".to_string()]
    );
}

#[test]
fn sources_without_a_file_name_are_passed_over() {
    let steps = paste_entries(vec![source_file("/"), source_file("/a/y")], "/d", &[], false, &None, false);
    assert_eq!(targets(&steps), vec!["/d/y".to_string()]);
}

#[test]
fn cut_folder_to_a_new_place_removes_it_if_renaming_fails() {
    let source = PasteSource { path: "/a/dir".to_string(), is_dir: true, target_is_dir: false, entries: vec![file("f", false)] };
    let steps = paste_entries(vec![source], "/d", &[("dir", false)], true, &None, false);
    assert_eq!(targets(&steps), vec!["/d/dir - Copy".to_string()]);
    assert!(same_ops(
        ops(&steps[0]),
        &[mkdir("/d/dir - Copy"), copy("/a/dir/f", "/d/dir - Copy/f"), FsOp::RemoveDirAll { path: "/a/dir".to_string() }]
    ));
}

#[test]
fn copying_a_folder_into_its_own_parent_makes_a_copy_rather_than_merging_into_itself() {
    let source = PasteSource { path: "/d/folder".to_string(), is_dir: true, target_is_dir: false, entries: vec![file("x.txt", true)] };
    let steps = paste_entries(vec![source], "/d", &[("folder", true)], false, &Some("replace".to_string()), false);
    assert_eq!(targets(&steps), vec!["/d/folder - Copy".to_string()]);
    assert!(same_ops(ops(&steps[0]), &[mkdir("/d/folder - Copy"), copy("/d/folder/x.txt", "/d/folder - Copy/x.txt")]));
    let source = PasteSource { path: "/d/folder".to_string(), is_dir: true, target_is_dir: true, entries: vec![file("x.txt", true)] };
    assert!(scan_paste_conflicts(&vec![source], "/d").is_empty());
}

#[test]
fn names_that_differ_only_in_case_collide_where_the_file_system_ignores_case() {
    let steps = paste_entries(vec![source_file("/s/a.txt")], "/d", &[("A.TXT", false)], false, &None, true);
    assert_eq!(targets(&steps), vec!["/d/a - Copy.txt".to_string()]);
    let steps = paste_entries(vec![source_file("/s/a.txt")], "/d", &[("A.TXT", false)], false, &None, false);
    assert_eq!(targets(&steps), vec!["/d/a.txt".to_string()]);
    let source = PasteSource { path: "/s/Folder".to_string(), is_dir: true, target_is_dir: false, entries: vec![file("n.txt", false)] };
    let steps = paste_entries(vec![source], "/d", &[("folder", true)], false, &None, true);
    assert_eq!(targets(&steps), vec!["/d/Folder".to_string()]);
    assert!(same_ops(ops(&steps[0]), &[mkdir("/d/Folder"), copy("/s/Folder/n.txt", "/d/Folder/n.txt")]));
}

#[test]
fn every_candidate_name_is_checked_by_the_file_system() {
    let steps = paste_entries(
        vec![source_file("/s/\u{e4}.txt")],
        "/d",
        &[("\u{e4}.txt", false), ("\u{c4} - Copy.txt", false)],
        false,
        &None,
        true,
    );
    assert_eq!(targets(&steps), vec!["/d/\u{e4} - Copy (2).txt".to_string()]);
}

#[test]
fn a_later_source_merges_into_the_folder_an_earlier_one_created() {
    let first = PasteSource { path: "/x/f".to_string(), is_dir: true, target_is_dir: false, entries: vec![file("a", false)] };
    let second = PasteSource {
        path: "/y/f".to_string(),
        is_dir: true,
        target_is_dir: false,
        entries: vec![file("a", true), file("b", false)],
    };
    let steps = paste_entries(vec![first, second], "/d", &[], false, &None, false);
    assert_eq!(targets(&steps), vec!["/d/f".to_string(), "/d/f".to_string()]);
    assert!(same_ops(ops(&steps[0]), &[mkdir("/d/f"), copy("/x/f/a", "/d/f/a")]));
    assert!(same_ops(ops(&steps[1]), &[mkdir("/d/f"), copy("/y/f/b", "/d/f/b")]));
}
