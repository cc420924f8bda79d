use rove::watch::{folders_to_refresh, WatchedPaths};

fn strings(list: &[&str]) -> Vec<String> {
    list.iter().map(|s| s.to_string()).collect()
}

fn sorted(mut v: Vec<String>) -> Vec<String> {
    v.sort();
    v
}

#[test]
fn update_watches_new_and_unwatches_dropped_folders() {
    let mut watched = WatchedPaths::new();
    let (unwatch, watch) = watched.update(&strings(&["/a", "/b", "/a"]));
    assert!(unwatch.is_empty());
    assert_eq!(sorted(watch), strings(&["/a", "/b"]));
    let (unwatch, watch) = watched.update(&strings(&["/b", "/c"]));
    assert_eq!(unwatch, strings(&["/a"]));
    assert_eq!(watch, strings(&["/c"]));
    assert_eq!(sorted(watched.list()), strings(&["/b", "/c"]));
}

#[test]
fn update_with_the_same_folders_changes_nothing() {
    let mut watched = WatchedPaths::new();
    watched.update(&strings(&["/x", "/y"]));
    let (unwatch, watch) = watched.update(&strings(&["/y", "/x"]));
    assert!(unwatch.is_empty());
    assert!(watch.is_empty());
}

#[test]
fn folders_to_refresh_reports_each_parent_once_in_a_row() {
    let changed = strings(&["/d/a", "/d/b", "/e/c", "/d/f", "/"]);
    assert_eq!(folders_to_refresh(&changed), strings(&["/d", "/e", "/d"]));
}
