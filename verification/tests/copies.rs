use rove::copies::{continue_name_search, copy_candidate, start_name_search, unique_destination, NameSearch};
use rove::paths::split_name;

/// The answers of a folder holding `existing` (full paths) to the candidates for `name`.
fn answers(dir: &str, existing: &[&str], name: &str) -> Vec<bool> {
    (0..20u128).map(|k| existing.contains(&copy_candidate(dir, name, k).as_str())).collect()
}

#[test]
fn unique_destination_avoids_existing_names() {
    let dir = "/tmp/rove-test-unique-dest";
    let existing = ["/tmp/rove-test-unique-dest/a.txt"];
    assert_eq!(unique_destination(dir, "b.txt", &answers(dir, &existing, "b.txt")), Some("/tmp/rove-test-unique-dest/b.txt".to_string()));
    assert_eq!(unique_destination(dir, "a.txt", &answers(dir, &existing, "a.txt")), Some("/tmp/rove-test-unique-dest/a - Copy.txt".to_string()));
    let existing = ["/tmp/rove-test-unique-dest/a.txt", "/tmp/rove-test-unique-dest/a - Copy.txt"];
    assert_eq!(unique_destination(dir, "a.txt", &answers(dir, &existing, "a.txt")), Some("/tmp/rove-test-unique-dest/a - Copy (2).txt".to_string()));
}

#[test]
fn copy_names_count_up_past_ten() {
    let mut taken = vec![true; 12];
    taken.push(false);
    assert_eq!(unique_destination("/d", "f", &taken), Some("/d/f - Copy (12)".to_string()));
    assert_eq!(unique_destination("/d", "f", &vec![true; 5]), None);
}

#[test]
fn copy_names_of_dotfiles_and_multiple_dots() {
    assert_eq!(copy_candidate("/d", ".env", 1), "/d/.env - Copy");
    assert_eq!(copy_candidate("/d", "x.tar.gz", 1), "/d/x.tar - Copy.gz");
    assert_eq!(copy_candidate("/d", "x.", 1), "/d/x - Copy.");
    assert_eq!(copy_candidate("/d", "x.tar.gz", 0), "/d/x.tar.gz");
}

#[test]
fn the_name_search_asks_until_a_candidate_is_free() {
    let search = start_name_search("/d", "a.txt");
    assert!(matches!(&search, NameSearch::Check { attempt: 0, path } if path == "/d/a.txt"));
    let search = continue_name_search("/d", "a.txt", 0, true);
    assert!(matches!(&search, NameSearch::Check { attempt: 1, path } if path == "/d/a - Copy.txt"));
    let search = continue_name_search("/d", "a.txt", 1, true);
    assert!(matches!(&search, NameSearch::Check { attempt: 2, path } if path == "/d/a - Copy (2).txt"));
    let search = continue_name_search("/d", "a.txt", 2, false);
    assert!(matches!(&search, NameSearch::Found { path } if path == "/d/a - Copy (2).txt"));
}

#[test]
fn split_name_follows_path_stem_and_extension() {
    assert_eq!(split_name("report.pdf"), ("report".to_string(), Some("pdf".to_string())));
    assert_eq!(split_name(".bashrc"), (".bashrc".to_string(), None));
    assert_eq!(split_name("README"), ("README".to_string(), None));
    assert_eq!(split_name("a.b.c"), ("a.b".to_string(), Some("c".to_string())));
    assert_eq!(split_name("..x"), (".".to_string(), Some("x".to_string())));
}
