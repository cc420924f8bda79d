use rove::rename::{is_valid_new_name, rename_target};

#[test]
fn rename_target_stays_in_the_same_folder() {
    assert_eq!(rename_target("/home/u/old.txt", "new.txt"), Ok("/home/u/new.txt".to_string()));
}

#[test]
fn rename_target_rejects_bad_names() {
    for bad in ["", ".", "..", "a/b", "a\\b", "c:", "x*", "q?", "\"q\"", "<a>", "a|b"] {
        assert_eq!(rename_target("/home/u/old.txt", bad), Err("Invalid folder name".to_string()), "{}", bad);
        assert!(!is_valid_new_name(bad));
    }
    assert!(is_valid_new_name("..."));
    assert!(is_valid_new_name(".hidden"));
}

#[test]
fn rename_target_needs_a_parent() {
    assert_eq!(rename_target("/", "x"), Err("Invalid folder path".to_string()));
}
