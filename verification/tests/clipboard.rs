use rove::clipboard::Clipboard;
use rove::win_clipboard::{read_paths, text_before_nul, write_paths, FileNames};

#[test]
fn roundtrips_our_own_write() {
    let paths = vec!["C:\\Windows\\notepad.exe".to_string(), "C:\\Windows\\explorer.exe".to_string()];
    let data = write_paths(&paths, true);
    let (read_back, cut) = read_paths(&Some(data.file_list), &Some(data.drop_effect)).expect("expected clipboard files");
    assert_eq!(read_back, FileNames::Wide(paths.clone()));
    assert!(cut);

    let data = write_paths(&paths, false);
    let (_, cut) = read_paths(&Some(data.file_list), &Some(data.drop_effect)).expect("expected clipboard files");
    assert!(!cut);
}

#[test]
fn file_list_layout_is_a_wide_dropfiles_block() {
    let data = write_paths(&vec!["ab".to_string()], false);
    assert_eq!(
        data.file_list,
        vec![20, 0, 0, 0, 0, 0, 0, 0, 0, 0, 0, 0, 0, 0, 0, 0, 1, 0, 0, 0, b'a', 0, b'b', 0, 0, 0, 0, 0]
    );
    assert_eq!(data.drop_effect, vec![1, 0, 0, 0]);
    assert_eq!(write_paths(&vec![], true).drop_effect, vec![2, 0, 0, 0]);
}

#[test]
fn file_list_roundtrips_characters_outside_the_basic_plane() {
    let paths = vec!["/tmp/\u{1F600}.txt".to_string(), "/tmp/caf\u{e9}".to_string()];
    let data = write_paths(&paths, true);
    let (read_back, cut) = read_paths(&Some(data.file_list), &Some(data.drop_effect)).unwrap();
    assert_eq!(read_back, FileNames::Wide(paths));
    assert!(cut);
}

#[test]
fn read_paths_without_file_list_is_none() {
    assert_eq!(read_paths(&None, &Some(vec![2, 0, 0, 0])), None);
}

#[test]
fn read_paths_of_data_shorter_than_the_header_is_an_empty_list() {
    assert_eq!(read_paths(&Some(vec![20, 0, 0]), &Some(vec![2, 0, 0, 0])), Some((FileNames::Wide(vec![]), true)));
}

#[test]
fn read_paths_hands_out_the_bytes_of_a_narrow_list() {
    let mut data = vec![20, 0, 0, 0, 0, 0, 0, 0, 0, 0, 0, 0, 0, 0, 0, 0, 0, 0, 0, 0];
    data.extend_from_slice(b"C:\\a.txt\0b\0\0");
    assert_eq!(
        read_paths(&Some(data), &None),
        Some((FileNames::Narrow(vec![b"C:\\a.txt".to_vec(), b"b".to_vec()]), false))
    );
}

#[test]
fn read_paths_reads_an_unterminated_last_path_to_the_end() {
    let mut data = write_paths(&vec!["a".to_string(), "bc".to_string()], false).file_list;
    data.truncate(data.len() - 4);
    assert_eq!(
        read_paths(&Some(data), &None),
        Some((FileNames::Wide(vec!["a".to_string(), "bc".to_string()]), false))
    );
    let mut odd = write_paths(&vec!["a".to_string()], false).file_list;
    odd.truncate(21);
    assert_eq!(read_paths(&Some(odd), &None), Some((FileNames::Wide(vec![]), false)));
}

#[test]
fn read_paths_of_a_list_starting_past_its_end_is_empty() {
    let mut data = write_paths(&vec!["a".to_string()], false).file_list;
    data[0] = 200;
    assert_eq!(read_paths(&Some(data), &None), Some((FileNames::Wide(vec![]), false)));
}

#[test]
fn read_paths_without_drop_effect_is_a_copy() {
    let data = write_paths(&vec!["x".to_string()], true);
    let (paths, cut) = read_paths(&Some(data.file_list), &None).unwrap();
    assert_eq!(paths, FileNames::Wide(vec!["x".to_string()]));
    assert!(!cut);
}

#[test]
fn empty_path_ends_the_list_early() {
    let data = write_paths(&vec!["a".to_string(), "".to_string(), "b".to_string()], false);
    let (paths, _) = read_paths(&Some(data.file_list), &Some(data.drop_effect)).unwrap();
    assert_eq!(paths, FileNames::Wide(vec!["a".to_string()]));
}

#[test]
fn in_app_clipboard_gives_back_the_last_write() {
    let mut clipboard = Clipboard::new();
    assert_eq!(clipboard.read(), None);
    clipboard.write(&vec!["/a".to_string()], true);
    clipboard.write(&vec!["/b".to_string(), "/c".to_string()], false);
    assert_eq!(clipboard.read(), Some((vec!["/b".to_string(), "/c".to_string()], false)));
}

#[test]
fn text_before_nul_stops_at_the_first_zero_unit() {
    let mut buffer = vec![0u16; 8];
    for (i, c) in "NTFS".encode_utf16().enumerate() {
        buffer[i] = c;
    }
    assert_eq!(text_before_nul(&buffer), "NTFS");
    assert_eq!(text_before_nul(&vec![b'a' as u16, b'b' as u16]), "ab");
    assert_eq!(text_before_nul(&vec![0, b'a' as u16]), "");
}
