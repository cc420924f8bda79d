use rove::icons::{bgra_to_rgba, icon_data_url, png_data_url, IconCache};

#[test]
fn bgra_to_rgba_swaps_blue_and_red_of_whole_pixels() {
    let mut pixels = vec![1, 2, 3, 4, 5, 6, 7, 8, 9, 10];
    bgra_to_rgba(&mut pixels);
    assert_eq!(pixels, vec![3, 2, 1, 4, 7, 6, 5, 8, 9, 10]);
}

#[test]
fn png_data_url_prefixes_base64() {
    assert_eq!(png_data_url(b"abc"), "data:image/png;base64,YWJj");
}

#[test]
fn icon_data_url_encodes_a_png() {
    let url = icon_data_url(2, 2, vec![255; 16]).expect("a 2x2 image encodes");
    assert!(url.starts_with("data:image/png;base64,iVBORw0KGgo"));
}

#[test]
fn icon_data_url_needs_four_bytes_per_pixel() {
    assert_eq!(icon_data_url(16, 16, vec![0; 100]), None);
}

#[test]
fn icon_cache_returns_what_was_stored() {
    let mut cache = IconCache::new();
    assert_eq!(cache.get(&".txt".to_string()), None);
    cache.insert(".txt".to_string(), Some("data:1".to_string()));
    cache.insert(".exe".to_string(), None);
    cache.insert(".txt".to_string(), Some("data:2".to_string()));
    assert_eq!(cache.get(&".txt".to_string()), Some(Some("data:2".to_string())));
    assert_eq!(cache.get(&".exe".to_string()), Some(None));
    assert_eq!(cache.get(&".png".to_string()), None);
}
