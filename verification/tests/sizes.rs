use rove::size::format_size;

fn float_format(bytes: u64) -> String {
    if bytes < 1024 {
        return format!("{} B", bytes);
    }
    if bytes < 1024 * 1024 {
        return format!("{:.1} KB", bytes as f64 / 1024.0);
    }
    if bytes < 1024 * 1024 * 1024 {
        return format!("{:.1} MB", bytes as f64 / (1024.0 * 1024.0));
    }
    format!("{:.1} GB", bytes as f64 / (1024.0 * 1024.0 * 1024.0))
}

#[test]
fn format_size_small_values_are_whole_bytes() {
    assert_eq!(format_size(0), "0 B");
    assert_eq!(format_size(7), "7 B");
    assert_eq!(format_size(1023), "1023 B");
}

#[test]
fn format_size_units() {
    assert_eq!(format_size(1024), "1.0 KB");
    assert_eq!(format_size(1536), "1.5 KB");
    assert_eq!(format_size(1024 * 1024), "1.0 MB");
    assert_eq!(format_size(1024 * 1024 * 1024), "1.0 GB");
    assert_eq!(format_size(5 * 1024 * 1024 * 1024 + 512 * 1024 * 1024), "5.5 GB");
}

#[test]
fn format_size_ties_round_to_even_tenth() {
    // 1280 / 1024 = 1.25 exactly: the tie goes to the even tenth.
    assert_eq!(format_size(1280), float_format(1280));
    assert_eq!(format_size(1280), "1.2 KB");
    // 1.35 is exactly 1382.4 bytes, not an integer; 1.75 is 1792 bytes.
    assert_eq!(format_size(1792), "1.8 KB");
}

#[test]
fn format_size_rounds_up_to_next_unit_value() {
    assert_eq!(format_size(1024 * 1024 - 1), "1024.0 KB");
}

#[test]
fn format_size_agrees_with_float_formatting() {
    let mut values: Vec<u64> = Vec::new();
    for b in 0..5000u64 {
        values.push(b);
    }
    let mut x: u64 = 1;
    while x < u64::MAX / 3 {
        values.push(x);
        values.push(x - 1);
        values.push(x + 1);
        values.push(x / 10 * 13);
        x = x * 3 / 2 + 7;
    }
    for k in 0..64u32 {
        let p = 1u64 << k;
        values.push(p);
        values.push(p.wrapping_sub(1));
        values.push(p | (p >> 1));
    }
    values.push(u64::MAX);
    values.push(u64::MAX - 1);
    values.push((1u64 << 53) + 1);
    values.push((1u64 << 63) + (1u64 << 9));
    let mut seed: u64 = 0x9e3779b97f4a7c15;
    for _ in 0..200000 {
        seed ^= seed << 13;
        seed ^= seed >> 7;
        seed ^= seed << 17;
        values.push(seed);
        values.push(seed >> (seed % 64));
    }
    for v in values {
        assert_eq!(format_size(v), float_format(v), "bytes = {}", v);
    }
}
