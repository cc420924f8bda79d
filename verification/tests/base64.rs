use rove::base64::base64_encode;

#[test]
fn base64_encode_rfc4648_vectors() {
    assert_eq!(base64_encode(b""), "");
    assert_eq!(base64_encode(b"f"), "Zg==");
    assert_eq!(base64_encode(b"fo"), "Zm8=");
    assert_eq!(base64_encode(b"foo"), "Zm9v");
    assert_eq!(base64_encode(b"foob"), "Zm9vYg==");
    assert_eq!(base64_encode(b"fooba"), "Zm9vYmE=");
    assert_eq!(base64_encode(b"foobar"), "Zm9vYmFy");
}

#[test]
fn base64_encode_uses_whole_alphabet() {
    let bytes: Vec<u8> = vec![0x00, 0x10, 0x83, 0x10, 0x51, 0x87, 0x20, 0x92, 0x8b, 0x30, 0xd3, 0x8f, 0x41, 0x14, 0x93, 0x51, 0x55, 0x97, 0x61, 0x96, 0x9b, 0x71, 0xd7, 0x9f, 0x82, 0x18, 0xa3, 0x92, 0x59, 0xa7, 0xa2, 0x9a, 0xab, 0xb2, 0xdb, 0xaf, 0xc3, 0x1c, 0xb3, 0xd3, 0x5d, 0xb7, 0xe3, 0x9e, 0xbb, 0xf3, 0xdf, 0xbf];
    assert_eq!(base64_encode(&bytes), "ABCDEFGHIJKLMNOPQRSTUVWXYZabcdefghijklmnopqrstuvwxyz0123456789+/");
}

#[test]
fn base64_encode_length_is_four_per_started_group() {
    for n in 0..50usize {
        let data: Vec<u8> = (0..n).map(|i| (i * 37 % 256) as u8).collect();
        assert_eq!(base64_encode(&data).len(), 4 * ((n + 2) / 3));
    }
}

#[test]
fn base64_encoding_pads_only_at_the_end_and_uses_the_alphabet() {
    for n in 0..20usize {
        let data: Vec<u8> = (0..n).map(|i| (i * 91 % 256) as u8).collect();
        let s = base64_encode(&data);
        let pad = (3 - n % 3) % 3;
        let body = &s[..s.len() - pad];
        assert!(s[s.len() - pad..].chars().all(|c| c == '='));
        assert!(body.chars().all(|c| c.is_ascii_alphanumeric() || c == '+' || c == '/'));
    }
}

#[test]
fn base64_of_whole_groups_concatenates() {
    assert_eq!(base64_encode(b"foobar"), format!("{}{}", base64_encode(b"foo"), base64_encode(b"bar")));
    assert_eq!(base64_encode(b"Manx"), format!("{}{}", base64_encode(b"Man"), base64_encode(b"x")));
}
