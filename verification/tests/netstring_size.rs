use jsonrpsee_uds::netstring::decode_netstring_size;

#[test]
fn test_decode_netstring_size_valid() {
    // Valid netstring prefix
    assert_eq!(decode_netstring_size(b"10:"), Some((10, 2)));
    assert_eq!(decode_netstring_size(b"123:data"), Some((123, 3)));
    assert_eq!(decode_netstring_size(b"0:"), Some((0, 1)));
    assert_eq!(decode_netstring_size(b"4294967295:"), Some((4_294_967_295, 10)));
}

#[test]
fn test_decode_netstring_size_invalid() {
    // No colon
    assert_eq!(decode_netstring_size(b"123"), None);

    // Empty before colon
    assert_eq!(decode_netstring_size(b":data"), None);

    // Non-numeric
    assert_eq!(decode_netstring_size(b"abc:data"), None);

    // Negative number
    assert_eq!(decode_netstring_size(b"-10:data"), None);

    // Overflow u32
    assert_eq!(decode_netstring_size(b"4294967296:data"), None);

    // Invalid UTF-8
    assert_eq!(decode_netstring_size(&[0xFF, 0xFF, b':']), None);

    // Empty buffer
    assert_eq!(decode_netstring_size(b""), None);
}

#[test]
fn decode_accepts_a_plus_sign_as_u32_parsing_does() {
    assert_eq!(decode_netstring_size(b"+10:"), Some((10, 3)));
    assert_eq!("+10".parse::<u32>().ok(), Some(10));
}

#[test]
fn decode_refuses_a_lone_plus_sign() {
    assert_eq!(decode_netstring_size(b"+:"), None);
    assert_eq!(decode_netstring_size(b"++1:"), None);
}

#[test]
fn decode_accepts_leading_zeros() {
    assert_eq!(decode_netstring_size(b"007:"), Some((7, 3)));
    assert_eq!(decode_netstring_size(b"000000000004294967295:"), Some((4_294_967_295, 21)));
}

#[test]
fn decode_stops_at_the_first_colon() {
    assert_eq!(decode_netstring_size(b"12:34:"), Some((12, 2)));
    assert_eq!(decode_netstring_size(b"1a:2:"), None);
}

#[test]
fn decode_refuses_whitespace_around_the_size() {
    assert_eq!(decode_netstring_size(b" 1:"), None);
    assert_eq!(decode_netstring_size(b"1 :"), None);
}

#[test]
fn decode_reads_back_every_formatted_size() {
    for n in [0u32, 1, 9, 10, 99, 100, 65_535, 1_000_000_000, u32::MAX] {
        let text = format!("{}:rest", n);
        assert_eq!(decode_netstring_size(text.as_bytes()), Some((n, n.to_string().len())));
    }
}

#[test]
fn decode_agrees_with_str_parse() {
    let cases: [&[u8]; 9] = [b"1", b"+7", b"-0", b"99999999999", b"12x", b"", b"+", b"0042", b"4294967295"];
    for case in cases {
        let mut buf = case.to_vec();
        buf.push(b':');
        let expected = if case.is_empty() {
            None
        } else {
            std::str::from_utf8(case).ok().and_then(|s| s.parse::<u32>().ok()).map(|n| (n, case.len()))
        };
        assert_eq!(decode_netstring_size(&buf), expected);
    }
}
