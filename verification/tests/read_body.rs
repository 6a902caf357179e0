use jsonrpsee_uds::body::{
    finish_line_body, finish_netstring_body, netstring_read_error, plan_body_read, read_body_from_slice, BodyPlan,
};
use jsonrpsee_uds::error::UnixError;

fn read_all(input: &[u8], max_body_size: u32) -> Result<(Vec<u8>, bool), UnixError> {
    read_body_from_slice(input, input.len(), max_body_size)
}

#[test]
fn test_read_body_netstring_single() {
    let json = r#"{"jsonrpc":"2.0","method":"test","id":1}"#;
    let netstring = format!("{}:{},", json.len(), json);
    let result = read_all(netstring.as_bytes(), 1024).unwrap();
    assert_eq!(result.0, json.as_bytes());
    assert_eq!(result.1, true); // is_single
}

#[test]
fn test_read_body_netstring_batch() {
    let json = r#"[{"jsonrpc":"2.0","method":"test","id":1}]"#;
    let netstring = format!("{}:{},", json.len(), json);
    let result = read_all(netstring.as_bytes(), 1024).unwrap();
    assert_eq!(result.0, json.as_bytes());
    assert_eq!(result.1, false); // is_batch
}

#[test]
fn test_read_body_netstring_too_large() {
    let netstring = b"9999:data,";
    let result = read_all(netstring, 100);
    assert!(matches!(result, Err(UnixError::TooLarge)));
}

#[test]
fn test_read_body_netstring_missing_trailing_comma() {
    let json = r#"{"jsonrpc":"2.0","method":"test","id":1}"#;
    let netstring = format!("{}:{}", json.len(), json);
    let result = read_all(netstring.as_bytes(), 1024);
    assert!(matches!(result, Err(UnixError::Malformed)));
}

#[test]
fn test_read_body_newline_single() {
    let json = r#"{"jsonrpc":"2.0","method":"test","id":1}"#;
    let data = format!("{}\n", json);
    let result = read_all(data.as_bytes(), 1024).unwrap();
    assert_eq!(result.0, json.as_bytes());
    assert_eq!(result.1, true); // is_single
}

#[test]
fn test_read_body_newline_batch() {
    let json = r#"[{"jsonrpc":"2.0","method":"test","id":1}]"#;
    let data = format!("{}\n", json);
    let result = read_all(data.as_bytes(), 1024).unwrap();
    assert_eq!(result.0, json.as_bytes());
    assert_eq!(result.1, false); // is_batch
}

#[test]
fn test_read_body_newline_too_large() {
    let json = "x".repeat(200);
    let data = format!("{}\n", json);
    let result = read_all(data.as_bytes(), 100);
    assert!(matches!(result, Err(UnixError::TooLarge)));
}

#[test]
fn test_read_body_malformed_json() {
    let data = b"not json\n";
    let result = read_all(data, 1024);
    assert!(matches!(result, Err(UnixError::Malformed)));
}

#[test]
fn test_read_body_empty() {
    let result = read_all(b"", 1024);
    assert!(matches!(result, Err(UnixError::Malformed)));
}

#[test]
fn test_read_body_with_whitespace() {
    let json = r#"  {"jsonrpc":"2.0","method":"test","id":1}  "#;
    let data = format!("{}\n", json);
    let result = read_all(data.as_bytes(), 1024).unwrap();
    assert_eq!(result.1, true); // is_single (should skip leading whitespace)
}

#[test]
fn netstring_leaves_what_follows_unread() {
    let input = b"2:{},3:[1],";
    let result = read_all(input, 1024).unwrap();
    assert_eq!(result.0, b"{}");
    assert!(result.1);
}

#[test]
fn netstring_of_exactly_the_limit_is_read() {
    let input = b"4:[12],";
    let result = read_all(input, 4).unwrap();
    assert_eq!(result.0, b"[12]");
    assert!(!result.1);
    assert!(matches!(read_all(input, 3), Err(UnixError::TooLarge)));
}

#[test]
fn netstring_body_must_start_with_a_bracket() {
    assert!(matches!(read_all(b"3:abc,", 1024), Err(UnixError::Malformed)));
    assert!(matches!(read_all(b"3:{}x", 1024), Err(UnixError::Malformed)));
}

#[test]
fn netstring_with_wrong_terminator_is_malformed() {
    assert!(matches!(read_all(b"2:{};", 1024), Err(UnixError::Malformed)));
}

#[test]
fn short_peek_falls_back_to_a_line() {
    // The first peek saw only "2", so no size prefix is recognised.
    let input = b"2:{},";
    assert_eq!(plan_body_read(&input[..1], 1024), BodyPlan::Newline);
    assert!(matches!(read_body_from_slice(input, 1, 1024), Err(UnixError::Malformed)));
    assert!(read_body_from_slice(input, 2, 1024).is_ok());
}

#[test]
fn size_prefix_beyond_the_window_is_not_seen() {
    // Eleven digits put the colon past the eleven peeked bytes.
    let input = b"00000000002:{},\n";
    assert_eq!(plan_body_read(input, 1024), BodyPlan::Newline);
    assert!(matches!(read_all(input, 1024), Err(UnixError::Malformed)));
}

#[test]
fn plan_reports_size_and_header_length() {
    assert_eq!(plan_body_read(b"41:{\"a", 1024), BodyPlan::Netstring { size: 41, header_len: 3 });
    assert_eq!(plan_body_read(b"4294967295:", u32::MAX), BodyPlan::Netstring { size: u32::MAX, header_len: 11 });
    assert_eq!(plan_body_read(b"41:{", 40), BodyPlan::TooLarge);
    assert_eq!(plan_body_read(b"{\"a\":1}", 1024), BodyPlan::Newline);
    assert_eq!(plan_body_read(b"", 1024), BodyPlan::Newline);
}

#[test]
fn line_that_fills_the_limit_with_its_newline_is_read() {
    let result = read_all(b"{12}\nrest", 5).unwrap();
    assert_eq!(result.0, b"{12}");
    assert!(result.1);
    assert!(matches!(read_all(b"{12}\nrest", 4), Err(UnixError::TooLarge)));
}

#[test]
fn line_at_end_of_stream_without_newline_is_read() {
    let result = read_all(b"[1]", 1024).unwrap();
    assert_eq!(result.0, b"[1]");
    assert!(!result.1);
}

#[test]
fn zero_limit_reads_nothing() {
    assert!(matches!(read_all(b"{}\n", 0), Err(UnixError::Malformed)));
}

#[test]
fn whitespace_only_line_is_malformed() {
    assert!(matches!(read_all(b" \t\r\n", 1024), Err(UnixError::Malformed)));
    assert!(matches!(read_all(b"\n", 1024), Err(UnixError::Malformed)));
}

#[test]
fn finish_line_body_cases() {
    assert!(matches!(finish_line_body(Vec::new(), 10), Err(UnixError::Malformed)));
    assert!(matches!(finish_line_body(b"{abc".to_vec(), 4), Err(UnixError::TooLarge)));
    let (body, single) = finish_line_body(b"\x0c[1]\n".to_vec(), 5).unwrap();
    assert_eq!(body, b"\x0c[1]");
    assert!(!single);
    // vertical tab is not ASCII whitespace
    assert!(matches!(finish_line_body(b"\x0b{}\n".to_vec(), 10), Err(UnixError::Malformed)));
}

#[test]
fn finish_netstring_body_cases() {
    let (body, single) = finish_netstring_body(b"{},".to_vec(), 2).unwrap();
    assert_eq!(body, b"{}");
    assert!(single);
    assert!(matches!(finish_netstring_body(b"{}}".to_vec(), 2), Err(UnixError::Malformed)));
    assert!(matches!(finish_netstring_body(b"x".to_vec(), 0), Err(UnixError::Malformed)));
}

#[test]
fn read_error_kinds() {
    let eof = std::io::Error::new(std::io::ErrorKind::UnexpectedEof, "eof");
    assert!(matches!(netstring_read_error(eof, true), UnixError::Malformed));
    let other = std::io::Error::new(std::io::ErrorKind::BrokenPipe, "pipe");
    match netstring_read_error(other, false) {
        UnixError::Io(e) => assert_eq!(e.kind(), std::io::ErrorKind::BrokenPipe),
        _ => panic!("expected an I/O error"),
    }
}
