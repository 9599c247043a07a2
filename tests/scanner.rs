use algs4_rs::scanner::{
    line_content_len, next_line_span, next_token_span, parse_bool, position, LineStep, ScanBuffer,
    Scanned, TokenStep,
};

fn loaded(input: &str) -> ScanBuffer {
    let mut sc = ScanBuffer::new();
    sc.push_input(input.as_bytes());
    sc.set_eof();
    sc
}

fn token(sc: &mut ScanBuffer) -> Option<String> {
    match sc.next_token() {
        Scanned::Item(bytes) => Some(String::from_utf8(bytes).unwrap()),
        _ => None,
    }
}

fn line(sc: &mut ScanBuffer) -> Option<String> {
    match sc.next_line() {
        Scanned::Item(bytes) => Some(String::from_utf8(bytes).unwrap()),
        _ => None,
    }
}

#[test]
fn test_peek_until_1() {
    let input_data = "10 20 30 40\nhello world\n50";
    let r = position(|x: u8| !x.is_ascii_whitespace(), input_data.as_bytes(), 0);
    assert_eq!(r, Some(0));
}

#[test]
fn test_peek_until_2() {
    let input_data = "10 20 30 40\nhello world\n50";
    let r = position(|x: u8| x.is_ascii_whitespace(), input_data.as_bytes(), 0);
    assert_eq!(r, Some(2));
}

#[test]
fn test_peek_until_3() {
    let input_data = "10 20 30 40\nhello world\n50";
    let r = position(|x: u8| x == b'\n', input_data.as_bytes(), 0);
    assert_eq!(r, Some(11));
}

#[test]
fn test_peek_until_4() {
    let input_data = "";
    let r = position(|x: u8| x == b'\n', input_data.as_bytes(), 0);
    assert_eq!(r, None);
}

#[test]
fn test_scanner_ok_cases() {
    let input_data = "10 20 30 40\nhello world\n50";
    let mut scanner = loaded(input_data);

    let num: i32 = token(&mut scanner).unwrap().parse().unwrap();
    assert_eq!(num, 10);

    let line1 = line(&mut scanner).unwrap();
    assert_eq!(line1, " 20 30 40");

    assert!(matches!(scanner.peek_token(), TokenStep::Token(_, _)));
    let s = token(&mut scanner).unwrap();
    assert_eq!(s, "hello");

    let input_with_bools = "true false\nfinal_token";
    let mut bool_scanner = loaded(input_with_bools);

    let t = token(&mut bool_scanner).unwrap();
    assert_eq!(parse_bool(t.as_bytes()), Some(true));

    let s = token(&mut bool_scanner).unwrap();
    assert_eq!(s, "false");

    let l = line(&mut bool_scanner).unwrap();
    assert_eq!(l, "");

    let l = line(&mut bool_scanner).unwrap();
    assert_eq!(l, "final_token");
}

#[test]
fn scanner_needs_more_until_eof() {
    let mut sc = ScanBuffer::new();
    sc.push_input(b"  4");
    assert!(matches!(sc.next_token(), Scanned::NeedMore));
    sc.push_input(b"2 rest");
    assert_eq!(token(&mut sc).unwrap(), "42");
    assert!(matches!(sc.next_token(), Scanned::NeedMore));
    sc.set_eof();
    assert_eq!(token(&mut sc).unwrap(), "rest");
    assert!(matches!(sc.next_token(), Scanned::Exhausted));
    assert!(matches!(sc.next_line(), Scanned::Exhausted));
}

#[test]
fn scanner_lines_and_spans() {
    let mut sc = loaded("a b\r\nc\n\nlast");
    assert_eq!(line(&mut sc).unwrap(), "a b");
    assert_eq!(line(&mut sc).unwrap(), "c");
    assert_eq!(line(&mut sc).unwrap(), "");
    assert_eq!(line(&mut sc).unwrap(), "last");
    assert!(matches!(sc.next_line(), Scanned::Exhausted));

    assert!(matches!(next_token_span(b" ab c", 0, false), TokenStep::Token(1, 3)));
    assert!(matches!(next_token_span(b" ab", 0, false), TokenStep::NeedMore));
    assert!(matches!(next_token_span(b" ab", 0, true), TokenStep::Token(1, 3)));
    assert!(matches!(next_token_span(b"   ", 0, true), TokenStep::Exhausted));
    assert!(matches!(next_line_span(b"xy\nz", 0, false), LineStep::Line(0, 3)));
    assert!(matches!(next_line_span(b"xy\nz", 3, false), LineStep::NeedMore));
    assert!(matches!(next_line_span(b"xy\nz", 3, true), LineStep::Line(3, 4)));
    assert_eq!(line_content_len(b"ab\r\n"), 2);
    assert_eq!(line_content_len(b"ab\n"), 2);
    assert_eq!(line_content_len(b"ab"), 2);
}

#[test]
fn scanner_bool_tokens() {
    assert_eq!(parse_bool(b"TRUE"), Some(true));
    assert_eq!(parse_bool(b"1"), Some(true));
    assert_eq!(parse_bool(b"False"), Some(false));
    assert_eq!(parse_bool(b"0"), Some(false));
    assert_eq!(parse_bool(b"yes"), None);
    assert_eq!(parse_bool(b""), None);
}
