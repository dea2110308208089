use http_wire::response::{expect_skip, extract_http_version, extract_until, parse_status};
use http_wire::text::{decimal_string, text_of};
use http_wire::Error;

#[test]
fn expect_skip_steps_over_the_literal() {
    assert_eq!(expect_skip(b" 200", b" "), Ok(&b"200"[..]));
    assert_eq!(expect_skip(b"\r\nrest", b"\r\n"), Ok(&b"rest"[..]));
    assert_eq!(expect_skip(b"abc", b"abc"), Ok(&b""[..]));
    assert_eq!(expect_skip(b"abc", b""), Ok(&b"abc"[..]));
}

#[test]
fn expect_skip_refuses_anything_else() {
    assert_eq!(expect_skip(b"200", b" "), Err(Error::MalformedFormat));
    assert_eq!(expect_skip(b"", b" "), Err(Error::MalformedFormat));
    assert_eq!(expect_skip(b"\r", b"\r\n"), Err(Error::MalformedFormat));
    assert_eq!(expect_skip(b"x\r\n", b"\r\n"), Err(Error::MalformedFormat));
}

#[test]
fn extract_until_cuts_at_first_occurrence() {
    assert_eq!(extract_until(b"name: value: more", b": "), Ok((&b"value: more"[..], &b"name"[..])));
    assert_eq!(extract_until(b"\r\nrest", b"\r\n"), Ok((&b"rest"[..], &b""[..])));
    assert_eq!(extract_until(b"line\r\n", b"\r\n"), Ok((&b""[..], &b"line"[..])));
    assert_eq!(extract_until(b"a\r\r\nb", b"\r\n"), Ok((&b"b"[..], &b"a\r"[..])));
    assert_eq!(extract_until(b"aab", b"ab"), Ok((&b""[..], &b"a"[..])));
    assert_eq!(extract_until(b"abc", b""), Ok((&b"abc"[..], &b""[..])));
    assert_eq!(extract_until(b"", b""), Ok((&b""[..], &b""[..])));
}

#[test]
fn extract_until_reports_missing_literal() {
    assert_eq!(extract_until(b"no separator here", b": "), Err(Error::MalformedFormat));
    assert_eq!(extract_until(b"", b"\r\n"), Err(Error::MalformedFormat));
    assert_eq!(extract_until(b"ends with cr\r", b"\r\n"), Err(Error::MalformedFormat));
    assert_eq!(extract_until(b"x", b"xy"), Err(Error::MalformedFormat));
}

#[test]
fn extract_http_version_steps_over_the_version() {
    assert_eq!(extract_http_version(b"HTTP/1.1 200 OK"), Ok(&b" 200 OK"[..]));
    assert_eq!(extract_http_version(b"HTTP/1.1"), Ok(&b""[..]));
    assert_eq!(extract_http_version(b"HTTP/1.12"), Ok(&b"2"[..]));
}

#[test]
fn extract_http_version_refuses_other_prefixes() {
    assert_eq!(extract_http_version(b"HTTP/1.0 200 OK"), Err(Error::UnsupportedHttpVersion));
    assert_eq!(extract_http_version(b"HTTP/2"), Err(Error::UnsupportedHttpVersion));
    assert_eq!(extract_http_version(b"HTTP/1."), Err(Error::UnsupportedHttpVersion));
    assert_eq!(extract_http_version(b""), Err(Error::UnsupportedHttpVersion));
}

#[test]
fn parse_status_reads_decimal_digits() {
    assert_eq!(parse_status(b"200"), Some(200));
    assert_eq!(parse_status(b"0"), Some(0));
    assert_eq!(parse_status(b"007"), Some(7));
    assert_eq!(parse_status(b"+301"), Some(301));
    assert_eq!(parse_status(b"65535"), Some(65535));
}

#[test]
fn parse_status_refuses_what_is_no_number() {
    assert_eq!(parse_status(b""), None);
    assert_eq!(parse_status(b"+"), None);
    assert_eq!(parse_status(b"++1"), None);
    assert_eq!(parse_status(b"-1"), None);
    assert_eq!(parse_status(b"1+"), None);
    assert_eq!(parse_status(b"20O"), None);
    assert_eq!(parse_status(b" 200"), None);
    assert_eq!(parse_status(b"200 "), None);
    assert_eq!(parse_status(b"65536"), None);
    assert_eq!(parse_status(b"4294967296"), None);
    assert_eq!(parse_status("\u{661}".as_bytes()), None);
}

#[test]
fn parse_status_agrees_with_std() {
    let tokens: [&[u8]; 12] = [
        b"200", b"+200", b"-200", b"", b"+", b"0000", b"65535", b"65536", b"1e3", b"0x10", b"12 ",
        b"99999",
    ];
    for token in tokens {
        let expected = std::str::from_utf8(token).ok().and_then(|t| t.parse::<u16>().ok());
        assert_eq!(parse_status(token), expected);
    }
}

#[test]
fn text_of_decodes_valid_text() {
    assert_eq!(text_of(b"plain"), "plain");
    assert_eq!(text_of("caf\u{e9} \u{1f600}".as_bytes()), "caf\u{e9} \u{1f600}");
    assert_eq!(text_of(b""), "");
}

#[test]
fn text_of_replaces_invalid_bytes() {
    assert_eq!(text_of(b"a\xffb"), "a\u{fffd}b");
    assert_eq!(text_of(b"\xc3"), "\u{fffd}");
    assert_eq!(text_of(b"\xf0\x9f\x98"), "\u{fffd}");
}

#[test]
fn decimal_string_writes_digits() {
    assert_eq!(decimal_string(0), "0");
    assert_eq!(decimal_string(9), "9");
    assert_eq!(decimal_string(10), "10");
    assert_eq!(decimal_string(1024), "1024");
    assert_eq!(decimal_string(9876543210), "9876543210");
    assert_eq!(decimal_string(usize::MAX), format!("{}", usize::MAX));
}

#[test]
fn written_status_reads_back() {
    for status in [0u16, 7, 10, 99, 200, 404, 9999, 65535] {
        let token = decimal_string(status as usize);
        assert_eq!(parse_status(token.as_bytes()), Some(status));
    }
}
