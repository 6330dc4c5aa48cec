use json_parser::{
    escape, hex_u16, parse_escape_seq, parse_string, parse_string_raw, scan, unescape, unquote,
    ErrorKind, Json, JsonValue, ParseError, TextCodec,
};
use std::borrow::Cow;

fn rest_after(input: &str, r: Result<usize, ParseError>) -> &str {
    &input[r.unwrap()..]
}

#[test]
fn test_parse_escape_seq() {
    assert_eq!(rest_after("t rest", parse_escape_seq("t rest", 0)), " rest");
    assert_eq!(rest_after("\" rest", parse_escape_seq("\" rest", 0)), " rest");
    assert!(matches!(parse_escape_seq("m rest", 0), Err(_)));
    assert_eq!(rest_after("u0020 rest", parse_escape_seq("u0020 rest", 0)), " rest");
    assert_eq!(rest_after("uffff rest", parse_escape_seq("uffff rest", 0)), " rest");
    assert_eq!(
        rest_after("ud800\\uDC00 rest", parse_escape_seq("ud800\\uDC00 rest", 0)),
        " rest"
    );
    let input = "ud800\\u1234 rest";
    let e = parse_escape_seq(input, 0).unwrap_err();
    assert_eq!(e, ParseError { kind: ErrorKind::Escape, offset: 7, fatal: true });
    assert_eq!(&input[e.offset..e.offset + 4], "1234");
    let input = "udd00 rest";
    let e = parse_escape_seq(input, 0).unwrap_err();
    assert_eq!(e, ParseError { kind: ErrorKind::Escape, offset: 1, fatal: true });
    assert_eq!(&input[e.offset..e.offset + 4], "dd00");
    assert!(matches!(parse_escape_seq("ufff rest", 0), Err(_)));
    assert!(matches!(parse_escape_seq("ud800\\udc0 rest", 0), Err(_)));
}

fn unquoted(input: &str) -> (&str, &str) {
    let (raw, next) = unquote(input, 0).unwrap();
    (&input[next..], raw)
}

#[test]
fn test_unquote() {
    assert_eq!(unquoted(r#""""#), ("", ""));
    assert_eq!(unquoted(r#""a normal string" rest"#), (" rest", "a normal string"));
    assert_eq!(
        unquoted(r#""a\tstring\twith\ttabs" rest"#),
        (" rest", r#"a\tstring\twith\ttabs"#)
    );
    assert_eq!(
        unquoted(r#""a\nstring\nwith\nnewlines" rest"#),
        (" rest", r#"a\nstring\nwith\nnewlines"#)
    );
    assert_eq!(
        unquoted(r#""a\r\nstring\r\nwith\r\nnewlines\r\non\r\nwindows" rest"#),
        (" rest", r#"a\r\nstring\r\nwith\r\nnewlines\r\non\r\nwindows"#)
    );
    assert_eq!(
        unquoted(r#""\u4e00\u4e2a\u542b\u6709UTF-16\u7684\u5b57\u7b26\u4e32" rest"#),
        (" rest", r#"\u4e00\u4e2a\u542b\u6709UTF-16\u7684\u5b57\u7b26\u4e32"#)
    );
    let input = r#""\uD834\uDD1E\u006d\u0075\u0073\uDD1E\u0069\u0063\uD834""#;
    let e = unquote(input, 0).unwrap_err();
    assert_eq!(e.kind, ErrorKind::Escape);
    assert!(e.fatal);
    assert_eq!(&input[e.offset..e.offset + 4], "DD1E");
    assert_eq!(e.offset, 33);
    let input = r#""\uD834\uE000\u006d\u0075\u0073\uDD1E\u0069\u0063\uD834""#;
    let e = unquote(input, 0).unwrap_err();
    assert_eq!(e.kind, ErrorKind::Escape);
    assert!(e.fatal);
    assert_eq!(&input[e.offset..e.offset + 4], "E000");
    assert_eq!(e.offset, 9);
}

fn string_at_start<'a>(codec: &TextCodec, input: &'a str) -> (&'a str, Json<'a>) {
    let (value, next) = parse_string(codec, input, 0).unwrap();
    (&input[next..], value)
}

#[test]
fn test_parse_string() {
    let codec = TextCodec::new();
    assert_eq!(
        string_at_start(&codec, r#""a normal string" rest"#),
        (" rest", Json::from("a normal string"))
    );
    assert_eq!(
        string_at_start(&codec, r#""a\r\nstring\r\nwith\r\nnewlines\r\non\r\nwindows" rest"#),
        (" rest", Json::from("a\r\nstring\r\nwith\r\nnewlines\r\non\r\nwindows"))
    );
    assert_eq!(
        string_at_start(&codec, r#""\u4e00\u4e2a\u542b\u6709UTF-16\u7684\u5b57\u7b26\u4e32" rest"#),
        (" rest", Json::from("一个含有UTF-16的字符串"))
    );
    let input = r#""\uD834\uDD1E\u006d\u0075\u0073\uDD1E\u0069\u0063\uD834""#;
    let e = parse_string(&codec, input, 0).unwrap_err();
    assert_eq!(e, ParseError { kind: ErrorKind::Escape, offset: 33, fatal: true });
    assert_eq!(&input[e.offset..e.offset + 4], "DD1E");
    let input = r#""\uD834\uE000\u006d\u0075\u0073\uDD1E\u0069\u0063\uD834""#;
    let e = parse_string(&codec, input, 0).unwrap_err();
    assert_eq!(e, ParseError { kind: ErrorKind::Escape, offset: 9, fatal: true });
    assert_eq!(&input[e.offset..e.offset + 4], "E000");
}

#[test]
fn test_parse_string_empty() {
    let codec = TextCodec::new();
    assert_eq!(string_at_start(&codec, r#""""#), ("", Json::from("")));
}

#[test]
fn test_parse_string_invalid_escape() {
    let codec = TextCodec::new();
    assert!(matches!(parse_string(&codec, r#"hello\a\world"#, 0), Err(_)));
    assert!(matches!(parse_string(&codec, r#"utf16: \uff"#, 0), Err(_)));
}

#[test]
fn test_escape() {
    assert_eq!(&escape(r#""Hello\World""#), r#"\"Hello\\World\""#);
    assert_eq!(&escape("a\tb\tc\td\u{0000}\u{001a}"), r#"a\tb\tc\td\u0000\u001a"#);
}

#[test]
fn escape_writes_every_short_form_and_hex_in_lower_case() {
    assert_eq!(&escape("\u{8}\u{c}\n\r\t"), r#"\b\f\n\r\t"#);
    assert_eq!(&escape("\u{1}\u{b}\u{e}\u{1f}"), r#"\u0001\u000b\u000e\u001f"#);
    assert_eq!(&escape("/"), "/");
    assert_eq!(&escape("é\u{7f}𝄞"), "é\u{7f}𝄞");
}

#[test]
fn escape_borrows_when_nothing_needs_an_escape() {
    assert!(matches!(escape("plain text, ünïcödé"), Cow::Borrowed(_)));
    assert!(matches!(escape("a\"b"), Cow::Owned(_)));
    assert!(matches!(escape(""), Cow::Borrowed(_)));
}

#[test]
fn unescape_resolves_every_escape() {
    assert_eq!(unescape(r#"\"\\\/\b\f\n\r\t"#).unwrap(), "\"\\/\u{8}\u{c}\n\r\t");
    assert_eq!(unescape(r#"\u0041\u00e9\u4e00"#).unwrap(), "Aé一");
    assert_eq!(unescape(r#"x\ud834\udd1ey"#).unwrap(), "x𝄞y");
    assert_eq!(unescape(r#"\uD800\uDC00"#).unwrap(), "\u{10000}");
    assert_eq!(unescape(r#"\udbff\udfff"#).unwrap(), "\u{10ffff}");
    assert_eq!(unescape("a \"quote\" stays").unwrap(), "a \"quote\" stays");
}

#[test]
fn unescape_borrows_when_no_escape_is_present() {
    assert!(matches!(unescape("plain ünïcödé"), Ok(Cow::Borrowed(_))));
    assert!(matches!(unescape(r#"a\nb"#), Ok(Cow::Owned(_))));
}

#[test]
fn unescape_refuses_what_is_malformed() {
    let e = unescape(r#"ab\x"#).unwrap_err();
    assert_eq!(e, ParseError { kind: ErrorKind::Escape, offset: 3, fatal: true });
    let e = unescape("ab\\").unwrap_err();
    assert_eq!(e, ParseError { kind: ErrorKind::Escape, offset: 3, fatal: true });
    let e = unescape(r#"\u12"#).unwrap_err();
    assert_eq!(e, ParseError { kind: ErrorKind::Escape, offset: 2, fatal: true });
    let e = unescape(r#"\u12G4"#).unwrap_err();
    assert_eq!(e, ParseError { kind: ErrorKind::Escape, offset: 2, fatal: true });
    let e = unescape(r#"\ud800"#).unwrap_err();
    assert_eq!(e, ParseError { kind: ErrorKind::Escape, offset: 6, fatal: true });
    let e = unescape(r#"\ud800abc\udc00"#).unwrap_err();
    assert_eq!(e, ParseError { kind: ErrorKind::Escape, offset: 6, fatal: true });
    let e = unescape(r#"\ud800\ud800\udc00"#).unwrap_err();
    assert_eq!(e, ParseError { kind: ErrorKind::Escape, offset: 8, fatal: true });
    let e = unescape(r#"\udc00"#).unwrap_err();
    assert_eq!(e, ParseError { kind: ErrorKind::Escape, offset: 2, fatal: true });
}

#[test]
fn unescape_undoes_escape_on_chosen_texts() {
    let codec = TextCodec::new();
    let texts = [
        "",
        "plain",
        "\"\\/",
        "\u{0}\u{1}\u{1f} \u{7f}",
        "tab\tnewline\nreturn\r",
        "é一𝄞\u{10ffff}",
        "\\u0041 is not an escape here",
    ];
    for text in texts {
        let escaped = codec.escape(text);
        assert_eq!(codec.unescape(&escaped).unwrap(), text);
    }
}

#[test]
fn hex_u16_reads_four_digits_in_either_case() {
    assert_eq!(hex_u16("0000", 0), Some(0));
    assert_eq!(hex_u16("ffff", 0), Some(0xffff));
    assert_eq!(hex_u16("xxAbCd", 2), Some(0xabcd));
    assert_eq!(hex_u16("12", 0), None);
    assert_eq!(hex_u16("12g4", 0), None);
    assert_eq!(hex_u16("1234", 1), None);
    assert_eq!(hex_u16("1234", 9), None);
}

#[test]
fn scan_finds_the_closing_quote() {
    assert_eq!(scan(r#"abc" rest"#, 0, true), Ok(3));
    assert_eq!(scan(r#"a\"c" rest"#, 0, true), Ok(4));
    assert_eq!(scan(r#"a"c"#, 0, false), Ok(3));
    assert_eq!(
        scan("abc", 0, true),
        Err(ParseError { kind: ErrorKind::Syntax, offset: 3, fatal: true })
    );
}

#[test]
fn parse_string_raw_borrows_from_the_input() {
    let codec = TextCodec::new();
    let input = r#""no escapes" "with\tone""#;
    let (text, next) = parse_string_raw(&codec, input, 0).unwrap();
    assert_eq!(text, "no escapes");
    assert!(matches!(text, Cow::Borrowed(_)));
    assert_eq!(next, 12);
    let (text, next) = parse_string_raw(&codec, input, 13).unwrap();
    assert_eq!(text, "with\tone");
    assert!(matches!(text, Cow::Owned(_)));
    assert_eq!(next, input.len());
}

#[test]
fn a_string_that_is_not_closed_is_a_syntax_error() {
    let codec = TextCodec::new();
    let e = parse_string(&codec, "\"abc", 0).unwrap_err();
    assert_eq!(e, ParseError { kind: ErrorKind::Syntax, offset: 4, fatal: true });
    let e = parse_string(&codec, "abc", 0).unwrap_err();
    assert_eq!(e, ParseError { kind: ErrorKind::Syntax, offset: 0, fatal: false });
    assert_eq!(
        parse_string(&codec, "\"\"", 0),
        Ok((Json(Some(JsonValue::String(Cow::Borrowed("")))), 2))
    );
}
