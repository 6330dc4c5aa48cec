use json_parser::{
    delimited_list, parse, parse_array, parse_json_element, parse_number, parse_object,
    render_compact, render_pretty, Collected, ErrorKind, FloatLiteral, ItemKind, Json,
    JsonObject, JsonValue, KeyOrder, PadAdapter, ParseError, TextCodec,
};
use std::borrow::Cow;

fn float(x: f64) -> Json<'static> {
    let text = if x.fract() == 0.0 { format!("{}.0", x) } else { format!("{}", x) };
    Json::from(FloatLiteral::new(Cow::Owned(text)).unwrap())
}

fn literal(text: &'static str) -> Json<'static> {
    Json::from(FloatLiteral::new(Cow::Borrowed(text)).unwrap())
}

fn float_value(value: &Json) -> f64 {
    match &value.0 {
        Some(JsonValue::Float(lit)) => lit.as_str().parse::<f64>().unwrap(),
        _ => panic!("not a float"),
    }
}

fn object(pairs: Vec<(&'static str, Json<'static>)>) -> Json<'static> {
    let pairs = pairs.into_iter().map(|(k, v)| (Cow::Borrowed(k), v)).collect();
    Json::from(JsonObject::from_pairs(pairs))
}

fn syntax(offset: usize, fatal: bool) -> ParseError {
    ParseError { kind: ErrorKind::Syntax, offset, fatal }
}

#[test]
fn manual_tests() {
    let json = object(vec![
        ("int", Json::from(1i64)),
        ("float", float(1f64)),
        ("float2", float(1.265)),
    ]);
    println!("{}", render_compact(&json));
    println!("{}", render_pretty(&json));
    assert_eq!(render_compact(&json), r#"{"float": 1.0, "float2": 1.265, "int": 1}"#);
    let nested_json = object(vec![
        ("age", Json::from(20)),
        ("name", Json::from("Alice")),
        (
            "phone_nums",
            object(vec![
                ("home\t", Json::from("123-456-7890")),
                (
                    "work",
                    object(vec![
                        ("office1", Json::from("111-111-1111")),
                        ("office2", Json::from("222-222-2222")),
                    ]),
                ),
                ("fax", Json::from(None)),
            ]),
        ),
        (
            "friends",
            Json::from(vec![Json::from("Brown"), Json::from("Catherine"), Json::from("Dell")]),
        ),
    ]);
    println!("{}", render_compact(&nested_json));
    println!("{}", render_pretty(&nested_json));
    assert_eq!(
        render_compact(&nested_json),
        "{\"age\": 20, \"friends\": [\"Brown\", \"Catherine\", \"Dell\"], \"name\": \"Alice\", \
         \"phone_nums\": {\"fax\": null, \"home\\t\": \"123-456-7890\", \"work\": \
         {\"office1\": \"111-111-1111\", \"office2\": \"222-222-2222\"}}}"
    );
    assert_eq!(
        render_pretty(&nested_json),
        "{\n    \"age\": 20,\n    \"friends\": [\n        \"Brown\",\n        \"Catherine\",\n        \"Dell\"\n    ],\n    \"name\": \"Alice\",\n    \"phone_nums\": {\n        \"fax\": null,\n        \"home\\t\": \"123-456-7890\",\n        \"work\": {\n            \"office1\": \"111-111-1111\",\n            \"office2\": \"222-222-2222\"\n        }\n    }\n}"
    );
    assert_eq!(parse(&render_compact(&nested_json)).unwrap(), nested_json);
    assert_eq!(parse(&render_pretty(&nested_json)).unwrap(), nested_json);
}

#[test]
fn placeholder() {}

#[test]
fn test_delimited_list_empty() {
    let codec = TextCodec::new();
    assert_eq!(parse_array(&codec, "[]", 0), Ok((Json::from(Vec::new()), 2)));
    match delimited_list(&codec, "[]", 1, ItemKind::Value) {
        Ok((Collected::Values(values), next)) => {
            assert!(values.is_empty());
            assert_eq!(next, 1);
        }
        _ => panic!("an empty list of values was expected"),
    }
}

#[test]
fn a_nested_document_is_read() {
    let json_str = r#"{
        "name": "Frank",
        "age": 18,
        "phone": {
            "work": "123-456-7890",
            "home": "098-765-4321",
            "fax": null
        }
    }"#;
    let json = object(vec![
        ("name", Json::from("Frank")),
        ("age", Json::from(18)),
        (
            "phone",
            object(vec![
                ("work", Json::from("123-456-7890")),
                ("home", Json::from("098-765-4321")),
                ("fax", Json::from(None)),
            ]),
        ),
    ]);
    let codec = TextCodec::new();
    assert_eq!(parse_json_element(&codec, json_str, 0), Ok((json, json_str.len())));
}

#[test]
fn numbers_are_classified_by_their_literal() {
    assert_eq!(parse("5"), Ok(Json::from(5)));
    assert_eq!(parse("-0"), Ok(Json::from(0)));
    assert_eq!(parse("-17"), Ok(Json::from(-17)));
    assert_eq!(parse("9223372036854775807"), Ok(Json::from(i64::MAX)));
    assert_eq!(parse("-9223372036854775808"), Ok(Json::from(i64::MIN)));
    let five = parse("5.0").unwrap();
    assert_eq!(five, float(5.0));
    assert_eq!(float_value(&five), 5.0);
    let big = parse("9223372036854775808").unwrap();
    assert!(matches!(&big.0, Some(JsonValue::Float(_))));
    assert_eq!(float_value(&big), 9223372036854775808.0);
    let small = parse("-9223372036854775809").unwrap();
    assert_eq!(float_value(&small), -9223372036854775809.0);
    assert_eq!(float_value(&parse("1e2").unwrap()), 100.0);
    assert_eq!(float_value(&parse("1E2").unwrap()), 100.0);
    assert_eq!(float_value(&parse("-1.5e-3").unwrap()), -0.0015);
    assert_eq!(float_value(&parse("0.25E+1").unwrap()), 2.5);
    assert_eq!(float_value(&parse("123456789012345678901234567890").unwrap()), 1.2345678901234568e29);
}

#[test]
fn malformed_numbers_are_syntax_errors() {
    for text in ["-", ".5", "+1", "1.", "1e", "1e+", "-.5", "--1"] {
        assert_eq!(parse(text), Err(syntax(0, false)), "{}", text);
        assert_eq!(parse_number(text, 0), Err(syntax(0, false)), "{}", text);
    }
    assert_eq!(
        parse("01"),
        Err(ParseError { kind: ErrorKind::TrailingData, offset: 1, fatal: true })
    );
    assert_eq!(parse("[1.]"), Err(syntax(1, true)));
    assert_eq!(parse_number("12.5e3,", 0), Ok((literal("12.5e3"), 6)));
    assert_eq!(parse_number("x-7]", 1), Ok((Json::from(-7), 3)));
}

#[test]
fn float_literals_are_checked() {
    for text in ["1.0", "-0.0", "1e5", "2E-3", "9223372036854775808", "0.1e+10"] {
        let lit = FloatLiteral::new(Cow::Borrowed(text)).unwrap();
        assert_eq!(lit.as_str(), text);
    }
    for text in ["1", "-5", "0", "", "1.", "01.5", "1.5 ", " 1.5", "NaN", "inf", "1e", "abc"] {
        assert_eq!(FloatLiteral::new(Cow::Borrowed(text)), None, "{}", text);
    }
}

#[test]
fn surrogates_are_validated() {
    assert_eq!(parse("\"\\ud800\\udc00\""), Ok(Json::from("\u{10000}")));
    let e = parse("\"\\ud800\\u0041\"").unwrap_err();
    assert_eq!(e, ParseError { kind: ErrorKind::Escape, offset: 9, fatal: true });
    let e = parse("\"\\udc00\"").unwrap_err();
    assert_eq!(e, ParseError { kind: ErrorKind::Escape, offset: 3, fatal: true });
    let e = parse("\"\\ud800\"").unwrap_err();
    assert_eq!(e.kind, ErrorKind::Escape);
    let e = parse("[\"\\q\"]").unwrap_err();
    assert_eq!(e, ParseError { kind: ErrorKind::Escape, offset: 3, fatal: true });
}

#[test]
fn whitespace_is_insignificant() {
    assert_eq!(parse(" [ 1 , 2 ] "), parse("[1,2]"));
    assert_eq!(parse("[1,2]"), Ok(Json::from(vec![Json::from(1), Json::from(2)])));
    assert_eq!(parse("\t\r\n{ \"a\"\n:\t1 }\r\n"), parse("{\"a\":1}"));
    assert_eq!(parse(" null "), Ok(Json::from(None)));
    assert_eq!(parse("\u{b}1"), Err(syntax(0, false)));
}

#[test]
fn a_trailing_comma_is_refused() {
    assert_eq!(parse("[1,2,]"), Err(syntax(5, true)));
    assert_eq!(parse("{\"a\":1,}"), Err(syntax(7, true)));
    assert_eq!(parse("[,]"), Err(syntax(1, true)));
    assert_eq!(parse("[1,,2]"), Err(syntax(3, true)));
}

#[test]
fn object_keys_are_kept_in_order() {
    let value = parse("{\"b\":2,\"a\":1}").unwrap();
    assert_eq!(render_compact(&value), "{\"a\": 1, \"b\": 2}");
    assert_eq!(value, parse("{\"a\":1,\"b\":2}").unwrap());
    let value = parse("{\"b\":0,\"aa\":0,\"a\":0,\"B\":0,\"\":0,\"é\":0}").unwrap();
    assert_eq!(
        render_compact(&value),
        "{\"\": 0, \"B\": 0, \"a\": 0, \"aa\": 0, \"b\": 0, \"é\": 0}"
    );
}

#[test]
fn of_two_equal_keys_the_later_stays() {
    let value = parse("{\"a\":1,\"a\":2}").unwrap();
    match &value.0 {
        Some(JsonValue::Object(o)) => {
            assert_eq!(o.len(), 1);
            assert_eq!(o.key(0), "a");
            assert_eq!(o.value(0), &Json::from(2));
            assert_eq!(o.get("a"), Some(&Json::from(2)));
            assert_eq!(o.get("b"), None);
        }
        _ => panic!("an object was expected"),
    }
    assert_eq!(render_compact(&value), "{\"a\": 2}");
    let value = parse("{\"a\":1,\"b\":5,\"a\\u0062\":7,\"\\u0061\":3}").unwrap();
    assert_eq!(render_compact(&value), "{\"a\": 3, \"ab\": 7, \"b\": 5}");
}

#[test]
fn empty_containers_are_read() {
    assert_eq!(parse("[]"), Ok(Json::from(Vec::new())));
    assert_eq!(parse("{}"), Ok(Json::from(JsonObject::new())));
    assert_eq!(parse("[ ]"), Ok(Json::from(Vec::new())));
    assert_eq!(parse("{\n}"), Ok(Json::from(JsonObject::new())));
    assert_eq!(parse("[[],{}]").map(|v| render_compact(&v)), Ok("[[], {}]".to_string()));
}

#[test]
fn trailing_data_is_refused() {
    assert_eq!(
        parse("1 2"),
        Err(ParseError { kind: ErrorKind::TrailingData, offset: 2, fatal: true })
    );
    assert_eq!(
        parse("nullx"),
        Err(ParseError { kind: ErrorKind::TrailingData, offset: 4, fatal: true })
    );
    assert_eq!(
        parse("{} []"),
        Err(ParseError { kind: ErrorKind::TrailingData, offset: 3, fatal: true })
    );
}

#[test]
fn no_value_is_a_syntax_error_where_one_was_expected() {
    assert_eq!(parse(""), Err(syntax(0, false)));
    assert_eq!(parse("   "), Err(syntax(3, false)));
    assert_eq!(parse(" x"), Err(syntax(1, false)));
    assert_eq!(parse("nul"), Err(syntax(0, false)));
    assert_eq!(parse("tru"), Err(syntax(0, false)));
    assert_eq!(parse("[1 2]"), Err(syntax(3, true)));
    assert_eq!(parse("[1"), Err(syntax(2, true)));
    assert_eq!(parse("{\"a\" 1}"), Err(syntax(5, true)));
    assert_eq!(parse("{\"a\":}"), Err(syntax(5, true)));
    assert_eq!(parse("{1:2}"), Err(syntax(1, true)));
    assert_eq!(parse("{\"a\":1"), Err(syntax(6, true)));
    assert_eq!(parse("]"), Err(syntax(0, false)));
}

#[test]
fn productions_report_where_they_stop() {
    let codec = TextCodec::new();
    let input = "xx [1, [2]] , rest";
    assert_eq!(
        parse_array(&codec, input, 3).map(|(v, next)| (render_compact(&v), &input[next..])),
        Ok(("[1, [2]]".to_string(), " , rest"))
    );
    assert_eq!(
        parse_json_element(&codec, input, 2).map(|(_, next)| &input[next..]),
        Ok(", rest")
    );
    assert_eq!(parse_object(&codec, input, 3), Err(syntax(3, false)));
    assert_eq!(parse_array(&codec, input, 0), Err(syntax(0, false)));
    assert_eq!(parse_json_element(&codec, "1", 5), Err(syntax(5, false)));
}

#[test]
fn the_compact_form_is_as_described() {
    assert_eq!(render_compact(&Json::from(None)), "null");
    assert_eq!(render_compact(&Json::from(true)), "true");
    assert_eq!(render_compact(&Json::from(false)), "false");
    assert_eq!(render_compact(&Json::from(0)), "0");
    assert_eq!(render_compact(&Json::from(-42)), "-42");
    assert_eq!(render_compact(&Json::from(i64::MAX)), "9223372036854775807");
    assert_eq!(render_compact(&Json::from(i64::MIN)), "-9223372036854775808");
    assert_eq!(render_compact(&float(1.0)), "1.0");
    assert_eq!(render_compact(&float(-2.5)), "-2.5");
    assert_eq!(render_compact(&Json::from("a\"b\\c\n")), r#""a\"b\\c\n""#);
    assert_eq!(render_compact(&Json::from("x".to_string())), "\"x\"");
    assert_eq!(render_compact(&Json::from(Vec::new())), "[]");
    assert_eq!(render_compact(&Json::from(JsonObject::new())), "{}");
    assert_eq!(
        render_compact(&Json::from(vec![Json::from(1), Json::from(None), Json::from("s")])),
        "[1, null, \"s\"]"
    );
    assert_eq!(
        render_compact(&object(vec![("k\n", Json::from(vec![Json::from(true)]))])),
        "{\"k\\n\": [true]}"
    );
}

#[test]
fn the_pretty_form_is_as_described() {
    assert_eq!(render_pretty(&Json::from(7)), "7");
    assert_eq!(render_pretty(&Json::from(Vec::new())), "[\n\n]");
    assert_eq!(render_pretty(&Json::from(JsonObject::new())), "{\n\n}");
    assert_eq!(render_pretty(&Json::from(vec![Json::from(1)])), "[\n    1\n]");
    assert_eq!(
        render_pretty(&Json::from(vec![Json::from(Vec::new()), Json::from(JsonObject::new())])),
        "[\n    [\n    \n    ],\n    {\n    \n    }\n]"
    );
    assert_eq!(
        render_pretty(&object(vec![("a", Json::from(vec![Json::from(vec![Json::from("x\ny")])]))])),
        "{\n    \"a\": [\n        [\n            \"x\\ny\"\n        ]\n    ]\n}"
    );
}

#[test]
fn parsing_undoes_rendering_on_chosen_values() {
    let values = vec![
        Json::from(None),
        Json::from(true),
        Json::from(i64::MIN),
        float(0.1),
        float(1e300),
        Json::from("\u{0}\"\\\u{1f}é𝄞"),
        Json::from(Vec::new()),
        Json::from(vec![Json::from(Vec::new()), Json::from(JsonObject::new())]),
        object(vec![
            ("b", Json::from(vec![Json::from(1), float(2.5), Json::from("three")])),
            ("a", object(vec![("", Json::from(None)), ("k\"", Json::from(false))])),
            ("c", Json::from(JsonObject::new())),
        ]),
    ];
    for value in &values {
        assert_eq!(parse(&render_compact(value)).as_ref(), Ok(value));
        assert_eq!(parse(&render_pretty(value)).as_ref(), Ok(value));
    }
}

#[test]
fn objects_replace_and_order_their_members() {
    let mut o = JsonObject::new();
    o.insert(Cow::Borrowed("m"), Json::from(1));
    o.insert(Cow::Borrowed("z"), Json::from(2));
    o.insert(Cow::Borrowed("a"), Json::from(3));
    o.insert(Cow::Owned("m".to_string()), Json::from(4));
    assert_eq!(o.len(), 3);
    assert_eq!((o.key(0), o.key(1), o.key(2)), ("a", "m", "z"));
    assert_eq!(o.value(1), &Json::from(4));
    let same = JsonObject::from_pairs(vec![
        (Cow::Borrowed("z"), Json::from(2)),
        (Cow::Borrowed("m"), Json::from(0)),
        (Cow::Borrowed("a"), Json::from(3)),
        (Cow::Borrowed("m"), Json::from(4)),
    ]);
    assert_eq!(o, same);
}

#[test]
fn keys_are_ordered_byte_by_byte() {
    assert!(matches!(json_parser::key_order("a", "b"), KeyOrder::Before));
    assert!(matches!(json_parser::key_order("b", "a"), KeyOrder::After));
    assert!(matches!(json_parser::key_order("a", "a"), KeyOrder::Same));
    assert!(matches!(json_parser::key_order("", "a"), KeyOrder::Before));
    assert!(matches!(json_parser::key_order("ab", "a"), KeyOrder::After));
    assert!(matches!(json_parser::key_order("Z", "a"), KeyOrder::Before));
    assert!(matches!(json_parser::key_order("z", "é"), KeyOrder::Before));
    assert!(matches!(json_parser::key_order("", ""), KeyOrder::Same));
}

#[test]
fn values_compare_by_structure() {
    let ranked = [
        Json::from(None),
        Json::from(i64::MAX),
        literal("0.5"),
        Json::from(""),
        Json::from(false),
        Json::from(JsonObject::new()),
        Json::from(Vec::new()),
    ];
    for i in 0..ranked.len() {
        for j in 0..ranked.len() {
            assert_eq!(ranked[i] < ranked[j], i < j);
            assert_eq!(ranked[i] == ranked[j], i == j);
            assert_eq!(matches!(ranked[i].compare(&ranked[j]), KeyOrder::After), i > j);
        }
    }
    assert!(Json::from(-1) < Json::from(0));
    assert!(Json::from(false) < Json::from(true));
    assert!(Json::from("a") < Json::from("ab"));
    assert!(Json::from("ab") < Json::from("b"));
    assert!(literal("1e2") < literal("99.0"));
    assert!(object(vec![("a", Json::from(2))]) < object(vec![("b", Json::from(1))]));
    assert!(object(vec![("a", Json::from(1))]) < object(vec![("a", Json::from(2))]));
    assert!(object(vec![("a", Json::from(1))]) < object(vec![("a", Json::from(1)), ("b", Json::from(0))]));
    assert!(Json::from(vec![Json::from(2)]) > Json::from(vec![Json::from(1), Json::from(9)]));
    assert!(Json::from(None) < Json::from(0));
    assert!(Json::from(1) < Json::from(2));
    assert_eq!(Json::from("a"), Json::from("a".to_string()));
    assert!(Json::from(vec![Json::from(1)]) < Json::from(vec![Json::from(1), Json::from(0)]));
    assert_ne!(parse("[1,2]").unwrap(), parse("[2,1]").unwrap());
}

#[test]
fn copies_are_equal_and_independent() {
    let value = parse("{\"a\": [1, 2.5, \"x\\ny\", null, {\"b\": false}]}").unwrap();
    let copy = value.clone();
    assert_eq!(copy, value);
    assert!(value.same(&copy));
    assert_eq!(render_compact(&copy), render_compact(&value));
    let other = parse("{\"a\": [1, 2.5, \"x\\ny\", null, {\"b\": true}]}").unwrap();
    assert_ne!(other, value);
    assert!(!value.same(&other));
    assert_ne!(parse("[1]").unwrap(), parse("[1, 1]").unwrap());
    assert_ne!(parse("{\"a\": 1}").unwrap(), parse("{\"b\": 1}").unwrap());
    assert_ne!(parse("1").unwrap(), parse("1.0").unwrap());
    assert_ne!(parse("1.0").unwrap(), parse("1.00").unwrap());
    assert_ne!(parse("null").unwrap(), parse("false").unwrap());
    assert_eq!(parse("\"a\\u0062\"").unwrap(), Json::from("ab"));
}

#[test]
fn the_pad_adapter_indents_after_line_breaks() {
    let mut pad = PadAdapter::from(String::from("x"));
    pad.write_str("a\nb");
    pad.write_str("c\n");
    pad.write_str("");
    pad.write_str("\nd");
    assert_eq!(pad.into_inner(), "xa\n    bc\n    \n    d");
    let mut pad = PadAdapter::from(String::new());
    pad.write_str("\n");
    pad.write_str("\n\n");
    assert_eq!(pad.into_inner(), "\n    \n    \n");
    let mut pad = PadAdapter::from(String::new());
    pad.mark_line_start();
    pad.write_str("é\n𝄞");
    assert_eq!(pad.into_inner(), "    é\n    𝄞");
}
