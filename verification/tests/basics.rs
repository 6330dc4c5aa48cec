use json_parser::{parse, render_compact, render_pretty, ErrorKind, Json, JsonValue};

#[test]
fn it_works() {
    assert_eq!(2 + 2, 4);
}

#[test]
fn parses_and_renders_a_small_document() {
    let value = parse(" { \"b\" : [1, 2.5, \"x\\ny\"], \"a\" : null } ").unwrap();
    assert_eq!(render_compact(&value), "{\"a\": null, \"b\": [1, 2.5, \"x\\ny\"]}");
    assert_eq!(
        render_pretty(&value),
        "{\n    \"a\": null,\n    \"b\": [\n        1,\n        2.5,\n        \"x\\ny\"\n    ]\n}"
    );
    assert_eq!(parse(&render_pretty(&value)).unwrap(), value);
}

#[test]
fn trailing_garbage_is_refused() {
    let e = parse("1 2").unwrap_err();
    assert_eq!(e.kind, ErrorKind::TrailingData);
    assert_eq!(e.offset, 2);
    assert_eq!(parse("5"), Ok(Json(Some(JsonValue::Int(5)))));
}
