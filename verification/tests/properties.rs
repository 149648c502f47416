//! Properties of the library on concrete values, edge cases, and each error.
use pick::cli::{Cli, InputFormat, OutputFormat};
use pick::detector::detect_format;
use pick::error::PickError;
use pick::selector::filter::{evaluate, value_cmp, value_eq};
use pick::selector::manipulate::{apply_del, apply_set};
use pick::selector::{execute, extract, CompareOp, Condition, Expression, FilterExpr, LiteralValue, Pipeline, Selector};
use pick::streaming::stream_line;
use pick::value::{JsonNumber, JsonValue};
use std::cmp::Ordering;

fn jv(s: &str) -> JsonValue {
    pick::formats::json::parse(s).expect("test JSON")
}

fn options(selector: &str) -> Cli {
    Cli {
        selector: Some(selector.to_string()),
        input: InputFormat::Auto,
        output: OutputFormat::Auto,
        file: None,
        json: false,
        raw: false,
        first: false,
        lines: false,
        default: None,
        quiet: false,
        exists: false,
        count: false,
        stream: false,
    }
}

fn number(text: &str) -> LiteralValue {
    LiteralValue::Number(text.to_string())
}

// ── set and del against selecting the same path ──

#[test]
fn set_then_get_gives_the_value() {
    let val = jv(r#"{"a": {"x": 1}, "b": 2}"#);
    let sel = Selector::parse("a.y.z").unwrap();
    let new = jv(r#"[1, {"k": true}]"#);
    let updated = apply_set(&val, &sel.segments, &new).unwrap();
    assert_eq!(extract(&updated, &sel).unwrap(), vec![new]);
}

#[test]
fn set_keeps_other_keys() {
    let val = jv(r#"{"a": 1, "b": 2, "c": 3}"#);
    let sel = Selector::parse("b").unwrap();
    let updated = apply_set(&val, &sel.segments, &jv("9")).unwrap();
    assert_eq!(updated, jv(r#"{"a": 1, "b": 9, "c": 3}"#));
}

#[test]
fn set_keeps_keys_in_order() {
    let val = jv(r#"{"b": 1, "d": 2}"#);
    let sel = Selector::parse("c").unwrap();
    let updated = apply_set(&val, &sel.segments, &jv("3")).unwrap();
    match updated {
        JsonValue::Object(m) => {
            let keys: Vec<&str> = m.iter().map(|(k, _)| k.as_str()).collect();
            assert_eq!(keys, vec!["b", "c", "d"]);
        }
        other => panic!("not an object: {other:?}"),
    }
}

#[test]
fn del_then_get_fails() {
    let val = jv(r#"{"a": {"b": 1, "c": 2}}"#);
    let sel = Selector::parse("a.b").unwrap();
    let updated = apply_del(&val, &sel.segments).unwrap();
    assert!(matches!(extract(&updated, &sel), Err(PickError::KeyNotFound(k)) if k == "b"));
}

// ── selection ──

#[test]
fn negative_one_is_last() {
    let val = jv("[4, 5, 6]");
    let sel = Selector::parse("[-1]").unwrap();
    assert_eq!(extract(&val, &sel).unwrap(), vec![jv("6")]);
}

#[test]
fn keys_then_length_is_length() {
    let val = jv(r#"{"a": 1, "b": 2, "c": 3}"#);
    let a = execute(&val, &Expression::parse("keys() | length()").unwrap()).unwrap();
    let b = execute(&val, &Expression::parse("length()").unwrap()).unwrap();
    assert_eq!(a, b);
    assert_eq!(b, vec![jv("3")]);
}

#[test]
fn single_pipeline_is_not_forgiving() {
    let val = jv(r#"{"a": 1}"#);
    let r = execute(&val, &Expression::parse("missing").unwrap());
    assert!(matches!(r, Err(PickError::KeyNotFound(_))));
    let p = pick::selector::execute_pipeline(&val, &Pipeline::parse("missing").unwrap());
    assert!(matches!(p, Err(PickError::KeyNotFound(_))));
}

#[test]
fn several_pipelines_skip_missing_keys_only() {
    let val = jv(r#"{"a": 1, "s": "x"}"#);
    let r = execute(&val, &Expression::parse("missing, a").unwrap()).unwrap();
    assert_eq!(r, vec![jv("1")]);
    let e = execute(&val, &Expression::parse("s[0], a").unwrap());
    assert!(matches!(e, Err(PickError::NotAnArray(t)) if t == "string"));
}

#[test]
fn double_negation_selects_the_same() {
    let val = jv(r#"{"n": 5}"#);
    let cond = FilterExpr::Condition(Condition {
        path: Selector::parse("n").unwrap(),
        op: CompareOp::Gt,
        value: number("3"),
    });
    let twice = FilterExpr::Not(Box::new(FilterExpr::Not(Box::new(FilterExpr::Condition(Condition {
        path: Selector::parse("n").unwrap(),
        op: CompareOp::Gt,
        value: number("3"),
    })))));
    assert_eq!(evaluate(&val, &cond).unwrap(), evaluate(&val, &twice).unwrap());
    assert!(evaluate(&val, &twice).unwrap());
}

#[test]
fn and_does_not_look_right_when_left_is_false() {
    // The right side would fail (an index into a string), but is not reached.
    let val = jv(r#"{"a": false, "s": "x"}"#);
    let right = FilterExpr::Truthy(Selector::parse("s[0]").unwrap());
    let expr = FilterExpr::And(Box::new(FilterExpr::Truthy(Selector::parse("a").unwrap())), Box::new(right));
    assert_eq!(evaluate(&val, &expr).unwrap(), false);
}

// ── numbers compare by their decimal values ──

#[test]
fn numbers_compare_exactly() {
    assert_eq!(value_cmp(&jv("100"), &number("1e2")), Some(Ordering::Equal));
    assert_eq!(value_cmp(&jv("0.3"), &number("0.30")), Some(Ordering::Equal));
    assert_eq!(value_cmp(&jv("-2.5"), &number("-2.25")), Some(Ordering::Less));
    assert_eq!(value_cmp(&jv("-0.0"), &number("0")), Some(Ordering::Equal));
    assert_eq!(value_cmp(&jv("9007199254740993"), &number("9007199254740992")), Some(Ordering::Greater));
    assert!(value_eq(&jv("12.50"), &number("12.5")));
    assert!(!value_eq(&jv("12.5"), &number("12.51")));
}

#[test]
fn number_literal_that_is_no_number_compares_with_nothing() {
    assert_eq!(value_cmp(&jv("1"), &number("abc")), None);
    assert!(!value_eq(&jv("1"), &number("abc")));
}

#[test]
fn string_order_is_by_code_points() {
    assert_eq!(value_cmp(&jv(r#""Zebra""#), &LiteralValue::String("apple".into())), Some(Ordering::Less));
    assert_eq!(value_cmp(&jv(r#""ab""#), &LiteralValue::String("abc".into())), Some(Ordering::Less));
}

// ── literal values ──

#[test]
fn whole_literals_become_integers() {
    assert_eq!(number("42").to_json_value(), JsonValue::Number(JsonNumber::PosInt(42)));
    assert_eq!(number("-3").to_json_value(), JsonValue::Number(JsonNumber::NegInt(-3)));
    assert_eq!(number("4.0").to_json_value(), JsonValue::Number(JsonNumber::PosInt(4)));
    assert_eq!(number("1e3").to_json_value(), JsonValue::Number(JsonNumber::PosInt(1000)));
    assert_eq!(number("-9223372036854775808").to_json_value(), JsonValue::Number(JsonNumber::NegInt(i64::MIN)));
}

#[test]
fn other_literals_become_floats() {
    assert_eq!(number("3.50").to_json_value(), JsonValue::Number(JsonNumber::Float("3.5".into())));
    assert_eq!(number("1e20").to_json_value(), JsonValue::Number(JsonNumber::Float("1e20".into())));
    assert_eq!(number("0.99999999999999999999").to_json_value(), JsonValue::Number(JsonNumber::PosInt(1)));
    assert_eq!(number("1e-400").to_json_value(), JsonValue::Number(JsonNumber::PosInt(0)));
}

#[test]
fn literals_beyond_floats_become_null() {
    assert_eq!(number("1e400").to_json_value(), JsonValue::Null);
    assert_eq!(number("abc").to_json_value(), JsonValue::Null);
}

#[test]
fn set_writes_literals() {
    let out = pick::run(&options("set(.x, 2.50) | x"), r#"{"x": 1}"#).unwrap();
    assert_eq!(out, "2.5");
    let out = pick::run(&options("set(.x, \"hi\") | x"), r#"{"x": 1}"#).unwrap();
    assert_eq!(out, "hi");
}

// ── each error ──

#[test]
fn error_key_not_found() {
    assert!(matches!(pick::run(&options("nope"), r#"{"a": 1}"#), Err(PickError::KeyNotFound(k)) if k == "nope"));
}

#[test]
fn error_index_out_of_bounds() {
    let val = jv("[1, 2]");
    assert!(matches!(extract(&val, &Selector::parse("[5]").unwrap()), Err(PickError::IndexOutOfBounds(5))));
    assert!(matches!(extract(&val, &Selector::parse("[-3]").unwrap()), Err(PickError::IndexOutOfBounds(-3))));
}

#[test]
fn error_not_an_object() {
    let val = jv(r#"{"a": [1]}"#);
    let r = extract(&val, &Selector::parse("a.b").unwrap());
    assert!(matches!(r, Err(PickError::NotAnObject(k, t)) if k == "b" && t == "array"));
}

#[test]
fn error_not_an_array() {
    let val = jv(r#"{"a": {"b": 1}}"#);
    let r = extract(&val, &Selector::parse("a[0]").unwrap());
    assert!(matches!(r, Err(PickError::NotAnArray(t)) if t == "object"));
}

#[test]
fn error_invalid_selector() {
    assert!(matches!(Selector::parse("a[1"), Err(PickError::InvalidSelector(_))));
    assert!(matches!(pick::run(&options("a["), r#"{"a": 1}"#), Err(PickError::InvalidSelector(_))));
}

#[test]
fn error_parse() {
    let mut cli = options("a");
    cli.input = InputFormat::Json;
    assert!(matches!(pick::run(&cli, "{oops"), Err(PickError::ParseError(f, _)) if f == "JSON"));
}

#[test]
fn error_no_input() {
    assert!(matches!(pick::run(&options("a"), " \n\t "), Err(PickError::NoInput)));
}

#[test]
fn error_too_many_results() {
    let row = format!("[{}]", vec!["0"; 1001].join(","));
    let text = format!("[{}]", vec![row.as_str(); 999].join(","));
    let val = jv(&text);
    assert!(extract(&val, &Selector::parse("[*][*]").unwrap()).is_ok());
    let text = format!("[{}]", vec![row.as_str(); 1000].join(","));
    let val = jv(&text);
    assert!(matches!(extract(&val, &Selector::parse("[*][*]").unwrap()), Err(PickError::TooManyResults(1000000))));
}

#[test]
fn logfmt_key_that_starts_with_equals_is_an_error() {
    let r = pick::formats::logfmt::parse("=x a=1");
    assert!(matches!(r, Err(PickError::ParseError(f, m)) if f == "logfmt" && m == "empty key"));
}

// ── the run's options ──

#[test]
fn count_counts_results() {
    let mut cli = options("[*]");
    cli.count = true;
    assert_eq!(pick::run(&cli, "[1,2,3,4,5]").unwrap(), "5");
}

#[test]
fn default_replaces_a_failure() {
    let mut cli = options("a.b");
    cli.default = Some("fallback".into());
    assert_eq!(pick::run(&cli, r#"{"a": 1}"#).unwrap(), "fallback");
}

#[test]
fn exists_prints_nothing() {
    let mut cli = options("a");
    cli.exists = true;
    assert_eq!(pick::run(&cli, r#"{"a": 1}"#).unwrap(), "");
}

#[test]
fn first_keeps_the_first_result() {
    let mut cli = options("[*]");
    cli.first = true;
    assert_eq!(pick::run(&cli, "[7, 8]").unwrap(), "7");
}

// ── detection ──

#[test]
fn brace_means_json() {
    assert_eq!(detect_format("  {not really json"), InputFormat::Json);
}

#[test]
fn toml_section_is_not_json() {
    assert_eq!(detect_format("[server]\nport = 80"), InputFormat::Toml);
    assert_eq!(detect_format("[1, 2]"), InputFormat::Json);
}

#[test]
fn text_keys_may_be_unicode() {
    let v = pick::formats::text::parse("über=1\nplain line").unwrap();
    assert_eq!(v, jv(r#"{"über": "1"}"#));
}

#[test]
fn headers_are_lower_cased() {
    let v = pick::formats::headers::parse("Content-TYPE: text/html\nX-Ä: 1").unwrap();
    assert_eq!(v, jv(r#"{"content-type": "text/html", "x-ä": "1"}"#));
}

// ── streams ──

#[test]
fn stream_line_blank_prints_nothing() {
    let e = Expression::parse("a").unwrap();
    assert_eq!(stream_line("   ", &e, false, false, &OutputFormat::Auto).unwrap(), None);
}

#[test]
fn stream_line_renders_results() {
    let e = Expression::parse("a").unwrap();
    let out = stream_line(r#" {"a": [1, 2]} "#, &e, false, true, &OutputFormat::Auto).unwrap();
    assert_eq!(out, Some("1\n2".to_string()));
}

#[test]
fn stream_line_bad_json_is_a_json_parse_error() {
    let e = Expression::parse("a").unwrap();
    let r = stream_line("{nope", &e, false, false, &OutputFormat::Auto);
    assert!(matches!(r, Err(PickError::ParseError(f, _)) if f == "json"));
}

// ── selector error messages ──

fn selector_message(r: Result<Selector, PickError>) -> String {
    match r {
        Err(PickError::InvalidSelector(m)) => m,
        other => panic!("expected an invalid selector, got {other:?}"),
    }
}

#[test]
fn selector_messages_quote_the_text() {
    assert_eq!(selector_message(Selector::parse("foo[abc]")), "invalid index: 'abc'");
    assert_eq!(selector_message(Selector::parse("a[1:x]")), "invalid slice end: 'x'");
    assert_eq!(selector_message(Selector::parse("a[ y :1]")), "invalid slice start: 'y'");
    assert_eq!(selector_message(Selector::parse("a[0")), "unterminated index bracket");
    assert_eq!(selector_message(Selector::parse("a.")), "trailing dot in selector");
    assert_eq!(selector_message(Selector::parse("a..")), "trailing '..' in selector");
    assert_eq!(selector_message(Selector::parse("$x")), "unexpected character: '$'");
}

#[test]
fn expression_messages() {
    let m = match Expression::parse("select(.a > 1") {
        Err(PickError::InvalidSelector(m)) => m,
        other => panic!("unexpected: {other:?}"),
    };
    assert_eq!(m, "unterminated select()");
    let m = match Expression::parse("select(.a > 1 2)") {
        Err(PickError::InvalidSelector(m)) => m,
        other => panic!("unexpected: {other:?}"),
    };
    assert_eq!(m, "unexpected trailing content in filter: '2'");
    let m = match Expression::parse("a, , b") {
        Err(PickError::InvalidSelector(m)) => m,
        other => panic!("unexpected: {other:?}"),
    };
    assert_eq!(m, "empty selector in comma-separated list");
}

// ── every reader gives keys in order ──

fn object_keys(v: &JsonValue) -> Vec<String> {
    match v {
        JsonValue::Object(m) => m.iter().map(|(k, _)| k.clone()).collect(),
        other => panic!("not an object: {other:?}"),
    }
}

#[test]
fn readers_give_sorted_keys() {
    let env = pick::formats::env::parse("ZED=1\nALPHA=2\nMID=3").unwrap();
    assert_eq!(object_keys(&env), vec!["ALPHA", "MID", "ZED"]);
    let headers = pick::formats::headers::parse("X-Zed: 1\nAccept: 2").unwrap();
    assert_eq!(object_keys(&headers), vec!["accept", "x-zed"]);
    let logfmt = pick::formats::logfmt::parse("z=1 a=2 m=3").unwrap();
    assert_eq!(object_keys(&logfmt), vec!["a", "m", "z"]);
    let text = pick::formats::text::parse("zeta=1\nalpha=2").unwrap();
    assert_eq!(object_keys(&text), vec!["alpha", "zeta"]);
    let csv = pick::formats::csv_format::parse("z,a\n1,2").unwrap();
    match csv {
        JsonValue::Array(rows) => assert_eq!(object_keys(&rows[0]), vec!["a", "z"]),
        other => panic!("not an array: {other:?}"),
    }
}

#[test]
fn nested_readers_give_sorted_keys() {
    let yaml = pick::formats::yaml::parse("zeta: 1\nalpha:\n  y: 2\n  b: 3").unwrap();
    assert_eq!(object_keys(&yaml), vec!["alpha", "zeta"]);
    match &yaml {
        JsonValue::Object(m) => assert_eq!(object_keys(&m[0].1), vec!["b", "y"]),
        other => panic!("not an object: {other:?}"),
    }
    let toml = pick::formats::toml_format::parse("zeta = 1\n[alpha]\ny = 2\nb = 3").unwrap();
    assert_eq!(object_keys(&toml), vec!["alpha", "zeta"]);
    match &toml {
        JsonValue::Object(m) => assert_eq!(object_keys(&m[0].1), vec!["b", "y"]),
        other => panic!("not an object: {other:?}"),
    }
}

// ── set makes missing arrays ──

#[test]
fn set_makes_a_missing_array() {
    let sel = Selector::parse("a[0]").unwrap();
    assert_eq!(apply_set(&jv("{}"), &sel.segments, &jv("1")).unwrap(), jv(r#"{"a": [1]}"#));
}

#[test]
fn set_past_the_end_pads_with_null() {
    let sel = Selector::parse("a[2]").unwrap();
    let updated = apply_set(&jv(r#"{"a": [1]}"#), &sel.segments, &jv("7")).unwrap();
    assert_eq!(updated, jv(r#"{"a": [1, null, 7]}"#));
}

#[test]
fn set_makes_nested_arrays_and_objects() {
    let sel = Selector::parse("a[1].b[0]").unwrap();
    let updated = apply_set(&jv("{}"), &sel.segments, &jv("true")).unwrap();
    assert_eq!(updated, jv(r#"{"a": [null, {"b": [true]}]}"#));
}

#[test]
fn set_index_on_a_scalar_is_not_an_array() {
    let sel = Selector::parse("a[0]").unwrap();
    assert!(matches!(
        apply_set(&jv(r#"{"a": 5}"#), &sel.segments, &jv("1")),
        Err(PickError::NotAnArray(t)) if t == "number"
    ));
}

// ── detection of arrays ──

#[test]
fn empty_array_is_json() {
    assert_eq!(detect_format("[]"), InputFormat::Json);
    assert_eq!(detect_format("  []\n"), InputFormat::Json);
    assert_eq!(detect_format("[[]]"), InputFormat::Json);
}

// ── escaped quotes in set arguments ──

#[test]
fn escaped_quote_does_not_end_a_set_string() {
    let expr = Expression::parse(r#"set(.a, "x\",y")"#).unwrap();
    let out = execute(&jv("{}"), &expr).unwrap();
    assert_eq!(out, vec![jv(r#"{"a": "x\",y"}"#)]);
}

// ── messages ──

#[test]
fn error_messages() {
    assert_eq!(PickError::KeyNotFound("a".to_string()).message(), "key not found: a");
    assert_eq!(PickError::IndexOutOfBounds(-3).message(), "index out of bounds: -3");
    assert_eq!(PickError::IndexOutOfBounds(i64::MIN).message(), "index out of bounds: -9223372036854775808");
    assert_eq!(
        PickError::NotAnObject("k".to_string(), "array".to_string()).message(),
        "expected object for key 'k', got array"
    );
    assert_eq!(PickError::NotAnArray("string".to_string()).message(), "expected array for index, got string");
    assert_eq!(PickError::InvalidSelector("bad".to_string()).message(), "invalid selector: bad");
    assert_eq!(
        PickError::ParseError("YAML".to_string(), "oops".to_string()).message(),
        "failed to parse input as YAML: oops"
    );
    assert_eq!(PickError::NoInput.message(), "no input provided");
    assert_eq!(PickError::UnknownFormat.message(), "could not detect input format");
    assert_eq!(PickError::InputTooLarge(104857600).message(), "input too large (max 104857600 bytes)");
    assert_eq!(PickError::TooManyResults(1000000).message(), "too many results (max 1000000)");
}

#[test]
fn unexpected_character_shows_the_first_byte() {
    assert_eq!(selector_message(Selector::parse("é")), "unexpected character: 'Ã'");
}

#[test]
fn expected_literal_shows_twenty_bytes() {
    match pick::selector::parser::parse_literal("éééééééééééé") {
        Err(PickError::InvalidSelector(m)) => assert_eq!(m, "expected literal value, got: 'éééééééééé'"),
        other => panic!("expected an invalid selector, got {other:?}"),
    }
    match pick::selector::parser::parse_literal("abcdefghijklmnopqrstuvwxyz") {
        Err(PickError::InvalidSelector(m)) => assert_eq!(m, "expected literal value, got: 'abcdefghijklmnopqrst'"),
        other => panic!("expected an invalid selector, got {other:?}"),
    }
}

// ── selector syntax ──

#[test]
fn trailing_dots_are_rejected() {
    for s in ["a.", "a..", "a.b.", "..a.", "a[0].", "keys().", "\"x\"."] {
        assert!(matches!(Selector::parse(s), Err(PickError::InvalidSelector(_))), "{s}");
    }
}

#[test]
fn parsed_segments_have_a_shape() {
    let sel = Selector::parse("a[0].keys()..b").unwrap();
    assert_eq!(sel.segments.len(), 3);
    for seg in &sel.segments {
        assert!(seg.key.is_some() || !seg.indices.is_empty() || seg.builtin.is_some());
        if seg.builtin.is_some() {
            assert!(seg.key.is_none() && seg.indices.is_empty());
        }
    }
    assert!(Selector::parse("").unwrap().segments.is_empty());
}

// ── detection and white space ──

#[test]
fn detection_ignores_surrounding_space() {
    for s in ["{\"a\": 1}", "a=1 b=2", "KEY=value", "[section]\nx = 1", "plain words"] {
        let padded = format!(" \t\n{s}\n  ");
        assert_eq!(detect_format(&padded), detect_format(s), "{s}");
    }
    assert_eq!(detect_format(" \n\t "), InputFormat::Text);
}

// ── keys() and values() ──

#[test]
fn keys_and_values_line_up() {
    let obj = jv(r#"{"b": 1, "a": 2}"#);
    let keys = pick::selector::apply_builtin(&pick::selector::Builtin::Keys, &obj).unwrap();
    let values = pick::selector::apply_builtin(&pick::selector::Builtin::Values, &obj).unwrap();
    assert_eq!(keys, jv(r#"["a", "b"]"#));
    assert_eq!(values, jv("[2, 1]"));
    let arr = jv(r#"["x", "y"]"#);
    assert_eq!(pick::selector::apply_builtin(&pick::selector::Builtin::Keys, &arr).unwrap(), jv("[0, 1]"));
    assert_eq!(pick::selector::apply_builtin(&pick::selector::Builtin::Values, &arr).unwrap(), arr);
}

// ── set and del on keys ──

#[test]
fn set_then_del_gives_the_object_back() {
    let val = jv(r#"{"a": 1, "c": 3}"#);
    let sel = Selector::parse("b").unwrap();
    let with_b = apply_set(&val, &sel.segments, &jv("2")).unwrap();
    assert_eq!(apply_del(&with_b, &sel.segments).unwrap(), val);
}

#[test]
fn deleting_keys_twice_changes_nothing_more() {
    let val = jv(r#"{"a": {"b": 1, "c": 2}, "d": 4}"#);
    for path in ["a.b", "a", "x.y", "d.e"] {
        let sel = Selector::parse(path).unwrap();
        let once = apply_del(&val, &sel.segments).unwrap();
        assert_eq!(apply_del(&once, &sel.segments).unwrap(), once, "{path}");
    }
}

// ── recursive descent and key errors ──

#[test]
fn recursive_descent_is_depth_first() {
    let val = jv(r#"[{"id": 1, "children": [{"id": 2}]}, {"id": 3}]"#);
    let sel = Selector::parse("..id").unwrap();
    assert_eq!(extract(&val, &sel).unwrap(), vec![jv("1"), jv("2"), jv("3")]);
    assert!(matches!(extract(&val, &Selector::parse("..nope").unwrap()), Err(PickError::KeyNotFound(k)) if k == "nope"));
}

#[test]
fn key_errors_by_case() {
    let sel = Selector::parse("k").unwrap();
    assert!(matches!(extract(&jv("[1]"), &sel), Err(PickError::NotAnObject(k, t)) if k == "k" && t == "array"));
    assert!(matches!(extract(&jv(r#"{"j": 1}"#), &sel), Err(PickError::KeyNotFound(k)) if k == "k"));
    for path in ["k[0]", "k[*]"] {
        let sel = Selector::parse(path).unwrap();
        assert!(matches!(extract(&jv(r#"{"k": "s"}"#), &sel), Err(PickError::NotAnArray(t)) if t == "string"));
    }
    let sel = Selector::parse("[-9223372036854775808]").unwrap();
    assert!(matches!(extract(&jv("[1]"), &sel), Err(PickError::IndexOutOfBounds(n)) if n == i64::MIN));
}

// ── comparisons by kind ──

fn holds(v: &str, filter: &str) -> bool {
    evaluate(&jv(v), &pick::selector::parser::parse_filter_expr(filter).unwrap()).unwrap()
}

#[test]
fn comparisons_only_within_a_kind() {
    assert!(!holds(r#"{"x": "42"}"#, ".x == 42"));
    assert!(!holds(r#"{"x": 1}"#, ".x == true"));
    assert!(!holds(r#"{"x": "b"}"#, ".x > 1"));
    assert!(!holds(r#"{"x": true}"#, ".x >= false"));
    assert!(holds(r#"{"x": "b"}"#, ".x > \"a\""));
    assert!(holds(r#"{"x": 3}"#, ".x <= 3"));
    assert!(holds(r#"{"x": "abc"}"#, ".x ~ \"b.\""));
    assert!(!holds(r#"{"x": "abc"}"#, ".x ~ \"[invalid\""));
    assert!(!holds(r#"{"x": 5}"#, ".x ~ \"5\""));
}

// ── slices ──

#[test]
fn slice_bounds_are_held_within_the_array() {
    let val = jv("[0, 1, 2, 3, 4]");
    let cases = [
        ("[1:3]", "[1, 2]"),
        ("[-2:]", "[3, 4]"),
        ("[:-3]", "[0, 1]"),
        ("[-9:2]", "[0, 1]"),
        ("[3:99]", "[3, 4]"),
        ("[4:1]", "[]"),
        ("[:]", "[0, 1, 2, 3, 4]"),
    ];
    for (path, expected) in cases {
        let got = extract(&val, &Selector::parse(path).unwrap()).unwrap();
        assert_eq!(JsonValue::Array(got), jv(expected), "{path}");
    }
    assert!(matches!(
        extract(&jv(r#"{"a": 1}"#), &Selector::parse("[0:1]").unwrap()),
        Err(PickError::NotAnArray(t)) if t == "object"
    ));
}
