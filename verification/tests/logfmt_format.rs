#![allow(unused_imports, dead_code, unused_variables, unused_mut)]
use pick::value::{JsonNumber, JsonValue};
use pick::formats::logfmt::parse;

fn jv(s: &str) -> JsonValue {
    pick::formats::json::parse(s).expect("test JSON")
}

/// Look into values the way `serde_json::Value` indexing does.
trait Look {
    fn k(&self, key: &str) -> JsonValue;
    fn i(&self, n: usize) -> JsonValue;
    fn get(&self, key: &str) -> Option<JsonValue>;
    fn as_array(&self) -> Option<Vec<JsonValue>>;
    fn as_str(&self) -> Option<String>;
    fn as_i64(&self) -> Option<i64>;
    fn as_u64(&self) -> Option<u64>;
    fn as_f64(&self) -> Option<f64>;
    fn as_bool(&self) -> Option<bool>;
    fn is_null(&self) -> bool;
    fn is_number(&self) -> bool;
    fn is_string(&self) -> bool;
    fn is_array(&self) -> bool;
    fn is_object(&self) -> bool;
}

impl Look for JsonValue {
    fn k(&self, key: &str) -> JsonValue {
        self.get(key).unwrap_or(JsonValue::Null)
    }
    fn i(&self, n: usize) -> JsonValue {
        match self {
            JsonValue::Array(a) if n < a.len() => a[n].clone(),
            _ => JsonValue::Null,
        }
    }
    fn get(&self, key: &str) -> Option<JsonValue> {
        match self {
            JsonValue::Object(m) => m.iter().find(|(k, _)| k == key).map(|(_, v)| v.clone()),
            _ => None,
        }
    }
    fn as_array(&self) -> Option<Vec<JsonValue>> {
        match self {
            JsonValue::Array(a) => Some(a.clone()),
            _ => None,
        }
    }
    fn as_str(&self) -> Option<String> {
        match self {
            JsonValue::String(s) => Some(s.clone()),
            _ => None,
        }
    }
    fn as_i64(&self) -> Option<i64> {
        match self {
            JsonValue::Number(JsonNumber::PosInt(u)) => i64::try_from(*u).ok(),
            JsonValue::Number(JsonNumber::NegInt(i)) => Some(*i),
            _ => None,
        }
    }
    fn as_u64(&self) -> Option<u64> {
        match self {
            JsonValue::Number(JsonNumber::PosInt(u)) => Some(*u),
            _ => None,
        }
    }
    fn as_f64(&self) -> Option<f64> {
        match self {
            JsonValue::Number(JsonNumber::PosInt(u)) => Some(*u as f64),
            JsonValue::Number(JsonNumber::NegInt(i)) => Some(*i as f64),
            JsonValue::Number(JsonNumber::Float(s)) => s.parse().ok(),
            _ => None,
        }
    }
    fn as_bool(&self) -> Option<bool> {
        match self {
            JsonValue::Bool(b) => Some(*b),
            _ => None,
        }
    }
    fn is_null(&self) -> bool {
        matches!(self, JsonValue::Null)
    }
    fn is_number(&self) -> bool {
        matches!(self, JsonValue::Number(_))
    }
    fn is_string(&self) -> bool {
        matches!(self, JsonValue::String(_))
    }
    fn is_array(&self) -> bool {
        matches!(self, JsonValue::Array(_))
    }
    fn is_object(&self) -> bool {
        matches!(self, JsonValue::Object(_))
    }
}

#[test]
fn logfmt_parse_simple() {
    let v = parse("level=info msg=hello status=200").unwrap();
    assert_eq!(v.k("level"), jv(r#""info""#));
    assert_eq!(v.k("msg"), jv(r#""hello""#));
    assert_eq!(v.k("status"), jv(r#""200""#));
}

#[test]
fn parse_quoted_value() {
    let v = parse("level=info msg=\"hello world\" status=200").unwrap();
    assert_eq!(v.k("msg"), jv(r#""hello world""#));
}

#[test]
fn parse_boolean_flag() {
    let v = parse("verbose level=info").unwrap();
    assert_eq!(v.k("verbose"), jv(r#"true"#));
    assert_eq!(v.k("level"), jv(r#""info""#));
}

#[test]
fn parse_multiline() {
    let input = "level=info msg=req1\nlevel=error msg=req2";
    let v = parse(input).unwrap();
    assert!(v.is_array());
    assert_eq!(v.i(0).k("level"), jv(r#""info""#));
    assert_eq!(v.i(1).k("level"), jv(r#""error""#));
}

#[test]
fn parse_escaped_quote() {
    let v = parse(r#"msg="say \"hello\"""#).unwrap();
    assert_eq!(v.k("msg"), jv(r#""say \"hello\"""#));
}

#[test]
fn parse_empty_quoted() {
    let v = parse("key=\"\" other=val").unwrap();
    assert_eq!(v.k("key"), jv(r#""""#));
}

#[test]
fn parse_special_chars_in_value() {
    let v = parse("url=https://example.com/path?q=1&r=2 status=200").unwrap();
    assert_eq!(v.k("url"), jv(r#""https://example.com/path?q=1&r=2""#));
}

#[test]
fn parse_single_line_result_is_object() {
    let v = parse("a=1 b=2").unwrap();
    assert!(v.is_object());
}

#[test]
fn logfmt_parse_empty_input() {
    assert!(parse("").is_err());
}

#[test]
fn parse_whitespace_only() {
    assert!(parse("   \n  \n  ").is_err());
}

#[test]
fn parse_with_timestamp() {
    let v = parse("ts=2024-01-15T10:30:00Z level=info msg=started").unwrap();
    assert_eq!(v.k("ts"), jv(r#""2024-01-15T10:30:00Z""#));
}

#[test]
fn parse_escaped_newline() {
    let v = parse(r#"msg="line1\nline2" level=info"#).unwrap();
    assert_eq!(v.k("msg"), jv(r#""line1\nline2""#));
}
