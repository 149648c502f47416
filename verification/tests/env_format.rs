#![allow(unused_imports, dead_code, unused_variables, unused_mut)]
use pick::value::{JsonNumber, JsonValue};
use pick::formats::env::parse;

fn jv(s: &str) -> JsonValue {
    pick::formats::json::parse(s).expect("test JSON")
}

/// Look into values the way `serde_json::Value` indexing does.
trait Look {
    fn k(&self, key: &str) -> JsonValue;
    fn i(&self, n: usize) -> JsonValue;
    fn get(&self, key: &str) -> Option<JsonValue>;
    fn as_array(&self) -> Option<Vec<JsonValue>>;
    fn as_str(&self) -> Option<String>;
    fn as_i64(&self) -> Option<i64>;
    fn as_u64(&self) -> Option<u64>;
    fn as_f64(&self) -> Option<f64>;
    fn as_bool(&self) -> Option<bool>;
    fn is_null(&self) -> bool;
    fn is_number(&self) -> bool;
    fn is_string(&self) -> bool;
    fn is_array(&self) -> bool;
    fn is_object(&self) -> bool;
}

impl Look for JsonValue {
    fn k(&self, key: &str) -> JsonValue {
        self.get(key).unwrap_or(JsonValue::Null)
    }
    fn i(&self, n: usize) -> JsonValue {
        match self {
            JsonValue::Array(a) if n < a.len() => a[n].clone(),
            _ => JsonValue::Null,
        }
    }
    fn get(&self, key: &str) -> Option<JsonValue> {
        match self {
            JsonValue::Object(m) => m.iter().find(|(k, _)| k == key).map(|(_, v)| v.clone()),
            _ => None,
        }
    }
    fn as_array(&self) -> Option<Vec<JsonValue>> {
        match self {
            JsonValue::Array(a) => Some(a.clone()),
            _ => None,
        }
    }
    fn as_str(&self) -> Option<String> {
        match self {
            JsonValue::String(s) => Some(s.clone()),
            _ => None,
        }
    }
    fn as_i64(&self) -> Option<i64> {
        match self {
            JsonValue::Number(JsonNumber::PosInt(u)) => i64::try_from(*u).ok(),
            JsonValue::Number(JsonNumber::NegInt(i)) => Some(*i),
            _ => None,
        }
    }
    fn as_u64(&self) -> Option<u64> {
        match self {
            JsonValue::Number(JsonNumber::PosInt(u)) => Some(*u),
            _ => None,
        }
    }
    fn as_f64(&self) -> Option<f64> {
        match self {
            JsonValue::Number(JsonNumber::PosInt(u)) => Some(*u as f64),
            JsonValue::Number(JsonNumber::NegInt(i)) => Some(*i as f64),
            JsonValue::Number(JsonNumber::Float(s)) => s.parse().ok(),
            _ => None,
        }
    }
    fn as_bool(&self) -> Option<bool> {
        match self {
            JsonValue::Bool(b) => Some(*b),
            _ => None,
        }
    }
    fn is_null(&self) -> bool {
        matches!(self, JsonValue::Null)
    }
    fn is_number(&self) -> bool {
        matches!(self, JsonValue::Number(_))
    }
    fn is_string(&self) -> bool {
        matches!(self, JsonValue::String(_))
    }
    fn is_array(&self) -> bool {
        matches!(self, JsonValue::Array(_))
    }
    fn is_object(&self) -> bool {
        matches!(self, JsonValue::Object(_))
    }
}

#[test]
fn env_parse_simple() {
    let v = parse("DATABASE_URL=postgres://localhost/db\nPORT=3000").unwrap();
    assert_eq!(v.k("DATABASE_URL"), jv(r#""postgres://localhost/db""#));
    assert_eq!(v.k("PORT"), jv(r#""3000""#));
}

#[test]
fn parse_with_comments() {
    let input = "# Database\nDATABASE_URL=postgres://localhost/db\n# Port\nPORT=3000";
    let v = parse(input).unwrap();
    assert_eq!(v.k("DATABASE_URL"), jv(r#""postgres://localhost/db""#));
    assert_eq!(v.k("PORT"), jv(r#""3000""#));
}

#[test]
fn parse_double_quoted() {
    let v = parse("MSG=\"hello world\"").unwrap();
    assert_eq!(v.k("MSG"), jv(r#""hello world""#));
}

#[test]
fn parse_single_quoted() {
    let v = parse("MSG='hello world'").unwrap();
    assert_eq!(v.k("MSG"), jv(r#""hello world""#));
}

#[test]
fn env_parse_empty_value() {
    let v = parse("EMPTY=").unwrap();
    assert_eq!(v.k("EMPTY"), jv(r#""""#));
}

#[test]
fn parse_value_with_equals() {
    let v = parse("URL=postgres://host?opt=val").unwrap();
    assert_eq!(v.k("URL"), jv(r#""postgres://host?opt=val""#));
}

#[test]
fn parse_export_prefix() {
    let v = parse("export DATABASE_URL=test\nexport PORT=3000").unwrap();
    assert_eq!(v.k("DATABASE_URL"), jv(r#""test""#));
    assert_eq!(v.k("PORT"), jv(r#""3000""#));
}

#[test]
fn parse_empty_lines() {
    let v = parse("\n\nKEY=val\n\n").unwrap();
    assert_eq!(v.k("KEY"), jv(r#""val""#));
}

#[test]
fn parse_mixed_quotes() {
    let v = parse("A=\"double\"\nB='single'\nC=none").unwrap();
    assert_eq!(v.k("A"), jv(r#""double""#));
    assert_eq!(v.k("B"), jv(r#""single""#));
    assert_eq!(v.k("C"), jv(r#""none""#));
}

#[test]
fn env_parse_empty_input() {
    assert!(parse("").is_err());
}

#[test]
fn parse_only_comments() {
    assert!(parse("# comment\n# another").is_err());
}

#[test]
fn parse_lowercase_keys() {
    let v = parse("lower_key=value").unwrap();
    assert_eq!(v.k("lower_key"), jv(r#""value""#));
}
