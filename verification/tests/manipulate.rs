#![allow(unused_imports, dead_code, unused_variables, unused_mut)]
use pick::value::{JsonNumber, JsonValue};
use pick::error::PickError;
use pick::selector::manipulate::{apply_del, apply_set, resolve_index};
use pick::selector::Selector;

fn jv(s: &str) -> JsonValue {
    pick::formats::json::parse(s).expect("test JSON")
}

/// Look into values the way `serde_json::Value` indexing does.
trait Look {
    fn k(&self, key: &str) -> JsonValue;
    fn i(&self, n: usize) -> JsonValue;
    fn get(&self, key: &str) -> Option<JsonValue>;
    fn as_array(&self) -> Option<Vec<JsonValue>>;
    fn as_str(&self) -> Option<String>;
    fn as_i64(&self) -> Option<i64>;
    fn as_u64(&self) -> Option<u64>;
    fn as_f64(&self) -> Option<f64>;
    fn as_bool(&self) -> Option<bool>;
    fn is_null(&self) -> bool;
    fn is_number(&self) -> bool;
    fn is_string(&self) -> bool;
    fn is_array(&self) -> bool;
    fn is_object(&self) -> bool;
}

impl Look for JsonValue {
    fn k(&self, key: &str) -> JsonValue {
        self.get(key).unwrap_or(JsonValue::Null)
    }
    fn i(&self, n: usize) -> JsonValue {
        match self {
            JsonValue::Array(a) if n < a.len() => a[n].clone(),
            _ => JsonValue::Null,
        }
    }
    fn get(&self, key: &str) -> Option<JsonValue> {
        match self {
            JsonValue::Object(m) => m.iter().find(|(k, _)| k == key).map(|(_, v)| v.clone()),
            _ => None,
        }
    }
    fn as_array(&self) -> Option<Vec<JsonValue>> {
        match self {
            JsonValue::Array(a) => Some(a.clone()),
            _ => None,
        }
    }
    fn as_str(&self) -> Option<String> {
        match self {
            JsonValue::String(s) => Some(s.clone()),
            _ => None,
        }
    }
    fn as_i64(&self) -> Option<i64> {
        match self {
            JsonValue::Number(JsonNumber::PosInt(u)) => i64::try_from(*u).ok(),
            JsonValue::Number(JsonNumber::NegInt(i)) => Some(*i),
            _ => None,
        }
    }
    fn as_u64(&self) -> Option<u64> {
        match self {
            JsonValue::Number(JsonNumber::PosInt(u)) => Some(*u),
            _ => None,
        }
    }
    fn as_f64(&self) -> Option<f64> {
        match self {
            JsonValue::Number(JsonNumber::PosInt(u)) => Some(*u as f64),
            JsonValue::Number(JsonNumber::NegInt(i)) => Some(*i as f64),
            JsonValue::Number(JsonNumber::Float(s)) => s.parse().ok(),
            _ => None,
        }
    }
    fn as_bool(&self) -> Option<bool> {
        match self {
            JsonValue::Bool(b) => Some(*b),
            _ => None,
        }
    }
    fn is_null(&self) -> bool {
        matches!(self, JsonValue::Null)
    }
    fn is_number(&self) -> bool {
        matches!(self, JsonValue::Number(_))
    }
    fn is_string(&self) -> bool {
        matches!(self, JsonValue::String(_))
    }
    fn is_array(&self) -> bool {
        matches!(self, JsonValue::Array(_))
    }
    fn is_object(&self) -> bool {
        matches!(self, JsonValue::Object(_))
    }
}

// ── apply_set ──

#[test]
fn set_top_level_key() {
    let val = jv(r#"{"a": 1, "b": 2}"#);
    let sel = Selector::parse("a").unwrap();
    let result = apply_set(&val, &sel.segments, &jv(r#"99"#)).unwrap();
    assert_eq!(result, jv(r#"{"a": 99, "b": 2}"#));
}

#[test]
fn set_nested_key() {
    let val = jv(r#"{"x": {"y": 1}}"#);
    let sel = Selector::parse("x.y").unwrap();
    let result = apply_set(&val, &sel.segments, &jv(r#"2"#)).unwrap();
    assert_eq!(result, jv(r#"{"x": {"y": 2}}"#));
}

#[test]
fn manipulate_set_new_key() {
    let val = jv(r#"{"a": 1}"#);
    let sel = Selector::parse("b").unwrap();
    let result = apply_set(&val, &sel.segments, &jv(r#"2"#)).unwrap();
    assert_eq!(result.k("a"), jv(r#"1"#));
    assert_eq!(result.k("b"), jv(r#"2"#));
}

#[test]
fn set_deep_new_path() {
    let val = jv(r#"{}"#);
    let sel = Selector::parse("a.b").unwrap();
    let result = apply_set(&val, &sel.segments, &jv(r#"1"#)).unwrap();
    assert_eq!(result, jv(r#"{"a": {"b": 1}}"#));
}

#[test]
fn set_array_element() {
    let val = jv(r#"{"items": [1, 2, 3]}"#);
    let sel = Selector::parse("items[1]").unwrap();
    let result = apply_set(&val, &sel.segments, &jv(r#"99"#)).unwrap();
    assert_eq!(result, jv(r#"{"items": [1, 99, 3]}"#));
}

#[test]
fn set_array_negative_index() {
    let val = jv(r#"{"items": [1, 2, 3]}"#);
    let sel = Selector::parse("items[-1]").unwrap();
    let result = apply_set(&val, &sel.segments, &jv(r#"99"#)).unwrap();
    assert_eq!(result, jv(r#"{"items": [1, 2, 99]}"#));
}

#[test]
fn set_nested_in_array() {
    let val = jv(r#"{"users": [{"name": "Alice"}, {"name": "Bob"}]}"#);
    let sel = Selector::parse("users[0].name").unwrap();
    let result = apply_set(&val, &sel.segments, &jv(r#""Charlie""#)).unwrap();
    assert_eq!(result.k("users").i(0).k("name"), jv(r#""Charlie""#));
    assert_eq!(result.k("users").i(1).k("name"), jv(r#""Bob""#));
}

#[test]
fn set_string_value() {
    let val = jv(r#"{"name": "old"}"#);
    let sel = Selector::parse("name").unwrap();
    let result = apply_set(&val, &sel.segments, &jv(r#""new""#)).unwrap();
    assert_eq!(result, jv(r#"{"name": "new"}"#));
}

#[test]
fn manipulate_set_null_value() {
    let val = jv(r#"{"x": 1}"#);
    let sel = Selector::parse("x").unwrap();
    let result = apply_set(&val, &sel.segments, &jv(r#"null"#)).unwrap();
    assert_eq!(result, jv(r#"{"x": null}"#));
}

#[test]
fn manipulate_set_bool_value() {
    let val = jv(r#"{"active": false}"#);
    let sel = Selector::parse("active").unwrap();
    let result = apply_set(&val, &sel.segments, &jv(r#"true"#)).unwrap();
    assert_eq!(result, jv(r#"{"active": true}"#));
}

#[test]
fn set_empty_path_replaces_root() {
    let val = jv(r#"{"a": 1}"#);
    let result = apply_set(&val, &[], &jv(r#"42"#)).unwrap();
    assert_eq!(result, jv(r#"42"#));
}

// ── apply_del ──

#[test]
fn del_top_level_key() {
    let val = jv(r#"{"a": 1, "b": 2}"#);
    let sel = Selector::parse("a").unwrap();
    let result = apply_del(&val, &sel.segments).unwrap();
    assert_eq!(result, jv(r#"{"b": 2}"#));
}

#[test]
fn manipulate_del_nested_key() {
    let val = jv(r#"{"x": {"y": 1, "z": 2}}"#);
    let sel = Selector::parse("x.y").unwrap();
    let result = apply_del(&val, &sel.segments).unwrap();
    assert_eq!(result, jv(r#"{"x": {"z": 2}}"#));
}

#[test]
fn del_missing_key() {
    let val = jv(r#"{"a": 1}"#);
    let sel = Selector::parse("missing").unwrap();
    let result = apply_del(&val, &sel.segments).unwrap();
    assert_eq!(result, jv(r#"{"a": 1}"#));
}

#[test]
fn manipulate_del_array_element() {
    let val = jv(r#"{"items": [1, 2, 3]}"#);
    let sel = Selector::parse("items[1]").unwrap();
    let result = apply_del(&val, &sel.segments).unwrap();
    assert_eq!(result, jv(r#"{"items": [1, 3]}"#));
}

#[test]
fn del_array_first() {
    let val = jv(r#"{"items": [1, 2, 3]}"#);
    let sel = Selector::parse("items[0]").unwrap();
    let result = apply_del(&val, &sel.segments).unwrap();
    assert_eq!(result, jv(r#"{"items": [2, 3]}"#));
}

#[test]
fn del_array_last_negative() {
    let val = jv(r#"{"items": [1, 2, 3]}"#);
    let sel = Selector::parse("items[-1]").unwrap();
    let result = apply_del(&val, &sel.segments).unwrap();
    assert_eq!(result, jv(r#"{"items": [1, 2]}"#));
}

#[test]
fn del_nested_in_array() {
    let val = jv(r#"{"users": [{"name": "Alice", "temp": "x"}, {"name": "Bob"}]}"#);
    let sel = Selector::parse("users[0].temp").unwrap();
    let result = apply_del(&val, &sel.segments).unwrap();
    assert_eq!(result.k("users").i(0), jv(r#"{"name": "Alice"}"#));
    assert_eq!(result.k("users").i(1), jv(r#"{"name": "Bob"}"#));
}

#[test]
fn del_from_non_object_noop() {
    let val = jv(r#""hello""#);
    let sel = Selector::parse("foo").unwrap();
    let result = apply_del(&val, &sel.segments).unwrap();
    assert_eq!(result, jv(r#""hello""#));
}

#[test]
fn del_empty_path_returns_null() {
    let val = jv(r#"{"a": 1}"#);
    let result = apply_del(&val, &[]).unwrap();
    assert_eq!(result, jv(r#"null"#));
}

#[test]
fn del_preserves_other_keys() {
    let val = jv(r#"{"a": 1, "b": 2, "c": 3}"#);
    let sel = Selector::parse("b").unwrap();
    let result = apply_del(&val, &sel.segments).unwrap();
    assert_eq!(result.k("a"), jv(r#"1"#));
    assert_eq!(result.k("c"), jv(r#"3"#));
    assert!(result.get("b").is_none());
}

// ══════════════════════════════════════════════
// Additional coverage tests
// ══════════════════════════════════════════════

// ── apply_set edge cases ──

#[test]
fn set_triple_nested_creates_intermediates() {
    let val = jv(r#"{}"#);
    let sel = Selector::parse("a.b.c").unwrap();
    let result = apply_set(&val, &sel.segments, &jv(r#"42"#)).unwrap();
    assert_eq!(result, jv(r#"{"a": {"b": {"c": 42}}}"#));
}

#[test]
fn set_deep_new_path_four_levels() {
    let val = jv(r#"{}"#);
    let sel = Selector::parse("a.b.c.d").unwrap();
    let result = apply_set(&val, &sel.segments, &jv(r#""deep""#)).unwrap();
    assert_eq!(result.k("a").k("b").k("c").k("d"), jv(r#""deep""#));
}

#[test]
fn set_overwrites_non_object_with_object() {
    // Setting a.b when a is a string creates an object
    let val = jv(r#"{"a": "string"}"#);
    let sel = Selector::parse("a.b").unwrap();
    let result = apply_set(&val, &sel.segments, &jv(r#"1"#)).unwrap();
    assert_eq!(result, jv(r#"{"a": {"b": 1}}"#));
}

#[test]
fn set_on_root_number() {
    let val = jv(r#"42"#);
    let sel = Selector::parse("a").unwrap();
    let result = apply_set(&val, &sel.segments, &jv(r#"1"#)).unwrap();
    assert_eq!(result, jv(r#"{"a": 1}"#));
}

#[test]
fn set_preserves_sibling_keys() {
    let val = jv(r#"{"x": {"a": 1, "b": 2, "c": 3}}"#);
    let sel = Selector::parse("x.b").unwrap();
    let result = apply_set(&val, &sel.segments, &jv(r#"99"#)).unwrap();
    assert_eq!(result.k("x").k("a"), jv(r#"1"#));
    assert_eq!(result.k("x").k("b"), jv(r#"99"#));
    assert_eq!(result.k("x").k("c"), jv(r#"3"#));
}

#[test]
fn set_array_first_element() {
    let val = jv(r#"{"items": [10, 20, 30]}"#);
    let sel = Selector::parse("items[0]").unwrap();
    let result = apply_set(&val, &sel.segments, &jv(r#"99"#)).unwrap();
    assert_eq!(result, jv(r#"{"items": [99, 20, 30]}"#));
}

#[test]
fn set_array_middle_element() {
    let val = jv(r#"[1, 2, 3, 4, 5]"#);
    let sel = Selector::parse("[2]").unwrap();
    let result = apply_set(&val, &sel.segments, &jv(r#"99"#)).unwrap();
    assert_eq!(result, jv(r#"[1, 2, 99, 4, 5]"#));
}

#[test]
fn set_nested_array_in_object() {
    let val = jv(r#"{"data": {"items": [1, 2, 3]}}"#);
    let sel = Selector::parse("data.items[1]").unwrap();
    let result = apply_set(&val, &sel.segments, &jv(r#"99"#)).unwrap();
    assert_eq!(result.k("data").k("items"), jv(r#"[1, 99, 3]"#));
}

#[test]
fn set_with_negative_index_middle() {
    let val = jv(r#"[10, 20, 30, 40]"#);
    let sel = Selector::parse("[-2]").unwrap();
    let result = apply_set(&val, &sel.segments, &jv(r#"99"#)).unwrap();
    assert_eq!(result, jv(r#"[10, 20, 99, 40]"#));
}

#[test]
fn set_wildcard_error() {
    let val = jv(r#"{"items": [1, 2, 3]}"#);
    let sel = Selector::parse("items[*]").unwrap();
    assert!(apply_set(&val, &sel.segments, &jv(r#"0"#)).is_err());
}

#[test]
fn set_slice_error() {
    let val = jv(r#"{"items": [1, 2, 3]}"#);
    let sel = Selector::parse("items[0:2]").unwrap();
    assert!(apply_set(&val, &sel.segments, &jv(r#"0"#)).is_err());
}

#[test]
fn set_object_value() {
    let val = jv(r#"{"config": {}}"#);
    let sel = Selector::parse("config.server").unwrap();
    let result = apply_set(&val, &sel.segments, &jv(r#"{"host": "localhost", "port": 8080}"#)).unwrap();
    assert_eq!(result.k("config").k("server").k("host"), jv(r#""localhost""#));
}

#[test]
fn set_array_value() {
    let val = jv(r#"{"data": {}}"#);
    let sel = Selector::parse("data.items").unwrap();
    let result = apply_set(&val, &sel.segments, &jv(r#"[1, 2, 3]"#)).unwrap();
    assert_eq!(result.k("data").k("items"), jv(r#"[1, 2, 3]"#));
}

// ── apply_del edge cases ──

#[test]
fn del_deeply_nested_missing_intermediate() {
    // del(.a.b.c) when a.b doesn't exist → no-op
    let val = jv(r#"{"a": 1}"#);
    let sel = Selector::parse("a.b.c").unwrap();
    let result = apply_del(&val, &sel.segments).unwrap();
    // a is not an object, so it's a no-op on the inner path
    assert_eq!(result, jv(r#"{"a": 1}"#));
}

#[test]
fn del_deeply_nested_key() {
    let val = jv(r#"{"a": {"b": {"c": 1, "d": 2}}}"#);
    let sel = Selector::parse("a.b.c").unwrap();
    let result = apply_del(&val, &sel.segments).unwrap();
    assert_eq!(result, jv(r#"{"a": {"b": {"d": 2}}}"#));
}

#[test]
fn del_array_last_element() {
    let val = jv(r#"[1, 2, 3]"#);
    let sel = Selector::parse("[2]").unwrap();
    let result = apply_del(&val, &sel.segments).unwrap();
    assert_eq!(result, jv(r#"[1, 2]"#));
}

#[test]
fn del_array_out_of_bounds_noop() {
    // Deleting index beyond array length → no-op
    let val = jv(r#"{"items": [1, 2, 3]}"#);
    let sel = Selector::parse("items[10]").unwrap();
    let result = apply_del(&val, &sel.segments).unwrap();
    assert_eq!(result, jv(r#"{"items": [1, 2, 3]}"#));
}

#[test]
fn del_negative_index_first() {
    let val = jv(r#"[10, 20, 30]"#);
    let sel = Selector::parse("[-3]").unwrap();
    let result = apply_del(&val, &sel.segments).unwrap();
    assert_eq!(result, jv(r#"[20, 30]"#));
}

#[test]
fn del_all_keys_one_by_one() {
    let val = jv(r#"{"a": 1}"#);
    let sel = Selector::parse("a").unwrap();
    let result = apply_del(&val, &sel.segments).unwrap();
    assert_eq!(result, jv(r#"{}"#));
}

#[test]
fn del_from_array_non_array_noop() {
    let val = jv(r#"{"items": "not an array"}"#);
    let sel = Selector::parse("items[0]").unwrap();
    // items is a string, so applying del with index is a no-op on the index
    let result = apply_del(&val, &sel.segments).unwrap();
    // The key "items" exists but it's a string — applying [0] on string is no-op
    assert_eq!(result.k("items"), jv(r#""not an array""#));
}

#[test]
fn del_wildcard_error() {
    let val = jv(r#"{"items": [1, 2, 3]}"#);
    let sel = Selector::parse("items[*]").unwrap();
    assert!(apply_del(&val, &sel.segments).is_err());
}

#[test]
fn del_slice_error() {
    let val = jv(r#"{"items": [1, 2, 3]}"#);
    let sel = Selector::parse("items[0:2]").unwrap();
    assert!(apply_del(&val, &sel.segments).is_err());
}

#[test]
fn del_nested_in_array_preserves_siblings() {
    let val = jv(r#"[
        {"name": "Alice", "age": 30, "temp": "x"},
        {"name": "Bob", "age": 25}
    ]"#);
    let sel = Selector::parse("[0].temp").unwrap();
    let result = apply_del(&val, &sel.segments).unwrap();
    assert_eq!(result.i(0), jv(r#"{"name": "Alice", "age": 30}"#));
    assert_eq!(result.i(1), jv(r#"{"name": "Bob", "age": 25}"#));
}

#[test]
fn del_single_element_array() {
    let val = jv(r#"[42]"#);
    let sel = Selector::parse("[0]").unwrap();
    let result = apply_del(&val, &sel.segments).unwrap();
    assert_eq!(result, jv(r#"[]"#));
}

// ── resolve_index ──

#[test]
fn resolve_positive_index() {
    assert_eq!(resolve_index(0, 5).unwrap(), 0);
    assert_eq!(resolve_index(4, 5).unwrap(), 4);
}

#[test]
fn resolve_negative_index() {
    assert_eq!(resolve_index(-1, 5).unwrap(), 4);
    assert_eq!(resolve_index(-5, 5).unwrap(), 0);
}

#[test]
fn resolve_negative_out_of_bounds() {
    assert!(resolve_index(-6, 5).is_err());
}
