//! Filter expressions: `select(...)` conditions over a value.
use vstd::prelude::*;
use std::cmp::Ordering;
use crate::decimal::{Order3, dec_of, dec_order, decimal_order, decimal_value, is_valid_float, valid_float};
use crate::error::{ErrV, PickError};
use crate::text::chars_of;
use crate::value::{Json, JsonValue, items, num_text, number_text, str_less, str_lt};
use super::extract::{extract, spec_extract};
use super::types::{CompareOp, Condition, FilterExpr, FilterV, LiteralValue, LitV};

verus! {

broadcast use vstd::string::group_string_axioms;

// ──────────────────────────────────────────────
// Regular expressions (the `regex` crate)
// ──────────────────────────────────────────────

#[verifier::external_type_specification]
#[verifier::external_body]
pub struct ExRegex(regex::Regex);

/// Whether `regex::Regex::new` accepts the pattern.
pub uninterp spec fn regex_valid(pattern: Seq<char>) -> bool;

/// Whether the regex compiled from `pattern` matches somewhere in `text`.
pub uninterp spec fn regex_matches(pattern: Seq<char>, text: Seq<char>) -> bool;

/// A compiled regular expression with the pattern it was compiled from.
pub struct CompiledRegex {
    re: regex::Regex,
    pattern: Ghost<Seq<char>>,
}

/// `regex::Regex::new`: compiles `pattern`; whether it succeeds depends on the
/// pattern alone (its syntax and the crate's default size limits).
#[verifier::external_body]
fn regex_compile(pattern: &str) -> (r: Option<CompiledRegex>)
    ensures
        r is Some <==> regex_valid(pattern@),
        r matches Some(c) ==> c.pattern@ == pattern@,
{
    match regex::Regex::new(pattern) {
        Ok(re) => Some(CompiledRegex { re, pattern: Ghost(pattern@) }),
        Err(_) => None,
    }
}

/// `regex::Regex::is_match`: whether the regex matches anywhere in `text`.
#[verifier::external_body]
fn regex_is_match(re: &CompiledRegex, text: &str) -> (r: bool)
    ensures
        r == regex_matches(re.pattern@, text@),
{
    re.re.is_match(text)
}

// ──────────────────────────────────────────────
// Comparisons
// ──────────────────────────────────────────────

/// Order of two number texts by their decimal values; `None` when either is
/// not a decimal text.
pub open spec fn num_order(a: Seq<char>, b: Seq<char>) -> Option<Order3> {
    if valid_float(a) && valid_float(b) {
        Some(dec_order(dec_of(a), dec_of(b)))
    } else {
        None
    }
}

/// Order of two strings, as `str::cmp` (by character codes).
pub open spec fn str_order(a: Seq<char>, b: Seq<char>) -> Order3 {
    if a == b {
        Order3::Equal
    } else if str_lt(a, b) {
        Order3::Less
    } else {
        Order3::Greater
    }
}

/// Equality of a value and a literal: same kind and same value; numbers by
/// their decimal values.
pub open spec fn spec_value_eq(lhs: Json, rhs: LitV) -> bool {
    match (lhs, rhs) {
        (Json::Str(a), LitV::Str(b)) => a == b,
        (Json::Bool(a), LitV::Bool(b)) => a == b,
        (Json::Null, LitV::Null) => true,
        (Json::Num(n), LitV::Num(t)) => num_order(num_text(n), t) == Some(Order3::Equal),
        _ => false,
    }
}

/// Order of a value and a literal: numbers with numbers, strings with strings.
pub open spec fn spec_value_order(lhs: Json, rhs: LitV) -> Option<Order3> {
    match (lhs, rhs) {
        (Json::Num(n), LitV::Num(t)) => num_order(num_text(n), t),
        (Json::Str(a), LitV::Str(b)) => Some(str_order(a, b)),
        _ => None,
    }
}

/// A string value matched by a string pattern that compiles.
pub open spec fn spec_regex_match(lhs: Json, rhs: LitV) -> bool {
    match (lhs, rhs) {
        (Json::Str(text), LitV::Str(pattern)) => regex_valid(pattern) && regex_matches(pattern, text),
        _ => false,
    }
}

pub open spec fn spec_compare(lhs: Json, op: CompareOp, rhs: LitV) -> bool {
    let o = spec_value_order(lhs, rhs);
    match op {
        CompareOp::Eq => spec_value_eq(lhs, rhs),
        CompareOp::Ne => !spec_value_eq(lhs, rhs),
        CompareOp::Gt => o == Some(Order3::Greater),
        CompareOp::Lt => o == Some(Order3::Less),
        CompareOp::Gte => o is Some && o != Some(Order3::Less),
        CompareOp::Lte => o is Some && o != Some(Order3::Greater),
        CompareOp::Match => spec_regex_match(lhs, rhs),
    }
}

/// `false` and `null` are falsy; everything else is truthy.
pub open spec fn truthy(v: Json) -> bool {
    !(v is Null || v == Json::Bool(false))
}

pub open spec fn ordering_of(o: Order3) -> Ordering {
    match o {
        Order3::Less => Ordering::Less,
        Order3::Equal => Ordering::Equal,
        Order3::Greater => Ordering::Greater,
    }
}

/// Compare a number with a number literal by their decimal values.
fn number_order(n: &crate::value::JsonNumber, t: &String) -> (r: Option<Order3>)
    ensures
        r == num_order(num_text(n@), t@),
{
    let a = number_text(n);
    let b = chars_of(t.as_str());
    if is_valid_float(a.as_slice()) && is_valid_float(b.as_slice()) {
        let da = decimal_value(a.as_slice());
        let db = decimal_value(b.as_slice());
        Some(decimal_order(&da, &db))
    } else {
        None
    }
}

fn string_order(a: &String, b: &String) -> (r: Order3)
    ensures
        r == str_order(a@, b@),
{
    if *a == *b {
        Order3::Equal
    } else if str_less(a.as_str(), b.as_str()) {
        Order3::Less
    } else {
        Order3::Greater
    }
}

fn value_order(lhs: &JsonValue, rhs: &LiteralValue) -> (r: Option<Order3>)
    ensures
        r == spec_value_order(lhs@, rhs@),
{
    match (lhs, rhs) {
        (JsonValue::Number(a), LiteralValue::Number(b)) => number_order(a, b),
        (JsonValue::String(a), LiteralValue::String(b)) => Some(string_order(a, b)),
        _ => None,
    }
}

/// Equality: same kind and same value; numbers by their decimal values.
pub fn value_eq(lhs: &JsonValue, rhs: &LiteralValue) -> (r: bool)
    ensures
        r == spec_value_eq(lhs@, rhs@),
{
    match (lhs, rhs) {
        (JsonValue::String(a), LiteralValue::String(b)) => *a == *b,
        (JsonValue::Bool(a), LiteralValue::Bool(b)) => *a == *b,
        (JsonValue::Null, LiteralValue::Null) => true,
        (JsonValue::Number(a), LiteralValue::Number(b)) => match number_order(a, b) {
            Some(Order3::Equal) => true,
            _ => false,
        },
        _ => false,
    }
}

/// Ordering: only meaningful for number-number and string-string pairs.
pub fn value_cmp(lhs: &JsonValue, rhs: &LiteralValue) -> (r: Option<Ordering>)
    ensures
        r == match spec_value_order(lhs@, rhs@) {
            Some(o) => Some(ordering_of(o)),
            None => None::<Ordering>,
        },
{
    match value_order(lhs, rhs) {
        Some(Order3::Less) => Some(Ordering::Less),
        Some(Order3::Equal) => Some(Ordering::Equal),
        Some(Order3::Greater) => Some(Ordering::Greater),
        None => None,
    }
}

/// Regex match: lhs must be a string, rhs must be a string (pattern).
pub fn value_regex_match(lhs: &JsonValue, rhs: &LiteralValue) -> (r: bool)
    ensures
        r == spec_regex_match(lhs@, rhs@),
{
    match (lhs, rhs) {
        (JsonValue::String(text), LiteralValue::String(pattern)) => match regex_compile(pattern.as_str()) {
            Some(re) => regex_is_match(&re, text.as_str()),
            None => false,
        },
        _ => false,
    }
}

/// Truthiness: `false` and `null` are falsy; everything else is truthy.
pub fn is_truthy(value: &JsonValue) -> (r: bool)
    ensures
        r == truthy(value@),
{
    match value {
        JsonValue::Null => false,
        JsonValue::Bool(b) => *b,
        _ => true,
    }
}

fn compare(lhs: &JsonValue, op: &CompareOp, rhs: &LiteralValue) -> (r: bool)
    ensures
        r == spec_compare(lhs@, *op, rhs@),
{
    match op {
        CompareOp::Eq => value_eq(lhs, rhs),
        CompareOp::Ne => !value_eq(lhs, rhs),
        CompareOp::Gt => match value_order(lhs, rhs) {
            Some(Order3::Greater) => true,
            _ => false,
        },
        CompareOp::Lt => match value_order(lhs, rhs) {
            Some(Order3::Less) => true,
            _ => false,
        },
        CompareOp::Gte => match value_order(lhs, rhs) {
            Some(Order3::Less) => false,
            Some(_) => true,
            None => false,
        },
        CompareOp::Lte => match value_order(lhs, rhs) {
            Some(Order3::Greater) => false,
            Some(_) => true,
            None => false,
        },
        CompareOp::Match => value_regex_match(lhs, rhs),
    }
}

// ──────────────────────────────────────────────
// Evaluation
// ──────────────────────────────────────────────

/// The first value of a selection, or `null` when there is none.
pub open spec fn first_or_null(vs: Seq<Json>) -> Json {
    if vs.len() > 0 {
        vs[0]
    } else {
        Json::Null
    }
}

/// Whether `v` passes the filter; `and` and `or` look at their right side
/// only when the left side does not decide.
pub open spec fn spec_evaluate(v: Json, f: FilterV) -> Result<bool, ErrV>
    decreases f,
{
    match f {
        FilterV::Cond(c) => match spec_extract(v, c.path) {
            Err(e) => Err(e),
            Ok(rs) => Ok(spec_compare(first_or_null(rs), c.op, c.value)),
        },
        FilterV::Truthy(p) => match spec_extract(v, p) {
            Err(e) => Err(e),
            Ok(rs) => Ok(rs.len() > 0 && truthy(rs[0])),
        },
        FilterV::And(a, b) => match spec_evaluate(v, *a) {
            Err(e) => Err(e),
            Ok(x) => if x {
                spec_evaluate(v, *b)
            } else {
                Ok(false)
            },
        },
        FilterV::Or(a, b) => match spec_evaluate(v, *a) {
            Err(e) => Err(e),
            Ok(x) => if x {
                Ok(true)
            } else {
                spec_evaluate(v, *b)
            },
        },
        FilterV::Not(a) => match spec_evaluate(v, *a) {
            Err(e) => Err(e),
            Ok(x) => Ok(!x),
        },
    }
}

pub open spec fn bool_result(r: Result<bool, PickError>) -> Result<bool, ErrV> {
    match r {
        Ok(b) => Ok(b),
        Err(e) => Err(e@),
    }
}

fn evaluate_condition(value: &JsonValue, cond: &Condition) -> (r: Result<bool, PickError>)
    ensures
        bool_result(r) == match spec_extract(value@, cond.path@) {
            Err(e) => Err(e),
            Ok(rs) => Ok(spec_compare(first_or_null(rs), cond.op, cond.value@)),
        },
{
    match extract(value, &cond.path) {
        Err(e) => Err(e),
        Ok(results) => {
            if results.len() > 0 {
                assert(items(results@)[0] == results@[0]@);
                Ok(compare(&results[0], &cond.op, &cond.value))
            } else {
                Ok(compare(&JsonValue::Null, &cond.op, &cond.value))
            }
        },
    }
}

/// Evaluate a filter expression against a JSON value.
/// Returns `true` if the value passes the filter.
pub fn evaluate(value: &JsonValue, expr: &FilterExpr) -> (r: Result<bool, PickError>)
    ensures
        bool_result(r) == spec_evaluate(value@, expr@),
    decreases expr,
{
    match expr {
        FilterExpr::Condition(cond) => evaluate_condition(value, cond),
        FilterExpr::Truthy(path) => match extract(value, path) {
            Err(e) => Err(e),
            Ok(results) => {
                if results.len() > 0 {
                    assert(items(results@)[0] == results@[0]@);
                    Ok(is_truthy(&results[0]))
                } else {
                    Ok(false)
                }
            },
        },
        FilterExpr::And(left, right) => match evaluate(value, left) {
            Err(e) => Err(e),
            Ok(true) => evaluate(value, right),
            Ok(false) => Ok(false),
        },
        FilterExpr::Or(left, right) => match evaluate(value, left) {
            Err(e) => Err(e),
            Ok(true) => Ok(true),
            Ok(false) => evaluate(value, right),
        },
        FilterExpr::Not(inner) => match evaluate(value, inner) {
            Err(e) => Err(e),
            Ok(b) => Ok(!b),
        },
    }
}

} // verus!
