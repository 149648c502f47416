//! The JSON value that a literal of a selector stands for.
use vstd::prelude::*;
use crate::decimal::{
    canonical_text, canonical_text_of, dec_of, decimal_value, is_valid_float, lemma_dec_digits,
    valid_float, whole_i64, whole_value,
};
use crate::formats::json::{json_number_of, serde_number_from_str};
use crate::text::{chars_of, string_of};
use crate::value::{Json, JsonNumber, JsonValue, NumView};
use super::types::{LiteralValue, LitV};

verus! {

/// An integer as `serde_json` holds it: negatives as `NegInt`, the rest as
/// `PosInt`.
pub open spec fn int_json(i: i64) -> Json {
    if i < 0 {
        Json::Num(NumView::NegInt(i))
    } else {
        Json::Num(NumView::PosInt(i as u64))
    }
}

/// The value for a number that `serde_json` read from a number text: nothing
/// read gives `null`; a float that is a whole number in `i64`'s range becomes
/// that integer.
pub open spec fn parsed_number_json(o: Option<NumView>) -> Json {
    match o {
        None => Json::Null,
        Some(NumView::Float(s)) => if valid_float(s) && whole_i64(dec_of(s)) is Some {
            int_json(whole_i64(dec_of(s))->0)
        } else {
            Json::Num(NumView::Float(s))
        },
        Some(n) => Json::Num(n),
    }
}

/// The JSON value of a literal: a whole number in `i64`'s range is an integer;
/// another number is the float `serde_json` reads from its canonical text; a
/// text that is no number is `null`.
pub open spec fn lit_json(l: LitV) -> Json {
    match l {
        LitV::Str(s) => Json::Str(s),
        LitV::Bool(b) => Json::Bool(b),
        LitV::Null => Json::Null,
        LitV::Num(t) => if !valid_float(t) {
            Json::Null
        } else {
            match whole_i64(dec_of(t)) {
                Some(i) => int_json(i),
                None => parsed_number_json(json_number_of(canonical_text(dec_of(t)))),
            }
        },
    }
}

fn int_value(i: i64) -> (r: JsonValue)
    ensures
        r@ == int_json(i),
{
    if i < 0 {
        JsonValue::Number(JsonNumber::NegInt(i))
    } else {
        JsonValue::Number(JsonNumber::PosInt(i as u64))
    }
}

pub open spec fn opt_num_view(o: Option<JsonNumber>) -> Option<NumView> {
    match o {
        Some(n) => Some(n@),
        None => None,
    }
}

/// The value for what `serde_json` read from a number text, as
/// `parsed_number_json`.
pub fn number_from_parsed(parsed: Option<JsonNumber>) -> (r: JsonValue)
    ensures
        r@ == parsed_number_json(opt_num_view(parsed)),
{
    match parsed {
        None => JsonValue::Null,
        Some(JsonNumber::Float(s)) => {
            let cs = chars_of(s.as_str());
            if is_valid_float(cs.as_slice()) {
                let d = decimal_value(cs.as_slice());
                proof { lemma_dec_digits(cs@); }
                match whole_value(&d) {
                    Some(i) => int_value(i),
                    None => JsonValue::Number(JsonNumber::Float(s)),
                }
            } else {
                JsonValue::Number(JsonNumber::Float(s))
            }
        },
        Some(n) => JsonValue::Number(n),
    }
}

fn number_literal_value(t: &String) -> (r: JsonValue)
    ensures
        r@ == lit_json(LitV::Num(t@)),
{
    let cs = chars_of(t.as_str());
    if !is_valid_float(cs.as_slice()) {
        return JsonValue::Null;
    }
    let d = decimal_value(cs.as_slice());
    proof { lemma_dec_digits(cs@); }
    match whole_value(&d) {
        Some(i) => int_value(i),
        None => {
            let c = canonical_text_of(&d);
            let text = string_of(c.as_slice());
            number_from_parsed(serde_number_from_str(text.as_str()))
        },
    }
}

impl LiteralValue {
    /// The JSON value this literal stands for.
    pub fn to_json_value(&self) -> (r: JsonValue)
        ensures
            r@ == lit_json(self@),
    {
        match self {
            LiteralValue::String(s) => JsonValue::String(s.clone()),
            LiteralValue::Number(t) => number_literal_value(t),
            LiteralValue::Bool(b) => JsonValue::Bool(*b),
            LiteralValue::Null => JsonValue::Null,
        }
    }
}

} // verus!
