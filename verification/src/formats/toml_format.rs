//! TOML input, read by the `toml` crate and turned into JSON values.
use vstd::prelude::*;
use crate::error::{ErrV, PickError};
use crate::selector::literal::int_json;
use crate::value::{
    Json, JsonNumber, JsonValue, NumView, entries, items, lemma_view_entries, lemma_view_items,
    map_insert, obj_insert, value_result,
};

verus! {

#[verifier::external_type_specification]
#[verifier::external_body]
pub struct ExTomlValue(toml::Value);

/// A TOML document's value; a float is given by the text `serde_json` writes
/// for it (none for a NaN or an infinity), a datetime by its `Display` text.
pub enum TomlNode {
    String(String),
    Integer(i64),
    Float(Option<String>),
    Boolean(bool),
    Datetime(String),
    Array(Vec<TomlNode>),
    Table(Vec<(String, TomlNode)>),
}

pub enum TomlV {
    Str(Seq<char>),
    Integer(i64),
    Float(Option<Seq<char>>),
    Boolean(bool),
    Datetime(Seq<char>),
    Array(Seq<TomlV>),
    Table(Seq<(Seq<char>, TomlV)>),
}

impl View for TomlNode {
    type V = TomlV;

    open spec fn view(&self) -> TomlV
        decreases self,
    {
        match self {
            TomlNode::String(s) => TomlV::Str(s@),
            TomlNode::Integer(i) => TomlV::Integer(*i),
            TomlNode::Float(s) => TomlV::Float(match s {
                Some(t) => Some(t@),
                None => None,
            }),
            TomlNode::Boolean(b) => TomlV::Boolean(*b),
            TomlNode::Datetime(s) => TomlV::Datetime(s@),
            TomlNode::Array(v) => TomlV::Array(toml_views(v@)),
            TomlNode::Table(m) => TomlV::Table(toml_pair_views(m@)),
        }
    }
}

pub open spec fn toml_views(s: Seq<TomlNode>) -> Seq<TomlV>
    decreases s,
{
    if s.len() == 0 {
        Seq::empty()
    } else {
        seq![s[0].view()] + toml_views(s.drop_first())
    }
}

pub open spec fn toml_pair_views(s: Seq<(String, TomlNode)>) -> Seq<(Seq<char>, TomlV)>
    decreases s,
{
    if s.len() == 0 {
        Seq::empty()
    } else {
        seq![(s[0].0@, s[0].1.view())] + toml_pair_views(s.drop_first())
    }
}

pub proof fn lemma_toml_views(s: Seq<TomlNode>)
    ensures
        toml_views(s) == s.map_values(|x: TomlNode| x@),
    decreases s.len(),
{
    if s.len() > 0 {
        lemma_toml_views(s.drop_first());
        assert(toml_views(s) == seq![s[0].view()] + toml_views(s.drop_first()));
        assert(toml_views(s).len() == s.len());
    }
    assert(toml_views(s) =~= s.map_values(|x: TomlNode| x@));
}

pub proof fn lemma_toml_pair_views(s: Seq<(String, TomlNode)>)
    ensures
        toml_pair_views(s) == s.map_values(|x: (String, TomlNode)| (x.0@, x.1@)),
    decreases s.len(),
{
    if s.len() > 0 {
        lemma_toml_pair_views(s.drop_first());
        assert(toml_pair_views(s) == seq![(s[0].0@, s[0].1.view())] + toml_pair_views(s.drop_first()));
        assert(toml_pair_views(s).len() == s.len());
    }
    assert(toml_pair_views(s) =~= s.map_values(|x: (String, TomlNode)| (x.0@, x.1@)));
}

/// The JSON value of a TOML value: a datetime becomes its text, a float that
/// JSON cannot hold becomes `null`, and tables keep their entries.
pub open spec fn toml_json(n: TomlV) -> Json
    decreases n,
{
    match n {
        TomlV::Str(s) => Json::Str(s),
        TomlV::Integer(i) => int_json(i),
        TomlV::Float(Some(s)) => Json::Num(NumView::Float(s)),
        TomlV::Float(None) => Json::Null,
        TomlV::Boolean(b) => Json::Bool(b),
        TomlV::Datetime(s) => Json::Str(s),
        TomlV::Array(a) => Json::Arr(toml_items(a)),
        TomlV::Table(m) => Json::Obj(toml_entries(m)),
    }
}

pub open spec fn toml_items(a: Seq<TomlV>) -> Seq<Json>
    decreases a,
{
    if a.len() == 0 {
        Seq::empty()
    } else {
        toml_items(a.drop_last()).push(toml_json(a.last()))
    }
}

pub open spec fn toml_entries(m: Seq<(Seq<char>, TomlV)>) -> Seq<(Seq<char>, Json)>
    decreases m,
{
    if m.len() == 0 {
        Seq::empty()
    } else {
        obj_insert(toml_entries(m.drop_last()), m.last().0, toml_json(m.last().1))
    }
}

/// What `str::parse::<toml::Value>` (that is, `toml::from_str`) makes of a text:
/// the value, or the error's message.
pub uninterp spec fn toml_decode(text: Seq<char>) -> Result<TomlV, Seq<char>>;

/// A `toml` value as a `TomlNode`, one for one.
#[verifier::external_body]
fn node_from_toml(v: &toml::Value) -> TomlNode {
    match v {
        toml::Value::String(s) => TomlNode::String(s.clone()),
        toml::Value::Integer(i) => TomlNode::Integer(*i),
        toml::Value::Float(_) => TomlNode::Float(float_text(v)),
        toml::Value::Boolean(b) => TomlNode::Boolean(*b),
        toml::Value::Datetime(dt) => TomlNode::Datetime(dt.to_string()),
        toml::Value::Array(a) => TomlNode::Array(a.iter().map(node_from_toml).collect()),
        toml::Value::Table(t) => TomlNode::Table(t.iter().map(|(k, x)| (k.clone(), node_from_toml(x))).collect()),
    }
}

/// The text `serde_json` writes for a TOML float, none for a NaN or an
/// infinity.
#[verifier::external_body]
fn float_text(v: &toml::Value) -> Option<String> {
    v.as_float().and_then(serde_json::Number::from_f64).map(|x| x.to_string())
}

/// `str::parse::<toml::Value>`.
#[verifier::external_body]
fn toml_from_str(input: &str) -> (r: Result<TomlNode, String>)
    ensures
        match toml_decode(input@) {
            Ok(v) => r matches Ok(x) && x@ == v,
            Err(m) => r matches Err(x) && x@ == m,
        },
{
    match input.parse::<toml::Value>() {
        Ok(v) => Ok(node_from_toml(&v)),
        Err(e) => Err(e.to_string()),
    }
}

/// Convert a TOML value into a JSON value, as `toml_json`.
pub fn toml_to_json(v: &TomlNode) -> (r: JsonValue)
    ensures
        r@ == toml_json(v@),
    decreases v,
{
    match v {
        TomlNode::String(s) => JsonValue::String(s.clone()),
        TomlNode::Integer(i) => {
            if *i < 0 {
                JsonValue::Number(JsonNumber::NegInt(*i))
            } else {
                JsonValue::Number(JsonNumber::PosInt(*i as u64))
            }
        },
        TomlNode::Float(Some(s)) => JsonValue::Number(JsonNumber::Float(s.clone())),
        TomlNode::Float(None) => JsonValue::Null,
        TomlNode::Boolean(b) => JsonValue::Bool(*b),
        TomlNode::Datetime(s) => JsonValue::String(s.clone()),
        TomlNode::Array(a) => {
            proof { lemma_toml_views(a@); }
            let ghost av = toml_views(a@);
            let mut out: Vec<JsonValue> = Vec::new();
            let mut i: usize = 0;
            assert(av.take(0) =~= Seq::<TomlV>::empty());
            assert(items(out@) =~= Seq::<Json>::empty());
            while i < a.len()
                invariant
                    i <= a@.len(),
                    av == toml_views(a@),
                    av == a@.map_values(|x: TomlNode| x@),
                    items(out@) == toml_items(av.take(i as int)),
                    decreases_to!(*v => *a),
                decreases a.len() - i,
            {
                proof { vstd::std_specs::vec::axiom_vec_index_decreases(*a, i as int); }
                let c = toml_to_json(&a[i]);
                let ghost before = items(out@);
                let ghost cv = c@;
                out.push(c);
                assert(av.take(i + 1).drop_last() =~= av.take(i as int));
                assert(av.take(i + 1).last() == a@[i as int]@);
                assert(items(out@) =~= before.push(cv));
                i = i + 1;
            }
            assert(av.take(i as int) =~= av);
            proof { lemma_view_items(out@); }
            JsonValue::Array(out)
        },
        TomlNode::Table(m) => {
            proof { lemma_toml_pair_views(m@); }
            let ghost mv = toml_pair_views(m@);
            let mut map: Vec<(String, JsonValue)> = Vec::new();
            let mut i: usize = 0;
            assert(mv.take(0) =~= Seq::<(Seq<char>, TomlV)>::empty());
            while i < m.len()
                invariant
                    i <= m@.len(),
                    mv == toml_pair_views(m@),
                    mv == m@.map_values(|x: (String, TomlNode)| (x.0@, x.1@)),
                    entries(map@) == toml_entries(mv.take(i as int)),
                    decreases_to!(*v => *m),
                decreases m.len() - i,
            {
                proof { vstd::std_specs::vec::axiom_vec_index_decreases(*m, i as int); }
                let c = toml_to_json(&m[i].1);
                assert(mv.take(i + 1).drop_last() =~= mv.take(i as int));
                assert(mv.take(i + 1).last() == (m@[i as int].0@, m@[i as int].1@));
                map_insert(&mut map, m[i].0.clone(), c);
                i = i + 1;
            }
            assert(mv.take(i as int) =~= mv);
            proof { lemma_view_entries(map@); }
            JsonValue::Object(map)
        },
    }
}

pub open spec fn spec_parse(input: Seq<char>) -> Result<Json, ErrV> {
    match toml_decode(input) {
        Ok(v) => Ok(toml_json(v)),
        Err(m) => Err(ErrV::ParseError("TOML"@, m)),
    }
}

/// Parse TOML text.
pub fn parse(input: &str) -> (r: Result<JsonValue, PickError>)
    ensures
        value_result(r) == spec_parse(input@),
{
    match toml_from_str(input) {
        Ok(v) => Ok(toml_to_json(&v)),
        Err(m) => Err(PickError::ParseError("TOML".to_owned(), m)),
    }
}

} // verus!
