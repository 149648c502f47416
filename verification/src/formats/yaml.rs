//! YAML input, read by `serde_yaml` and turned into JSON values.
use vstd::prelude::*;
use crate::error::{ErrV, PickError};
use crate::selector::literal::int_json;
use crate::value::{
    Json, JsonNumber, JsonValue, NumView, entries, items, lemma_view_entries, lemma_view_items,
    map_insert, obj_insert, value_result,
};

verus! {

#[verifier::external_type_specification]
#[verifier::external_body]
pub struct ExYamlValue(serde_yaml::Value);

#[verifier::external_type_specification]
#[verifier::external_body]
pub struct ExYamlNumber(serde_yaml::Number);

/// A YAML number: a signed or unsigned integer, or a float given by the text
/// `serde_json` writes for it (none for a NaN or an infinity).
pub enum YamlNumber {
    Int(i64),
    UInt(u64),
    Float(Option<String>),
}

/// A mapping key as it becomes an object key: a string, a number's text, a
/// boolean, or the debug text of any other value.
pub enum YamlKey {
    Str(String),
    Num(String),
    Bool(bool),
    Other(String),
}

/// A YAML document's value.
pub enum YamlNode {
    Null,
    Bool(bool),
    Number(YamlNumber),
    String(String),
    Sequence(Vec<YamlNode>),
    Mapping(Vec<(YamlKey, YamlNode)>),
    Tagged(Box<YamlNode>),
}

pub enum YamlNumV {
    Int(i64),
    UInt(u64),
    Float(Option<Seq<char>>),
}

pub enum YamlKeyV {
    Str(Seq<char>),
    Num(Seq<char>),
    Bool(bool),
    Other(Seq<char>),
}

pub enum YamlV {
    Null,
    Bool(bool),
    Number(YamlNumV),
    Str(Seq<char>),
    Sequence(Seq<YamlV>),
    Mapping(Seq<(YamlKeyV, YamlV)>),
    Tagged(Box<YamlV>),
}

impl View for YamlNumber {
    type V = YamlNumV;

    open spec fn view(&self) -> YamlNumV {
        match self {
            YamlNumber::Int(i) => YamlNumV::Int(*i),
            YamlNumber::UInt(u) => YamlNumV::UInt(*u),
            YamlNumber::Float(s) => YamlNumV::Float(match s {
                Some(t) => Some(t@),
                None => None,
            }),
        }
    }
}

impl View for YamlKey {
    type V = YamlKeyV;

    open spec fn view(&self) -> YamlKeyV {
        match self {
            YamlKey::Str(s) => YamlKeyV::Str(s@),
            YamlKey::Num(s) => YamlKeyV::Num(s@),
            YamlKey::Bool(b) => YamlKeyV::Bool(*b),
            YamlKey::Other(s) => YamlKeyV::Other(s@),
        }
    }
}

impl View for YamlNode {
    type V = YamlV;

    open spec fn view(&self) -> YamlV
        decreases self,
    {
        match self {
            YamlNode::Null => YamlV::Null,
            YamlNode::Bool(b) => YamlV::Bool(*b),
            YamlNode::Number(n) => YamlV::Number(n@),
            YamlNode::String(s) => YamlV::Str(s@),
            YamlNode::Sequence(v) => YamlV::Sequence(yaml_views(v@)),
            YamlNode::Mapping(m) => YamlV::Mapping(yaml_pair_views(m@)),
            YamlNode::Tagged(b) => YamlV::Tagged(Box::new((**b).view())),
        }
    }
}

pub open spec fn yaml_views(s: Seq<YamlNode>) -> Seq<YamlV>
    decreases s,
{
    if s.len() == 0 {
        Seq::empty()
    } else {
        seq![s[0].view()] + yaml_views(s.drop_first())
    }
}

pub open spec fn yaml_pair_views(s: Seq<(YamlKey, YamlNode)>) -> Seq<(YamlKeyV, YamlV)>
    decreases s,
{
    if s.len() == 0 {
        Seq::empty()
    } else {
        seq![(s[0].0@, s[0].1.view())] + yaml_pair_views(s.drop_first())
    }
}

pub proof fn lemma_yaml_views(s: Seq<YamlNode>)
    ensures
        yaml_views(s) == s.map_values(|x: YamlNode| x@),
    decreases s.len(),
{
    if s.len() > 0 {
        lemma_yaml_views(s.drop_first());
        assert(yaml_views(s) == seq![s[0].view()] + yaml_views(s.drop_first()));
        assert(yaml_views(s).len() == s.len());
    }
    assert(yaml_views(s) =~= s.map_values(|x: YamlNode| x@));
}

pub proof fn lemma_yaml_pair_views(s: Seq<(YamlKey, YamlNode)>)
    ensures
        yaml_pair_views(s) == s.map_values(|x: (YamlKey, YamlNode)| (x.0@, x.1@)),
    decreases s.len(),
{
    if s.len() > 0 {
        lemma_yaml_pair_views(s.drop_first());
        assert(yaml_pair_views(s) == seq![(s[0].0@, s[0].1.view())] + yaml_pair_views(s.drop_first()));
        assert(yaml_pair_views(s).len() == s.len());
    }
    assert(yaml_pair_views(s) =~= s.map_values(|x: (YamlKey, YamlNode)| (x.0@, x.1@)));
}

/// An object key for a mapping key.
pub open spec fn key_text(k: YamlKeyV) -> Seq<char> {
    match k {
        YamlKeyV::Str(s) => s,
        YamlKeyV::Num(s) => s,
        YamlKeyV::Bool(b) => if b {
            "true"@
        } else {
            "false"@
        },
        YamlKeyV::Other(s) => s,
    }
}

/// The JSON value of a YAML value: integers stay integers, a float that JSON
/// cannot hold becomes `null`, tags are dropped, and mapping entries are
/// inserted in order (a later equal key replacing an earlier one).
pub open spec fn yaml_json(n: YamlV) -> Json
    decreases n,
{
    match n {
        YamlV::Null => Json::Null,
        YamlV::Bool(b) => Json::Bool(b),
        YamlV::Number(YamlNumV::Int(i)) => int_json(i),
        YamlV::Number(YamlNumV::UInt(u)) => Json::Num(NumView::PosInt(u)),
        YamlV::Number(YamlNumV::Float(Some(s))) => Json::Num(NumView::Float(s)),
        YamlV::Number(YamlNumV::Float(None)) => Json::Null,
        YamlV::Str(s) => Json::Str(s),
        YamlV::Sequence(a) => Json::Arr(yaml_items(a)),
        YamlV::Mapping(m) => Json::Obj(yaml_entries(m)),
        YamlV::Tagged(b) => yaml_json(*b),
    }
}

pub open spec fn yaml_items(a: Seq<YamlV>) -> Seq<Json>
    decreases a,
{
    if a.len() == 0 {
        Seq::empty()
    } else {
        yaml_items(a.drop_last()).push(yaml_json(a.last()))
    }
}

pub open spec fn yaml_entries(m: Seq<(YamlKeyV, YamlV)>) -> Seq<(Seq<char>, Json)>
    decreases m,
{
    if m.len() == 0 {
        Seq::empty()
    } else {
        obj_insert(yaml_entries(m.drop_last()), key_text(m.last().0), yaml_json(m.last().1))
    }
}

/// What `serde_yaml::from_str::<serde_yaml::Value>` makes of a text: the value,
/// or the error's message.
pub uninterp spec fn yaml_decode(text: Seq<char>) -> Result<YamlV, Seq<char>>;

/// A `serde_yaml` value as a `YamlNode`, one for one.
#[verifier::external_body]
fn node_from_serde(v: &serde_yaml::Value) -> YamlNode {
    match v {
        serde_yaml::Value::Null => YamlNode::Null,
        serde_yaml::Value::Bool(b) => YamlNode::Bool(*b),
        serde_yaml::Value::Number(n) => YamlNode::Number(number_from_yaml(n)),
        serde_yaml::Value::String(s) => YamlNode::String(s.clone()),
        serde_yaml::Value::Sequence(a) => YamlNode::Sequence(a.iter().map(node_from_serde).collect()),
        serde_yaml::Value::Mapping(m) => YamlNode::Mapping(m.iter().map(|(k, x)| (key_from_serde(k), node_from_serde(x))).collect()),
        serde_yaml::Value::Tagged(t) => YamlNode::Tagged(Box::new(node_from_serde(&t.value))),
    }
}

/// A `serde_yaml` number as a `YamlNumber`: a non-negative integer as `u64`,
/// a negative one as `i64`, a float by its `serde_json` text.
#[verifier::external_body]
fn number_from_yaml(n: &serde_yaml::Number) -> YamlNumber {
    if let Some(u) = n.as_u64() {
        YamlNumber::UInt(u)
    } else if let Some(i) = n.as_i64() {
        YamlNumber::Int(i)
    } else {
        YamlNumber::Float(n.as_f64().and_then(serde_json::Number::from_f64).map(|x| x.to_string()))
    }
}

/// A `serde_yaml` mapping key as a `YamlKey`: a number by its `Display` text,
/// a value other than a string, number or boolean by its `Debug` text.
#[verifier::external_body]
fn key_from_serde(k: &serde_yaml::Value) -> YamlKey {
    match k {
        serde_yaml::Value::String(s) => YamlKey::Str(s.clone()),
        serde_yaml::Value::Number(n) => YamlKey::Num(n.to_string()),
        serde_yaml::Value::Bool(b) => YamlKey::Bool(*b),
        _ => YamlKey::Other(format!("{k:?}")),
    }
}

/// `serde_yaml::from_str` into a `serde_yaml::Value`.
#[verifier::external_body]
fn serde_yaml_from_str(input: &str) -> (r: Result<YamlNode, String>)
    ensures
        match yaml_decode(input@) {
            Ok(v) => r matches Ok(x) && x@ == v,
            Err(m) => r matches Err(x) && x@ == m,
        },
{
    match serde_yaml::from_str::<serde_yaml::Value>(input) {
        Ok(v) => Ok(node_from_serde(&v)),
        Err(e) => Err(e.to_string()),
    }
}

fn key_string(k: &YamlKey) -> (r: String)
    ensures
        r@ == key_text(k@),
{
    match k {
        YamlKey::Str(s) => s.clone(),
        YamlKey::Num(s) => s.clone(),
        YamlKey::Bool(b) => if *b {
            "true".to_owned()
        } else {
            "false".to_owned()
        },
        YamlKey::Other(s) => s.clone(),
    }
}

/// Convert a YAML value into a JSON value, as `yaml_json`.
pub fn yaml_to_json(v: &YamlNode) -> (r: JsonValue)
    ensures
        r@ == yaml_json(v@),
    decreases v,
{
    match v {
        YamlNode::Null => JsonValue::Null,
        YamlNode::Bool(b) => JsonValue::Bool(*b),
        YamlNode::Number(YamlNumber::Int(i)) => {
            if *i < 0 {
                JsonValue::Number(JsonNumber::NegInt(*i))
            } else {
                JsonValue::Number(JsonNumber::PosInt(*i as u64))
            }
        },
        YamlNode::Number(YamlNumber::UInt(u)) => JsonValue::Number(JsonNumber::PosInt(*u)),
        YamlNode::Number(YamlNumber::Float(Some(s))) => JsonValue::Number(JsonNumber::Float(s.clone())),
        YamlNode::Number(YamlNumber::Float(None)) => JsonValue::Null,
        YamlNode::String(s) => JsonValue::String(s.clone()),
        YamlNode::Sequence(a) => {
            proof { lemma_yaml_views(a@); }
            let ghost av = yaml_views(a@);
            let mut out: Vec<JsonValue> = Vec::new();
            let mut i: usize = 0;
            assert(av.take(0) =~= Seq::<YamlV>::empty());
            assert(items(out@) =~= Seq::<Json>::empty());
            while i < a.len()
                invariant
                    i <= a@.len(),
                    av == yaml_views(a@),
                    av == a@.map_values(|x: YamlNode| x@),
                    items(out@) == yaml_items(av.take(i as int)),
                    decreases_to!(*v => *a),
                decreases a.len() - i,
            {
                proof { vstd::std_specs::vec::axiom_vec_index_decreases(*a, i as int); }
                let c = yaml_to_json(&a[i]);
                let ghost before = items(out@);
                let ghost cv = c@;
                out.push(c);
                assert(av.take(i + 1).drop_last() =~= av.take(i as int));
                assert(av.take(i + 1).last() == a@[i as int]@);
                assert(items(out@) =~= before.push(cv));
                i = i + 1;
            }
            assert(av.take(i as int) =~= av);
            proof { lemma_view_items(out@); }
            JsonValue::Array(out)
        },
        YamlNode::Mapping(m) => {
            proof { lemma_yaml_pair_views(m@); }
            let ghost mv = yaml_pair_views(m@);
            let mut map: Vec<(String, JsonValue)> = Vec::new();
            let mut i: usize = 0;
            assert(mv.take(0) =~= Seq::<(YamlKeyV, YamlV)>::empty());
            while i < m.len()
                invariant
                    i <= m@.len(),
                    mv == yaml_pair_views(m@),
                    mv == m@.map_values(|x: (YamlKey, YamlNode)| (x.0@, x.1@)),
                    entries(map@) == yaml_entries(mv.take(i as int)),
                    decreases_to!(*v => *m),
                decreases m.len() - i,
            {
                proof { vstd::std_specs::vec::axiom_vec_index_decreases(*m, i as int); }
                let c = yaml_to_json(&m[i].1);
                let k = key_string(&m[i].0);
                assert(mv.take(i + 1).drop_last() =~= mv.take(i as int));
                assert(mv.take(i + 1).last() == (m@[i as int].0@, m@[i as int].1@));
                map_insert(&mut map, k, c);
                i = i + 1;
            }
            assert(mv.take(i as int) =~= mv);
            proof { lemma_view_entries(map@); }
            JsonValue::Object(map)
        },
        YamlNode::Tagged(b) => yaml_to_json(b),
    }
}

pub open spec fn spec_parse(input: Seq<char>) -> Result<Json, ErrV> {
    match yaml_decode(input) {
        Ok(v) => Ok(yaml_json(v)),
        Err(m) => Err(ErrV::ParseError("YAML"@, m)),
    }
}

/// Parse YAML text.
pub fn parse(input: &str) -> (r: Result<JsonValue, PickError>)
    ensures
        value_result(r) == spec_parse(input@),
{
    match serde_yaml_from_str(input) {
        Ok(v) => Ok(yaml_to_json(&v)),
        Err(m) => Err(PickError::ParseError("YAML".to_owned(), m)),
    }
}

} // verus!
