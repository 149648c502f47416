//! Rendering results as text: plain, JSON, YAML or TOML.
use vstd::prelude::*;
use crate::cli::OutputFormat;
use crate::text::{chars_of, string_of};
use crate::value::{Json, JsonNumber, JsonValue, copy_value, items, lemma_view_items, num_text, number_text};

verus! {

broadcast use vstd::string::group_string_axioms;

/// `serde_json::to_string_pretty` of a value (two-space indents).
pub uninterp spec fn json_pretty_text(v: Json) -> Seq<char>;

/// `serde_yaml::to_string` of a value, or nothing when it fails.
pub uninterp spec fn yaml_text(v: Json) -> Seq<char>;

/// `toml::to_string_pretty` of a value turned into a `toml::Value` (nothing
/// when that fails), or no text when the value cannot become a `toml::Value`.
pub uninterp spec fn toml_text(v: Json) -> Option<Seq<char>>;

/// A library value as a `serde_json` value, one for one.
#[verifier::external_body]
fn to_serde(v: &JsonValue) -> serde_json::Value {
    match v {
        JsonValue::Null => serde_json::Value::Null,
        JsonValue::Bool(b) => serde_json::Value::Bool(*b),
        JsonValue::Number(n) => number_to_serde(n),
        JsonValue::String(s) => serde_json::Value::String(s.clone()),
        JsonValue::Array(a) => serde_json::Value::Array(a.iter().map(to_serde).collect()),
        JsonValue::Object(m) => serde_json::Value::Object(m.iter().map(|(k, x)| (k.clone(), to_serde(x))).collect()),
    }
}

/// A library number as a `serde_json` value; a float by the number its text
/// reads as (`null` when it reads as none).
#[verifier::external_body]
fn number_to_serde(n: &JsonNumber) -> serde_json::Value {
    match n {
        JsonNumber::PosInt(u) => serde_json::Value::from(*u),
        JsonNumber::NegInt(i) => serde_json::Value::from(*i),
        JsonNumber::Float(s) => s.parse::<serde_json::Number>().map(serde_json::Value::Number).unwrap_or(serde_json::Value::Null),
    }
}

/// `serde_json::to_string_pretty`; serialising a `serde_json::Value` does not
/// fail.
#[verifier::external_body]
fn json_pretty(v: &JsonValue) -> (r: String)
    ensures
        r@ == json_pretty_text(v@),
{
    serde_json::to_string_pretty(&to_serde(v)).unwrap_or_default()
}

/// `serde_yaml::to_string`, the empty text on an error.
#[verifier::external_body]
fn yaml_string(v: &JsonValue) -> (r: String)
    ensures
        r@ == yaml_text(v@),
{
    serde_yaml::to_string(&to_serde(v)).unwrap_or_default()
}

/// `serde_json::from_value::<toml::Value>`, then `toml::to_string_pretty` (the
/// empty text on its error).
#[verifier::external_body]
fn toml_string(v: &JsonValue) -> (r: Option<String>)
    ensures
        match toml_text(v@) {
            Some(t) => r matches Some(x) && x@ == t,
            None => r is None,
        },
{
    match serde_json::from_value::<toml::Value>(to_serde(v)) {
        Ok(tv) => Some(toml::to_string_pretty(&tv).unwrap_or_default()),
        Err(_) => None,
    }
}

// ──────────────────────────────────────────────
// The texts
// ──────────────────────────────────────────────

/// A scalar by its text (strings bare); arrays and objects as pretty JSON.
pub open spec fn plain_text(v: Json) -> Seq<char> {
    match v {
        Json::Null => "null"@,
        Json::Bool(b) => if b {
            "true"@
        } else {
            "false"@
        },
        Json::Num(n) => num_text(n),
        Json::Str(s) => s,
        _ => json_pretty_text(v),
    }
}

/// The texts joined by newlines.
pub open spec fn join_lines(ts: Seq<Seq<char>>) -> Seq<char>
    decreases ts.len(),
{
    if ts.len() == 0 {
        Seq::empty()
    } else if ts.len() == 1 {
        ts[0]
    } else {
        join_lines(ts.drop_last()) + seq!['\n'] + ts.last()
    }
}

pub open spec fn plain_texts(vs: Seq<Json>) -> Seq<Seq<char>> {
    vs.map_values(|v: Json| plain_text(v))
}

/// The results with arrays replaced by their elements.
pub open spec fn flatten(vs: Seq<Json>) -> Seq<Json>
    decreases vs.len(),
{
    if vs.len() == 0 {
        Seq::empty()
    } else {
        flatten(vs.drop_last()) + match vs.last() {
            Json::Arr(a) => a,
            x => seq![x],
        }
    }
}

/// One result by itself, several as an array.
pub open spec fn one_or_array(rs: Seq<Json>) -> Json {
    if rs.len() == 1 {
        rs[0]
    } else {
        Json::Arr(rs)
    }
}

pub open spec fn without_final_newline(s: Seq<char>) -> Seq<char> {
    if s.len() > 0 && s.last() == '\n' {
        s.drop_last()
    } else {
        s
    }
}

/// YAML text without its final newline and without a leading `---` line.
pub open spec fn yaml_clean(s: Seq<char>) -> Seq<char> {
    let s1 = without_final_newline(s);
    if s1.len() >= 4 && s1.take(4) == seq!['-', '-', '-', '\n'] {
        s1.skip(4)
    } else {
        s1
    }
}

/// TOML for a value: a table as TOML (as JSON where TOML cannot hold it),
/// anything else as plain text.
pub open spec fn toml_of(v: Json) -> Seq<char> {
    match v {
        Json::Obj(_) => match toml_text(v) {
            Some(t) => without_final_newline(t),
            None => json_pretty_text(v),
        },
        _ => plain_text(v),
    }
}

pub open spec fn results_key() -> Seq<char> {
    seq!['r', 'e', 's', 'u', 'l', 't', 's']
}

pub open spec fn spec_format(rs: Seq<Json>, as_json: bool, as_lines: bool, f: OutputFormat) -> Seq<char> {
    if rs.len() == 0 {
        Seq::empty()
    } else if as_json || f == OutputFormat::Json {
        json_pretty_text(one_or_array(rs))
    } else if f == OutputFormat::Yaml {
        yaml_clean(yaml_text(one_or_array(rs)))
    } else if f == OutputFormat::Toml {
        if rs.len() == 1 {
            toml_of(rs[0])
        } else {
            toml_of(Json::Obj(seq![(results_key(), Json::Arr(rs))]))
        }
    } else if as_lines {
        join_lines(plain_texts(flatten(rs)))
    } else {
        join_lines(plain_texts(rs))
    }
}

// ──────────────────────────────────────────────
// Executable rendering
// ──────────────────────────────────────────────

fn push_all(out: &mut Vec<char>, s: &[char])
    ensures
        final(out)@ == old(out)@ + s@,
{
    let mut i: usize = 0;
    while i < s.len()
        invariant
            i <= s@.len(),
            out@ == old(out)@ + s@.take(i as int),
        decreases s.len() - i,
    {
        out.push(s[i]);
        assert(s@.take(i + 1) =~= s@.take(i as int).push(s@[i as int]));
        i = i + 1;
    }
    assert(s@.take(i as int) =~= s@);
}

fn format_value_plain(v: &JsonValue) -> (r: String)
    ensures
        r@ == plain_text(v@),
{
    match v {
        JsonValue::Null => "null".to_owned(),
        JsonValue::Bool(b) => if *b {
            "true".to_owned()
        } else {
            "false".to_owned()
        },
        JsonValue::Number(n) => {
            let t = number_text(n);
            string_of(t.as_slice())
        },
        JsonValue::String(s) => s.clone(),
        _ => json_pretty(v),
    }
}

fn join_plain(vs: &[JsonValue]) -> (r: String)
    ensures
        r@ == join_lines(plain_texts(items(vs@))),
{
    let mut out: Vec<char> = Vec::new();
    let mut i: usize = 0;
    let ghost ts = plain_texts(items(vs@));
    assert(ts.take(0) =~= Seq::<Seq<char>>::empty());
    while i < vs.len()
        invariant
            i <= vs@.len(),
            ts == plain_texts(items(vs@)),
            out@ == join_lines(ts.take(i as int)),
        decreases vs.len() - i,
    {
        let t = format_value_plain(&vs[i]);
        let tc = chars_of(t.as_str());
        assert(ts[i as int] == tc@);
        assert(ts.take(i + 1).drop_last() =~= ts.take(i as int));
        if i > 0 {
            out.push('\n');
        }
        push_all(&mut out, tc.as_slice());
        assert(out@ =~= join_lines(ts.take(i + 1)));
        i = i + 1;
    }
    assert(ts.take(i as int) =~= ts);
    string_of(out.as_slice())
}

fn flatten_results(results: &[JsonValue]) -> (r: Vec<JsonValue>)
    ensures
        items(r@) == flatten(items(results@)),
{
    let mut out: Vec<JsonValue> = Vec::new();
    let mut i: usize = 0;
    let ghost rs = items(results@);
    assert(rs.take(0) =~= Seq::<Json>::empty());
    while i < results.len()
        invariant
            i <= results@.len(),
            rs == items(results@),
            items(out@) == flatten(rs.take(i as int)),
        decreases results.len() - i,
    {
        assert(rs.take(i + 1).drop_last() =~= rs.take(i as int));
        assert(rs.take(i + 1).last() == results@[i as int]@);
        let ghost before = items(out@);
        match &results[i] {
            JsonValue::Array(a) => {
                proof { lemma_view_items(a@); }
                let mut k: usize = 0;
                while k < a.len()
                    invariant
                        k <= a@.len(),
                        items(out@) == before + items(a@).take(k as int),
                    decreases a.len() - k,
                {
                    let ghost b2 = items(out@);
                    let c = copy_value(&a[k]);
                    let ghost cv = c@;
                    out.push(c);
                    assert(items(out@) =~= b2.push(cv));
                    assert(items(a@).take(k + 1) =~= items(a@).take(k as int).push(a@[k as int]@));
                    k = k + 1;
                }
                assert(items(a@).take(k as int) =~= items(a@));
            },
            other => {
                let c = copy_value(other);
                let ghost cv = c@;
                out.push(c);
                assert(items(out@) =~= before + seq![cv]);
            },
        }
        i = i + 1;
    }
    assert(rs.take(i as int) =~= rs);
    out
}

fn one_or_array_value(results: &[JsonValue]) -> (r: JsonValue)
    requires
        results@.len() > 0,
    ensures
        r@ == one_or_array(items(results@)),
{
    if results.len() == 1 {
        copy_value(&results[0])
    } else {
        let mut out: Vec<JsonValue> = Vec::new();
        let mut i: usize = 0;
        while i < results.len()
            invariant
                i <= results@.len(),
                items(out@) == items(results@).take(i as int),
            decreases results.len() - i,
        {
            let c = copy_value(&results[i]);
            let ghost before = items(out@);
            let ghost cv = c@;
            out.push(c);
            assert(items(out@) =~= before.push(cv));
            assert(items(results@).take(i + 1) =~= items(results@).take(i as int).push(results@[i as int]@));
            i = i + 1;
        }
        assert(items(results@).take(i as int) =~= items(results@));
        proof { lemma_view_items(out@); }
        JsonValue::Array(out)
    }
}

fn drop_final_newline(s: Vec<char>) -> (r: Vec<char>)
    ensures
        r@ == without_final_newline(s@),
{
    let mut s = s;
    if s.len() > 0 && s[s.len() - 1] == '\n' {
        s.pop();
    }
    s
}

fn format_as_yaml(results: &[JsonValue]) -> (r: String)
    requires
        results@.len() > 0,
    ensures
        r@ == yaml_clean(yaml_text(one_or_array(items(results@)))),
{
    let v = one_or_array_value(results);
    let y = yaml_string(&v);
    let s1 = drop_final_newline(chars_of(y.as_str()));
    if s1.len() >= 4 && s1[0] == '-' && s1[1] == '-' && s1[2] == '-' && s1[3] == '\n' {
        assert(s1@.take(4) =~= seq!['-', '-', '-', '\n']);
        let mut out: Vec<char> = Vec::new();
        push_all(&mut out, vstd::slice::slice_subrange(s1.as_slice(), 4, s1.len()));
        assert(out@ =~= s1@.skip(4));
        string_of(out.as_slice())
    } else {
        string_of(s1.as_slice())
    }
}

fn toml_from_json(v: &JsonValue) -> (r: String)
    ensures
        r@ == toml_of(v@),
{
    match v {
        JsonValue::Object(_) => match toml_string(v) {
            Some(t) => {
                let s = drop_final_newline(chars_of(t.as_str()));
                string_of(s.as_slice())
            },
            None => json_pretty(v),
        },
        _ => format_value_plain(v),
    }
}

fn format_as_toml(results: &[JsonValue]) -> (r: String)
    requires
        results@.len() > 0,
    ensures
        r@ == (if results@.len() == 1 {
            toml_of(items(results@)[0])
        } else {
            toml_of(Json::Obj(seq![(results_key(), Json::Arr(items(results@)))]))
        }),
{
    if results.len() == 1 {
        return toml_from_json(&results[0]);
    }
    let arr = one_or_array_value(results);
    let kv = vec!['r', 'e', 's', 'u', 'l', 't', 's'];
    assert(kv@ =~= results_key());
    let key = string_of(kv.as_slice());
    let mut m: Vec<(String, JsonValue)> = Vec::new();
    let ghost av = arr@;
    m.push((key, arr));
    proof { crate::value::lemma_view_entries(m@); }
    assert(crate::value::entries(m@) =~= seq![(results_key(), av)]);
    let wrapper = JsonValue::Object(m);
    assert(wrapper@ == Json::Obj(seq![(results_key(), av)]));
    toml_from_json(&wrapper)
}

/// Render results as text.
pub fn format_output(
    results: &[JsonValue],
    as_json: bool,
    as_lines: bool,
    output_format: &OutputFormat,
) -> (r: String)
    ensures
        r@ == spec_format(items(results@), as_json, as_lines, *output_format),
{
    if results.len() == 0 {
        return String::new();
    }
    if as_json || *output_format == OutputFormat::Json {
        let v = one_or_array_value(results);
        return json_pretty(&v);
    }
    match output_format {
        OutputFormat::Yaml => return format_as_yaml(results),
        OutputFormat::Toml => return format_as_toml(results),
        _ => {},
    }
    if as_lines {
        let all = flatten_results(results);
        return join_plain(all.as_slice());
    }
    join_plain(results)
}

} // verus!
