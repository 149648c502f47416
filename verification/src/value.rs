use vstd::prelude::*;
use crate::error::{ErrV, PickError};
use crate::text::chars_of;

verus! {

/// The abstract value of a JSON number.
pub enum NumView {
    PosInt(u64),
    NegInt(i64),
    Float(Seq<char>),
}

/// The abstract value of a JSON document.
pub enum Json {
    Null,
    Bool(bool),
    Num(NumView),
    Str(Seq<char>),
    Arr(Seq<Json>),
    Obj(Seq<(Seq<char>, Json)>),
}

#[derive(Debug, Clone, PartialEq, Eq)]
pub enum JsonNumber {
    PosInt(u64),
    NegInt(i64),
    Float(String),
}

#[derive(Debug, PartialEq, Eq)]
pub enum JsonValue {
    Null,
    Bool(bool),
    Number(JsonNumber),
    String(String),
    Array(Vec<JsonValue>),
    Object(Vec<(String, JsonValue)>),
}

impl View for JsonNumber {
    type V = NumView;

    open spec fn view(&self) -> NumView {
        match self {
            JsonNumber::PosInt(u) => NumView::PosInt(*u),
            JsonNumber::NegInt(i) => NumView::NegInt(*i),
            JsonNumber::Float(s) => NumView::Float(s@),
        }
    }
}

impl View for JsonValue {
    type V = Json;

    open spec fn view(&self) -> Json
        decreases self,
    {
        match self {
            JsonValue::Null => Json::Null,
            JsonValue::Bool(b) => Json::Bool(*b),
            JsonValue::Number(n) => Json::Num(n@),
            JsonValue::String(s) => Json::Str(s@),
            JsonValue::Array(v) => Json::Arr(view_items(v@)),
            JsonValue::Object(m) => Json::Obj(view_entries(m@)),
        }
    }
}

impl Clone for JsonValue {
    fn clone(&self) -> (r: Self)
        ensures
            r@ == self@,
    {
        copy_value(self)
    }
}

pub open spec fn view_items(s: Seq<JsonValue>) -> Seq<Json>
    decreases s,
{
    if s.len() == 0 {
        Seq::empty()
    } else {
        seq![s[0].view()] + view_items(s.drop_first())
    }
}

pub open spec fn view_entries(s: Seq<(String, JsonValue)>) -> Seq<(Seq<char>, Json)>
    decreases s,
{
    if s.len() == 0 {
        Seq::empty()
    } else {
        seq![(s[0].0@, s[0].1.view())] + view_entries(s.drop_first())
    }
}

pub fn copy_value(v: &JsonValue) -> (r: JsonValue)
    ensures
        r@ == v@,
    decreases v,
{
    match v {
        JsonValue::Null => JsonValue::Null,
        JsonValue::Bool(b) => JsonValue::Bool(*b),
        JsonValue::Number(n) => JsonValue::Number(match n {
            JsonNumber::PosInt(u) => JsonNumber::PosInt(*u),
            JsonNumber::NegInt(i) => JsonNumber::NegInt(*i),
            JsonNumber::Float(s) => JsonNumber::Float(s.clone()),
        }),
        JsonValue::String(s) => JsonValue::String(s.clone()),
        JsonValue::Array(a) => {
            assert(*v == JsonValue::Array(*a));
            assert(decreases_to!(*v => *a));
            let mut out: Vec<JsonValue> = Vec::new();
            let mut i: usize = 0;
            while i < a.len()
                invariant
                    i <= a.len(),
                    out.len() == i,
                    forall|j: int| 0 <= j < i ==> out[j]@ == a[j]@,
                    decreases_to!(*v => *a),
                decreases a.len() - i,
            {
                proof {
                    vstd::std_specs::vec::axiom_vec_index_decreases(*a, i as int);
                }
                let c = copy_value(&a[i]);
                out.push(c);
                i = i + 1;
            }
            proof {
                lemma_view_items(out@);
                lemma_view_items(a@);
                assert(items(out@) =~= items(a@));
            }
            let r = JsonValue::Array(out);
            r
        },
        JsonValue::Object(m) => {
            assert(*v == JsonValue::Object(*m));
            assert(decreases_to!(*v => *m));
            let mut out: Vec<(String, JsonValue)> = Vec::new();
            let mut i: usize = 0;
            while i < m.len()
                invariant
                    i <= m.len(),
                    out.len() == i,
                    forall|j: int| 0 <= j < i ==> out[j].0@ == m[j].0@ && out[j].1@ == m[j].1@,
                    decreases_to!(*v => *m),
                decreases m.len() - i,
            {
                proof {
                    vstd::std_specs::vec::axiom_vec_index_decreases(*m, i as int);
                }
                let c = copy_value(&m[i].1);
                out.push((m[i].0.clone(), c));
                i = i + 1;
            }
            proof {
                lemma_view_entries(out@);
                lemma_view_entries(m@);
                assert(entries(out@) =~= entries(m@));
            }
            let r = JsonValue::Object(out);
            r
        },
    }
}

/// A copy of an array's elements.
pub fn copy_items(a: &Vec<JsonValue>) -> (r: Vec<JsonValue>)
    ensures
        items(r@) == items(a@),
{
    let mut out: Vec<JsonValue> = Vec::new();
    let mut i: usize = 0;
    while i < a.len()
        invariant
            i <= a.len(),
            items(out@) == items(a@).take(i as int),
        decreases a.len() - i,
    {
        let c = copy_value(&a[i]);
        let ghost before = items(out@);
        let ghost cv = c@;
        out.push(c);
        assert(items(out@) =~= before.push(cv));
        assert(items(a@).take(i + 1) =~= items(a@).take(i as int).push(a@[i as int]@));
        i = i + 1;
    }
    assert(items(a@).take(i as int) =~= items(a@));
    out
}

/// A copy of an object's entries.
pub fn copy_entries(m: &Vec<(String, JsonValue)>) -> (r: Vec<(String, JsonValue)>)
    ensures
        entries(r@) == entries(m@),
{
    let mut out: Vec<(String, JsonValue)> = Vec::new();
    let mut i: usize = 0;
    while i < m.len()
        invariant
            i <= m.len(),
            entries(out@) == entries(m@).take(i as int),
        decreases m.len() - i,
    {
        let c = copy_value(&m[i].1);
        let ghost before = entries(out@);
        let ghost cv = c@;
        out.push((m[i].0.clone(), c));
        assert(entries(out@) =~= before.push((m@[i as int].0@, cv)));
        assert(entries(m@).take(i + 1) =~= entries(m@).take(i as int).push((m@[i as int].0@, m@[i as int].1@)));
        i = i + 1;
    }
    assert(entries(m@).take(i as int) =~= entries(m@));
    out
}

/// A result's view.
pub open spec fn value_result(r: Result<JsonValue, PickError>) -> Result<Json, ErrV> {
    match r {
        Ok(v) => Ok(v@),
        Err(e) => Err(e@),
    }
}

/// A result's view, the values in order.
pub open spec fn values_result(r: Result<Vec<JsonValue>, PickError>) -> Result<Seq<Json>, ErrV> {
    match r {
        Ok(v) => Ok(items(v@)),
        Err(e) => Err(e@),
    }
}

// ──────────────────────────────────────────────
// Views of the parts of values
// ──────────────────────────────────────────────

pub open spec fn items(a: Seq<JsonValue>) -> Seq<Json> {
    a.map_values(|x: JsonValue| x@)
}

pub open spec fn entries(m: Seq<(String, JsonValue)>) -> Seq<(Seq<char>, Json)> {
    m.map_values(|e: (String, JsonValue)| (e.0@, e.1@))
}

pub proof fn lemma_view_items(s: Seq<JsonValue>)
    ensures
        view_items(s) == items(s),
    decreases s.len(),
{
    if s.len() > 0 {
        lemma_view_items(s.drop_first());
        assert(view_items(s) == seq![s[0].view()] + view_items(s.drop_first()));
        assert(view_items(s).len() == s.len());
    }
    assert(view_items(s) =~= items(s));
}

pub proof fn lemma_view_entries(s: Seq<(String, JsonValue)>)
    ensures
        view_entries(s) == entries(s),
    decreases s.len(),
{
    if s.len() > 0 {
        lemma_view_entries(s.drop_first());
        assert(view_entries(s) == seq![(s[0].0@, s[0].1.view())] + view_entries(s.drop_first()));
        assert(view_entries(s).len() == s.len());
    }
    assert(view_entries(s) =~= entries(s));
}

// ──────────────────────────────────────────────
// Objects: maps kept in key order
// ──────────────────────────────────────────────

/// Lexicographic order of strings by character code, the order of `str`'s `Ord`.
pub open spec fn str_lt(a: Seq<char>, b: Seq<char>) -> bool
    decreases a.len(),
{
    if a.len() == 0 {
        b.len() > 0
    } else if b.len() == 0 {
        false
    } else if a[0] != b[0] {
        a[0] < b[0]
    } else {
        str_lt(a.drop_first(), b.drop_first())
    }
}

/// The entries' keys are strictly increasing.
pub open spec fn keys_sorted(m: Seq<(Seq<char>, Json)>) -> bool {
    forall|i: int, j: int| 0 <= i < j < m.len() ==> str_lt(#[trigger] m[i].0, #[trigger] m[j].0)
}

/// Well-formed values: every object's keys strictly increase (so none occurs
/// twice), at every depth.
pub open spec fn wf_json(v: Json) -> bool
    decreases v,
{
    match v {
        Json::Arr(a) => forall|i: int| 0 <= i < a.len() ==> wf_json(#[trigger] a[i]),
        Json::Obj(m) => keys_sorted(m) && forall|i: int| 0 <= i < m.len() ==> wf_json(#[trigger] m[i].1),
        _ => true,
    }
}

/// Every value in `s` is well-formed.
pub open spec fn all_wf(s: Seq<Json>) -> bool {
    forall|i: int| 0 <= i < s.len() ==> wf_json(#[trigger] s[i])
}

/// The value stored under `k`.
pub open spec fn obj_get(m: Seq<(Seq<char>, Json)>, k: Seq<char>) -> Option<Json>
    decreases m.len(),
{
    if m.len() == 0 {
        None
    } else if m[0].0 == k {
        Some(m[0].1)
    } else {
        obj_get(m.drop_first(), k)
    }
}

/// `k` bound to `v`: the entry for `k` replaced, or a new entry placed before
/// the first greater key.
pub open spec fn obj_insert(m: Seq<(Seq<char>, Json)>, k: Seq<char>, v: Json) -> Seq<(Seq<char>, Json)>
    decreases m.len(),
{
    if m.len() == 0 {
        seq![(k, v)]
    } else if m[0].0 == k {
        seq![(k, v)] + m.drop_first()
    } else if str_lt(k, m[0].0) {
        seq![(k, v)] + m
    } else {
        seq![m[0]] + obj_insert(m.drop_first(), k, v)
    }
}

/// The entry for `k` taken out.
pub open spec fn obj_remove(m: Seq<(Seq<char>, Json)>, k: Seq<char>) -> Seq<(Seq<char>, Json)>
    decreases m.len(),
{
    if m.len() == 0 {
        m
    } else if m[0].0 == k {
        m.drop_first()
    } else {
        seq![m[0]] + obj_remove(m.drop_first(), k)
    }
}

pub fn str_less(a: &str, b: &str) -> (r: bool)
    ensures
        r == str_lt(a@, b@),
{
    let x = chars_of(a);
    let y = chars_of(b);
    chars_less(x.as_slice(), y.as_slice())
}

/// `str_lt` on runs of characters.
pub fn chars_less(x: &[char], y: &[char]) -> (r: bool)
    ensures
        r == str_lt(x@, y@),
{
    let mut i: usize = 0;
    assert(x@.skip(0) =~= x@);
    assert(y@.skip(0) =~= y@);
    while i < x.len() && i < y.len() && x[i] == y[i]
        invariant
            i <= x@.len(),
            i <= y@.len(),
            str_lt(x@, y@) == str_lt(x@.skip(i as int), y@.skip(i as int)),
        decreases x.len() - i,
    {
        assert(x@.skip(i as int).drop_first() =~= x@.skip(i + 1));
        assert(y@.skip(i as int).drop_first() =~= y@.skip(i + 1));
        i = i + 1;
    }
    let ghost sa = x@.skip(i as int);
    let ghost sb = y@.skip(i as int);
    if i == x.len() {
        assert(sa.len() == 0);
        i < y.len()
    } else if i == y.len() {
        assert(sb.len() == 0);
        false
    } else {
        assert(sa[0] == x@[i as int] && sb[0] == y@[i as int]);
        x[i] < y[i]
    }
}

pub proof fn lemma_obj_get_prefix(m: Seq<(Seq<char>, Json)>, k: Seq<char>, i: int)
    requires
        0 <= i <= m.len(),
        forall|j: int| 0 <= j < i ==> (#[trigger] m[j]).0 != k,
    ensures
        obj_get(m, k) == obj_get(m.skip(i), k),
    decreases i,
{
    assert(m.skip(0) =~= m);
    if i > 0 {
        assert(m[0].0 != k);
        assert(m.drop_first().skip(i - 1) =~= m.skip(i));
        assert forall|j: int| 0 <= j < i - 1 implies (#[trigger] m.drop_first()[j]).0 != k by {
            assert(m.drop_first()[j] == m[j + 1]);
        }
        lemma_obj_get_prefix(m.drop_first(), k, i - 1);
    }
}

/// The value stored under `key`, as `Map::get`.
pub fn map_get<'a>(m: &'a Vec<(String, JsonValue)>, key: &str) -> (r: Option<&'a JsonValue>)
    ensures
        match obj_get(entries(m@), key@) {
            Some(v) => r matches Some(x) && x@ == v,
            None => r is None,
        },
{
    let k = key.to_owned();
    let mut i: usize = 0;
    while i < m.len()
        invariant
            i <= m@.len(),
            k@ == key@,
            forall|j: int| 0 <= j < i ==> (#[trigger] entries(m@)[j]).0 != key@,
        decreases m.len() - i,
    {
        if m[i].0 == k {
            proof {
                lemma_obj_get_prefix(entries(m@), key@, i as int);
                assert(entries(m@).skip(i as int)[0] == entries(m@)[i as int]);
            }
            return Some(&m[i].1);
        }
        i = i + 1;
    }
    proof {
        lemma_obj_get_prefix(entries(m@), key@, i as int);
        assert(entries(m@).skip(i as int).len() == 0);
    }
    None
}

pub proof fn lemma_obj_insert_prefix(m: Seq<(Seq<char>, Json)>, k: Seq<char>, v: Json, i: int)
    requires
        0 <= i <= m.len(),
        forall|j: int| 0 <= j < i ==> (#[trigger] m[j]).0 != k && !str_lt(k, m[j].0),
    ensures
        obj_insert(m, k, v) == m.take(i) + obj_insert(m.skip(i), k, v),
    decreases i,
{
    if i > 0 {
        let t = m.drop_first();
        assert(t.skip(i - 1) =~= m.skip(i));
        assert forall|j: int| 0 <= j < i - 1 implies (#[trigger] t[j]).0 != k && !str_lt(k, t[j].0) by {
            assert(t[j] == m[j + 1]);
        }
        lemma_obj_insert_prefix(t, k, v, i - 1);
        assert(seq![m[0]] + (t.take(i - 1) + obj_insert(t.skip(i - 1), k, v)) =~= m.take(i)
            + obj_insert(m.skip(i), k, v));
    } else {
        assert(m.skip(0) =~= m);
        assert(m.take(0) + obj_insert(m.skip(0), k, v) =~= obj_insert(m, k, v));
    }
}

pub proof fn lemma_obj_remove_prefix(m: Seq<(Seq<char>, Json)>, k: Seq<char>, i: int)
    requires
        0 <= i <= m.len(),
        forall|j: int| 0 <= j < i ==> (#[trigger] m[j]).0 != k,
    ensures
        obj_remove(m, k) == m.take(i) + obj_remove(m.skip(i), k),
    decreases i,
{
    if i > 0 {
        let t = m.drop_first();
        assert(t.skip(i - 1) =~= m.skip(i));
        assert forall|j: int| 0 <= j < i - 1 implies (#[trigger] t[j]).0 != k by {
            assert(t[j] == m[j + 1]);
        }
        lemma_obj_remove_prefix(t, k, i - 1);
        assert(seq![m[0]] + (t.take(i - 1) + obj_remove(t.skip(i - 1), k)) =~= m.take(i)
            + obj_remove(m.skip(i), k));
    } else {
        assert(m.skip(0) =~= m);
        assert(m.take(0) + obj_remove(m.skip(0), k) =~= obj_remove(m, k));
    }
}

/// Bind `key` to `value`, as `Map::insert`.
pub fn map_insert(m: &mut Vec<(String, JsonValue)>, key: String, value: JsonValue)
    ensures
        entries(final(m)@) == obj_insert(entries(old(m)@), key@, value@),
{
    let ghost e0 = entries(m@);
    let mut i: usize = 0;
    while i < m.len()
        invariant
            i <= m@.len(),
            m@ == old(m)@,
            e0 == entries(m@),
            forall|j: int| 0 <= j < i ==> (#[trigger] e0[j]).0 != key@ && !str_lt(key@, e0[j].0),
        decreases m.len() - i,
    {
        if m[i].0 == key {
            proof {
                lemma_obj_insert_prefix(e0, key@, value@, i as int);
                assert(e0.skip(i as int)[0] == e0[i as int]);
            }
            let ghost kv = key@;
            let ghost vv = value@;
            m.set(i, (key, value));
            assert(entries(m@) =~= e0.take(i as int) + (seq![(kv, vv)] + e0.skip(i as int).drop_first()));
            return;
        }
        if str_less(key.as_str(), m[i].0.as_str()) {
            proof {
                lemma_obj_insert_prefix(e0, key@, value@, i as int);
                assert(e0.skip(i as int)[0] == e0[i as int]);
            }
            let ghost kv = key@;
            let ghost vv = value@;
            m.insert(i, (key, value));
            assert(entries(m@) =~= e0.take(i as int) + (seq![(kv, vv)] + e0.skip(i as int)));
            return;
        }
        i = i + 1;
    }
    proof {
        lemma_obj_insert_prefix(e0, key@, value@, i as int);
        assert(e0.skip(i as int).len() == 0);
    }
    let ghost kv = key@;
    let ghost vv = value@;
    m.push((key, value));
    assert(entries(m@) =~= e0.take(i as int) + seq![(kv, vv)]);
}

/// Take out the entry for `key`, as `Map::remove`.
pub fn map_remove(m: &mut Vec<(String, JsonValue)>, key: &str)
    ensures
        entries(final(m)@) == obj_remove(entries(old(m)@), key@),
{
    let k = key.to_owned();
    let ghost e0 = entries(m@);
    let mut i: usize = 0;
    while i < m.len()
        invariant
            i <= m@.len(),
            m@ == old(m)@,
            k@ == key@,
            e0 == entries(m@),
            forall|j: int| 0 <= j < i ==> (#[trigger] e0[j]).0 != key@,
        decreases m.len() - i,
    {
        if m[i].0 == k {
            proof {
                lemma_obj_remove_prefix(e0, key@, i as int);
                assert(e0.skip(i as int)[0] == e0[i as int]);
            }
            m.remove(i);
            assert(entries(m@) =~= e0.take(i as int) + e0.skip(i as int).drop_first());
            return;
        }
        i = i + 1;
    }
    proof {
        lemma_obj_remove_prefix(e0, key@, i as int);
        assert(e0.skip(i as int).len() == 0);
        assert(e0.take(i as int) =~= e0);
    }
}

// ──────────────────────────────────────────────
// Type names
// ──────────────────────────────────────────────

pub open spec fn kind_name(j: Json) -> Seq<char> {
    match j {
        Json::Null => "null"@,
        Json::Bool(_) => "boolean"@,
        Json::Num(_) => "number"@,
        Json::Str(_) => "string"@,
        Json::Arr(_) => "array"@,
        Json::Obj(_) => "object"@,
    }
}

pub fn value_type_name(v: &JsonValue) -> (r: &'static str)
    ensures
        r@ == kind_name(v@),
{
    match v {
        JsonValue::Null => "null",
        JsonValue::Bool(_) => "boolean",
        JsonValue::Number(_) => "number",
        JsonValue::String(_) => "string",
        JsonValue::Array(_) => "array",
        JsonValue::Object(_) => "object",
    }
}

// ──────────────────────────────────────────────
// Numbers as text
// ──────────────────────────────────────────────

pub open spec fn digit_char(d: nat) -> char {
    ((48 + d) as u8) as char
}

/// The decimal digits of `n`, most significant first, without leading zeros.
pub open spec fn nat_text(n: nat) -> Seq<char>
    decreases n,
{
    if n < 10 {
        seq![digit_char(n)]
    } else {
        nat_text(n / 10).push(digit_char(n % 10))
    }
}

/// How a number is written: integers in decimal with a `-` for negatives,
/// floats by the text they carry.
pub open spec fn num_text(n: NumView) -> Seq<char> {
    match n {
        NumView::PosInt(u) => nat_text(u as nat),
        NumView::NegInt(i) => if i < 0 {
            seq!['-'] + nat_text((-i) as nat)
        } else {
            nat_text(i as nat)
        },
        NumView::Float(s) => s,
    }
}

pub fn push_digits(n: u128, out: &mut Vec<char>)
    ensures
        final(out)@ == old(out)@ + nat_text(n as nat),
    decreases n,
{
    if n >= 10 {
        push_digits(n / 10, out);
    }
    let d = (n % 10) as u8;
    let c = (48u8 + d) as char;
    out.push(c);
    assert(nat_text(n as nat) =~= (if n < 10 {
        Seq::<char>::empty()
    } else {
        nat_text((n / 10) as nat)
    }).push(digit_char((n % 10) as nat)));
}

/// The decimal text of an unsigned integer.
pub fn u64_text(n: u64) -> (r: Vec<char>)
    ensures
        r@ == nat_text(n as nat),
{
    let mut out: Vec<char> = Vec::new();
    push_digits(n as u128, &mut out);
    assert(out@ =~= nat_text(n as nat));
    out
}

/// The text of a number, as `num_text`.
pub fn number_text(n: &JsonNumber) -> (r: Vec<char>)
    ensures
        r@ == num_text(n@),
{
    match n {
        JsonNumber::PosInt(u) => u64_text(*u),
        JsonNumber::NegInt(i) => {
            if *i < 0 {
                let m: u64 = if *i == i64::MIN {
                    9223372036854775808u64
                } else {
                    (-*i) as u64
                };
                let mut out: Vec<char> = Vec::new();
                out.push('-');
                push_digits(m as u128, &mut out);
                out
            } else {
                u64_text(*i as u64)
            }
        },
        JsonNumber::Float(s) => crate::text::chars_of(s.as_str()),
    }
}

} // verus!
