//! Unstructured text: `key=value`, `key: value` and `key<TAB>value` lines, or
//! else the lines themselves.
use vstd::prelude::*;
use vstd::slice::slice_subrange;
use crate::error::{ErrV, PickError};
use crate::text::{
    chars_of, find_char, find_char_in, lines, lines_of, lemma_first_match_bounds, is_char,
    same_chars, string_of, trim, trim_slice,
};
use crate::value::{
    Json, JsonValue, entries, items, lemma_view_entries, lemma_view_items, map_insert, obj_insert,
    value_result,
};

verus! {

/// Whether `char::is_alphanumeric` holds of `c` (Unicode alphabetic or numeric).
pub uninterp spec fn alphanumeric(c: char) -> bool;

/// `char::is_alphanumeric`: alphabetic or numeric in Unicode; among ASCII
/// characters that is exactly the letters and digits.
#[verifier::external_body]
fn char_is_alphanumeric(c: char) -> (r: bool)
    ensures
        r == alphanumeric(c),
        (c as u32) < 128 ==> (r == crate::text::is_ascii_alnum(c)),
{
    c.is_alphanumeric()
}

pub open spec fn key_char(c: char) -> bool {
    alphanumeric(c) || c == '_' || c == '-' || c == '.'
}

/// A key: one or more alphanumeric characters, `_`, `-` or `.`.
pub open spec fn valid_key(k: Seq<char>) -> bool {
    k.len() > 0 && forall|i: int| 0 <= i < k.len() ==> key_char(#[trigger] k[i])
}

/// The pair of a line split at the first `sep`, both sides trimmed, when the
/// key is valid (and, for `:`, holds no space).
pub open spec fn split_pair(l: Seq<char>, sep: char) -> Option<(Seq<char>, Seq<char>)> {
    match find_char(l, sep) {
        None => None,
        Some(p) => {
            let k = trim(l.take(p));
            if valid_key(k) && (sep != ':' || find_char(k, ' ') is None) {
                Some((k, trim(l.skip(p + 1))))
            } else {
                None
            }
        },
    }
}

/// The pair of a line: tried with `=`, then `:`, then a tab.
pub open spec fn text_pair(line: Seq<char>) -> Option<(Seq<char>, Seq<char>)> {
    let l = trim(line);
    if l.len() == 0 {
        None
    } else if split_pair(l, '=') is Some {
        split_pair(l, '=')
    } else if split_pair(l, ':') is Some {
        split_pair(l, ':')
    } else {
        split_pair(l, '\t')
    }
}

pub open spec fn text_entries(ls: Seq<Seq<char>>) -> Seq<(Seq<char>, Json)>
    decreases ls.len(),
{
    if ls.len() == 0 {
        Seq::empty()
    } else {
        match text_pair(ls.last()) {
            Some((k, v)) => obj_insert(text_entries(ls.drop_last()), k, Json::Str(v)),
            None => text_entries(ls.drop_last()),
        }
    }
}

pub open spec fn str_items(ls: Seq<Seq<char>>) -> Seq<Json> {
    ls.map_values(|l: Seq<char>| Json::Str(l))
}

/// The pairs the lines give as an object; with none, the lines as an array.
pub open spec fn spec_parse(input: Seq<char>) -> Result<Json, ErrV> {
    let m = text_entries(lines(input));
    if m.len() > 0 {
        Ok(Json::Obj(m))
    } else {
        Ok(Json::Arr(str_items(lines(input))))
    }
}

fn key_ok(k: &[char], no_space: bool) -> (r: bool)
    ensures
        r == (valid_key(k@) && (!no_space || find_char(k@, ' ') is None)),
{
    if k.len() == 0 {
        return false;
    }
    let mut i: usize = 0;
    while i < k.len()
        invariant
            i <= k@.len(),
            forall|j: int| 0 <= j < i ==> key_char(#[trigger] k@[j]),
        decreases k.len() - i,
    {
        let c = k[i];
        if !(char_is_alphanumeric(c) || c == '_' || c == '-' || c == '.') {
            return false;
        }
        i = i + 1;
    }
    if no_space {
        let sp = find_char_in(k, ' ');
        sp.is_none()
    } else {
        true
    }
}

fn split_at_sep(l: &[char], sep: char) -> (r: Option<(String, String)>)
    ensures
        match split_pair(l@, sep) {
            Some((k, v)) => r matches Some(x) && x.0@ == k && x.1@ == v,
            None => r is None,
        },
{
    let n = l.len();
    match find_char_in(l, sep) {
        None => None,
        Some(p) => {
            proof { lemma_first_match_bounds(l@, is_char(sep)); }
            assert(p < l@.len());
            let key = trim_slice(slice_subrange(l, 0, p));
            assert(l@.subrange(0, p as int) =~= l@.take(p as int));
            assert(l@.subrange(p + 1, l@.len() as int) =~= l@.skip(p + 1));
            if key_ok(key, sep == ':') {
                let value = trim_slice(slice_subrange(l, p + 1, l.len()));
                Some((string_of(key), string_of(value)))
            } else {
                None
            }
        },
    }
}

fn line_pair(line: &[char]) -> (r: Option<(String, String)>)
    ensures
        match text_pair(line@) {
            Some((k, v)) => r matches Some(x) && x.0@ == k && x.1@ == v,
            None => r is None,
        },
{
    let l = trim_slice(line);
    if l.len() == 0 {
        return None;
    }
    let eq = split_at_sep(l, '=');
    if eq.is_some() {
        return eq;
    }
    let colon = split_at_sep(l, ':');
    if colon.is_some() {
        return colon;
    }
    split_at_sep(l, '\t')
}

/// The lines as string values.
fn line_values(ls: &Vec<&[char]>) -> (r: Vec<JsonValue>)
    ensures
        items(r@) == ls@.map_values(|l: &[char]| Json::Str(l@)),
{
    let mut out: Vec<JsonValue> = Vec::new();
    let mut i: usize = 0;
    while i < ls.len()
        invariant
            i <= ls@.len(),
            items(out@) == ls@.take(i as int).map_values(|l: &[char]| Json::Str(l@)),
        decreases ls.len() - i,
    {
        let s = string_of(ls[i]);
        let ghost before = items(out@);
        out.push(JsonValue::String(s));
        assert(items(out@) =~= before.push(Json::Str(ls@[i as int]@)));
        assert(ls@.take(i + 1).map_values(|l: &[char]| Json::Str(l@)) =~= ls@.take(i as int).map_values(
            |l: &[char]| Json::Str(l@),
        ).push(Json::Str(ls@[i as int]@)));
        i = i + 1;
    }
    assert(ls@.take(i as int) =~= ls@);
    out
}

/// Parse unstructured text: its key/value lines as an object, or else its
/// lines as an array of strings.
pub fn parse(input: &str) -> (r: Result<JsonValue, PickError>)
    ensures
        value_result(r) == spec_parse(input@),
{
    let cs = chars_of(input);
    let ls = lines_of(cs.as_slice());
    let ghost lv = lines(input@);
    let mut map: Vec<(String, JsonValue)> = Vec::new();
    let mut i: usize = 0;
    assert(lv.take(0) =~= Seq::<Seq<char>>::empty());
    while i < ls.len()
        invariant
            i <= ls@.len(),
            ls@.len() == lv.len(),
            lv == lines(input@),
            forall|j: int| 0 <= j < ls@.len() ==> (#[trigger] ls@[j])@ == lv[j],
            entries(map@) == text_entries(lv.take(i as int)),
        decreases ls.len() - i,
    {
        assert(lv.take(i + 1).drop_last() =~= lv.take(i as int));
        assert(lv.take(i + 1).last() == ls@[i as int]@);
        match line_pair(ls[i]) {
            Some((k, v)) => {
                map_insert(&mut map, k, JsonValue::String(v));
            },
            None => {},
        }
        i = i + 1;
    }
    assert(lv.take(i as int) =~= lv);
    if map.len() > 0 {
        proof { lemma_view_entries(map@); }
        return Ok(JsonValue::Object(map));
    }
    let vals = line_values(&ls);
    assert(ls@.map_values(|l: &[char]| Json::Str(l@)) =~= str_items(lv));
    proof { lemma_view_items(vals@); }
    Ok(JsonValue::Array(vals))
}

// ──────────────────────────────────────────────
// Searching
// ──────────────────────────────────────────────

/// `q` occurs in `s` as a run of characters (`str::contains`).
pub open spec fn contains_sub(s: Seq<char>, q: Seq<char>) -> bool {
    exists|i: int| 0 <= i && i + q.len() <= s.len() && #[trigger] s.subrange(i, i + q.len()) == q
}

/// The value of a line whose key (before `=`, or else before `:`) is `q`.
pub open spec fn search_pair(line: Seq<char>, q: Seq<char>) -> Option<Seq<char>> {
    let l = trim(line);
    if l.len() == 0 {
        None
    } else {
        let eq = match find_char(l, '=') {
            Some(p) => if trim(l.take(p)) == q {
                Some(trim(l.skip(p + 1)))
            } else {
                None
            },
            None => None,
        };
        if eq is Some {
            eq
        } else {
            match find_char(l, ':') {
                Some(p) => if trim(l.take(p)) == q {
                    Some(trim(l.skip(p + 1)))
                } else {
                    None
                },
                None => None,
            }
        }
    }
}

/// The first line with key `q` gives its value.
pub open spec fn first_search(ls: Seq<Seq<char>>, q: Seq<char>) -> Option<Seq<char>>
    decreases ls.len(),
{
    if ls.len() == 0 {
        None
    } else {
        match search_pair(ls[0], q) {
            Some(v) => Some(v),
            None => first_search(ls.drop_first(), q),
        }
    }
}

/// The lines that contain `q`, in order.
pub open spec fn containing(ls: Seq<Seq<char>>, q: Seq<char>) -> Seq<Seq<char>>
    decreases ls.len(),
{
    if ls.len() == 0 {
        Seq::empty()
    } else {
        containing(ls.drop_last(), q) + (if contains_sub(ls.last(), q) {
            seq![ls.last()]
        } else {
            Seq::empty()
        })
    }
}

/// The value of the first line keyed by `q`; else the one line that contains
/// `q`, or all of them as an array; else nothing.
pub open spec fn spec_search(input: Seq<char>, q: Seq<char>) -> Option<Json> {
    match first_search(lines(input), q) {
        Some(v) => Some(Json::Str(v)),
        None => {
            let m = containing(lines(input), q);
            if m.len() == 0 {
                None
            } else if m.len() == 1 {
                Some(Json::Str(m[0]))
            } else {
                Some(Json::Arr(str_items(m)))
            }
        },
    }
}

fn contains_chars(s: &[char], q: &[char]) -> (r: bool)
    ensures
        r == contains_sub(s@, q@),
{
    if q.len() > s.len() {
        return false;
    }
    if q.len() == 0 {
        assert(s@.subrange(0, 0 + q@.len() as int) =~= q@);
        return true;
    }
    let mut i: usize = 0;
    let last = s.len() - q.len();
    while i <= last
        invariant
            q@.len() <= s@.len(),
            last == s@.len() - q@.len(),
            q@.len() >= 1,
            s@.len() <= usize::MAX,
            i <= last + 1,
            forall|j: int| 0 <= j < i ==> #[trigger] s@.subrange(j, j + q@.len()) != q@,
        decreases last + 1 - i,
    {
        if same_chars(slice_subrange(s, i, i + q.len()), q) {
            return true;
        }
        i = i + 1;
    }
    assert forall|j: int| 0 <= j && j + q@.len() <= s@.len() implies #[trigger] s@.subrange(j, j + q@.len()) != q@ by {
        assert(j < i);
    }
    false
}

fn key_value_for(l: &[char], sep: char, q: &[char]) -> (r: Option<String>)
    ensures
        match find_char(l@, sep) {
            Some(p) => if trim(l@.take(p)) == q@ {
                r matches Some(x) && x@ == trim(l@.skip(p + 1))
            } else {
                r is None
            },
            None => r is None,
        },
{
    let n = l.len();
    match find_char_in(l, sep) {
        None => None,
        Some(p) => {
            proof { lemma_first_match_bounds(l@, is_char(sep)); }
            assert(p < l@.len());
            let key = trim_slice(slice_subrange(l, 0, p));
            assert(l@.subrange(0, p as int) =~= l@.take(p as int));
            assert(l@.subrange(p + 1, l@.len() as int) =~= l@.skip(p + 1));
            if same_chars(key, q) {
                assert(p < l@.len());
                Some(string_of(trim_slice(slice_subrange(l, p + 1, l.len()))))
            } else {
                None
            }
        },
    }
}

fn line_search(line: &[char], q: &[char]) -> (r: Option<String>)
    ensures
        match search_pair(line@, q@) {
            Some(v) => r matches Some(x) && x@ == v,
            None => r is None,
        },
{
    let l = trim_slice(line);
    if l.len() == 0 {
        return None;
    }
    let eq = key_value_for(l, '=', q);
    if eq.is_some() {
        return eq;
    }
    key_value_for(l, ':', q)
}

/// Search for a selector string in unstructured text as a fallback
/// when normal extraction fails on text format.
pub fn search_text(input: &str, query: &str) -> (r: Option<JsonValue>)
    ensures
        match spec_search(input@, query@) {
            Some(v) => r matches Some(x) && x@ == v,
            None => r is None,
        },
{
    let cs = chars_of(input);
    let qs = chars_of(query);
    let ls = lines_of(cs.as_slice());
    let ghost lv = lines(input@);
    let mut i: usize = 0;
    assert(lv.skip(0) =~= lv);
    while i < ls.len()
        invariant
            i <= ls@.len(),
            ls@.len() == lv.len(),
            lv == lines(input@),
            qs@ == query@,
            forall|j: int| 0 <= j < ls@.len() ==> (#[trigger] ls@[j])@ == lv[j],
            first_search(lv, query@) == first_search(lv.skip(i as int), query@),
        decreases ls.len() - i,
    {
        assert(lv.skip(i as int)[0] == ls@[i as int]@);
        assert(lv.skip(i as int).drop_first() =~= lv.skip(i + 1));
        match line_search(ls[i], qs.as_slice()) {
            Some(v) => {
                return Some(JsonValue::String(v));
            },
            None => {},
        }
        i = i + 1;
    }
    assert(lv.skip(i as int).len() == 0);
    let mut matching: Vec<JsonValue> = Vec::new();
    let mut k: usize = 0;
    assert(lv.take(0) =~= Seq::<Seq<char>>::empty());
    assert(items(matching@) =~= str_items(containing(lv.take(0), query@)));
    while k < ls.len()
        invariant
            k <= ls@.len(),
            ls@.len() == lv.len(),
            qs@ == query@,
            forall|j: int| 0 <= j < ls@.len() ==> (#[trigger] ls@[j])@ == lv[j],
            items(matching@) == str_items(containing(lv.take(k as int), query@)),
        decreases ls.len() - k,
    {
        assert(lv.take(k + 1).drop_last() =~= lv.take(k as int));
        assert(lv.take(k + 1).last() == ls@[k as int]@);
        let ghost before = containing(lv.take(k as int), query@);
        let ghost mb = items(matching@);
        if contains_chars(ls[k], qs.as_slice()) {
            matching.push(JsonValue::String(string_of(ls[k])));
            assert(items(matching@) =~= mb.push(Json::Str(lv[k as int])));
            assert(str_items(before + seq![lv[k as int]]) =~= str_items(before).push(Json::Str(lv[k as int])));
        } else {
            assert(before + Seq::<Seq<char>>::empty() =~= before);
        }
        k = k + 1;
    }
    assert(lv.take(k as int) =~= lv);
    let ghost m = containing(lv, query@);
    if matching.len() == 0 {
        None
    } else if matching.len() == 1 {
        assert(items(matching@)[0] == matching@[0]@);
        Some(matching.remove(0))
    } else {
        proof { lemma_view_items(matching@); }
        Some(JsonValue::Array(matching))
    }
}

} // verus!
