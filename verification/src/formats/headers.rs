//! HTTP headers: `Name: value` lines, names lower-cased.
use vstd::prelude::*;
use vstd::slice::slice_subrange;
use crate::error::{ErrV, PickError};
use crate::text::{
    chars_of, find_char, find_char_in, has_prefix, lines, lines_of, lemma_first_match_bounds,
    is_char, starts_with, string_of, trim, trim_slice,
};
use crate::value::{Json, JsonValue, entries, lemma_view_entries, map_insert, obj_insert, value_result};

verus! {

broadcast use vstd::string::group_string_axioms;

/// What `str::to_lowercase` makes of a text (Unicode lower-case mapping).
pub uninterp spec fn lowercase(s: Seq<char>) -> Seq<char>;

/// `str::to_lowercase`.
#[verifier::external_body]
fn str_to_lowercase(s: &str) -> (r: String)
    ensures
        r@ == lowercase(s@),
{
    s.to_lowercase()
}

pub open spec fn http_prefix() -> Seq<char> {
    seq!['H', 'T', 'T', 'P', '/']
}

/// The name and value of a line: blank lines and status lines (`HTTP/...`)
/// give none; the name is what precedes the first `:`, lower-cased.
pub open spec fn header_pair(line: Seq<char>) -> Option<(Seq<char>, Seq<char>)> {
    let l = trim(line);
    if l.len() == 0 || starts_with(l, http_prefix()) {
        None
    } else {
        match find_char(l, ':') {
            None => None,
            Some(p) => Some((lowercase(trim(l.take(p))), trim(l.skip(p + 1)))),
        }
    }
}

pub open spec fn header_entries(ls: Seq<Seq<char>>) -> Seq<(Seq<char>, Json)>
    decreases ls.len(),
{
    if ls.len() == 0 {
        Seq::empty()
    } else {
        match header_pair(ls.last()) {
            Some((k, v)) => obj_insert(header_entries(ls.drop_last()), k, Json::Str(v)),
            None => header_entries(ls.drop_last()),
        }
    }
}

pub open spec fn spec_parse(input: Seq<char>) -> Result<Json, ErrV> {
    let m = header_entries(lines(input));
    if m.len() == 0 {
        Err(ErrV::ParseError("headers"@, "no headers found"@))
    } else {
        Ok(Json::Obj(m))
    }
}

fn line_pair(line: &[char]) -> (r: Option<(String, String)>)
    ensures
        match header_pair(line@) {
            Some((k, v)) => r matches Some(x) && x.0@ == k && x.1@ == v,
            None => r is None,
        },
{
    let l = trim_slice(line);
    let prefix = vec!['H', 'T', 'T', 'P', '/'];
    assert(prefix@ =~= http_prefix());
    if l.len() == 0 || has_prefix(l, prefix.as_slice()) {
        return None;
    }
    match find_char_in(l, ':') {
        None => None,
        Some(p) => {
            proof { lemma_first_match_bounds(l@, is_char(':')); }
            let key = trim_slice(slice_subrange(l, 0, p));
            let value = trim_slice(slice_subrange(l, p + 1, l.len()));
            assert(l@.subrange(0, p as int) =~= l@.take(p as int));
            assert(l@.subrange(p + 1, l@.len() as int) =~= l@.skip(p + 1));
            let k = string_of(key);
            Some((str_to_lowercase(k.as_str()), string_of(value)))
        },
    }
}

/// Parse HTTP header text into an object of strings.
pub fn parse(input: &str) -> (r: Result<JsonValue, PickError>)
    ensures
        value_result(r) == spec_parse(input@),
{
    let cs = chars_of(input);
    let ls = lines_of(cs.as_slice());
    let ghost lv = lines(input@);
    let mut map: Vec<(String, JsonValue)> = Vec::new();
    let mut i: usize = 0;
    assert(lv.take(0) =~= Seq::<Seq<char>>::empty());
    while i < ls.len()
        invariant
            i <= ls@.len(),
            ls@.len() == lv.len(),
            lv == lines(input@),
            forall|j: int| 0 <= j < ls@.len() ==> (#[trigger] ls@[j])@ == lv[j],
            entries(map@) == header_entries(lv.take(i as int)),
        decreases ls.len() - i,
    {
        assert(lv.take(i + 1).drop_last() =~= lv.take(i as int));
        assert(lv.take(i + 1).last() == ls@[i as int]@);
        match line_pair(ls[i]) {
            Some((k, v)) => {
                map_insert(&mut map, k, JsonValue::String(v));
            },
            None => {},
        }
        i = i + 1;
    }
    assert(lv.take(i as int) =~= lv);
    if map.len() == 0 {
        return Err(PickError::ParseError("headers".to_owned(), "no headers found".to_owned()));
    }
    proof { lemma_view_entries(map@); }
    Ok(JsonValue::Object(map))
}

} // verus!
