//! `.env` files: `KEY=value` lines.
use vstd::prelude::*;
use vstd::slice::slice_subrange;
use crate::error::{ErrV, PickError};
use crate::text::{
    chars_of, find_char, find_char_in, has_prefix, lines, lines_of, lemma_first_match_bounds,
    is_char, starts_with, string_of, trim, trim_slice,
};
use crate::value::{Json, JsonValue, entries, lemma_view_entries, map_insert, obj_insert, value_result};

verus! {

/// A value without one pair of surrounding double or single quotes.
pub open spec fn strip_quotes(s: Seq<char>) -> Seq<char> {
    if s.len() >= 2 && ((s[0] == '"' && s.last() == '"') || (s[0] == '\'' && s.last() == '\'')) {
        s.subrange(1, s.len() - 1)
    } else {
        s
    }
}

pub open spec fn export_prefix() -> Seq<char> {
    seq!['e', 'x', 'p', 'o', 'r', 't', ' ']
}

/// The key and value of a line: blank lines and `#` comments give none; an
/// `export ` prefix is dropped; the key is what precedes the first `=`.
pub open spec fn env_pair(line: Seq<char>) -> Option<(Seq<char>, Seq<char>)> {
    let l = trim(line);
    if l.len() == 0 || l[0] == '#' {
        None
    } else {
        let l2 = if starts_with(l, export_prefix()) {
            l.skip(7)
        } else {
            l
        };
        match find_char(l2, '=') {
            None => None,
            Some(p) => Some((trim(l2.take(p)), strip_quotes(trim(l2.skip(p + 1))))),
        }
    }
}

/// The entries the lines give, a later line's key replacing an earlier one's.
pub open spec fn env_entries(ls: Seq<Seq<char>>) -> Seq<(Seq<char>, Json)>
    decreases ls.len(),
{
    if ls.len() == 0 {
        Seq::empty()
    } else {
        match env_pair(ls.last()) {
            Some((k, v)) => obj_insert(env_entries(ls.drop_last()), k, Json::Str(v)),
            None => env_entries(ls.drop_last()),
        }
    }
}

pub open spec fn spec_parse(input: Seq<char>) -> Result<Json, ErrV> {
    let m = env_entries(lines(input));
    if m.len() == 0 {
        Err(ErrV::ParseError("env"@, "no key-value pairs found"@))
    } else {
        Ok(Json::Obj(m))
    }
}

fn strip_quotes_slice(s: &[char]) -> (r: &[char])
    ensures
        r@ == strip_quotes(s@),
{
    let n = s.len();
    if n >= 2 && ((s[0] == '"' && s[n - 1] == '"') || (s[0] == '\'' && s[n - 1] == '\'')) {
        slice_subrange(s, 1, n - 1)
    } else {
        s
    }
}

fn line_pair(line: &[char]) -> (r: Option<(String, String)>)
    ensures
        match env_pair(line@) {
            Some((k, v)) => r matches Some(x) && x.0@ == k && x.1@ == v,
            None => r is None,
        },
{
    let l = trim_slice(line);
    if l.len() == 0 || l[0] == '#' {
        return None;
    }
    let prefix = vec!['e', 'x', 'p', 'o', 'r', 't', ' '];
    assert(prefix@ =~= export_prefix());
    let l2 = if has_prefix(l, prefix.as_slice()) {
        slice_subrange(l, 7, l.len())
    } else {
        l
    };
    match find_char_in(l2, '=') {
        None => None,
        Some(p) => {
            proof { lemma_first_match_bounds(l2@, is_char('=')); }
            let key = trim_slice(slice_subrange(l2, 0, p));
            let value = strip_quotes_slice(trim_slice(slice_subrange(l2, p + 1, l2.len())));
            assert(l2@.subrange(0, p as int) =~= l2@.take(p as int));
            assert(l2@.subrange(p + 1, l2@.len() as int) =~= l2@.skip(p + 1));
            Some((string_of(key), string_of(value)))
        },
    }
}

/// Parse `.env` text into an object of strings.
pub fn parse(input: &str) -> (r: Result<JsonValue, PickError>)
    ensures
        value_result(r) == spec_parse(input@),
{
    let cs = chars_of(input);
    let ls = lines_of(cs.as_slice());
    let ghost lv = lines(input@);
    let mut map: Vec<(String, JsonValue)> = Vec::new();
    let mut i: usize = 0;
    assert(lv.take(0) =~= Seq::<Seq<char>>::empty());
    while i < ls.len()
        invariant
            i <= ls@.len(),
            ls@.len() == lv.len(),
            lv == lines(input@),
            cs@ == input@,
            forall|j: int| 0 <= j < ls@.len() ==> (#[trigger] ls@[j])@ == lv[j],
            entries(map@) == env_entries(lv.take(i as int)),
        decreases ls.len() - i,
    {
        assert(lv.take(i + 1).drop_last() =~= lv.take(i as int));
        assert(lv.take(i + 1).last() == ls@[i as int]@);
        match line_pair(ls[i]) {
            Some((k, v)) => {
                map_insert(&mut map, k, JsonValue::String(v));
            },
            None => {},
        }
        i = i + 1;
    }
    assert(lv.take(i as int) =~= lv);
    if map.len() == 0 {
        return Err(PickError::ParseError("env".to_owned(), "no key-value pairs found".to_owned()));
    }
    proof { lemma_view_entries(map@); }
    Ok(JsonValue::Object(map))
}

} // verus!
