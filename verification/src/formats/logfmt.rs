//! logfmt: lines of `key=value`, `key="quoted value"` and bare `flag` fields.
use vstd::prelude::*;
use vstd::slice::slice_subrange;
use crate::error::{ErrV, PickError};
use crate::text::{chars_of, find_char, find_char_in, first_match, is_char, is_ws, lemma_first_match, lemma_first_match_bounds, lines, lines_of, string_of, trim, trim_slice, trim_start, trim_start_slice};
use crate::value::{Json, JsonValue, entries, items, lemma_view_entries, lemma_view_items, map_insert, obj_insert, value_result};

verus! {

pub open spec fn key_stop() -> spec_fn(char) -> bool {
    |c: char| c == '=' || c == ' '
}

/// Where a key ends: at the first `=` or space.
pub open spec fn key_end(r: Seq<char>) -> int {
    match first_match(r, key_stop()) {
        Some(i) => i,
        None => r.len() as int,
    }
}

/// What an escape `\c` stands for in a quoted value.
pub open spec fn unescape(c: char) -> Seq<char> {
    if c == '"' {
        seq!['"']
    } else if c == '\\' {
        seq!['\\']
    } else if c == 'n' {
        seq!['\n']
    } else if c == 't' {
        seq!['\t']
    } else {
        seq!['\\', c]
    }
}

/// A quoted value's text after its opening quote: the value and how many
/// characters it takes up to and including the closing quote; none when no
/// closing quote comes.
pub open spec fn quoted_value(r: Seq<char>) -> Option<(Seq<char>, int)>
    decreases r.len(),
{
    if r.len() == 0 {
        None
    } else if r[0] == '\\' {
        if r.len() == 1 {
            None
        } else {
            match quoted_value(r.skip(2)) {
                Some((v, n)) => Some((unescape(r[1]) + v, n + 2)),
                None => None,
            }
        }
    } else if r[0] == '"' {
        Some((Seq::empty(), 1))
    } else {
        match quoted_value(r.drop_first()) {
            Some((v, n)) => Some((seq![r[0]] + v, n + 1)),
            None => None,
        }
    }
}

pub proof fn lemma_quoted_len(r: Seq<char>)
    ensures
        quoted_value(r) matches Some((v, n)) ==> 1 <= n <= r.len(),
    decreases r.len(),
{
    if r.len() > 1 && r[0] == '\\' {
        lemma_quoted_len(r.skip(2));
    } else if r.len() > 0 && r[0] != '"' && r[0] != '\\' {
        lemma_quoted_len(r.drop_first());
    }
}

pub proof fn lemma_trim_start_len(s: Seq<char>)
    ensures
        trim_start(s).len() <= s.len(),
    decreases s.len(),
{
    if s.len() > 0 && is_ws(s[0]) {
        lemma_trim_start_len(s.drop_first());
    }
}

pub open spec fn unterminated() -> ErrV {
    ErrV::ParseError("logfmt"@, "unterminated quoted value"@)
}

pub open spec fn empty_key() -> ErrV {
    ErrV::ParseError("logfmt"@, "empty key"@)
}

/// The fields of the rest `r` of a line (its leading white space gone) added
/// to `m`.  A field whose key would be empty (an `=` where a key starts) is an
/// error.
pub open spec fn logfmt_fields(r: Seq<char>, m: Seq<(Seq<char>, Json)>) -> Result<Seq<(Seq<char>, Json)>, ErrV>
    decreases r.len(),
{
    if r.len() == 0 {
        Ok(m)
    } else {
        let ke = key_end(r);
        proof { lemma_first_match_bounds(r, key_stop()); }
        if ke <= 0 {
            Err(empty_key())
        } else {
            let key = r.take(ke);
            let rest = r.skip(ke);
            if rest.len() > 0 && rest[0] == '=' {
                let after = rest.drop_first();
                if after.len() > 0 && after[0] == '"' {
                    let body = after.drop_first();
                    proof { lemma_quoted_len(body); }
                    match quoted_value(body) {
                        None => Err(unterminated()),
                        Some((v, n)) => {
                            proof { lemma_trim_start_len(body.skip(n)); }
                            logfmt_fields(trim_start(body.skip(n)), obj_insert(m, key, Json::Str(v)))
                        },
                    }
                } else {
                    let end = match find_char(after, ' ') {
                        Some(i) => i,
                        None => after.len() as int,
                    };
                    proof {
                        lemma_first_match_bounds(after, is_char(' '));
                        lemma_trim_start_len(after.skip(end));
                    }
                    logfmt_fields(trim_start(after.skip(end)), obj_insert(m, key, Json::Str(after.take(end))))
                }
            } else {
                proof { lemma_trim_start_len(rest); }
                logfmt_fields(trim_start(rest), obj_insert(m, key, Json::Bool(true)))
            }
        }
    }
}

/// The object of one line.
pub open spec fn spec_line(line: Seq<char>) -> Result<Json, ErrV> {
    match logfmt_fields(trim(line), Seq::empty()) {
        Err(e) => Err(e),
        Ok(m) => if m.len() == 0 {
            Err(ErrV::ParseError("logfmt"@, "no key-value pairs found"@))
        } else {
            Ok(Json::Obj(m))
        },
    }
}

/// The lines that hold more than white space.
pub open spec fn nonblank(ls: Seq<Seq<char>>) -> Seq<Seq<char>>
    decreases ls.len(),
{
    if ls.len() == 0 {
        Seq::empty()
    } else {
        nonblank(ls.drop_last()) + (if trim(ls.last()).len() > 0 {
            seq![ls.last()]
        } else {
            Seq::empty()
        })
    }
}

/// Each line's object, in order; the first failing line's error stops it.
pub open spec fn all_lines(ls: Seq<Seq<char>>) -> Result<Seq<Json>, ErrV>
    decreases ls.len(),
{
    if ls.len() == 0 {
        Ok(Seq::empty())
    } else {
        match all_lines(ls.drop_last()) {
            Err(e) => Err(e),
            Ok(acc) => match spec_line(ls.last()) {
                Err(e) => Err(e),
                Ok(o) => Ok(acc.push(o)),
            },
        }
    }
}

/// One line gives an object; several give an array of objects.
pub open spec fn spec_parse(input: Seq<char>) -> Result<Json, ErrV> {
    let ls = nonblank(lines(input));
    if ls.len() == 0 {
        Err(ErrV::ParseError("logfmt"@, "empty input"@))
    } else if ls.len() == 1 {
        spec_line(ls[0])
    } else {
        match all_lines(ls) {
            Err(e) => Err(e),
            Ok(vs) => Ok(Json::Arr(vs)),
        }
    }
}

fn quoted(r: &[char]) -> (out: Option<(Vec<char>, usize)>)
    ensures
        match quoted_value(r@) {
            Some((v, n)) => out matches Some(x) && x.0@ == v && x.1 == n,
            None => out is None,
        },
{
    let mut acc: Vec<char> = Vec::new();
    let mut i: usize = 0;
    let n = r.len();
    assert(r@.skip(0) =~= r@);
    while i < n
        invariant
            i <= n,
            n == r@.len(),
            quoted_value(r@) == match quoted_value(r@.skip(i as int)) {
                Some((v, k)) => Some((acc@ + v, k + i)),
                None => None::<(Seq<char>, int)>,
            },
        decreases n - i,
    {
        let ghost t = r@.skip(i as int);
        let c = r[i];
        assert(t[0] == c);
        if c == '\\' {
            if i + 1 == n {
                return None;
            }
            let e = r[i + 1];
            assert(t[1] == e);
            assert(t.skip(2) =~= r@.skip(i + 2));
            let ghost before = acc@;
            if e == '"' {
                acc.push('"');
            } else if e == '\\' {
                acc.push('\\');
            } else if e == 'n' {
                acc.push('\n');
            } else if e == 't' {
                acc.push('\t');
            } else {
                acc.push('\\');
                acc.push(e);
            }
            assert(acc@ =~= before + unescape(e));
            proof {
                match quoted_value(r@.skip(i + 2)) {
                    Some((v, k)) => {
                        assert(before + (unescape(e) + v) =~= acc@ + v);
                    },
                    None => {},
                }
            }
            i = i + 2;
        } else if c == '"' {
            assert(acc@ + Seq::<char>::empty() =~= acc@);
            return Some((acc, i + 1));
        } else {
            assert(t.drop_first() =~= r@.skip(i + 1));
            let ghost before = acc@;
            acc.push(c);
            proof {
                match quoted_value(r@.skip(i + 1)) {
                    Some((v, k)) => {
                        assert(before + (seq![c] + v) =~= acc@ + v);
                    },
                    None => {},
                }
            }
            i = i + 1;
        }
    }
    None
}

fn key_end_of(r: &[char]) -> (k: usize)
    ensures
        k == key_end(r@),
        k <= r@.len(),
{
    let mut i: usize = 0;
    while i < r.len() && r[i] != '=' && r[i] != ' '
        invariant
            i <= r@.len(),
            forall|j: int| 0 <= j < i ==> !key_stop()(#[trigger] r@[j]),
        decreases r.len() - i,
    {
        i = i + 1;
    }
    proof { lemma_first_match(r@, key_stop(), i as int); }
    i
}

fn parse_fields(line: &[char]) -> (out: Result<Vec<(String, JsonValue)>, PickError>)
    ensures
        match logfmt_fields(trim(line@), Seq::empty()) {
            Ok(m) => out matches Ok(x) && entries(x@) == m,
            Err(e) => out matches Err(x) && x@ == e,
        },
{
    let mut map: Vec<(String, JsonValue)> = Vec::new();
    let mut rest: &[char] = trim_slice(line);
    proof {
        let t = trim(line@);
        lemma_trim_start_len(t);
    }
    assert(trim_start(trim(line@)) == trim(line@)) by {
        crate::text::lemma_trim_trimmed(line@);
    }
    let ghost start = trim(line@);
    assert(entries(map@) =~= Seq::<(Seq<char>, Json)>::empty());
    while rest.len() > 0
        invariant
            start == trim(line@),
            logfmt_fields(start, Seq::empty()) == logfmt_fields(rest@, entries(map@)),
        decreases rest@.len(),
    {
        let ghost r = rest@;
        proof { lemma_first_match_bounds(r, key_stop()); }
        let ke = key_end_of(rest);
        if ke == 0 {
            return Err(PickError::ParseError("logfmt".to_owned(), "empty key".to_owned()));
        }
        let key = string_of(slice_subrange(rest, 0, ke));
        assert(r.subrange(0, ke as int) =~= r.take(ke as int));
        let after_key = slice_subrange(rest, ke, rest.len());
        assert(after_key@ =~= r.skip(ke as int));
        if after_key.len() > 0 && after_key[0] == '=' {
            let after = slice_subrange(after_key, 1, after_key.len());
            assert(after@ =~= after_key@.drop_first());
            if after.len() > 0 && after[0] == '"' {
                let body = slice_subrange(after, 1, after.len());
                assert(body@ =~= after@.drop_first());
                proof { lemma_quoted_len(body@); }
                match quoted(body) {
                    None => {
                        return Err(PickError::ParseError("logfmt".to_owned(), "unterminated quoted value".to_owned()));
                    },
                    Some((v, n)) => {
                        map_insert(&mut map, key, JsonValue::String(string_of(v.as_slice())));
                        let tail = slice_subrange(body, n, body.len());
                        assert(tail@ =~= body@.skip(n as int));
                        proof { lemma_trim_start_len(tail@); }
                        rest = trim_start_slice(tail);
                    },
                }
            } else {
                let end = match find_char_in(after, ' ') {
                    Some(i) => i,
                    None => after.len(),
                };
                proof { lemma_first_match_bounds(after@, is_char(' ')); }
                let value = string_of(slice_subrange(after, 0, end));
                assert(after@.subrange(0, end as int) =~= after@.take(end as int));
                map_insert(&mut map, key, JsonValue::String(value));
                let tail = slice_subrange(after, end, after.len());
                assert(tail@ =~= after@.skip(end as int));
                proof { lemma_trim_start_len(tail@); }
                rest = trim_start_slice(tail);
            }
        } else {
            map_insert(&mut map, key, JsonValue::Bool(true));
            proof { lemma_trim_start_len(after_key@); }
            rest = trim_start_slice(after_key);
        }
    }
    Ok(map)
}

fn parse_line(line: &[char]) -> (r: Result<JsonValue, PickError>)
    ensures
        value_result(r) == spec_line(line@),
{
    match parse_fields(line) {
        Err(e) => Err(e),
        Ok(map) => {
            if map.len() == 0 {
                Err(PickError::ParseError("logfmt".to_owned(), "no key-value pairs found".to_owned()))
            } else {
                proof { lemma_view_entries(map@); }
                Ok(JsonValue::Object(map))
            }
        },
    }
}

/// Parse logfmt text: one line gives an object, several an array of objects.
pub fn parse(input: &str) -> (r: Result<JsonValue, PickError>)
    ensures
        value_result(r) == spec_parse(input@),
{
    let cs = chars_of(input);
    let all = lines_of(cs.as_slice());
    let ghost lv = lines(input@);
    let mut ls: Vec<&[char]> = Vec::new();
    let mut i: usize = 0;
    assert(lv.take(0) =~= Seq::<Seq<char>>::empty());
    while i < all.len()
        invariant
            i <= all@.len(),
            all@.len() == lv.len(),
            lv == lines(input@),
            forall|j: int| 0 <= j < all@.len() ==> (#[trigger] all@[j])@ == lv[j],
            ls@.len() == nonblank(lv.take(i as int)).len(),
            forall|j: int| 0 <= j < ls@.len() ==> (#[trigger] ls@[j])@ == nonblank(lv.take(i as int))[j],
        decreases all.len() - i,
    {
        assert(lv.take(i + 1).drop_last() =~= lv.take(i as int));
        assert(lv.take(i + 1).last() == all@[i as int]@);
        if trim_slice(all[i]).len() > 0 {
            ls.push(all[i]);
        }
        i = i + 1;
    }
    assert(lv.take(i as int) =~= lv);
    let ghost nb = nonblank(lv);
    if ls.len() == 0 {
        return Err(PickError::ParseError("logfmt".to_owned(), "empty input".to_owned()));
    }
    if ls.len() == 1 {
        return parse_line(ls[0]);
    }
    let mut out: Vec<JsonValue> = Vec::new();
    let mut k: usize = 0;
    assert(nb.take(0) =~= Seq::<Seq<char>>::empty());
    assert(items(out@) =~= Seq::<Json>::empty());
    while k < ls.len()
        invariant
            k <= ls@.len(),
            ls@.len() == nb.len(),
            nb == nonblank(lines(input@)),
            nb.len() >= 2,
            forall|j: int| 0 <= j < ls@.len() ==> (#[trigger] ls@[j])@ == nb[j],
            all_lines(nb.take(k as int)) == Ok::<Seq<Json>, ErrV>(items(out@)),
        decreases ls.len() - k,
    {
        assert(nb.take(k + 1).drop_last() =~= nb.take(k as int));
        assert(nb.take(k + 1).last() == ls@[k as int]@);
        match parse_line(ls[k]) {
            Err(e) => {
                proof { lemma_all_lines_error(nb, k as int); }
                return Err(e);
            },
            Ok(o) => {
                let ghost before = items(out@);
                let ghost ov = o@;
                out.push(o);
                assert(items(out@) =~= before.push(ov));
            },
        }
        k = k + 1;
    }
    assert(nb.take(k as int) =~= nb);
    proof { lemma_view_items(out@); }
    Ok(JsonValue::Array(out))
}

pub proof fn lemma_all_lines_error(ls: Seq<Seq<char>>, j: int)
    requires
        0 <= j < ls.len(),
        all_lines(ls.take(j + 1)) is Err,
    ensures
        all_lines(ls) == all_lines(ls.take(j + 1)),
    decreases ls.len(),
{
    if j + 1 < ls.len() {
        assert(ls.drop_last().take(j + 1) =~= ls.take(j + 1));
        lemma_all_lines_error(ls.drop_last(), j);
    } else {
        assert(ls.take(j + 1) =~= ls);
    }
}

} // verus!
