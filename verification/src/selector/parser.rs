//! Parsing of selector expressions.
use vstd::prelude::*;
use vstd::slice::slice_subrange;
use crate::decimal::{is_valid_float, valid_float};
use crate::error::{ErrV, PickError, invalid_selector, invalid_selector_quoting, quoted_msg, selector_msg};
use crate::text::{chars_of, char_is_digit, find_char, is_ascii_digit, trim_start, trim_start_slice, find_char_in, first_match, has_prefix, is_ascii_alnum, is_char, lemma_first_match, lemma_first_match_bounds, parse_i64, parse_i64_chars, same_chars, starts_with, string_of, trim, trim_slice, char_is_alnum, chars_within, lead_byte, lead_byte_char, prefix_within};
use super::types::{Builtin, CompareOp, CondV, Condition, Expression, FilterExpr, FilterV, Index, LiteralValue, LitV, PipeStage, Pipeline, Segment, Selector, SegV, StageV};

verus! {

// ──────────────────────────────────────────────
// Keys
// ──────────────────────────────────────────────

pub open spec fn prepend_key(
    acc: Seq<char>,
    r: Option<(Seq<char>, Seq<char>)>,
) -> Option<(Seq<char>, Seq<char>)> {
    match r {
        Some((k, rest)) => Some((acc + k, rest)),
        None => None,
    }
}

/// The body of a quoted key, `s` being the text after the opening quote:
/// the key and the text after the closing quote.  `\"` and `\\` stand for
/// `"` and `\`; any other backslash is kept with the character after it.
pub open spec fn quoted_key(s: Seq<char>) -> Option<(Seq<char>, Seq<char>)>
    decreases s.len(),
{
    if s.len() == 0 {
        None
    } else if s[0] == '"' {
        Some((Seq::empty(), s.drop_first()))
    } else if s[0] == '\\' {
        if s.len() < 2 {
            None
        } else {
            let c = s[1];
            let piece = if c == '"' {
                seq!['"']
            } else if c == '\\' {
                seq!['\\']
            } else {
                seq!['\\', c]
            };
            prepend_key(piece, quoted_key(s.skip(2)))
        }
    } else {
        prepend_key(seq![s[0]], quoted_key(s.drop_first()))
    }
}

pub proof fn lemma_quoted_key_suffix(s: Seq<char>)
    ensures
        quoted_key(s) matches Some((k, rest)) ==> rest.len() < s.len() && rest =~= s.skip(
            s.len() - rest.len(),
        ),
    decreases s.len(),
{
    if s.len() > 0 && s[0] != '"' {
        if s[0] == '\\' {
            if s.len() >= 2 {
                lemma_quoted_key_suffix(s.skip(2));
            }
        } else {
            lemma_quoted_key_suffix(s.drop_first());
        }
    }
}

fn parse_quoted(s: &[char]) -> (r: Option<(Vec<char>, usize)>)
    ensures
        match quoted_key(s@) {
            Some((k, rest)) => r matches Some((kk, n)) && kk@ == k && n <= s@.len() && rest
                == s@.skip(n as int),
            None => r is None,
        },
{
    let mut acc: Vec<char> = Vec::new();
    let mut i: usize = 0;
    assert(s@.skip(0) =~= s@);
    assert(acc@ + Seq::<char>::empty() =~= Seq::<char>::empty());
    while i < s.len()
        invariant
            i <= s.len(),
            quoted_key(s@) == prepend_key(acc@, quoted_key(s@.skip(i as int))),
        decreases s.len() - i,
    {
        let ghost t = s@.skip(i as int);
        let c = s[i];
        if c == '"' {
            assert(t.drop_first() =~= s@.skip(i + 1));
            return Some((acc, i + 1));
        } else if c == '\\' {
            if i + 1 >= s.len() {
                return None;
            }
            let d = s[i + 1];
            let ghost old_acc = acc@;
            if d == '"' {
                acc.push('"');
            } else if d == '\\' {
                acc.push('\\');
            } else {
                acc.push('\\');
                acc.push(d);
            }
            assert(t.skip(2) =~= s@.skip(i + 2));
            proof {
                match quoted_key(t.skip(2)) {
                    Some((k, rest)) => {
                        assert(old_acc + (if d == '"' { seq!['"'] } else if d == '\\' { seq!['\\'] } else { seq!['\\', d] }) + k =~= acc@ + k);
                    },
                    None => {},
                }
            }
            i = i + 2;
        } else {
            let ghost old_acc = acc@;
            acc.push(c);
            assert(t.drop_first() =~= s@.skip(i + 1));
            proof {
                match quoted_key(t.drop_first()) {
                    Some((k, rest)) => {
                        assert(old_acc + seq![c] + k =~= acc@ + k);
                    },
                    None => {},
                }
            }
            i = i + 1;
        }
    }
    None
}

pub open spec fn is_bare_key_char(c: char) -> bool {
    is_ascii_alnum(c) || c == '_' || c == '-'
}

pub open spec fn not_bare_key_char() -> spec_fn(char) -> bool {
    |c: char| !is_bare_key_char(c)
}

/// Leading key of a path segment: none when the text is empty or starts with
/// `[`, a quoted key, or a bare key of ASCII letters, digits, `_` and `-` that
/// does not start with `-`.  The second part is the text after the key.
pub open spec fn spec_parse_key(s: Seq<char>) -> Result<(Option<Seq<char>>, Seq<char>), Seq<char>> {
    if s.len() == 0 {
        Ok((None, s))
    } else if s[0] == '"' {
        match quoted_key(s.drop_first()) {
            Some((k, rest)) => Ok((Some(k), rest)),
            None => Err("unterminated quoted key"@),
        }
    } else if s[0] == '[' {
        Ok((None, s))
    } else if is_ascii_alnum(s[0]) || s[0] == '_' {
        let end = match first_match(s, not_bare_key_char()) {
            Some(e) => e,
            None => s.len() as int,
        };
        Ok((Some(s.take(end)), s.skip(end)))
    } else {
        Err(quoted_msg("unexpected character"@, seq![lead_byte_char(s[0])]))
    }
}

fn parse_key<'a>(s: &'a [char]) -> (r: Result<(Option<Vec<char>>, &'a [char]), PickError>)
    ensures
        match spec_parse_key(s@) {
            Ok((k, rest)) => r matches Ok((kk, rr)) && rr@ == rest && match kk {
                Some(v) => k == Some(v@),
                None => k is None,
            },
            Err(m) => r matches Err(e) && e@ == ErrV::InvalidSelector(m),
        },
{
    if s.len() == 0 {
        return Ok((None, s));
    }
    let first = s[0];
    if first == '"' {
        let body = slice_subrange(s, 1, s.len());
        assert(body@ =~= s@.drop_first());
        match parse_quoted(body) {
            Some((k, n)) => Ok((Some(k), slice_subrange(body, n, body.len()))),
            None => Err(invalid_selector("unterminated quoted key")),
        }
    } else if first == '[' {
        Ok((None, s))
    } else if char_is_alnum(first) || first == '_' {
        let mut end: usize = 1;
        while end < s.len() && (char_is_alnum(s[end]) || s[end] == '_' || s[end] == '-')
            invariant
                1 <= end <= s.len(),
                forall|j: int| 0 <= j < end ==> !not_bare_key_char()(#[trigger] s@[j]),
            decreases s.len() - end,
        {
            end = end + 1;
        }
        proof { lemma_first_match(s@, not_bare_key_char(), end as int); }
        let key = slice_subrange(s, 0, end);
        Ok((Some(vstd::slice::slice_to_vec(key)), slice_subrange(s, end, s.len())))
    } else {
        let first = lead_byte(s[0]);
        let shown = vec![first];
        assert(shown@ =~= seq![first]);
        Err(invalid_selector_quoting("unexpected character", shown.as_slice()))
    }
}

// ──────────────────────────────────────────────
// Indices
// ──────────────────────────────────────────────

/// The text between `[` and `]`: `*`, a slice `a:b` whose bounds are trimmed
/// and may be empty, or an integer.
pub open spec fn spec_index_content(c: Seq<char>) -> Result<Index, Seq<char>> {
    if c == seq!['*'] {
        Ok(Index::Wildcard)
    } else if c.len() == 0 {
        Err("empty index bracket"@)
    } else {
        match find_char(c, ':') {
            Some(p) => {
                let a = trim(c.take(p));
                let b = trim(c.skip(p + 1));
                let start = if a.len() == 0 {
                    Some(None)
                } else {
                    match parse_i64(a) {
                        Some(n) => Some(Some(n)),
                        None => None,
                    }
                };
                let end = if b.len() == 0 {
                    Some(None)
                } else {
                    match parse_i64(b) {
                        Some(n) => Some(Some(n)),
                        None => None,
                    }
                };
                match (start, end) {
                    (Some(st), Some(en)) => Ok(Index::Slice { start: st, end: en }),
                    (None, _) => Err(quoted_msg("invalid slice start"@, a)),
                    _ => Err(quoted_msg("invalid slice end"@, b)),
                }
            },
            None => match parse_i64(c) {
                Some(n) => Ok(Index::Number(n)),
                None => Err(quoted_msg("invalid index"@, c)),
            },
        }
    }
}

fn parse_bound(c: &[char]) -> (r: Option<Option<i64>>)
    ensures
        r == (if trim(c@).len() == 0 {
            Some(None::<i64>)
        } else {
            match parse_i64(trim(c@)) {
                Some(n) => Some(Some(n)),
                None => None,
            }
        }),
{
    let t = trim_slice(c);
    if t.len() == 0 {
        Some(None)
    } else {
        match parse_i64_chars(t) {
            Some(n) => Some(Some(n)),
            None => None,
        }
    }
}

fn parse_index_content(c: &[char]) -> (r: Result<Index, PickError>)
    ensures
        match spec_index_content(c@) {
            Ok(i) => r == Ok::<Index, PickError>(i),
            Err(m) => r matches Err(e) && e@ == ErrV::InvalidSelector(m),
        },
{
    if c.len() == 1 && c[0] == '*' {
        assert(c@ =~= seq!['*']);
        return Ok(Index::Wildcard);
    }
    assert(c@ != seq!['*']);
    if c.len() == 0 {
        return Err(invalid_selector("empty index bracket"));
    }
    proof { lemma_first_match_bounds(c@, is_char(':')); }
    match find_char_in(c, ':') {
        Some(p) => {
            let a = slice_subrange(c, 0, p);
            let b = slice_subrange(c, p + 1, c.len());
            let start = parse_bound(a);
            let end = parse_bound(b);
            match (start, end) {
                (Some(st), Some(en)) => Ok(Index::Slice { start: st, end: en }),
                (None, _) => Err(invalid_selector_quoting("invalid slice start", trim_slice(a))),
                _ => Err(invalid_selector_quoting("invalid slice end", trim_slice(b))),
            }
        },
        None => match parse_i64_chars(c) {
            Some(n) => Ok(Index::Number(n)),
            None => Err(invalid_selector_quoting("invalid index", c)),
        },
    }
}

/// A run of bracketed indices at the start of `s`, and the text after them.
pub open spec fn spec_parse_indices(s: Seq<char>) -> Result<(Seq<Index>, Seq<char>), Seq<char>>
    decreases s.len(),
{
    if s.len() == 0 || s[0] != '[' {
        Ok((Seq::empty(), s))
    } else {
        let r = s.drop_first();
        match find_char(r, ']') {
            None => Err("unterminated index bracket"@),
            Some(e) => {
                proof { lemma_first_match_bounds(r, is_char(']')); }
                match spec_index_content(r.take(e)) {
                    Err(m) => Err(m),
                    Ok(idx) => match spec_parse_indices(r.skip(e + 1)) {
                        Ok((ixs, rest)) => Ok((seq![idx] + ixs, rest)),
                        Err(m) => Err(m),
                    },
                }
            },
        }
    }
}

pub proof fn lemma_indices_suffix(s: Seq<char>)
    ensures
        spec_parse_indices(s) matches Ok((ixs, rest)) ==> rest.len() <= s.len() && rest
            =~= s.skip(s.len() - rest.len()) && (ixs.len() > 0 ==> rest.len() < s.len()),
    decreases s.len(),
{
    if s.len() > 0 && s[0] == '[' {
        let r = s.drop_first();
        lemma_first_match_bounds(r, is_char(']'));
        if let Some(e) = find_char(r, ']') {
            lemma_indices_suffix(r.skip(e + 1));
        }
    }
}

fn parse_indices<'a>(s: &'a [char]) -> (r: Result<(Vec<Index>, &'a [char]), PickError>)
    ensures
        match spec_parse_indices(s@) {
            Ok((ixs, rest)) => r matches Ok((v, rr)) && v@ == ixs && rr@ == rest,
            Err(m) => r matches Err(e) && e@ == ErrV::InvalidSelector(m),
        },
    decreases s.len(),
{
    if s.len() == 0 || s[0] != '[' {
        return Ok((Vec::new(), s));
    }
    let r = slice_subrange(s, 1, s.len());
    assert(r@ =~= s@.drop_first());
    match find_char_in(r, ']') {
        None => Err(invalid_selector("unterminated index bracket")),
        Some(e) => {
            proof { lemma_first_match_bounds(r@, is_char(']')); }
            let content = slice_subrange(r, 0, e);
            let idx = parse_index_content(content)?;
            let after = slice_subrange(r, e + 1, r.len());
            let (rest_ixs, rest) = parse_indices(after)?;
            let mut v: Vec<Index> = Vec::new();
            v.push(idx);
            let mut more = rest_ixs;
            v.append(&mut more);
            Ok((v, rest))
        },
    }
}

// ──────────────────────────────────────────────
// Segments and selectors
// ──────────────────────────────────────────────

pub open spec fn spec_recognize_builtin(k: Seq<char>) -> Option<Builtin> {
    if k == seq!['k', 'e', 'y', 's'] {
        Some(Builtin::Keys)
    } else if k == seq!['v', 'a', 'l', 'u', 'e', 's'] {
        Some(Builtin::Values)
    } else if k == seq!['l', 'e', 'n', 'g', 't', 'h'] {
        Some(Builtin::Length)
    } else {
        None
    }
}

fn recognize_builtin(k: &[char]) -> (r: Option<Builtin>)
    ensures
        r == spec_recognize_builtin(k@),
{
    let keys = vec!['k', 'e', 'y', 's'];
    let values = vec!['v', 'a', 'l', 'u', 'e', 's'];
    let length = vec!['l', 'e', 'n', 'g', 't', 'h'];
    if same_chars(k, keys.as_slice()) {
        Some(Builtin::Keys)
    } else if same_chars(k, values.as_slice()) {
        Some(Builtin::Values)
    } else if same_chars(k, length.as_slice()) {
        Some(Builtin::Length)
    } else {
        None
    }
}

/// One path segment: a key with its indices, or a builtin call such as
/// `keys()`; the segment is never recursive here.
pub open spec fn spec_parse_segment(s: Seq<char>) -> Result<(SegV, Seq<char>), Seq<char>> {
    match spec_parse_key(s) {
        Err(m) => Err(m),
        Ok((key, rem)) => {
            if key is Some && spec_recognize_builtin(key->0) is Some && starts_with(
                rem,
                seq!['(', ')'],
            ) {
                Ok(
                    (
                        SegV {
                            key: None,
                            indices: Seq::empty(),
                            recursive: false,
                            builtin: spec_recognize_builtin(key->0),
                        },
                        rem.skip(2),
                    ),
                )
            } else {
                match spec_parse_indices(rem) {
                    Err(m) => Err(m),
                    Ok((ixs, rest)) => if key is None && ixs.len() == 0 {
                        Err(quoted_msg("unexpected character"@, seq![if s.len() > 0 { s[0] } else { '?' }]))
                    } else {
                        Ok(
                            (
                                SegV { key: key, indices: ixs, recursive: false, builtin: None },
                                rest,
                            ),
                        )
                    },
                }
            }
        },
    }
}

pub proof fn lemma_parse_key_suffix(s: Seq<char>)
    ensures
        spec_parse_key(s) matches Ok((k, rest)) ==> rest.len() <= s.len() && rest =~= s.skip(
            s.len() - rest.len(),
        ) && (k is Some ==> rest.len() < s.len()),
{
    if s.len() > 0 {
        if s[0] == '"' {
            lemma_quoted_key_suffix(s.drop_first());
        } else if is_ascii_alnum(s[0]) || s[0] == '_' {
            lemma_first_match_bounds(s, not_bare_key_char());
        }
    }
}

pub proof fn lemma_segment_suffix(s: Seq<char>)
    ensures
        spec_parse_segment(s) matches Ok((seg, rest)) ==> rest.len() < s.len() && rest =~= s.skip(
            s.len() - rest.len(),
        ),
{
    lemma_parse_key_suffix(s);
    if let Ok((key, rem)) = spec_parse_key(s) {
        lemma_indices_suffix(rem);
    }
}

pub open spec fn prepend_seg(seg: SegV, r: Result<Seq<SegV>, Seq<char>>) -> Result<Seq<SegV>, Seq<char>> {
    match r {
        Ok(v) => Ok(seq![seg] + v),
        Err(m) => Err(m),
    }
}

/// The segments of a selector from `s` on; `rec` marks the first one as
/// reached through `..`.
pub open spec fn spec_segments(s: Seq<char>, rec: bool) -> Result<Seq<SegV>, Seq<char>>
    decreases s.len(),
{
    if s.len() == 0 {
        Ok(Seq::empty())
    } else {
        match spec_parse_segment(s) {
            Err(m) => Err(m),
            Ok((seg, rest)) => {
                proof { lemma_segment_suffix(s); }
                let seg2 = SegV { recursive: rec, ..seg };
                if starts_with(rest, seq!['.', '.']) {
                    if rest.len() == 2 {
                        Err("trailing '..' in selector"@)
                    } else {
                        prepend_seg(seg2, spec_segments(rest.skip(2), true))
                    }
                } else if rest.len() > 0 && rest[0] == '.' {
                    if rest.len() == 1 {
                        Err("trailing dot in selector"@)
                    } else {
                        prepend_seg(seg2, spec_segments(rest.skip(1), false))
                    }
                } else {
                    prepend_seg(seg2, spec_segments(rest, false))
                }
            },
        }
    }
}

/// A dot-separated path: segments separated by `.`, or by `..` for recursive
/// descent; a leading `..` searches from the root.
pub open spec fn spec_parse_selector(s: Seq<char>) -> Result<Seq<SegV>, Seq<char>> {
    if s.len() == 0 {
        Ok(Seq::empty())
    } else if starts_with(s, seq!['.', '.']) {
        if s.len() == 2 {
            Err("trailing '..' in selector"@)
        } else {
            spec_segments(s.skip(2), true)
        }
    } else {
        spec_segments(s, false)
    }
}

pub open spec fn selector_result(r: Result<Selector, PickError>) -> Result<Seq<SegV>, Seq<char>> {
    match r {
        Ok(sel) => Ok(sel@),
        Err(e) => Err(selector_msg(e@)),
    }
}

pub open spec fn selector_matches(r: Result<Selector, PickError>, s: Seq<char>) -> bool {
    &&& selector_result(r) == spec_parse_selector(s)
    &&& r matches Err(e) ==> e@ is InvalidSelector
}

fn parse_segment<'a>(s: &'a [char]) -> (r: Result<(Segment, &'a [char]), PickError>)
    ensures
        match spec_parse_segment(s@) {
            Ok((seg, rest)) => r matches Ok((sg, rr)) && sg@ == seg && rr@ == rest,
            Err(m) => r matches Err(e) && e@ == ErrV::InvalidSelector(m),
        },
{
    let (key, rem) = parse_key(s)?;
    if let Some(ref k) = key {
        if let Some(b) = recognize_builtin(k.as_slice()) {
            if rem.len() >= 2 && rem[0] == '(' && rem[1] == ')' {
                assert(rem@.take(2) =~= seq!['(', ')']);
                let seg = Segment { key: None, indices: Vec::new(), recursive: false, builtin: Some(b) };
                return Ok((seg, slice_subrange(rem, 2, rem.len())));
            }
            assert(!starts_with(rem@, seq!['(', ')']));
        }
    }
    let (indices, rest) = parse_indices(rem)?;
    if key.is_none() && indices.len() == 0 {
        let first = if s.len() > 0 {
            s[0]
        } else {
            '?'
        };
        let shown = vec![first];
        assert(shown@ =~= seq![first]);
        return Err(invalid_selector_quoting("unexpected character", shown.as_slice()));
    }
    let key_str = match key {
        Some(k) => Some(string_of(k.as_slice())),
        None => None,
    };
    Ok((Segment { key: key_str, indices, recursive: false, builtin: None }, rest))
}

fn parse_segments(s: &[char], rec: bool) -> (r: Result<Vec<Segment>, PickError>)
    ensures
        match spec_segments(s@, rec) {
            Ok(v) => r matches Ok(segs) && segs@.map_values(|g: Segment| g@) == v,
            Err(m) => r matches Err(e) && e@ == ErrV::InvalidSelector(m),
        },
    decreases s.len(),
{
    if s.len() == 0 {
        let v: Vec<Segment> = Vec::new();
        assert(v@.map_values(|g: Segment| g@) =~= Seq::<SegV>::empty());
        return Ok(v);
    }
    let (mut seg, rest) = parse_segment(s)?;
    proof { lemma_segment_suffix(s@); }
    seg.recursive = rec;
    let tail = if rest.len() >= 2 && rest[0] == '.' && rest[1] == '.' {
        assert(rest@.take(2) =~= seq!['.', '.']);
        if rest.len() == 2 {
            return Err(invalid_selector("trailing '..' in selector"));
        }
        parse_segments(slice_subrange(rest, 2, rest.len()), true)?
    } else {
        assert(!starts_with(rest@, seq!['.', '.']));
        if rest.len() > 0 && rest[0] == '.' {
            if rest.len() == 1 {
                return Err(invalid_selector("trailing dot in selector"));
            }
            parse_segments(slice_subrange(rest, 1, rest.len()), false)?
        } else {
            parse_segments(rest, false)?
        }
    };
    let mut out: Vec<Segment> = Vec::new();
    out.push(seg);
    let mut tail = tail;
    let ghost tail_v = tail@;
    out.append(&mut tail);
    assert(out@.map_values(|g: Segment| g@) =~= seq![out@[0]@] + tail_v.map_values(|g: Segment| g@));
    Ok(out)
}

impl Selector {
    /// Parse a dot-separated path: `segment ('.' segment)*`
    ///
    /// Supports recursive descent via `..`: `foo..bar` finds `bar` anywhere
    /// under `foo`.
    pub fn parse(input: &str) -> (r: Result<Self, PickError>)
        ensures
            selector_matches(r, input@),
    {
        let chars = chars_of(input);
        parse_selector_chars(chars.as_slice())
    }
}

pub fn parse_selector_chars(s: &[char]) -> (r: Result<Selector, PickError>)
    ensures
        selector_matches(r, s@),
{
    if s.len() == 0 {
        let sel = Selector { segments: Vec::new() };
        assert(sel@ =~= Seq::<SegV>::empty());
        return Ok(sel);
    }
    let segments = if s.len() >= 2 && s[0] == '.' && s[1] == '.' {
        assert(s@.take(2) =~= seq!['.', '.']);
        if s.len() == 2 {
            return Err(invalid_selector("trailing '..' in selector"));
        }
        parse_segments(slice_subrange(s, 2, s.len()), true)?
    } else {
        assert(!starts_with(s@, seq!['.', '.']));
        parse_segments(s, false)?
    };
    Ok(Selector { segments })
}

// ──────────────────────────────────────────────
// Top-level splitting utilities
// ──────────────────────────────────────────────

/// The pieces of `s` between top-level occurrences of `delim`, scanning from
/// position `i` with the piece under way starting at `start`.  Brackets and
/// parentheses nest (closing one never drops the depth below zero), a double
/// quote opens a quoted run in which a backslash escapes the next character.
pub open spec fn split_from(
    s: Seq<char>,
    delim: char,
    i: int,
    q: bool,
    depth: nat,
    start: int,
) -> Seq<Seq<char>>
    decreases s.len() - i,
{
    if i < 0 || i >= s.len() {
        seq![s.subrange(start, s.len() as int)]
    } else if q {
        if s[i] == '\\' && i + 1 < s.len() {
            split_from(s, delim, i + 2, true, depth, start)
        } else if s[i] == '"' {
            split_from(s, delim, i + 1, false, depth, start)
        } else {
            split_from(s, delim, i + 1, true, depth, start)
        }
    } else if s[i] == '"' {
        split_from(s, delim, i + 1, true, depth, start)
    } else if s[i] == '[' || s[i] == '(' {
        split_from(s, delim, i + 1, false, depth + 1, start)
    } else if s[i] == ']' || s[i] == ')' {
        split_from(s, delim, i + 1, false, if depth > 0 { (depth - 1) as nat } else { 0 }, start)
    } else if s[i] == delim && depth == 0 {
        seq![s.subrange(start, i)] + split_from(s, delim, i + 1, false, 0, i + 1)
    } else {
        split_from(s, delim, i + 1, false, depth, start)
    }
}

pub open spec fn split_top(s: Seq<char>, delim: char) -> Seq<Seq<char>> {
    split_from(s, delim, 0, false, 0, 0)
}

pub fn split_top_level_chars<'a>(s: &'a [char], delim: char) -> (r: Vec<&'a [char]>)
    ensures
        r@.len() == split_top(s@, delim).len(),
        forall|k: int| 0 <= k < r@.len() ==> (#[trigger] r@[k])@ == split_top(s@, delim)[k],
{
    let mut parts: Vec<&'a [char]> = Vec::new();
    let mut depth: usize = 0;
    let mut q = false;
    let mut start: usize = 0;
    let mut i: usize = 0;
    while i < s.len()
        invariant
            start <= i <= s.len(),
            depth <= i,
            split_top(s@, delim) =~= parts@.map_values(|p: &[char]| p@) + split_from(
                s@,
                delim,
                i as int,
                q,
                depth as nat,
                start as int,
            ),
        decreases s.len() - i,
    {
        let c = s[i];
        if q {
            if c == '\\' && i + 1 < s.len() {
                i = i + 2;
            } else {
                if c == '"' {
                    q = false;
                }
                i = i + 1;
            }
        } else if c == '"' {
            q = true;
            i = i + 1;
        } else if c == '[' || c == '(' {
            depth = depth + 1;
            i = i + 1;
        } else if c == ']' || c == ')' {
            if depth > 0 {
                depth = depth - 1;
            }
            i = i + 1;
        } else if c == delim && depth == 0 {
            let piece = slice_subrange(s, start, i);
            let ghost before = parts@.map_values(|p: &[char]| p@);
            parts.push(piece);
            assert(parts@.map_values(|p: &[char]| p@) =~= before.push(piece@));
            start = i + 1;
            i = i + 1;
        } else {
            i = i + 1;
        }
    }
    let last = slice_subrange(s, start, s.len());
    let ghost before = parts@.map_values(|p: &[char]| p@);
    parts.push(last);
    assert(parts@.map_values(|p: &[char]| p@) =~= before.push(last@));
    assert forall|k: int| 0 <= k < parts@.len() implies (#[trigger] parts@[k])@ == split_top(s@, delim)[k] by {
        assert(parts@.map_values(|p: &[char]| p@)[k] == parts@[k]@);
    }
    parts
}

/// Split `input` on `delimiter` at the top level, respecting brackets,
/// parentheses, and quoted strings.
pub fn split_top_level(input: &str, delimiter: char) -> (r: Vec<String>)
    ensures
        r@.len() == split_top(input@, delimiter).len(),
        forall|k: int| 0 <= k < r@.len() ==> (#[trigger] r@[k])@ == split_top(input@, delimiter)[k],
{
    let chars = chars_of(input);
    let parts = split_top_level_chars(chars.as_slice(), delimiter);
    let mut out: Vec<String> = Vec::new();
    let mut k: usize = 0;
    while k < parts.len()
        invariant
            k <= parts@.len(),
            out@.len() == k,
            forall|j: int| 0 <= j < k ==> (#[trigger] out@[j])@ == parts@[j]@,
        decreases parts.len() - k,
    {
        out.push(string_of(parts[k]));
        k = k + 1;
    }
    out
}

/// Position of the first top-level comma: brackets and parentheses nest (the
/// depth may fall below zero), and a double quote opens a run that the next
/// unescaped double quote closes (a backslash in it escapes the next character).
pub open spec fn comma_from(s: Seq<char>, i: int, q: bool, depth: int) -> Option<int>
    decreases s.len() - i,
{
    if i < 0 || i >= s.len() {
        None
    } else if q && s[i] == '\\' && i + 1 < s.len() {
        comma_from(s, i + 2, true, depth)
    } else if q {
        comma_from(s, i + 1, s[i] != '"', depth)
    } else if s[i] == '"' {
        comma_from(s, i + 1, true, depth)
    } else if s[i] == '(' || s[i] == '[' {
        comma_from(s, i + 1, false, depth + 1)
    } else if s[i] == ')' || s[i] == ']' {
        comma_from(s, i + 1, false, depth - 1)
    } else if s[i] == ',' && depth == 0 {
        Some(i)
    } else {
        comma_from(s, i + 1, false, depth)
    }
}

pub open spec fn top_level_comma(s: Seq<char>) -> Option<int> {
    comma_from(s, 0, false, 0)
}

proof fn lemma_comma_bounds(s: Seq<char>, i: int, q: bool, depth: int)
    requires
        0 <= i,
    ensures
        comma_from(s, i, q, depth) matches Some(p) ==> i <= p < s.len() && s[p] == ',',
    decreases s.len() - i,
{
    if i < s.len() {
        if i + 1 < s.len() {
            lemma_comma_bounds(s, i + 2, true, depth);
        }
        lemma_comma_bounds(s, i + 1, if q { s[i] != '"' } else { s[i] == '"' }, depth);
        lemma_comma_bounds(s, i + 1, false, depth + 1);
        lemma_comma_bounds(s, i + 1, false, depth - 1);
        lemma_comma_bounds(s, i + 1, false, depth);
        lemma_comma_bounds(s, i + 1, true, depth);
    }
}

fn find_top_level_comma(s: &[char]) -> (r: Option<usize>)
    ensures
        r matches Some(p) ==> top_level_comma(s@) == Some(p as int) && p < s@.len(),
        r is None ==> top_level_comma(s@) is None,
{
    let mut depth: i128 = 0;
    let mut q = false;
    let mut i: usize = 0;
    proof { lemma_comma_bounds(s@, 0, false, 0); }
    while i < s.len()
        invariant
            i <= s.len(),
            -(i as int) <= depth <= i,
            top_level_comma(s@) == comma_from(s@, i as int, q, depth as int),
        decreases s.len() - i,
    {
        let c = s[i];
        if q && c == '\\' && i + 1 < s.len() {
            i = i + 2;
            continue;
        }
        if q {
            if c == '"' {
                q = false;
            }
        } else if c == '"' {
            q = true;
        } else if c == '(' || c == '[' {
            depth = depth + 1;
        } else if c == ')' || c == ']' {
            depth = depth - 1;
        } else if c == ',' && depth == 0 {
            return Some(i);
        }
        i = i + 1;
    }
    None
}

// ──────────────────────────────────────────────
// Filter paths
// ──────────────────────────────────────────────

pub open spec fn is_path_stop(c: char) -> bool {
    c == ' ' || c == ')' || c == '=' || c == '!' || c == '>' || c == '<' || c == '~'
}

/// Where a filter path ends: at a space, `)` or comparison character outside
/// brackets and quotes.
pub open spec fn path_end(s: Seq<char>, i: int, q: bool, depth: int) -> int
    decreases s.len() - i,
{
    if i < 0 || i >= s.len() {
        s.len() as int
    } else if q {
        if s[i] == '\\' && i + 1 < s.len() {
            path_end(s, i + 2, true, depth)
        } else {
            path_end(s, i + 1, s[i] != '"', depth)
        }
    } else if s[i] == '"' {
        path_end(s, i + 1, true, depth)
    } else if s[i] == '[' {
        path_end(s, i + 1, false, depth + 1)
    } else if s[i] == ']' {
        path_end(s, i + 1, false, depth - 1)
    } else if depth == 0 && is_path_stop(s[i]) {
        i
    } else {
        path_end(s, i + 1, false, depth)
    }
}

proof fn lemma_path_end_bounds(s: Seq<char>, i: int, q: bool, depth: int)
    requires
        0 <= i,
    ensures
        i <= path_end(s, i, q, depth) <= s.len() || (i > s.len() && path_end(s, i, q, depth)
            == s.len()),
    decreases s.len() - i,
{
    if i < s.len() {
        if i + 1 < s.len() {
            lemma_path_end_bounds(s, i + 2, true, depth);
        }
        lemma_path_end_bounds(s, i + 1, true, depth);
        lemma_path_end_bounds(s, i + 1, false, depth);
        lemma_path_end_bounds(s, i + 1, false, depth + 1);
        lemma_path_end_bounds(s, i + 1, false, depth - 1);
    }
}

fn find_path_end(s: &[char]) -> (e: usize)
    ensures
        e as int == path_end(s@, 0, false, 0),
        e <= s@.len(),
{
    let mut depth: i128 = 0;
    let mut q = false;
    let mut i: usize = 0;
    proof { lemma_path_end_bounds(s@, 0, false, 0); }
    while i < s.len()
        invariant
            i <= s.len(),
            -(i as int) <= depth <= i,
            path_end(s@, 0, false, 0) == path_end(s@, i as int, q, depth as int),
        decreases s.len() - i,
    {
        let c = s[i];
        if q {
            if c == '\\' && i + 1 < s.len() {
                i = i + 2;
            } else {
                if c == '"' {
                    q = false;
                }
                i = i + 1;
            }
        } else if c == '"' {
            q = true;
            i = i + 1;
        } else if c == '[' {
            depth = depth + 1;
            i = i + 1;
        } else if c == ']' {
            depth = depth - 1;
            i = i + 1;
        } else if depth == 0 && (c == ' ' || c == ')' || c == '=' || c == '!' || c == '>' || c
            == '<' || c == '~') {
            return i;
        } else {
            i = i + 1;
        }
    }
    i
}

/// A filter path that starts with `.`, and the text after it.  A bare `.`
/// followed by the end, a space, `)` or a comparison character is the
/// identity path.
pub open spec fn spec_filter_path_rest(s: Seq<char>) -> Result<(Seq<SegV>, Seq<char>), Seq<char>> {
    let a = s.drop_first();
    if a.len() == 0 || is_path_stop(a[0]) {
        Ok((Seq::empty(), a))
    } else {
        let e = path_end(a, 0, false, 0);
        match spec_parse_selector(a.take(e)) {
            Ok(sel) => Ok((sel, a.skip(e))),
            Err(m) => Err(m),
        }
    }
}

fn parse_filter_path_with_remaining<'a>(s: &'a [char]) -> (r: Result<(Selector, &'a [char]), PickError>)
    requires
        s@.len() > 0,
    ensures
        match spec_filter_path_rest(s@) {
            Ok((sel, rest)) => r matches Ok((sl, rr)) && sl@ == sel && rr@ == rest,
            Err(m) => r matches Err(e) && e@ == ErrV::InvalidSelector(m),
        },
{
    let a = slice_subrange(s, 1, s.len());
    assert(a@ =~= s@.drop_first());
    if a.len() == 0 || a[0] == ' ' || a[0] == ')' || a[0] == '=' || a[0] == '!' || a[0] == '>'
        || a[0] == '<' || a[0] == '~' {
        let sel = Selector { segments: Vec::new() };
        assert(sel@ =~= Seq::<SegV>::empty());
        return Ok((sel, a));
    }
    let e = find_path_end(a);
    let path = slice_subrange(a, 0, e);
    let sel = parse_selector_chars(path)?;
    Ok((sel, slice_subrange(a, e, a.len())))
}

/// A path for `set()` or `del()`: `.` alone, or `.` and a selector.
pub open spec fn spec_filter_path(s: Seq<char>) -> Result<Seq<SegV>, Seq<char>> {
    if s.len() == 0 || s[0] != '.' {
        Err("path must start with '.'"@)
    } else if s.len() == 1 {
        Ok(Seq::empty())
    } else {
        spec_parse_selector(s.drop_first())
    }
}

fn parse_filter_path(s: &[char]) -> (r: Result<Selector, PickError>)
    ensures
        selector_result(r) == spec_filter_path(s@),
        r matches Err(e) ==> e@ is InvalidSelector,
{
    if s.len() == 0 || s[0] != '.' {
        return Err(invalid_selector("path must start with '.'"));
    }
    if s.len() == 1 {
        let sel = Selector { segments: Vec::new() };
        assert(sel@ =~= Seq::<SegV>::empty());
        return Ok(sel);
    }
    let a = slice_subrange(s, 1, s.len());
    assert(a@ =~= s@.drop_first());
    parse_selector_chars(a)
}

// ──────────────────────────────────────────────
// Literals
// ──────────────────────────────────────────────

pub open spec fn escaped_char(c: char) -> char {
    if c == 'n' {
        '\n'
    } else if c == 't' {
        '\t'
    } else {
        c
    }
}

/// The body of a string literal after its opening quote: `\n` and `\t` stand
/// for newline and tab, any other backslash for the character after it.
pub open spec fn string_body(s: Seq<char>) -> Option<(Seq<char>, Seq<char>)>
    decreases s.len(),
{
    if s.len() == 0 {
        None
    } else if s[0] == '"' {
        Some((Seq::empty(), s.drop_first()))
    } else if s[0] == '\\' {
        if s.len() < 2 {
            None
        } else {
            prepend_key(seq![escaped_char(s[1])], string_body(s.skip(2)))
        }
    } else {
        prepend_key(seq![s[0]], string_body(s.drop_first()))
    }
}

pub proof fn lemma_string_body_suffix(s: Seq<char>)
    ensures
        string_body(s) matches Some((k, rest)) ==> rest.len() < s.len() && rest =~= s.skip(
            s.len() - rest.len(),
        ),
    decreases s.len(),
{
    if s.len() > 0 && s[0] != '"' {
        if s[0] == '\\' {
            if s.len() >= 2 {
                lemma_string_body_suffix(s.skip(2));
            }
        } else {
            lemma_string_body_suffix(s.drop_first());
        }
    }
}

fn parse_string_body(s: &[char]) -> (r: Option<(Vec<char>, usize)>)
    ensures
        match string_body(s@) {
            Some((k, rest)) => r matches Some((kk, n)) && kk@ == k && n <= s@.len() && rest
                == s@.skip(n as int),
            None => r is None,
        },
{
    let mut acc: Vec<char> = Vec::new();
    let mut i: usize = 0;
    assert(s@.skip(0) =~= s@);
    assert(acc@ + Seq::<char>::empty() =~= Seq::<char>::empty());
    while i < s.len()
        invariant
            i <= s.len(),
            string_body(s@) == prepend_key(acc@, string_body(s@.skip(i as int))),
        decreases s.len() - i,
    {
        let ghost t = s@.skip(i as int);
        let c = s[i];
        if c == '"' {
            assert(t.drop_first() =~= s@.skip(i + 1));
            return Some((acc, i + 1));
        } else if c == '\\' {
            if i + 1 >= s.len() {
                return None;
            }
            let d = s[i + 1];
            let e = if d == 'n' {
                '\n'
            } else if d == 't' {
                '\t'
            } else {
                d
            };
            let ghost old_acc = acc@;
            acc.push(e);
            assert(t.skip(2) =~= s@.skip(i + 2));
            proof {
                match string_body(t.skip(2)) {
                    Some((k, rest)) => {
                        assert(old_acc + seq![e] + k =~= acc@ + k);
                    },
                    None => {},
                }
            }
            i = i + 2;
        } else {
            let ghost old_acc = acc@;
            acc.push(c);
            assert(t.drop_first() =~= s@.skip(i + 1));
            proof {
                match string_body(t.drop_first()) {
                    Some((k, rest)) => {
                        assert(old_acc + seq![c] + k =~= acc@ + k);
                    },
                    None => {},
                }
            }
            i = i + 1;
        }
    }
    None
}

pub open spec fn is_num_char(c: char) -> bool {
    is_ascii_digit(c) || c == '.' || c == '-' || c == '+' || c == 'e' || c == 'E'
}

pub open spec fn not_num_char() -> spec_fn(char) -> bool {
    |c: char| !is_num_char(c)
}

/// A keyword literal: `word` not followed by an ASCII letter or digit.
pub open spec fn keyword_at(t: Seq<char>, word: Seq<char>) -> bool {
    starts_with(t, word) && (t.len() == word.len() || !is_ascii_alnum(t[word.len() as int]))
}

/// A literal after optional leading white space: `null`, `true`, `false`, a
/// quoted string, or a number in the form that `f64::from_str` accepts.
pub open spec fn spec_literal(s: Seq<char>) -> Result<(LitV, Seq<char>), Seq<char>> {
    let t = trim_start(s);
    if keyword_at(t, seq!['n', 'u', 'l', 'l']) {
        Ok((LitV::Null, t.skip(4)))
    } else if keyword_at(t, seq!['t', 'r', 'u', 'e']) {
        Ok((LitV::Bool(true), t.skip(4)))
    } else if keyword_at(t, seq!['f', 'a', 'l', 's', 'e']) {
        Ok((LitV::Bool(false), t.skip(5)))
    } else if t.len() > 0 && t[0] == '"' {
        match string_body(t.drop_first()) {
            Some((v, rest)) => Ok((LitV::Str(v), rest)),
            None => Err("unterminated string literal"@),
        }
    } else {
        let e = match first_match(t, not_num_char()) {
            Some(e) => e,
            None => t.len() as int,
        };
        if e == 0 {
            Err(quoted_msg("expected literal value, got"@, t.take(chars_within(t, 20))))
        } else if !valid_float(t.take(e)) {
            Err(quoted_msg("invalid number"@, t.take(e)))
        } else {
            Ok((LitV::Num(t.take(e)), t.skip(e)))
        }
    }
}

fn keyword_at_exec(t: &[char], word: &[char]) -> (b: bool)
    ensures
        b == keyword_at(t@, word@),
{
    has_prefix(t, word) && (t.len() == word.len() || !char_is_alnum(t[word.len()]))
}

fn parse_literal_chars<'a>(s: &'a [char]) -> (r: Result<(LiteralValue, &'a [char]), PickError>)
    ensures
        match spec_literal(s@) {
            Ok((v, rest)) => r matches Ok((lv, rr)) && lv@ == v && rr@ == rest,
            Err(m) => r matches Err(e) && e@ == ErrV::InvalidSelector(m),
        },
{
    let t = trim_start_slice(s);
    let null_w = vec!['n', 'u', 'l', 'l'];
    let true_w = vec!['t', 'r', 'u', 'e'];
    let false_w = vec!['f', 'a', 'l', 's', 'e'];
    if keyword_at_exec(t, null_w.as_slice()) {
        return Ok((LiteralValue::Null, slice_subrange(t, 4, t.len())));
    }
    if keyword_at_exec(t, true_w.as_slice()) {
        return Ok((LiteralValue::Bool(true), slice_subrange(t, 4, t.len())));
    }
    if keyword_at_exec(t, false_w.as_slice()) {
        return Ok((LiteralValue::Bool(false), slice_subrange(t, 5, t.len())));
    }
    if t.len() > 0 && t[0] == '"' {
        let body = slice_subrange(t, 1, t.len());
        assert(body@ =~= t@.drop_first());
        return match parse_string_body(body) {
            Some((v, n)) => Ok(
                (LiteralValue::String(string_of(v.as_slice())), slice_subrange(body, n, body.len())),
            ),
            None => Err(invalid_selector("unterminated string literal")),
        };
    }
    let mut e: usize = 0;
    while e < t.len() && (char_is_digit(t[e]) || t[e] == '.' || t[e] == '-' || t[e] == '+' || t[e]
        == 'e' || t[e] == 'E')
        invariant
            e <= t@.len(),
            forall|j: int| 0 <= j < e ==> !not_num_char()(#[trigger] t@[j]),
        decreases t.len() - e,
    {
        e = e + 1;
    }
    proof { lemma_first_match(t@, not_num_char(), e as int); }
    if e == 0 {
        let k = prefix_within(t, 20);
        let shown = slice_subrange(t, 0, k);
        assert(shown@ =~= t@.take(chars_within(t@, 20)));
        return Err(invalid_selector_quoting("expected literal value, got", shown));
    }
    let num = slice_subrange(t, 0, e);
    if !is_valid_float(num) {
        return Err(invalid_selector_quoting("invalid number", num));
    }
    Ok((LiteralValue::Number(string_of(num)), slice_subrange(t, e, t.len())))
}

// ──────────────────────────────────────────────
// Filter expressions
// ──────────────────────────────────────────────

pub proof fn lemma_trim_start_suffix(s: Seq<char>)
    ensures
        trim_start(s).len() <= s.len(),
        trim_start(s) =~= s.skip(s.len() - trim_start(s).len()),
    decreases s.len(),
{
    if s.len() > 0 && crate::text::is_ws(s[0]) {
        lemma_trim_start_suffix(s.drop_first());
    }
}

/// A comparison operator at the start of `t`, two-character ones first.
pub open spec fn spec_compare_op(t: Seq<char>) -> Option<(CompareOp, Seq<char>)> {
    if starts_with(t, seq!['=', '=']) {
        Some((CompareOp::Eq, t.skip(2)))
    } else if starts_with(t, seq!['!', '=']) {
        Some((CompareOp::Ne, t.skip(2)))
    } else if starts_with(t, seq!['>', '=']) {
        Some((CompareOp::Gte, t.skip(2)))
    } else if starts_with(t, seq!['<', '=']) {
        Some((CompareOp::Lte, t.skip(2)))
    } else if t.len() > 0 && t[0] == '>' {
        Some((CompareOp::Gt, t.skip(1)))
    } else if t.len() > 0 && t[0] == '<' {
        Some((CompareOp::Lt, t.skip(1)))
    } else if t.len() > 0 && t[0] == '~' {
        Some((CompareOp::Match, t.skip(1)))
    } else {
        None
    }
}

fn try_parse_compare_op<'a>(t: &'a [char]) -> (r: Option<(CompareOp, &'a [char])>)
    ensures
        match spec_compare_op(t@) {
            Some((op, rest)) => r matches Some((o, rr)) && o == op && rr@ == rest,
            None => r is None,
        },
{
    if t.len() >= 2 && t[1] == '=' && (t[0] == '=' || t[0] == '!' || t[0] == '>' || t[0] == '<') {
        let op = if t[0] == '=' {
            CompareOp::Eq
        } else if t[0] == '!' {
            CompareOp::Ne
        } else if t[0] == '>' {
            CompareOp::Gte
        } else {
            CompareOp::Lte
        };
        assert(t@.take(2) =~= seq![t@[0], '=']);
        return Some((op, slice_subrange(t, 2, t.len())));
    }
    assert(!starts_with(t@, seq!['=', '=']) && !starts_with(t@, seq!['!', '=']) && !starts_with(
        t@,
        seq!['>', '='],
    ) && !starts_with(t@, seq!['<', '='])) by {
        if t@.len() >= 2 {
            assert(t@.take(2)[0] == t@[0] && t@.take(2)[1] == t@[1]);
        }
    }
    if t.len() > 0 && t[0] == '>' {
        Some((CompareOp::Gt, slice_subrange(t, 1, t.len())))
    } else if t.len() > 0 && t[0] == '<' {
        Some((CompareOp::Lt, slice_subrange(t, 1, t.len())))
    } else if t.len() > 0 && t[0] == '~' {
        Some((CompareOp::Match, slice_subrange(t, 1, t.len())))
    } else {
        None
    }
}

pub proof fn lemma_literal_suffix(s: Seq<char>)
    ensures
        spec_literal(s) matches Ok((v, rest)) ==> rest.len() <= s.len(),
{
    let t = trim_start(s);
    lemma_trim_start_suffix(s);
    lemma_first_match_bounds(t, not_num_char());
    if t.len() > 0 {
        lemma_string_body_suffix(t.drop_first());
    }
}

/// One condition: `not` and an atom, a path with a comparison and a literal,
/// or a path alone (a truthiness test).
pub open spec fn spec_atom(s: Seq<char>) -> Result<(FilterV, Seq<char>), Seq<char>>
    decreases s.len(),
{
    let t = trim_start(s);
    if starts_with(t, seq!['n', 'o', 't', ' ']) {
        proof { lemma_trim_start_suffix(s); }
        match spec_atom(t.skip(4)) {
            Ok((inner, rest)) => Ok((FilterV::Not(Box::new(inner)), rest)),
            Err(m) => Err(m),
        }
    } else if t.len() == 0 || t[0] != '.' {
        Err("filter condition must start with '.' (path)"@)
    } else {
        match spec_filter_path_rest(t) {
            Err(m) => Err(m),
            Ok((path, after)) => match spec_compare_op(trim_start(after)) {
                Some((op, after_op)) => match spec_literal(trim_start(after_op)) {
                    Ok((v, rem)) => Ok((FilterV::Cond(CondV { path, op, value: v }), rem)),
                    Err(m) => Err(m),
                },
                None => Ok((FilterV::Truthy(path), after)),
            },
        }
    }
}

pub proof fn lemma_atom_suffix(s: Seq<char>)
    ensures
        spec_atom(s) matches Ok((v, rest)) ==> rest.len() <= s.len(),
    decreases s.len(),
{
    let t = trim_start(s);
    lemma_trim_start_suffix(s);
    if starts_with(t, seq!['n', 'o', 't', ' ']) {
        lemma_atom_suffix(t.skip(4));
    } else if t.len() > 0 && t[0] == '.' {
        let a = t.drop_first();
        if !(a.len() == 0 || is_path_stop(a[0])) {
            lemma_path_end_bounds(a, 0, false, 0);
        }
        if let Ok((path, after)) = spec_filter_path_rest(t) {
            lemma_trim_start_suffix(after);
            if let Some((op, after_op)) = spec_compare_op(trim_start(after)) {
                lemma_trim_start_suffix(after_op);
                lemma_literal_suffix(trim_start(after_op));
            }
        }
    }
}

/// The `and` chain after a first operand `left`, `rem` being the text after it.
pub open spec fn and_tail(left: FilterV, rem: Seq<char>) -> Result<(FilterV, Seq<char>), Seq<char>>
    decreases rem.len(),
{
    let t = trim_start(rem);
    if starts_with(t, seq!['a', 'n', 'd', ' ']) {
        proof { lemma_trim_start_suffix(rem); lemma_atom_suffix(t.skip(4)); }
        match spec_atom(t.skip(4)) {
            Ok((right, rest)) => and_tail(FilterV::And(Box::new(left), Box::new(right)), rest),
            Err(m) => Err(m),
        }
    } else {
        Ok((left, rem))
    }
}

pub open spec fn spec_and(s: Seq<char>) -> Result<(FilterV, Seq<char>), Seq<char>> {
    match spec_atom(s) {
        Ok((left, rem)) => and_tail(left, rem),
        Err(m) => Err(m),
    }
}

pub proof fn lemma_and_tail_suffix(left: FilterV, rem: Seq<char>)
    ensures
        and_tail(left, rem) matches Ok((v, rest)) ==> rest.len() <= rem.len(),
    decreases rem.len(),
{
    let t = trim_start(rem);
    lemma_trim_start_suffix(rem);
    if starts_with(t, seq!['a', 'n', 'd', ' ']) {
        lemma_atom_suffix(t.skip(4));
        if let Ok((right, rest)) = spec_atom(t.skip(4)) {
            lemma_and_tail_suffix(FilterV::And(Box::new(left), Box::new(right)), rest);
        }
    }
}

pub proof fn lemma_and_suffix(s: Seq<char>)
    ensures
        spec_and(s) matches Ok((v, rest)) ==> rest.len() <= s.len(),
{
    lemma_atom_suffix(s);
    if let Ok((left, rem)) = spec_atom(s) {
        lemma_and_tail_suffix(left, rem);
    }
}

/// The `or` chain after a first operand `left`.
pub open spec fn or_tail(left: FilterV, rem: Seq<char>) -> Result<(FilterV, Seq<char>), Seq<char>>
    decreases rem.len(),
{
    let t = trim_start(rem);
    if starts_with(t, seq!['o', 'r', ' ']) {
        proof { lemma_trim_start_suffix(rem); lemma_and_suffix(t.skip(3)); }
        match spec_and(t.skip(3)) {
            Ok((right, rest)) => or_tail(FilterV::Or(Box::new(left), Box::new(right)), rest),
            Err(m) => Err(m),
        }
    } else {
        Ok((left, rem))
    }
}

pub open spec fn spec_or(s: Seq<char>) -> Result<(FilterV, Seq<char>), Seq<char>> {
    match spec_and(s) {
        Ok((left, rem)) => or_tail(left, rem),
        Err(m) => Err(m),
    }
}

/// A complete filter: `or` binds looser than `and`, and nothing may follow.
pub open spec fn spec_filter_expr(s: Seq<char>) -> Result<FilterV, Seq<char>> {
    match spec_or(s) {
        Ok((e, rem)) => if trim(rem).len() > 0 {
            Err(quoted_msg("unexpected trailing content in filter"@, trim(rem)))
        } else {
            Ok(e)
        },
        Err(m) => Err(m),
    }
}

fn parse_atom<'a>(s: &'a [char]) -> (r: Result<(FilterExpr, &'a [char]), PickError>)
    ensures
        match spec_atom(s@) {
            Ok((f, rest)) => r matches Ok((fe, rr)) && fe@ == f && rr@ == rest,
            Err(m) => r matches Err(e) && e@ == ErrV::InvalidSelector(m),
        },
    decreases s.len(),
{
    let t = trim_start_slice(s);
    proof { lemma_trim_start_suffix(s@); }
    let not_w = vec!['n', 'o', 't', ' '];
    if has_prefix(t, not_w.as_slice()) {
        let (inner, rest) = parse_atom(slice_subrange(t, 4, t.len()))?;
        return Ok((FilterExpr::Not(Box::new(inner)), rest));
    }
    if t.len() == 0 || t[0] != '.' {
        return Err(invalid_selector("filter condition must start with '.' (path)"));
    }
    let (path, after) = parse_filter_path_with_remaining(t)?;
    let after_trimmed = trim_start_slice(after);
    match try_parse_compare_op(after_trimmed) {
        Some((op, after_op)) => {
            let (value, remaining) = parse_literal_chars(trim_start_slice(after_op))?;
            Ok((FilterExpr::Condition(Condition { path, op, value }), remaining))
        },
        None => Ok((FilterExpr::Truthy(path), after)),
    }
}

fn parse_and_expr<'a>(s: &'a [char]) -> (r: Result<(FilterExpr, &'a [char]), PickError>)
    ensures
        match spec_and(s@) {
            Ok((f, rest)) => r matches Ok((fe, rr)) && fe@ == f && rr@ == rest,
            Err(m) => r matches Err(e) && e@ == ErrV::InvalidSelector(m),
        },
{
    let (mut left, mut remaining) = parse_atom(s)?;
    let and_w = vec!['a', 'n', 'd', ' '];
    loop
        invariant
            and_w@ == seq!['a', 'n', 'd', ' '],
            spec_and(s@) == and_tail(left@, remaining@),
        decreases remaining@.len(),
    {
        let t = trim_start_slice(remaining);
        if has_prefix(t, and_w.as_slice()) {
            proof { lemma_trim_start_suffix(remaining@); lemma_atom_suffix(t@.skip(4)); }
            let (right, rest) = parse_atom(slice_subrange(t, 4, t.len()))?;
            left = FilterExpr::And(Box::new(left), Box::new(right));
            remaining = rest;
        } else {
            return Ok((left, remaining));
        }
    }
}

fn parse_or_expr<'a>(s: &'a [char]) -> (r: Result<(FilterExpr, &'a [char]), PickError>)
    ensures
        match spec_or(s@) {
            Ok((f, rest)) => r matches Ok((fe, rr)) && fe@ == f && rr@ == rest,
            Err(m) => r matches Err(e) && e@ == ErrV::InvalidSelector(m),
        },
{
    let (mut left, mut remaining) = parse_and_expr(s)?;
    let or_w = vec!['o', 'r', ' '];
    loop
        invariant
            or_w@ == seq!['o', 'r', ' '],
            spec_or(s@) == or_tail(left@, remaining@),
        decreases remaining@.len(),
    {
        let t = trim_start_slice(remaining);
        if has_prefix(t, or_w.as_slice()) {
            proof { lemma_trim_start_suffix(remaining@); lemma_and_suffix(t@.skip(3)); }
            let (right, rest) = parse_and_expr(slice_subrange(t, 3, t.len()))?;
            left = FilterExpr::Or(Box::new(left), Box::new(right));
            remaining = rest;
        } else {
            return Ok((left, remaining));
        }
    }
}

fn parse_filter_expr_chars(s: &[char]) -> (r: Result<FilterExpr, PickError>)
    ensures
        match spec_filter_expr(s@) {
            Ok(f) => r matches Ok(fe) && fe@ == f,
            Err(m) => r matches Err(e) && e@ == ErrV::InvalidSelector(m),
        },
{
    let (expr, remaining) = parse_or_expr(s)?;
    let rest = trim_slice(remaining);
    if rest.len() > 0 {
        return Err(invalid_selector_quoting("unexpected trailing content in filter", rest));
    }
    Ok(expr)
}

// ──────────────────────────────────────────────
// Stages, pipelines and expressions
// ──────────────────────────────────────────────

/// The arguments of `set(.path, value)`: split at the first top-level comma,
/// each side trimmed; nothing may follow the value.
pub open spec fn spec_set_args(s: Seq<char>) -> Result<(Seq<SegV>, LitV), Seq<char>> {
    match top_level_comma(s) {
        None => Err("set() requires two arguments: set(.path, value)"@),
        Some(c) => match spec_filter_path(trim(s.take(c))) {
            Err(m) => Err(m),
            Ok(path) => match spec_literal(trim(s.skip(c + 1))) {
                Err(m) => Err(m),
                Ok((v, rem)) => if trim(rem).len() > 0 {
                    Err(quoted_msg("unexpected content after set() value"@, trim(rem)))
                } else {
                    Ok((path, v))
                },
            },
        },
    }
}

fn parse_set_args(s: &[char]) -> (r: Result<(Selector, LiteralValue), PickError>)
    ensures
        match spec_set_args(s@) {
            Ok((p, v)) => r matches Ok((sel, lv)) && sel@ == p && lv@ == v,
            Err(m) => r matches Err(e) && e@ == ErrV::InvalidSelector(m),
        },
{
    let comma_pos = match find_top_level_comma(s) {
        Some(c) => c,
        None => {
            return Err(invalid_selector("set() requires two arguments: set(.path, value)"));
        },
    };
    assert(s@.len() == s.len());
    let path_str = trim_slice(slice_subrange(s, 0, comma_pos));
    let value_str = trim_slice(slice_subrange(s, comma_pos + 1, s.len()));
    let path = parse_filter_path(path_str)?;
    let (value, remaining) = parse_literal_chars(value_str)?;
    let extra = trim_slice(remaining);
    if extra.len() > 0 {
        return Err(invalid_selector_quoting("unexpected content after set() value", extra));
    }
    Ok((path, value))
}

/// The text inside `name(...)`: absent when `s` does not start with `name(`,
/// `Some(None)` when the closing parenthesis is missing at the end.
pub open spec fn call_inner(s: Seq<char>, open: Seq<char>) -> Option<Option<Seq<char>>> {
    if !starts_with(s, open) {
        None
    } else {
        let rest = s.skip(open.len() as int);
        if rest.len() > 0 && rest.last() == ')' {
            Some(Some(trim(rest.drop_last())))
        } else {
            Some(None)
        }
    }
}

pub open spec fn select_open() -> Seq<char> {
    seq!['s', 'e', 'l', 'e', 'c', 't', '(']
}

pub open spec fn set_open() -> Seq<char> {
    seq!['s', 'e', 't', '(']
}

pub open spec fn del_open() -> Seq<char> {
    seq!['d', 'e', 'l', '(']
}

/// One stage of a pipeline: `select(...)`, `set(...)`, `del(...)`, a
/// standalone builtin call, or a path.
pub open spec fn spec_pipe_stage(s: Seq<char>) -> Result<StageV, Seq<char>> {
    match call_inner(s, select_open()) {
        Some(None) => Err("unterminated select()"@),
        Some(Some(inner)) => match spec_filter_expr(inner) {
            Ok(f) => Ok(StageV::Select(f)),
            Err(m) => Err(m),
        },
        None => match call_inner(s, set_open()) {
            Some(None) => Err("unterminated set()"@),
            Some(Some(inner)) => match spec_set_args(inner) {
                Ok((p, v)) => Ok(StageV::SetAt(p, v)),
                Err(m) => Err(m),
            },
            None => match call_inner(s, del_open()) {
                Some(None) => Err("unterminated del()"@),
                Some(Some(inner)) => match spec_filter_path(inner) {
                    Ok(p) => Ok(StageV::Del(p)),
                    Err(m) => Err(m),
                },
                None => if s == seq!['k', 'e', 'y', 's', '(', ')'] {
                    Ok(StageV::Builtin(Builtin::Keys))
                } else if s == seq!['v', 'a', 'l', 'u', 'e', 's', '(', ')'] {
                    Ok(StageV::Builtin(Builtin::Values))
                } else if s == seq!['l', 'e', 'n', 'g', 't', 'h', '(', ')'] {
                    Ok(StageV::Builtin(Builtin::Length))
                } else {
                    match spec_parse_selector(s) {
                        Ok(p) => Ok(StageV::Path(p)),
                        Err(m) => Err(m),
                    }
                },
            },
        },
    }
}

fn strip_call<'a>(s: &'a [char], open: &[char]) -> (r: Option<Option<&'a [char]>>)
    ensures
        match call_inner(s@, open@) {
            None => r is None,
            Some(None) => r == Some(None::<&[char]>),
            Some(Some(inner)) => r matches Some(Some(x)) && x@ == inner,
        },
{
    if !has_prefix(s, open) {
        return None;
    }
    let rest = slice_subrange(s, open.len(), s.len());
    if rest.len() > 0 && rest[rest.len() - 1] == ')' {
        let inner = slice_subrange(rest, 0, rest.len() - 1);
        assert(inner@ =~= rest@.drop_last());
        Some(Some(trim_slice(inner)))
    } else {
        Some(None)
    }
}

fn parse_pipe_stage(s: &[char]) -> (r: Result<PipeStage, PickError>)
    ensures
        match spec_pipe_stage(s@) {
            Ok(st) => r matches Ok(ps) && ps@ == st,
            Err(m) => r matches Err(e) && e@ == ErrV::InvalidSelector(m),
        },
{
    let select_w = vec!['s', 'e', 'l', 'e', 'c', 't', '('];
    let set_w = vec!['s', 'e', 't', '('];
    let del_w = vec!['d', 'e', 'l', '('];
    match strip_call(s, select_w.as_slice()) {
        Some(None) => { return Err(invalid_selector("unterminated select()")); },
        Some(Some(inner)) => {
            let expr = parse_filter_expr_chars(inner)?;
            return Ok(PipeStage::Select(expr));
        },
        None => {},
    }
    match strip_call(s, set_w.as_slice()) {
        Some(None) => { return Err(invalid_selector("unterminated set()")); },
        Some(Some(inner)) => {
            let (path, value) = parse_set_args(inner)?;
            return Ok(PipeStage::SetAt { path, value });
        },
        None => {},
    }
    match strip_call(s, del_w.as_slice()) {
        Some(None) => { return Err(invalid_selector("unterminated del()")); },
        Some(Some(inner)) => {
            let path = parse_filter_path(inner)?;
            return Ok(PipeStage::Del(path));
        },
        None => {},
    }
    if let Some(builtin) = try_parse_standalone_builtin(s) {
        return Ok(PipeStage::Builtin(builtin));
    }
    Ok(PipeStage::Path(parse_selector_chars(s)?))
}

fn try_parse_standalone_builtin(s: &[char]) -> (r: Option<Builtin>)
    ensures
        r == (if s@ == seq!['k', 'e', 'y', 's', '(', ')'] {
            Some(Builtin::Keys)
        } else if s@ == seq!['v', 'a', 'l', 'u', 'e', 's', '(', ')'] {
            Some(Builtin::Values)
        } else if s@ == seq!['l', 'e', 'n', 'g', 't', 'h', '(', ')'] {
            Some(Builtin::Length)
        } else {
            None
        }),
{
    let keys = vec!['k', 'e', 'y', 's', '(', ')'];
    let values = vec!['v', 'a', 'l', 'u', 'e', 's', '(', ')'];
    let length = vec!['l', 'e', 'n', 'g', 't', 'h', '(', ')'];
    if same_chars(s, keys.as_slice()) {
        Some(Builtin::Keys)
    } else if same_chars(s, values.as_slice()) {
        Some(Builtin::Values)
    } else if same_chars(s, length.as_slice()) {
        Some(Builtin::Length)
    } else {
        None
    }
}

/// The stages of a pipeline, one for each `|`-separated piece, each trimmed and
/// non-empty.
pub open spec fn stages_of(parts: Seq<Seq<char>>) -> Result<Seq<StageV>, Seq<char>>
    decreases parts.len(),
{
    if parts.len() == 0 {
        Ok(Seq::empty())
    } else if trim(parts[0]).len() == 0 {
        Err("empty stage in pipeline"@)
    } else {
        match spec_pipe_stage(trim(parts[0])) {
            Err(m) => Err(m),
            Ok(st) => match stages_of(parts.drop_first()) {
                Ok(r) => Ok(seq![st] + r),
                Err(m) => Err(m),
            },
        }
    }
}

pub open spec fn spec_pipeline(s: Seq<char>) -> Result<Seq<StageV>, Seq<char>> {
    stages_of(split_top(s, '|'))
}

pub open spec fn pipeline_result(r: Result<Pipeline, PickError>) -> Result<Seq<StageV>, Seq<char>> {
    match r {
        Ok(p) => Ok(p@),
        Err(e) => Err(selector_msg(e@)),
    }
}

fn parse_pipeline_chars(s: &[char]) -> (r: Result<Pipeline, PickError>)
    ensures
        pipeline_result(r) == spec_pipeline(s@),
        r matches Err(e) ==> e@ is InvalidSelector,
{
    let parts = split_top_level_chars(s, '|');
    let ghost ps = split_top(s@, '|');
    let mut stages: Vec<PipeStage> = Vec::new();
    let mut k: usize = 0;
    assert(ps.skip(0) =~= ps);
    while k < parts.len()
        invariant
            k <= parts@.len(),
            ps == split_top(s@, '|'),
            parts@.len() == ps.len(),
            forall|j: int| 0 <= j < parts@.len() ==> (#[trigger] parts@[j])@ == ps[j],
            stages_of(ps) == (match stages_of(ps.skip(k as int)) {
                Ok(r) => Ok(stages@.map_values(|g: PipeStage| g@) + r),
                Err(m) => Err(m),
            }),
        decreases parts.len() - k,
    {
        let ghost rest = ps.skip(k as int);
        assert(rest[0] == ps[k as int]);
        assert(rest.drop_first() =~= ps.skip(k + 1));
        let trimmed = trim_slice(parts[k]);
        if trimmed.len() == 0 {
            return Err(invalid_selector("empty stage in pipeline"));
        }
        let stage = parse_pipe_stage(trimmed)?;
        let ghost before = stages@.map_values(|g: PipeStage| g@);
        stages.push(stage);
        assert(stages@.map_values(|g: PipeStage| g@) =~= before.push(stage@));
        proof {
            match stages_of(ps.skip(k + 1)) {
                Ok(r) => {
                    assert(before + (seq![stage@] + r) =~= before.push(stage@) + r);
                },
                Err(_) => {},
            }
        }
        k = k + 1;
    }
    assert(ps.skip(k as int) =~= Seq::<Seq<char>>::empty());
    assert(stages@.map_values(|g: PipeStage| g@) + Seq::<StageV>::empty() =~= stages@.map_values(
        |g: PipeStage| g@,
    ));
    Ok(Pipeline { stages })
}

impl Pipeline {
    /// Parse a pipeline: `stage ('|' stage)*`
    pub fn parse(input: &str) -> (r: Result<Self, PickError>)
        ensures
            pipeline_result(r) == spec_pipeline(input@),
            r matches Err(e) ==> e@ is InvalidSelector,
    {
        let chars = chars_of(input);
        parse_pipeline_chars(chars.as_slice())
    }
}

pub open spec fn pipelines_of(parts: Seq<Seq<char>>) -> Result<Seq<Seq<StageV>>, Seq<char>>
    decreases parts.len(),
{
    if parts.len() == 0 {
        Ok(Seq::empty())
    } else if trim(parts[0]).len() == 0 {
        Err("empty selector in comma-separated list"@)
    } else {
        match spec_pipeline(trim(parts[0])) {
            Err(m) => Err(m),
            Ok(p) => match pipelines_of(parts.drop_first()) {
                Ok(r) => Ok(seq![p] + r),
                Err(m) => Err(m),
            },
        }
    }
}

/// A full expression: the empty selector is the identity; otherwise the
/// comma-separated pipelines, each trimmed and non-empty.
pub open spec fn spec_expression(s: Seq<char>) -> Result<Seq<Seq<StageV>>, Seq<char>> {
    if s.len() == 0 {
        Ok(seq![seq![StageV::Path(Seq::empty())]])
    } else {
        pipelines_of(split_top(s, ','))
    }
}

pub open spec fn expression_result(r: Result<Expression, PickError>) -> Result<Seq<Seq<StageV>>, Seq<char>> {
    match r {
        Ok(e) => Ok(e@),
        Err(e) => Err(selector_msg(e@)),
    }
}

pub fn parse_expression_chars(s: &[char]) -> (r: Result<Expression, PickError>)
    ensures
        expression_result(r) == spec_expression(s@),
        r matches Err(e) ==> e@ is InvalidSelector,
{
    if s.len() == 0 {
        let mut stages: Vec<PipeStage> = Vec::new();
        stages.push(PipeStage::Path(Selector { segments: Vec::new() }));
        let mut pipelines: Vec<Pipeline> = Vec::new();
        pipelines.push(Pipeline { stages });
        let e = Expression { pipelines };
        assert(e@[0][0] == StageV::Path(Seq::<SegV>::empty())) by {
            assert(e@[0][0]->Path_0 =~= Seq::<SegV>::empty());
        }
        assert(e@[0] =~= seq![StageV::Path(Seq::<SegV>::empty())]);
        assert(e@ =~= seq![seq![StageV::Path(Seq::<SegV>::empty())]]);
        return Ok(e);
    }
    let parts = split_top_level_chars(s, ',');
    let ghost ps = split_top(s@, ',');
    let mut pipelines: Vec<Pipeline> = Vec::new();
    let mut k: usize = 0;
    assert(ps.skip(0) =~= ps);
    while k < parts.len()
        invariant
            k <= parts@.len(),
            s@.len() > 0,
            ps == split_top(s@, ','),
            parts@.len() == ps.len(),
            forall|j: int| 0 <= j < parts@.len() ==> (#[trigger] parts@[j])@ == ps[j],
            pipelines_of(ps) == (match pipelines_of(ps.skip(k as int)) {
                Ok(r) => Ok(pipelines@.map_values(|g: Pipeline| g@) + r),
                Err(m) => Err(m),
            }),
        decreases parts.len() - k,
    {
        let ghost rest = ps.skip(k as int);
        assert(rest[0] == ps[k as int]);
        assert(rest.drop_first() =~= ps.skip(k + 1));
        let trimmed = trim_slice(parts[k]);
        if trimmed.len() == 0 {
            return Err(invalid_selector("empty selector in comma-separated list"));
        }
        let pipeline = parse_pipeline_chars(trimmed)?;
        let ghost before = pipelines@.map_values(|g: Pipeline| g@);
        pipelines.push(pipeline);
        assert(pipelines@.map_values(|g: Pipeline| g@) =~= before.push(pipeline@));
        proof {
            match pipelines_of(ps.skip(k + 1)) {
                Ok(r) => {
                    assert(before + (seq![pipeline@] + r) =~= before.push(pipeline@) + r);
                },
                Err(_) => {},
            }
        }
        k = k + 1;
    }
    assert(ps.skip(k as int) =~= Seq::<Seq<char>>::empty());
    assert(pipelines@.map_values(|g: Pipeline| g@) + Seq::<Seq<StageV>>::empty()
        =~= pipelines@.map_values(|g: Pipeline| g@));
    Ok(Expression { pipelines })
}

impl Expression {
    /// Parse a full expression: `pipeline (',' pipeline)*`
    pub fn parse(input: &str) -> (r: Result<Self, PickError>)
        ensures
            expression_result(r) == spec_expression(input@),
            r matches Err(e) ==> e@ is InvalidSelector,
    {
        let chars = chars_of(input);
        parse_expression_chars(chars.as_slice())
    }
}

/// Parse a literal at the start of a text: `null`, `true`, `false`, a quoted
/// string or a number; gives the literal and the text after it.
pub fn parse_literal(input: &str) -> (r: Result<(LiteralValue, String), PickError>)
    ensures
        match spec_literal(input@) {
            Ok((v, rest)) => r matches Ok((lv, rr)) && lv@ == v && rr@ == rest,
            Err(m) => r matches Err(e) && e@ == ErrV::InvalidSelector(m),
        },
{
    let chars = chars_of(input);
    match parse_literal_chars(chars.as_slice()) {
        Ok((v, rest)) => Ok((v, string_of(rest))),
        Err(e) => Err(e),
    }
}

/// Parse a filter expression (what stands inside `select(...)`).
pub fn parse_filter_expr(input: &str) -> (r: Result<FilterExpr, PickError>)
    ensures
        match spec_filter_expr(input@) {
            Ok(f) => r matches Ok(fe) && fe@ == f,
            Err(m) => r matches Err(e) && e@ == ErrV::InvalidSelector(m),
        },
{
    let chars = chars_of(input);
    parse_filter_expr_chars(chars.as_slice())
}

} // verus!
