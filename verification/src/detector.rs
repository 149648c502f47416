//! Guessing the format of an input from its text.
use vstd::prelude::*;
use vstd::slice::slice_subrange;
use crate::cli::InputFormat;
use crate::text::{char_is_alnum, chars_of, find_char, find_char_in, has_prefix, is_ascii_alnum, is_char, is_ws, lemma_first_match_bounds, lines, lines_of, starts_with, trim, trim_slice, char_is_ws};

verus! {

// ──────────────────────────────────────────────
// Pieces of lines
// ──────────────────────────────────────────────

pub open spec fn ends_with(s: Seq<char>, p: Seq<char>) -> bool {
    p.len() <= s.len() && s.skip(s.len() - p.len()) == p
}

/// Where `q` first occurs in `s`.
pub open spec fn find_seq(s: Seq<char>, q: Seq<char>) -> Option<int>
    decreases s.len(),
{
    if s.len() < q.len() {
        None
    } else if s.take(q.len() as int) == q {
        Some(0)
    } else if s.len() == 0 {
        None
    } else {
        match find_seq(s.drop_first(), q) {
            Some(i) => Some(i + 1),
            None => None,
        }
    }
}

/// How many times `c` occurs in `s`.
pub open spec fn occurrences(s: Seq<char>, c: char) -> nat
    decreases s.len(),
{
    if s.len() == 0 {
        0
    } else {
        occurrences(s.drop_last(), c) + (if s.last() == c {
            1nat
        } else {
            0nat
        })
    }
}

/// How many white-space separated tokens of `s` hold an `=`, where the token
/// being read (if any) holds one when `has_eq`.
pub open spec fn eq_tokens(s: Seq<char>, in_token: bool, has_eq: bool) -> nat
    decreases s.len(),
{
    let close: nat = if in_token && has_eq {
        1
    } else {
        0
    };
    if s.len() == 0 {
        close
    } else if is_ws(s[0]) {
        close + eq_tokens(s.drop_first(), false, false)
    } else {
        eq_tokens(s.drop_first(), true, has_eq || s[0] == '=')
    }
}

pub open spec fn key_char(c: char) -> bool {
    is_ascii_alnum(c) || c == '_' || c == '-' || c == '.'
}

pub open spec fn all_key_chars(s: Seq<char>) -> bool {
    forall|i: int| 0 <= i < s.len() ==> key_char(#[trigger] s[i])
}

pub open spec fn alpha_or_dash(c: char) -> bool {
    ('a' <= c <= 'z') || ('A' <= c <= 'Z') || c == '-'
}

pub open spec fn is_upper(c: char) -> bool {
    'A' <= c <= 'Z'
}

/// `[name]` or `[[name]]` with a non-empty name of key characters: the first
/// line of a TOML text that starts with `[`.
pub open spec fn toml_section_header(l: Seq<char>) -> bool {
    ||| (starts_with(l, seq!['[', '[']) && ends_with(l, seq![']', ']']) && l.len() > 4
        && all_key_chars(l.subrange(2, l.len() - 2)))
    ||| (starts_with(l, seq!['[']) && ends_with(l, seq![']']) && !starts_with(l, seq!['[', '['])
        && l.len() > 2 && all_key_chars(l.subrange(1, l.len() - 1)))
}

// ──────────────────────────────────────────────
// What a line is
// ──────────────────────────────────────────────

/// The tests that the detection counts lines by.
pub enum LineTest {
    Nonblank,
    HeaderLine,
    HyphenKey,
    UpperStart,
    Section,
    TomlPair,
    LogfmtPairs,
    EnvRelevant,
    EnvPair,
    YamlLine,
    Commas(usize),
    Tabs(usize),
}

pub open spec fn nonblank(l: Seq<char>) -> bool {
    trim(l).len() > 0
}

pub open spec fn export_prefix() -> Seq<char> {
    seq!['e', 'x', 'p', 'o', 'r', 't', ' ']
}

/// `Key: value` with a key of ASCII letters and `-`.
pub open spec fn header_line(l: Seq<char>) -> bool {
    match find_char(l, ':') {
        Some(p) => p > 0 && forall|i: int| 0 <= i < p ==> alpha_or_dash(#[trigger] l[i]),
        None => false,
    }
}

pub open spec fn hyphen_key(l: Seq<char>) -> bool {
    match find_char(l, ':') {
        Some(p) => find_char(l.take(p), '-') is Some,
        None => false,
    }
}

pub open spec fn section_line(l: Seq<char>) -> bool {
    let t = trim(l);
    (starts_with(t, seq!['[']) && ends_with(t, seq![']']) && !starts_with(t, seq!['[', '[']))
        || (starts_with(t, seq!['[', '[']) && ends_with(t, seq![']', ']']))
}

/// `key = value` with spaces round the `=`.
pub open spec fn toml_pair(l: Seq<char>) -> bool {
    let t = trim(l);
    match find_seq(t, seq![' ', '=', ' ']) {
        Some(p) => p > 0 && all_key_chars(t.take(p)),
        None => false,
    }
}

/// A text without an `export ` prefix.
pub open spec fn after_export(t: Seq<char>) -> Seq<char> {
    if starts_with(t, export_prefix()) {
        t.skip(7)
    } else {
        t
    }
}

/// `KEY=value` (with the `export ` prefix gone): a key of ASCII letters,
/// digits and `_` that starts with an upper-case letter or `_`.
pub open spec fn env_assignment(l2: Seq<char>) -> bool {
    match find_char(l2, '=') {
        Some(p) => {
            &&& p > 0
            &&& find_char(l2.take(p), ' ') is None
            &&& forall|i: int| 0 <= i < p ==> (is_ascii_alnum(#[trigger] l2[i]) || l2[i] == '_')
            &&& (is_upper(l2[0]) || l2[0] == '_')
        },
        None => false,
    }
}

pub open spec fn env_pair(l: Seq<char>) -> bool {
    env_assignment(after_export(trim(l)))
}

/// `key: value`, `key:`, or a `- item`; not a comment.
pub open spec fn yaml_line(l: Seq<char>) -> bool {
    let t = trim(l);
    if t.len() == 0 || t[0] == '#' {
        false
    } else {
        match find_char(t, ':') {
            Some(p) => t.skip(p + 1).len() == 0 || t.skip(p + 1)[0] == ' ',
            None => starts_with(t, seq!['-', ' ']),
        }
    }
}

pub open spec fn holds(test: LineTest, l: Seq<char>) -> bool {
    match test {
        LineTest::Nonblank => nonblank(l),
        LineTest::HeaderLine => nonblank(l) && header_line(l),
        LineTest::HyphenKey => nonblank(l) && hyphen_key(l),
        LineTest::UpperStart => nonblank(l) && l.len() > 0 && is_upper(l[0]),
        LineTest::Section => section_line(l),
        LineTest::TomlPair => toml_pair(l),
        LineTest::LogfmtPairs => nonblank(l) && eq_tokens(trim(l), false, false) >= 2,
        LineTest::EnvRelevant => nonblank(l) && trim(l)[0] != '#',
        LineTest::EnvPair => nonblank(l) && trim(l)[0] != '#' && env_pair(l),
        LineTest::YamlLine => yaml_line(l),
        LineTest::Commas(n) => nonblank(l) && occurrences(trim(l), ',') == n,
        LineTest::Tabs(n) => nonblank(l) && occurrences(trim(l), '\t') == n,
    }
}

/// How many of the lines pass the test.
pub open spec fn count_where(ls: Seq<Seq<char>>, test: LineTest) -> nat
    decreases ls.len(),
{
    if ls.len() == 0 {
        0
    } else {
        count_where(ls.drop_last(), test) + (if holds(test, ls.last()) {
            1nat
        } else {
            0nat
        })
    }
}

/// The first line that holds more than white space.
pub open spec fn first_nonblank(ls: Seq<Seq<char>>) -> Seq<char>
    decreases ls.len(),
{
    if ls.len() == 0 {
        Seq::empty()
    } else if nonblank(ls[0]) {
        ls[0]
    } else {
        first_nonblank(ls.drop_first())
    }
}

// ──────────────────────────────────────────────
// The formats' signs
// ──────────────────────────────────────────────

/// At least two relevant lines (after an `HTTP/` status line), more than 70%
/// of them `Key: value` lines, and a key with `-` or more than 70% of the lines
/// starting with an upper-case letter.
pub open spec fn headers_like(ls: Seq<Seq<char>>) -> bool {
    if ls.len() < 2 {
        false
    } else {
        let r = if starts_with(ls[0], seq!['H', 'T', 'T', 'P', '/']) {
            ls.skip(1)
        } else {
            ls
        };
        let n = count_where(r, LineTest::Nonblank);
        n >= 2 && 10 * count_where(r, LineTest::HeaderLine) > 7 * n && (count_where(
            r,
            LineTest::HyphenKey,
        ) > 0 || 10 * count_where(r, LineTest::UpperStart) > 7 * n)
    }
}

pub open spec fn env_like(ls: Seq<Seq<char>>) -> bool {
    let n = count_where(ls, LineTest::EnvRelevant);
    n > 0 && 10 * count_where(ls, LineTest::EnvPair) > 7 * n
}

pub open spec fn toml_like(ls: Seq<Seq<char>>) -> bool {
    count_where(ls, LineTest::Section) > 0 || (count_where(ls, LineTest::TomlPair) > 0 && !env_like(ls))
}

pub open spec fn logfmt_like(ls: Seq<Seq<char>>) -> bool {
    let n = count_where(ls, LineTest::Nonblank);
    n > 0 && count_where(ls, LineTest::LogfmtPairs) == n
}

/// Two or more lines, all with the same positive number of commas, or else of
/// tabs.
pub open spec fn csv_like(ls: Seq<Seq<char>>) -> bool {
    let n = count_where(ls, LineTest::Nonblank);
    let f = trim(first_nonblank(ls));
    let c = occurrences(f, ',');
    let t = occurrences(f, '\t');
    n >= 2 && ((c >= 1 && count_where(ls, LineTest::Commas(c as usize)) == n) || (t >= 1
        && count_where(ls, LineTest::Tabs(t as usize)) == n))
}

/// A `---` first line, or more than half the lines YAML-like.
pub open spec fn yaml_like(ls: Seq<Seq<char>>) -> bool {
    if ls.len() == 0 {
        false
    } else if trim(ls[0]) == seq!['-', '-', '-'] {
        true
    } else {
        let n = count_where(ls, LineTest::Nonblank);
        n > 0 && 2 * count_where(ls, LineTest::YamlLine) > n
    }
}

/// The format a text looks like, tested in this order: JSON (`{`, or `[` not
/// opening a TOML section), headers, TOML, logfmt, .env, CSV, YAML, and
/// otherwise text.
pub open spec fn spec_detect(input: Seq<char>) -> InputFormat {
    let t = trim(input);
    if t.len() == 0 {
        InputFormat::Text
    } else if t[0] == '{' {
        InputFormat::Json
    } else if t[0] == '[' && !toml_section_header(trim(lines(t)[0])) {
        InputFormat::Json
    } else {
        let ls = lines(t);
        if headers_like(ls) {
            InputFormat::Headers
        } else if toml_like(ls) {
            InputFormat::Toml
        } else if logfmt_like(ls) {
            InputFormat::Logfmt
        } else if env_like(ls) {
            InputFormat::Env
        } else if csv_like(ls) {
            InputFormat::Csv
        } else if yaml_like(ls) {
            InputFormat::Yaml
        } else {
            InputFormat::Text
        }
    }
}

// ──────────────────────────────────────────────
// Executable tests
// ──────────────────────────────────────────────

fn has_suffix(s: &[char], p: &[char]) -> (b: bool)
    ensures
        b == ends_with(s@, p@),
{
    if p.len() > s.len() {
        return false;
    }
    let tail = slice_subrange(s, s.len() - p.len(), s.len());
    assert(tail@ =~= s@.skip(s@.len() - p@.len()));
    crate::text::same_chars(tail, p)
}

fn key_chars_only(s: &[char]) -> (b: bool)
    ensures
        b == all_key_chars(s@),
{
    let mut i: usize = 0;
    while i < s.len()
        invariant
            i <= s@.len(),
            forall|j: int| 0 <= j < i ==> key_char(#[trigger] s@[j]),
        decreases s.len() - i,
    {
        let c = s[i];
        if !(char_is_alnum(c) || c == '_' || c == '-' || c == '.') {
            return false;
        }
        i = i + 1;
    }
    true
}

fn find_seq_in(s: &[char], q: &[char]) -> (r: Option<usize>)
    ensures
        match find_seq(s@, q@) {
            Some(i) => r matches Some(x) && x == i,
            None => r is None,
        },
{
    let mut i: usize = 0;
    let n = s.len();
    assert(s@.skip(0) =~= s@);
    while i <= n
        invariant
            i <= n,
            n == s@.len(),
            find_seq(s@, q@) == match find_seq(s@.skip(i as int), q@) {
                Some(k) => Some(k + i),
                None => None::<int>,
            },
        decreases n + 1 - i,
    {
        let rest = slice_subrange(s, i, n);
        assert(rest@ =~= s@.skip(i as int));
        if rest.len() < q.len() {
            return None;
        }
        if has_prefix(rest, q) {
            return Some(i);
        }
        if i == n {
            return None;
        }
        assert(s@.skip(i as int).drop_first() =~= s@.skip(i + 1));
        i = i + 1;
    }
    None
}

fn count_char(s: &[char], c: char) -> (k: usize)
    ensures
        k == occurrences(s@, c),
{
    let mut k: usize = 0;
    let mut i: usize = 0;
    assert(s@.take(0) =~= Seq::<char>::empty());
    while i < s.len()
        invariant
            i <= s@.len(),
            k <= i,
            k == occurrences(s@.take(i as int), c),
        decreases s.len() - i,
    {
        assert(s@.take(i + 1).drop_last() =~= s@.take(i as int));
        if s[i] == c {
            k = k + 1;
        }
        i = i + 1;
    }
    assert(s@.take(i as int) =~= s@);
    k
}

fn count_eq_tokens(s: &[char]) -> (k: usize)
    ensures
        k == eq_tokens(s@, false, false),
{
    let mut k: usize = 0;
    let mut in_token = false;
    let mut has_eq = false;
    let mut i: usize = 0;
    assert(s@.skip(0) =~= s@);
    while i < s.len()
        invariant
            i <= s@.len(),
            k <= i,
            eq_tokens(s@, false, false) == k + eq_tokens(s@.skip(i as int), in_token, has_eq),
            in_token ==> i > 0,
            in_token && has_eq ==> k < i,
        decreases s.len() - i,
    {
        assert(s@.skip(i as int)[0] == s@[i as int]);
        assert(s@.skip(i as int).drop_first() =~= s@.skip(i + 1));
        if char_is_ws(s[i]) {
            if in_token && has_eq {
                k = k + 1;
            }
            in_token = false;
            has_eq = false;
        } else {
            has_eq = has_eq || s[i] == '=';
            in_token = true;
        }
        i = i + 1;
    }
    if in_token && has_eq {
        k = k + 1;
    }
    k
}

#[verifier::loop_isolation(false)]
fn header_line_exec(l: &[char]) -> (b: bool)
    ensures
        b == header_line(l@),
{
    match find_char_in(l, ':') {
        None => false,
        Some(p) => {
            proof { lemma_first_match_bounds(l@, is_char(':')); }
            if p == 0 {
                return false;
            }
            let mut i: usize = 0;
            while i < p
                invariant
                    i <= p,
                    p < l@.len(),
                    forall|j: int| 0 <= j < i ==> alpha_or_dash(#[trigger] l@[j]),
                decreases p - i,
            {
                let c = l[i];
                if !(('a' <= c && c <= 'z') || ('A' <= c && c <= 'Z') || c == '-') {
                    assert(!alpha_or_dash(l@[i as int]));
                    return false;
                }
                i = i + 1;
            }
            true
        },
    }
}

fn hyphen_key_exec(l: &[char]) -> (b: bool)
    ensures
        b == hyphen_key(l@),
{
    match find_char_in(l, ':') {
        None => false,
        Some(p) => {
            proof { lemma_first_match_bounds(l@, is_char(':')); }
            let key = slice_subrange(l, 0, p);
            assert(key@ =~= l@.take(p as int));
            find_char_in(key, '-').is_some()
        },
    }
}

fn section_exec(l: &[char]) -> (b: bool)
    ensures
        b == section_line(l@),
{
    let t = trim_slice(l);
    let one = vec!['['];
    let two = vec!['[', '['];
    let close1 = vec![']'];
    let close2 = vec![']', ']'];
    assert(one@ =~= seq!['[']);
    assert(two@ =~= seq!['[', '[']);
    assert(close1@ =~= seq![']']);
    assert(close2@ =~= seq![']', ']']);
    (has_prefix(t, one.as_slice()) && has_suffix(t, close1.as_slice()) && !has_prefix(t, two.as_slice()))
        || (has_prefix(t, two.as_slice()) && has_suffix(t, close2.as_slice()))
}

fn toml_pair_exec(l: &[char]) -> (b: bool)
    ensures
        b == toml_pair(l@),
{
    let t = trim_slice(l);
    let sep = vec![' ', '=', ' '];
    assert(sep@ =~= seq![' ', '=', ' ']);
    match find_seq_in(t, sep.as_slice()) {
        None => false,
        Some(p) => {
            proof { lemma_find_seq_bounds(t@, sep@); }
            if p == 0 {
                return false;
            }
            let key = slice_subrange(t, 0, p);
            assert(key@ =~= t@.take(p as int));
            key_chars_only(key)
        },
    }
}

pub proof fn lemma_find_seq_bounds(s: Seq<char>, q: Seq<char>)
    ensures
        find_seq(s, q) matches Some(i) ==> 0 <= i <= s.len() - q.len(),
    decreases s.len(),
{
    if s.len() >= q.len() && s.take(q.len() as int) != q && s.len() > 0 {
        lemma_find_seq_bounds(s.drop_first(), q);
    }
}

#[verifier::loop_isolation(false)]
fn env_pair_exec(l: &[char]) -> (b: bool)
    ensures
        b == env_pair(l@),
{
    let t = trim_slice(l);
    let prefix = vec!['e', 'x', 'p', 'o', 'r', 't', ' '];
    assert(prefix@ =~= export_prefix());
    let l2 = if has_prefix(t, prefix.as_slice()) {
        slice_subrange(t, 7, t.len())
    } else {
        t
    };
    let ghost sl2 = after_export(trim(l@));
    assert(l2@ =~= sl2);
    match find_char_in(l2, '=') {
        None => false,
        Some(p) => {
            proof { lemma_first_match_bounds(l2@, is_char('=')); }
            if p == 0 {
                return false;
            }
            let key = slice_subrange(l2, 0, p);
            assert(key@ =~= l2@.take(p as int));
            if find_char_in(key, ' ').is_some() {
                return false;
            }
            let mut i: usize = 0;
            while i < p
                invariant
                    i <= p,
                    p < l2@.len(),
                    forall|j: int| 0 <= j < i ==> (is_ascii_alnum(#[trigger] l2@[j]) || l2@[j] == '_'),
                decreases p - i,
            {
                let c = l2[i];
                if !(char_is_alnum(c) || c == '_') {
                    assert(!(is_ascii_alnum(sl2[i as int]) || sl2[i as int] == '_'));
                    return false;
                }
                i = i + 1;
            }
            let c0 = l2[0];
            ('A' <= c0 && c0 <= 'Z') || c0 == '_'
        },
    }
}

fn yaml_line_exec(l: &[char]) -> (b: bool)
    ensures
        b == yaml_line(l@),
{
    let t = trim_slice(l);
    if t.len() == 0 || t[0] == '#' {
        return false;
    }
    match find_char_in(t, ':') {
        Some(p) => {
            proof { lemma_first_match_bounds(t@, is_char(':')); }
            let after = slice_subrange(t, p + 1, t.len());
            assert(after@ =~= t@.skip(p + 1));
            after.len() == 0 || after[0] == ' '
        },
        None => {
            let item = vec!['-', ' '];
            assert(item@ =~= seq!['-', ' ']);
            has_prefix(t, item.as_slice())
        },
    }
}

fn check(test: &LineTest, l: &[char]) -> (b: bool)
    ensures
        b == holds(*test, l@),
{
    let t = trim_slice(l);
    let nb = t.len() > 0;
    match test {
        LineTest::Nonblank => nb,
        LineTest::HeaderLine => nb && header_line_exec(l),
        LineTest::HyphenKey => nb && hyphen_key_exec(l),
        LineTest::UpperStart => nb && l.len() > 0 && 'A' <= l[0] && l[0] <= 'Z',
        LineTest::Section => section_exec(l),
        LineTest::TomlPair => toml_pair_exec(l),
        LineTest::LogfmtPairs => nb && count_eq_tokens(t) >= 2,
        LineTest::EnvRelevant => nb && t[0] != '#',
        LineTest::EnvPair => nb && t[0] != '#' && env_pair_exec(l),
        LineTest::YamlLine => yaml_line_exec(l),
        LineTest::Commas(n) => nb && count_char(t, ',') == *n,
        LineTest::Tabs(n) => nb && count_char(t, '\t') == *n,
    }
}

pub open spec fn line_views(ls: Seq<&[char]>) -> Seq<Seq<char>> {
    ls.map_values(|l: &[char]| l@)
}

fn count_lines(ls: &[&[char]], test: LineTest) -> (k: usize)
    ensures
        k == count_where(line_views(ls@), test),
{
    let mut k: usize = 0;
    let mut i: usize = 0;
    assert(line_views(ls@).take(0) =~= Seq::<Seq<char>>::empty());
    while i < ls.len()
        invariant
            i <= ls@.len(),
            k <= i,
            k == count_where(line_views(ls@).take(i as int), test),
        decreases ls.len() - i,
    {
        assert(line_views(ls@).take(i + 1).drop_last() =~= line_views(ls@).take(i as int));
        assert(line_views(ls@).take(i + 1).last() == ls@[i as int]@);
        if check(&test, ls[i]) {
            k = k + 1;
        }
        i = i + 1;
    }
    assert(line_views(ls@).take(i as int) =~= line_views(ls@));
    k
}

fn first_nonblank_of<'a>(ls: &[&'a [char]]) -> (r: &'a [char])
    ensures
        r@ == first_nonblank(line_views(ls@)),
{
    let mut i: usize = 0;
    assert(line_views(ls@).skip(0) =~= line_views(ls@));
    while i < ls.len()
        invariant
            i <= ls@.len(),
            first_nonblank(line_views(ls@)) == first_nonblank(line_views(ls@).skip(i as int)),
        decreases ls.len() - i,
    {
        assert(line_views(ls@).skip(i as int)[0] == ls@[i as int]@);
        assert(line_views(ls@).skip(i as int).drop_first() =~= line_views(ls@).skip(i + 1));
        if trim_slice(ls[i]).len() > 0 {
            return ls[i];
        }
        i = i + 1;
    }
    &[]
}

fn looks_like_headers(ls: &[&[char]]) -> (b: bool)
    ensures
        b == headers_like(line_views(ls@)),
{
    if ls.len() < 2 {
        return false;
    }
    let http = vec!['H', 'T', 'T', 'P', '/'];
    assert(http@ =~= seq!['H', 'T', 'T', 'P', '/']);
    let start: usize = if has_prefix(ls[0], http.as_slice()) {
        1
    } else {
        0
    };
    let r = slice_subrange(ls, start, ls.len());
    assert(line_views(r@) =~= (if start == 1 {
        line_views(ls@).skip(1)
    } else {
        line_views(ls@)
    }));
    let n = count_lines(r, LineTest::Nonblank);
    if n < 2 {
        return false;
    }
    let hc = count_lines(r, LineTest::HeaderLine);
    if hc as u128 * 10 <= n as u128 * 7 {
        return false;
    }
    let hy = count_lines(r, LineTest::HyphenKey);
    let up = count_lines(r, LineTest::UpperStart);
    hy > 0 || up as u128 * 10 > n as u128 * 7
}

fn looks_like_env(ls: &[&[char]]) -> (b: bool)
    ensures
        b == env_like(line_views(ls@)),
{
    let n = count_lines(ls, LineTest::EnvRelevant);
    if n == 0 {
        return false;
    }
    let e = count_lines(ls, LineTest::EnvPair);
    e as u128 * 10 > n as u128 * 7
}

fn looks_like_toml(ls: &[&[char]]) -> (b: bool)
    ensures
        b == toml_like(line_views(ls@)),
{
    if count_lines(ls, LineTest::Section) > 0 {
        return true;
    }
    count_lines(ls, LineTest::TomlPair) > 0 && !looks_like_env(ls)
}

fn looks_like_logfmt(ls: &[&[char]]) -> (b: bool)
    ensures
        b == logfmt_like(line_views(ls@)),
{
    let n = count_lines(ls, LineTest::Nonblank);
    n > 0 && count_lines(ls, LineTest::LogfmtPairs) == n
}

fn looks_like_csv(ls: &[&[char]]) -> (b: bool)
    ensures
        b == csv_like(line_views(ls@)),
{
    let n = count_lines(ls, LineTest::Nonblank);
    if n < 2 {
        return false;
    }
    let f = trim_slice(first_nonblank_of(ls));
    let c = count_char(f, ',');
    if c >= 1 && count_lines(ls, LineTest::Commas(c)) == n {
        return true;
    }
    let t = count_char(f, '\t');
    t >= 1 && count_lines(ls, LineTest::Tabs(t)) == n
}

fn looks_like_yaml(ls: &[&[char]]) -> (b: bool)
    ensures
        b == yaml_like(line_views(ls@)),
{
    if ls.len() == 0 {
        return false;
    }
    let first = trim_slice(ls[0]);
    let dashes = vec!['-', '-', '-'];
    assert(dashes@ =~= seq!['-', '-', '-']);
    if crate::text::same_chars(first, dashes.as_slice()) {
        return true;
    }
    let n = count_lines(ls, LineTest::Nonblank);
    let y = count_lines(ls, LineTest::YamlLine);
    n > 0 && y as u128 * 2 > n as u128
}

fn toml_section_exec(l: &[char]) -> (b: bool)
    ensures
        b == toml_section_header(l@),
{
    let two = vec!['[', '['];
    let close2 = vec![']', ']'];
    let one = vec!['['];
    let close1 = vec![']'];
    assert(one@ =~= seq!['[']);
    assert(two@ =~= seq!['[', '[']);
    assert(close1@ =~= seq![']']);
    assert(close2@ =~= seq![']', ']']);
    let double = has_prefix(l, two.as_slice());
    if double && has_suffix(l, close2.as_slice()) && l.len() > 4 {
        let inner = slice_subrange(l, 2, l.len() - 2);
        if key_chars_only(inner) {
            return true;
        }
    }
    if has_prefix(l, one.as_slice()) && has_suffix(l, close1.as_slice()) && !double && l.len() > 2 {
        let inner = slice_subrange(l, 1, l.len() - 1);
        return key_chars_only(inner);
    }
    false
}

/// Guess the format of an input.
pub fn detect_format(input: &str) -> (f: InputFormat)
    ensures
        f == spec_detect(input@),
{
    let cs = chars_of(input);
    let t = trim_slice(cs.as_slice());
    if t.len() == 0 {
        return InputFormat::Text;
    }
    if t[0] == '{' {
        return InputFormat::Json;
    }
    let all = lines_of(t);
    assert(line_views(all@) =~= lines(t@));
    if t[0] == '[' {
        proof { crate::text::lemma_lines_nonempty(t@); }
        let first = trim_slice(all[0]);
        if !toml_section_exec(first) {
            return InputFormat::Json;
        }
    }
    let ls = all.as_slice();
    if looks_like_headers(ls) {
        InputFormat::Headers
    } else if looks_like_toml(ls) {
        InputFormat::Toml
    } else if looks_like_logfmt(ls) {
        InputFormat::Logfmt
    } else if looks_like_env(ls) {
        InputFormat::Env
    } else if looks_like_csv(ls) {
        InputFormat::Csv
    } else if looks_like_yaml(ls) {
        InputFormat::Yaml
    } else {
        InputFormat::Text
    }
}

} // verus!
