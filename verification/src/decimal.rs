//! Decimal numbers written as text: the grammar that `f64::from_str` accepts
//! for the characters `0-9 . + - e E`, the exact value of such a text, and the
//! order of those values.
use vstd::prelude::*;
use crate::text::{
    all_digits, char_is_digit, digit_val, digits_value, first_match, is_ascii_digit,
    lemma_digits_value_nonneg, lemma_first_match,
};
use crate::value::{chars_less, nat_text, push_digits, str_lt};
use crate::text::lemma_first_match_bounds;

verus! {

pub open spec fn not_digit() -> spec_fn(char) -> bool {
    |c: char| !is_ascii_digit(c)
}

/// Number of leading ASCII digits.
pub open spec fn lead_digits(s: Seq<char>) -> int {
    match first_match(s, not_digit()) {
        Some(i) => i,
        None => s.len() as int,
    }
}

pub open spec fn strip_sign(s: Seq<char>) -> Seq<char> {
    if s.len() > 0 && (s[0] == '+' || s[0] == '-') {
        s.drop_first()
    } else {
        s
    }
}

pub open spec fn valid_exponent(e: Seq<char>) -> bool {
    let b = strip_sign(e);
    b.len() > 0 && all_digits(b)
}

/// Digits of the mantissa `digits* ['.' digits*]` at the start of `b`: how many
/// digits it holds, and the text after it.
pub open spec fn after_mantissa(b: Seq<char>) -> (int, Seq<char>) {
    let n1 = lead_digits(b);
    let r1 = b.skip(n1);
    if r1.len() > 0 && r1[0] == '.' {
        let f = r1.drop_first();
        (n1 + lead_digits(f), f.skip(lead_digits(f)))
    } else {
        (n1, r1)
    }
}

/// `[sign] digits* ['.' digits*] [('e'|'E') [sign] digits+]`, with at least one
/// digit before the exponent.
pub open spec fn valid_float(s: Seq<char>) -> bool {
    let (n, r2) = after_mantissa(strip_sign(s));
    n > 0 && (r2.len() == 0 || ((r2[0] == 'e' || r2[0] == 'E') && valid_exponent(r2.drop_first())))
}

fn count_digits(s: &[char], from: usize) -> (n: usize)
    requires
        from <= s@.len(),
    ensures
        n == lead_digits(s@.skip(from as int)),
        from + n <= s@.len(),
{
    let mut i = from;
    while i < s.len() && char_is_digit(s[i])
        invariant
            from <= i <= s.len(),
            forall|j: int| from <= j < i ==> is_ascii_digit(#[trigger] s@[j]),
        decreases s.len() - i,
    {
        i = i + 1;
    }
    let ghost t = s@.skip(from as int);
    proof {
        assert forall|j: int| 0 <= j < i - from implies !not_digit()(#[trigger] t[j]) by {
            assert(t[j] == s@[from + j]);
        }
        if i < s.len() {
            assert(t[i - from] == s@[i as int]);
        }
        lemma_first_match(t, not_digit(), i - from);
    }
    i - from
}

fn mantissa(s: &[char], start: usize) -> (r: (usize, usize))
    requires
        start <= s@.len(),
    ensures
        r.1 <= s@.len(),
        after_mantissa(s@.skip(start as int)) == (r.0 as int, s@.skip(r.1 as int)),
{
    let ghost b = s@.skip(start as int);
    let n1 = count_digits(s, start);
    assert(s@.len() == s.len());
    let pos = start + n1;
    assert(b.skip(n1 as int) =~= s@.skip(pos as int));
    if pos < s.len() && s[pos] == '.' {
        let n2 = count_digits(s, pos + 1);
        assert(s@.skip(pos as int).drop_first() =~= s@.skip(pos + 1));
        assert(s@.skip(pos + 1).skip(n2 as int) =~= s@.skip(pos + 1 + n2));
        (n1 + n2, pos + 1 + n2)
    } else {
        (n1, pos)
    }
}

fn exponent_ok(s: &[char], pos: usize) -> (b: bool)
    requires
        pos <= s@.len(),
    ensures
        b == valid_exponent(s@.skip(pos as int)),
{
    let estart = if pos < s.len() && (s[pos] == '+' || s[pos] == '-') {
        pos + 1
    } else {
        pos
    };
    let ghost eb = strip_sign(s@.skip(pos as int));
    assert(eb =~= s@.skip(estart as int));
    if estart == s.len() {
        return false;
    }
    let ne = count_digits(s, estart);
    proof {
        crate::text::lemma_first_match_bounds(eb, not_digit());
    }
    if estart + ne == s.len() {
        assert(all_digits(eb));
        true
    } else {
        assert(!is_ascii_digit(eb[ne as int]));
        false
    }
}

pub fn is_valid_float(s: &[char]) -> (b: bool)
    ensures
        b == valid_float(s@),
{
    let start: usize = if s.len() > 0 && (s[0] == '+' || s[0] == '-') {
        1
    } else {
        0
    };
    assert(strip_sign(s@) =~= s@.skip(start as int));
    let (n, pos) = mantissa(s, start);
    if n == 0 {
        return false;
    }
    if pos == s.len() {
        return true;
    }
    if s[pos] != 'e' && s[pos] != 'E' {
        return false;
    }
    assert(s@.skip(pos as int).drop_first() =~= s@.skip(pos + 1));
    exponent_ok(s, pos + 1)
}

// ──────────────────────────────────────────────
// The value of a decimal text
// ──────────────────────────────────────────────

/// Exponents are taken with magnitude at most this (far beyond the range of
/// any `f64`, where such a text would stand for an infinity or a zero).
pub const EXP_CAP: i128 = 1000000000000000000000000000000000000;

/// A decimal value `±0.d1d2…dn × 10^point` in lowest terms: `digits` has no
/// leading and no trailing `'0'`; zero has no digits, `point` 0 and no sign.
pub struct Dec {
    pub neg: bool,
    pub digits: Seq<char>,
    pub point: int,
}

/// The value of an exponent text `[sign] digits+`, its magnitude capped.
pub open spec fn exp_value(e: Seq<char>) -> int {
    let m = digits_value(strip_sign(e));
    let c = if m > EXP_CAP {
        EXP_CAP as int
    } else {
        m
    };
    if e.len() > 0 && e[0] == '-' {
        -c
    } else {
        c
    }
}

/// Number of leading `'0'`s.
pub open spec fn lead_zeros(s: Seq<char>) -> int
    decreases s.len(),
{
    if s.len() > 0 && s[0] == '0' {
        1 + lead_zeros(s.drop_first())
    } else {
        0
    }
}

/// `s` without its trailing `'0'`s.
pub open spec fn strip_trailing_zeros(s: Seq<char>) -> Seq<char>
    decreases s.len(),
{
    if s.len() > 0 && s.last() == '0' {
        strip_trailing_zeros(s.drop_last())
    } else {
        s
    }
}

/// The digits of a decimal text's mantissa (integer part, then fraction), how
/// many of them stand before the point, and the exponent.
pub open spec fn dec_parts(s: Seq<char>) -> (Seq<char>, int, int) {
    let b = strip_sign(s);
    let n1 = lead_digits(b);
    let r1 = b.skip(n1);
    let f = r1.drop_first();
    let has_frac = r1.len() > 0 && r1[0] == '.';
    let frac = if has_frac {
        f.take(lead_digits(f))
    } else {
        Seq::empty()
    };
    let r2 = if has_frac {
        f.skip(lead_digits(f))
    } else {
        r1
    };
    let e = if r2.len() == 0 {
        0
    } else {
        exp_value(r2.drop_first())
    };
    (b.take(n1) + frac, n1, e)
}

/// `±0.all × 10^(n1 + e)` in lowest terms.
pub open spec fn normalize(neg: bool, all: Seq<char>, n1: int, e: int) -> Dec {
    let z = lead_zeros(all);
    let sig = strip_trailing_zeros(all.skip(z));
    if sig.len() == 0 {
        Dec { neg: false, digits: sig, point: 0 }
    } else {
        Dec { neg: neg, digits: sig, point: n1 + e - z }
    }
}

/// The value of a text that `valid_float` accepts.
pub open spec fn dec_of(s: Seq<char>) -> Dec {
    let (all, n1, e) = dec_parts(s);
    normalize(s.len() > 0 && s[0] == '-', all, n1, e)
}

/// The outcome of comparing two values.
#[derive(Debug, Clone, Copy, PartialEq, Eq, Structural)]
pub enum Order3 {
    Less,
    Equal,
    Greater,
}

pub open spec fn reverse(o: Order3) -> Order3 {
    match o {
        Order3::Less => Order3::Greater,
        Order3::Equal => Order3::Equal,
        Order3::Greater => Order3::Less,
    }
}

/// Order of the magnitudes `|a|` and `|b|`: zero is least; otherwise the
/// larger `point` is larger, and with equal points the digits decide as
/// written (a digit run that is a prefix of the other is less).
pub open spec fn mag_order(a: Dec, b: Dec) -> Order3 {
    if a.digits.len() == 0 {
        if b.digits.len() == 0 {
            Order3::Equal
        } else {
            Order3::Less
        }
    } else if b.digits.len() == 0 {
        Order3::Greater
    } else if a.point < b.point {
        Order3::Less
    } else if a.point > b.point {
        Order3::Greater
    } else if a.digits == b.digits {
        Order3::Equal
    } else if str_lt(a.digits, b.digits) {
        Order3::Less
    } else {
        Order3::Greater
    }
}

/// Order of the values `a` and `b`.
pub open spec fn dec_order(a: Dec, b: Dec) -> Order3 {
    if a.neg && !b.neg {
        Order3::Less
    } else if !a.neg && b.neg {
        Order3::Greater
    } else if a.neg {
        reverse(mag_order(a, b))
    } else {
        mag_order(a, b)
    }
}

/// A `Dec` held by executable code.
pub struct DecimalValue {
    pub neg: bool,
    pub digits: Vec<char>,
    pub point: i128,
}

impl View for DecimalValue {
    type V = Dec;

    open spec fn view(&self) -> Dec {
        Dec { neg: self.neg, digits: self.digits@, point: self.point as int }
    }
}

/// The capped value of the exponent text starting at `pos`.
fn exponent_value(s: &[char], pos: usize) -> (r: i128)
    requires
        pos <= s@.len(),
        valid_exponent(s@.skip(pos as int)),
    ensures
        r == exp_value(s@.skip(pos as int)),
        -EXP_CAP <= r <= EXP_CAP,
{
    let ghost e = s@.skip(pos as int);
    let neg = pos < s.len() && s[pos] == '-';
    let start = if pos < s.len() && (s[pos] == '+' || s[pos] == '-') {
        pos + 1
    } else {
        pos
    };
    assert(strip_sign(e) =~= s@.skip(start as int));
    let mut acc: i128 = 0;
    let mut big = false;
    let mut i: usize = start;
    while i < s.len()
        invariant
            start <= i <= s.len(),
            all_digits(s@.skip(start as int)),
            !big ==> acc == digits_value(s@.subrange(start as int, i as int)),
            !big ==> 0 <= acc <= EXP_CAP,
            big ==> digits_value(s@.subrange(start as int, i as int)) > EXP_CAP,
        decreases s.len() - i,
    {
        let ghost prev = s@.subrange(start as int, i as int);
        let ghost next = s@.subrange(start as int, i + 1);
        assert(next.drop_last() =~= prev);
        assert(next.last() == s@.skip(start as int)[i - start]);
        assert(all_digits(prev)) by {
            assert forall|j: int| 0 <= j < prev.len() implies is_ascii_digit(#[trigger] prev[j]) by {
                assert(prev[j] == s@.skip(start as int)[j]);
            }
        }
        proof { lemma_digits_value_nonneg(prev); }
        let d = (s[i] as u32 - '0' as u32) as i128;
        if !big {
            acc = acc * 10 + d;
            if acc > EXP_CAP {
                big = true;
            }
        } else {
            assert(digits_value(next) == digits_value(prev) * 10 + digit_val(next.last()));
        }
        i = i + 1;
    }
    assert(s@.subrange(start as int, s.len() as int) =~= s@.skip(start as int));
    let m = if big {
        EXP_CAP
    } else {
        acc
    };
    if neg {
        -m
    } else {
        m
    }
}

/// Append `s[from..to]` to `out`.
fn push_chars(out: &mut Vec<char>, s: &[char], from: usize, to: usize)
    requires
        from <= to <= s@.len(),
    ensures
        final(out)@ == old(out)@ + s@.subrange(from as int, to as int),
{
    let mut i = from;
    while i < to
        invariant
            from <= i <= to,
            to <= s@.len(),
            out@ == old(out)@ + s@.subrange(from as int, i as int),
        decreases to - i,
    {
        out.push(s[i]);
        assert(s@.subrange(from as int, i + 1) =~= s@.subrange(from as int, i as int).push(s@[i as int]));
        i = i + 1;
    }
}

fn mantissa_parts(s: &[char]) -> (r: (Vec<char>, usize, i128))
    requires
        valid_float(s@),
    ensures
        dec_parts(s@) == (r.0@, r.1 as int, r.2 as int),
        r.1 <= s@.len(),
        -EXP_CAP <= r.2 <= EXP_CAP,
{
    let ghost b = strip_sign(s@);
    let start: usize = if s.len() > 0 && (s[0] == '+' || s[0] == '-') {
        1
    } else {
        0
    };
    assert(b =~= s@.skip(start as int));
    let n1 = count_digits(s, start);
    let mut all: Vec<char> = Vec::new();
    push_chars(&mut all, s, start, start + n1);
    assert(all@ =~= b.take(n1 as int));
    let mut pos = start + n1;
    let ghost r1 = b.skip(n1 as int);
    assert(r1 =~= s@.skip(pos as int));
    if pos < s.len() && s[pos] == '.' {
        let ghost f = r1.drop_first();
        assert(f =~= s@.skip(pos + 1));
        let n2 = count_digits(s, pos + 1);
        push_chars(&mut all, s, pos + 1, pos + 1 + n2);
        assert(s@.subrange(pos + 1, pos + 1 + n2) =~= f.take(n2 as int));
        assert(f.skip(n2 as int) =~= s@.skip(pos + 1 + n2));
        pos = pos + 1 + n2;
    } else {
        assert(b.take(n1 as int) + Seq::<char>::empty() =~= b.take(n1 as int));
    }
    let e: i128 = if pos == s.len() {
        0
    } else {
        assert(s@.skip(pos as int).drop_first() =~= s@.skip(pos + 1));
        exponent_value(s, pos + 1)
    };
    (all, n1, e)
}

fn normalized(neg: bool, all: Vec<char>, n1: usize, e: i128) -> (r: DecimalValue)
    requires
        -EXP_CAP <= e <= EXP_CAP,
    ensures
        r@ == normalize(neg, all@, n1 as int, e as int),
        -2 * EXP_CAP <= r.point <= 2 * EXP_CAP,
{
    let ghost al = all@;
    let mut z: usize = 0;
    assert(al.skip(0) =~= al);
    while z < all.len() && all[z] == '0'
        invariant
            z <= all@.len(),
            all@ == al,
            z + lead_zeros(al.skip(z as int)) == lead_zeros(al),
        decreases all.len() - z,
    {
        assert(al.skip(z as int).drop_first() =~= al.skip(z + 1));
        z = z + 1;
    }
    assert(lead_zeros(al.skip(z as int)) == 0);
    let mut end: usize = all.len();
    assert(al.subrange(z as int, end as int) =~= al.skip(z as int));
    while end > z && all[end - 1] == '0'
        invariant
            z <= end <= all@.len(),
            all@ == al,
            strip_trailing_zeros(al.subrange(z as int, end as int)) == strip_trailing_zeros(al.skip(z as int)),
        decreases end,
    {
        assert(al.subrange(z as int, end as int).drop_last() =~= al.subrange(z as int, end - 1));
        end = end - 1;
    }
    let mut digits: Vec<char> = Vec::new();
    push_chars(&mut digits, all.as_slice(), z, end);
    assert(digits@ =~= al.subrange(z as int, end as int));
    assert(strip_trailing_zeros(digits@) == digits@);
    if z == end {
        DecimalValue { neg: false, digits, point: 0 }
    } else {
        DecimalValue { neg, digits, point: n1 as i128 + e - z as i128 }
    }
}

/// The value of a decimal text.
pub fn decimal_value(s: &[char]) -> (r: DecimalValue)
    requires
        valid_float(s@),
    ensures
        r@ == dec_of(s@),
        -2 * EXP_CAP <= r.point <= 2 * EXP_CAP,
{
    let (all, n1, e) = mantissa_parts(s);
    let neg = s.len() > 0 && s[0] == '-';
    normalized(neg, all, n1, e)
}

fn same_digits(a: &Vec<char>, b: &Vec<char>) -> (r: bool)
    ensures
        r == (a@ == b@),
{
    if a.len() != b.len() {
        return false;
    }
    let mut i: usize = 0;
    while i < a.len()
        invariant
            i <= a@.len(),
            a@.len() == b@.len(),
            forall|j: int| 0 <= j < i ==> a@[j] == b@[j],
        decreases a.len() - i,
    {
        if a[i] != b[i] {
            return false;
        }
        i = i + 1;
    }
    assert(a@ =~= b@);
    true
}

fn magnitude_order(a: &DecimalValue, b: &DecimalValue) -> (r: Order3)
    ensures
        r == mag_order(a@, b@),
{
    if a.digits.len() == 0 {
        if b.digits.len() == 0 {
            Order3::Equal
        } else {
            Order3::Less
        }
    } else if b.digits.len() == 0 {
        Order3::Greater
    } else if a.point < b.point {
        Order3::Less
    } else if a.point > b.point {
        Order3::Greater
    } else if same_digits(&a.digits, &b.digits) {
        Order3::Equal
    } else if chars_less(a.digits.as_slice(), b.digits.as_slice()) {
        Order3::Less
    } else {
        Order3::Greater
    }
}

/// Compare two decimal values.
pub fn decimal_order(a: &DecimalValue, b: &DecimalValue) -> (r: Order3)
    ensures
        r == dec_order(a@, b@),
{
    if a.neg && !b.neg {
        Order3::Less
    } else if !a.neg && b.neg {
        Order3::Greater
    } else if a.neg {
        match magnitude_order(a, b) {
            Order3::Less => Order3::Greater,
            Order3::Equal => Order3::Equal,
            Order3::Greater => Order3::Less,
        }
    } else {
        magnitude_order(a, b)
    }
}

// ──────────────────────────────────────────────
// Whole numbers and canonical texts
// ──────────────────────────────────────────────

pub open spec fn zeros(n: nat) -> Seq<char> {
    Seq::new(n, |i: int| '0')
}

/// The value as an `i64` when it is a whole number in range.
pub open spec fn whole_i64(d: Dec) -> Option<i64> {
    if d.digits.len() == 0 {
        Some(0)
    } else if d.point < d.digits.len() {
        None
    } else {
        let m = digits_value(d.digits + zeros((d.point - d.digits.len()) as nat));
        let v = if d.neg {
            -m
        } else {
            m
        };
        if i64::MIN <= v <= i64::MAX {
            Some(v as i64)
        } else {
            None
        }
    }
}

/// `i` in decimal, with a `-` when negative.
pub open spec fn int_text(i: int) -> Seq<char> {
    if i < 0 {
        seq!['-'] + nat_text((-i) as nat)
    } else {
        nat_text(i as nat)
    }
}

/// A JSON number text for a value: `[-]0.<digits>e<point>`, or `0`.
pub open spec fn canonical_text(d: Dec) -> Seq<char> {
    if d.digits.len() == 0 {
        seq!['0']
    } else {
        (if d.neg {
            seq!['-']
        } else {
            Seq::empty()
        }) + seq!['0', '.'] + d.digits + seq!['e'] + int_text(d.point)
    }
}

pub proof fn lemma_strip_trailing_prefix(s: Seq<char>)
    ensures
        strip_trailing_zeros(s).len() <= s.len(),
        strip_trailing_zeros(s) == s.take(strip_trailing_zeros(s).len() as int),
    decreases s.len(),
{
    if s.len() > 0 && s.last() == '0' {
        lemma_strip_trailing_prefix(s.drop_last());
        assert(s.drop_last().take(strip_trailing_zeros(s).len() as int) =~= s.take(
            strip_trailing_zeros(s).len() as int,
        ));
    } else {
        assert(s.take(s.len() as int) =~= s);
    }
}

pub proof fn lemma_lead_zeros_bounds(s: Seq<char>)
    ensures
        0 <= lead_zeros(s) <= s.len(),
    decreases s.len(),
{
    if s.len() > 0 && s[0] == '0' {
        lemma_lead_zeros_bounds(s.drop_first());
    }
}

proof fn lemma_lead_digits_all(b: Seq<char>)
    ensures
        0 <= lead_digits(b) <= b.len(),
        all_digits(b.take(lead_digits(b))),
{
    lemma_first_match_bounds(b, not_digit());
    assert forall|j: int| 0 <= j < lead_digits(b) implies is_ascii_digit(#[trigger] b.take(lead_digits(b))[j]) by {
        assert(b.take(lead_digits(b))[j] == b[j]);
        assert(!not_digit()(b[j]));
    }
}

/// The digits of a decimal text's value are ASCII digits.
pub proof fn lemma_dec_digits(s: Seq<char>)
    ensures
        all_digits(dec_of(s).digits),
{
    let b = strip_sign(s);
    let n1 = lead_digits(b);
    lemma_lead_digits_all(b);
    let r1 = b.skip(n1);
    let f = r1.drop_first();
    lemma_lead_digits_all(f);
    let (all, _n, _e) = dec_parts(s);
    assert(all_digits(all)) by {
        assert forall|j: int| 0 <= j < all.len() implies is_ascii_digit(#[trigger] all[j]) by {
            if j < n1 {
                assert(all[j] == b.take(n1)[j]);
            } else {
                assert(all[j] == f.take(lead_digits(f))[j - n1]);
            }
        }
    }
    lemma_lead_zeros_bounds(all);
    let t = all.skip(lead_zeros(all));
    lemma_strip_trailing_prefix(t);
    let sig = strip_trailing_zeros(t);
    assert forall|j: int| 0 <= j < sig.len() implies is_ascii_digit(#[trigger] sig[j]) by {
        assert(sig[j] == t.take(sig.len() as int)[j]);
        assert(t[j] == all[j + lead_zeros(all)]);
    }
}

pub proof fn lemma_digits_value_prefix(s: Seq<char>, k: int)
    requires
        all_digits(s),
        0 <= k <= s.len(),
    ensures
        digits_value(s.take(k)) <= digits_value(s),
    decreases s.len(),
{
    if k < s.len() {
        let t = s.drop_last();
        assert(all_digits(t)) by {
            assert forall|j: int| 0 <= j < t.len() implies is_ascii_digit(#[trigger] t[j]) by {
                assert(t[j] == s[j]);
            }
        }
        lemma_digits_value_prefix(t, k);
        assert(t.take(k) =~= s.take(k));
        lemma_digits_value_nonneg(t);
        assert(is_ascii_digit(s[s.len() - 1]));
    } else {
        assert(s.take(k) =~= s);
    }
}

/// The value of `d` as an `i64`, as `whole_i64`.
pub fn whole_value(d: &DecimalValue) -> (r: Option<i64>)
    requires
        all_digits(d.digits@),
    ensures
        r == whole_i64(d@),
{
    let len = d.digits.len();
    if len == 0 {
        return Some(0);
    }
    if d.point < len as i128 {
        return None;
    }
    let ghost full = d.digits@ + zeros((d.point - len) as nat);
    assert(all_digits(full)) by {
        assert forall|j: int| 0 <= j < full.len() implies is_ascii_digit(#[trigger] full[j]) by {
            if j < len {
                assert(full[j] == d.digits@[j]);
            } else {
                assert(full[j] == '0');
            }
        }
    }
    let limit: u128 = 9223372036854775808;
    let mut acc: u128 = 0;
    let mut big = false;
    let mut k: i128 = 0;
    assert(full.take(0) =~= Seq::<char>::empty());
    while k < d.point && !big
        invariant
            0 <= k <= d.point,
            full.len() == d.point,
            len == d.digits@.len(),
            full == d.digits@ + zeros((d.point - len) as nat),
            all_digits(full),
            !big ==> acc == digits_value(full.take(k as int)),
            !big ==> acc <= limit,
            big ==> digits_value(full.take(k as int)) > limit,
            limit == 9223372036854775808,
        decreases d.point - k,
    {
        let c = if k < len as i128 {
            d.digits[k as usize]
        } else {
            '0'
        };
        assert(c == full[k as int]);
        assert(full.take(k + 1).drop_last() =~= full.take(k as int));
        assert(full.take(k + 1).last() == c);
        let dv = (c as u32 - '0' as u32) as u128;
        acc = acc * 10 + dv;
        if acc > limit {
            big = true;
        }
        k = k + 1;
    }
    if big {
        proof { lemma_digits_value_prefix(full, k as int); }
        return None;
    }
    assert(full.take(k as int) =~= full);
    if d.neg {
        if acc == limit {
            Some(i64::MIN)
        } else {
            Some(-(acc as i64))
        }
    } else if acc == limit {
        None
    } else {
        Some(acc as i64)
    }
}

/// The text `canonical_text(d@)`.
pub fn canonical_text_of(d: &DecimalValue) -> (r: Vec<char>)
    requires
        d.point > i128::MIN,
    ensures
        r@ == canonical_text(d@),
{
    let mut out: Vec<char> = Vec::new();
    if d.digits.len() == 0 {
        out.push('0');
        assert(out@ =~= seq!['0']);
        return out;
    }
    if d.neg {
        out.push('-');
    }
    out.push('0');
    out.push('.');
    push_chars(&mut out, d.digits.as_slice(), 0, d.digits.len());
    assert(d.digits@.subrange(0, d.digits@.len() as int) =~= d.digits@);
    out.push('e');
    let ghost head = out@;
    if d.point < 0 {
        out.push('-');
        push_digits((0 - d.point) as u128, &mut out);
        assert(out@ =~= head + int_text(d.point as int));
    } else {
        push_digits(d.point as u128, &mut out);
        assert(out@ =~= head + int_text(d.point as int));
    }
    assert(out@ =~= canonical_text(d@));
    out
}

} // verus!
