//! The library's error type.
use vstd::prelude::*;
use crate::text::{chars_of, string_of};
use crate::value::{nat_text, push_digits};

verus! {

#[verifier::external_type_specification]
#[verifier::external_body]
pub struct ExIoError(std::io::Error);

#[derive(Debug)]
pub enum PickError {
    KeyNotFound(String),
    IndexOutOfBounds(i64),
    NotAnObject(String, String),
    NotAnArray(String),
    InvalidSelector(String),
    ParseError(String, String),
    NoInput,
    UnknownFormat,
    InputTooLarge(u64),
    TooManyResults(usize),
    Io(std::io::Error),
}

/// The abstract value of a `PickError`: its variant and its text.
pub enum ErrV {
    KeyNotFound(Seq<char>),
    IndexOutOfBounds(i64),
    NotAnObject(Seq<char>, Seq<char>),
    NotAnArray(Seq<char>),
    InvalidSelector(Seq<char>),
    ParseError(Seq<char>, Seq<char>),
    NoInput,
    UnknownFormat,
    InputTooLarge(u64),
    TooManyResults(usize),
    Io,
}

impl View for PickError {
    type V = ErrV;

    open spec fn view(&self) -> ErrV {
        match self {
            PickError::KeyNotFound(k) => ErrV::KeyNotFound(k@),
            PickError::IndexOutOfBounds(n) => ErrV::IndexOutOfBounds(*n),
            PickError::NotAnObject(k, t) => ErrV::NotAnObject(k@, t@),
            PickError::NotAnArray(t) => ErrV::NotAnArray(t@),
            PickError::InvalidSelector(m) => ErrV::InvalidSelector(m@),
            PickError::ParseError(f, m) => ErrV::ParseError(f@, m@),
            PickError::NoInput => ErrV::NoInput,
            PickError::UnknownFormat => ErrV::UnknownFormat,
            PickError::InputTooLarge(n) => ErrV::InputTooLarge(*n),
            PickError::TooManyResults(n) => ErrV::TooManyResults(*n),
            PickError::Io(_) => ErrV::Io,
        }
    }
}

/// Error of an invalid selector, with its message.
pub fn invalid_selector(msg: &str) -> (e: PickError)
    ensures
        e@ == ErrV::InvalidSelector(msg@),
{
    PickError::InvalidSelector(msg.to_owned())
}

/// A message that quotes the offending text: `prefix: 'detail'`.
pub open spec fn quoted_msg(prefix: Seq<char>, detail: Seq<char>) -> Seq<char> {
    prefix + seq![':', ' ', '\''] + detail + seq!['\'']
}

/// The message of an invalid-selector error.
pub open spec fn selector_msg(e: ErrV) -> Seq<char> {
    match e {
        ErrV::InvalidSelector(m) => m,
        _ => Seq::empty(),
    }
}

/// Error of an invalid selector whose message quotes the offending text.
pub fn invalid_selector_quoting(prefix: &str, detail: &[char]) -> (e: PickError)
    ensures
        e@ == ErrV::InvalidSelector(quoted_msg(prefix@, detail@)),
{
    let mut m = chars_of(prefix);
    m.push(':');
    m.push(' ');
    m.push('\'');
    let mut i: usize = 0;
    let ghost head = m@;
    assert(head =~= prefix@ + seq![':', ' ', '\'']);
    while i < detail.len()
        invariant
            i <= detail@.len(),
            m@ == head + detail@.take(i as int),
        decreases detail.len() - i,
    {
        m.push(detail[i]);
        assert(detail@.take(i + 1) =~= detail@.take(i as int).push(detail@[i as int]));
        i = i + 1;
    }
    assert(detail@.take(i as int) =~= detail@);
    m.push('\'');
    assert(m@ =~= prefix@ + seq![':', ' ', '\''] + detail@ + seq!['\'']);
    PickError::InvalidSelector(string_of(m.as_slice()))
}

// ──────────────────────────────────────────────
// Messages
// ──────────────────────────────────────────────

/// The decimal text of an integer, with a `-` before a negative one.
pub open spec fn int_text(i: int) -> Seq<char> {
    if i < 0 {
        seq!['-'] + nat_text((-i) as nat)
    } else {
        nat_text(i as nat)
    }
}

/// The message that describes an error (an I/O error's message is the
/// system's own and is not modelled).
pub open spec fn error_message(e: ErrV) -> Seq<char> {
    match e {
        ErrV::KeyNotFound(k) => "key not found: "@ + k,
        ErrV::IndexOutOfBounds(n) => "index out of bounds: "@ + int_text(n as int),
        ErrV::NotAnObject(k, t) => "expected object for key '"@ + k + "', got "@ + t,
        ErrV::NotAnArray(t) => "expected array for index, got "@ + t,
        ErrV::InvalidSelector(m) => "invalid selector: "@ + m,
        ErrV::ParseError(f, m) => "failed to parse input as "@ + f + ": "@ + m,
        ErrV::NoInput => "no input provided"@,
        ErrV::UnknownFormat => "could not detect input format"@,
        ErrV::InputTooLarge(n) => "input too large (max "@ + nat_text(n as nat) + " bytes)"@,
        ErrV::TooManyResults(n) => "too many results (max "@ + nat_text(n as nat) + ")"@,
        ErrV::Io => Seq::empty(),
    }
}

fn push_str(out: &mut Vec<char>, s: &str)
    ensures
        final(out)@ == old(out)@ + s@,
{
    let cs = chars_of(s);
    let mut i: usize = 0;
    let ghost start = out@;
    while i < cs.len()
        invariant
            i <= cs@.len(),
            cs@ == s@,
            out@ == start + cs@.take(i as int),
        decreases cs.len() - i,
    {
        out.push(cs[i]);
        assert(cs@.take(i + 1) =~= cs@.take(i as int).push(cs@[i as int]));
        i = i + 1;
    }
    assert(cs@.take(i as int) =~= cs@);
}

/// `std::io::Error`'s `Display` text.
#[verifier::external_body]
fn io_error_text(e: &std::io::Error) -> String {
    e.to_string()
}

impl PickError {
    /// The message that describes the error, as the command prints it.
    pub fn message(&self) -> (r: String)
        ensures
            !(self@ is Io) ==> r@ == error_message(self@),
    {
        let mut out: Vec<char> = Vec::new();
        match self {
            PickError::KeyNotFound(k) => {
                push_str(&mut out, "key not found: ");
                push_str(&mut out, k.as_str());
            },
            PickError::IndexOutOfBounds(n) => {
                push_str(&mut out, "index out of bounds: ");
                if *n < 0 {
                    out.push('-');
                    let m: u64 = if *n == i64::MIN {
                        9223372036854775808u64
                    } else {
                        (-*n) as u64
                    };
                    push_digits(m as u128, &mut out);
                } else {
                    push_digits(*n as u128, &mut out);
                }
            },
            PickError::NotAnObject(k, t) => {
                push_str(&mut out, "expected object for key '");
                push_str(&mut out, k.as_str());
                push_str(&mut out, "', got ");
                push_str(&mut out, t.as_str());
            },
            PickError::NotAnArray(t) => {
                push_str(&mut out, "expected array for index, got ");
                push_str(&mut out, t.as_str());
            },
            PickError::InvalidSelector(m) => {
                push_str(&mut out, "invalid selector: ");
                push_str(&mut out, m.as_str());
            },
            PickError::ParseError(f, m) => {
                push_str(&mut out, "failed to parse input as ");
                push_str(&mut out, f.as_str());
                push_str(&mut out, ": ");
                push_str(&mut out, m.as_str());
            },
            PickError::NoInput => {
                push_str(&mut out, "no input provided");
            },
            PickError::UnknownFormat => {
                push_str(&mut out, "could not detect input format");
            },
            PickError::InputTooLarge(n) => {
                push_str(&mut out, "input too large (max ");
                push_digits(*n as u128, &mut out);
                push_str(&mut out, " bytes)");
            },
            PickError::TooManyResults(n) => {
                push_str(&mut out, "too many results (max ");
                push_digits(*n as u128, &mut out);
                push_str(&mut out, ")");
            },
            PickError::Io(e) => {
                return io_error_text(e);
            },
        }
        proof {
            assert(out@ =~= error_message(self@));
        }
        string_of(out.as_slice())
    }
}

} // verus!
