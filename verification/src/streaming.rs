//! Streams of JSON values, one per line (JSON Lines).
use vstd::prelude::*;
use crate::cli::OutputFormat;
use crate::error::{ErrV, PickError};
use crate::formats::json::{json_decode, serde_json_from_str};
use crate::output::{format_output, spec_format};
use crate::selector::execute::{execute, spec_execute};
use crate::selector::types::Expression;
use crate::text::{chars_of, string_of, trim, trim_slice};

verus! {

/// What one line of a stream prints: nothing for a blank line, for no result
/// or for an empty rendering; a line that is no JSON fails with a `json`
/// parse error.
pub open spec fn spec_stream_line(
    line: Seq<char>,
    pipes: Seq<Seq<crate::selector::types::StageV>>,
    as_json: bool,
    as_lines: bool,
    f: OutputFormat,
) -> Result<Option<Seq<char>>, ErrV> {
    let t = trim(line);
    if t.len() == 0 {
        Ok(None)
    } else {
        match json_decode(t) {
            Err(m) => Err(ErrV::ParseError("json"@, m)),
            Ok(v) => match spec_execute(v, pipes) {
                Err(e) => Err(e),
                Ok(rs) => if rs.len() == 0 {
                    Ok(None)
                } else {
                    let s = spec_format(rs, as_json, as_lines, f);
                    if s.len() == 0 {
                        Ok(None)
                    } else {
                        Ok(Some(s))
                    }
                },
            },
        }
    }
}

pub open spec fn line_result(r: Result<Option<String>, PickError>) -> Result<Option<Seq<char>>, ErrV> {
    match r {
        Ok(Some(s)) => Ok(Some(s@)),
        Ok(None) => Ok(None),
        Err(e) => Err(e@),
    }
}

/// Process one line of a stream: the text to print for it, if any.
pub fn stream_line(
    line: &str,
    expression: &Expression,
    as_json: bool,
    as_lines: bool,
    output_format: &OutputFormat,
) -> (r: Result<Option<String>, PickError>)
    ensures
        line_result(r) == spec_stream_line(line@, expression@, as_json, as_lines, *output_format),
{
    let cs = chars_of(line);
    let t = trim_slice(cs.as_slice());
    if t.len() == 0 {
        return Ok(None);
    }
    let text = string_of(t);
    let value = match serde_json_from_str(text.as_str()) {
        Ok(v) => v,
        Err(m) => return Err(PickError::ParseError("json".to_owned(), m)),
    };
    let results = match execute(&value, expression) {
        Ok(r) => r,
        Err(e) => return Err(e),
    };
    if results.len() == 0 {
        return Ok(None);
    }
    let formatted = format_output(results.as_slice(), as_json, as_lines, output_format);
    if chars_of(formatted.as_str()).len() == 0 {
        return Ok(None);
    }
    Ok(Some(formatted))
}

} // verus!
