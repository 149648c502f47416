//! pick: extract values from JSON, YAML, TOML, .env, HTTP headers, logfmt,
//! CSV and plain text with one selector language.
pub mod cli;
pub mod decimal;
pub mod detector;
pub mod error;
pub mod formats;
pub mod laws;
pub mod output;
pub mod selector;
pub mod streaming;
pub mod text;
pub mod value;

use vstd::prelude::*;
use crate::cli::{Cli, InputFormat};
use crate::detector::{detect_format, spec_detect};
use crate::error::{ErrV, PickError};
use crate::output::{format_output, spec_format};
use crate::selector::execute::{execute, spec_execute};
use crate::selector::parser::spec_expression;
use crate::selector::types::{Expression, StageV};
use crate::text::{chars_of, string_of, trim, trim_slice};
use crate::value::{Json, JsonValue, copy_value, items, nat_text, u64_text, values_result};

verus! {

/// The value an input holds, read in the given format.
pub open spec fn spec_parse_input(input: Seq<char>, format: InputFormat) -> Result<Json, ErrV> {
    match format {
        InputFormat::Json => formats::json::spec_parse(input),
        InputFormat::Yaml => formats::yaml::spec_parse(input),
        InputFormat::Toml => formats::toml_format::spec_parse(input),
        InputFormat::Env => formats::env::spec_parse(input),
        InputFormat::Headers => formats::headers::spec_parse(input),
        InputFormat::Logfmt => formats::logfmt::spec_parse(input),
        InputFormat::Csv => formats::csv_format::spec_parse(input),
        InputFormat::Text => formats::text::spec_parse(input),
        InputFormat::Auto => Err(ErrV::UnknownFormat),
    }
}

/// Text input: the expression's results when there are some; else the line
/// the search for the whole selector finds; else `KeyNotFound`.
pub open spec fn spec_text_results(input: Seq<char>, pipes: Seq<Seq<StageV>>, sel: Seq<char>) -> Result<Seq<Json>, ErrV> {
    match formats::text::spec_parse(input) {
        Err(e) => Err(e),
        Ok(v) => match spec_execute(v, pipes) {
            Ok(rs) if rs.len() > 0 => Ok(rs),
            _ => if sel.len() > 0 && formats::text::spec_search(input, sel) is Some {
                Ok(seq![formats::text::spec_search(input, sel)->0])
            } else {
                Err(ErrV::KeyNotFound(sel))
            },
        },
    }
}

pub open spec fn spec_parse_and_execute(
    input: Seq<char>,
    format: InputFormat,
    pipes: Seq<Seq<StageV>>,
    sel: Seq<char>,
) -> Result<Seq<Json>, ErrV> {
    if format == InputFormat::Text {
        spec_text_results(input, pipes, sel)
    } else {
        match spec_parse_input(input, format) {
            Err(e) => Err(e),
            Ok(v) => spec_execute(v, pipes),
        }
    }
}

pub open spec fn selector_text(cli: &Cli) -> Seq<char> {
    match cli.selector {
        Some(s) => s@,
        None => Seq::empty(),
    }
}

pub open spec fn text_result(r: Result<String, PickError>) -> Result<Seq<char>, ErrV> {
    match r {
        Ok(s) => Ok(s@),
        Err(e) => Err(e@),
    }
}

/// What a run prints for an input whose expression parsed to `pipes`: the
/// default on a failure or on no result (when there is one), nothing for
/// `--exists`, the count for `--count`, else the (first) results rendered.
pub open spec fn spec_run(cli: &Cli, input: Seq<char>, pipes: Seq<Seq<StageV>>) -> Result<Seq<char>, ErrV> {
    let sel = selector_text(cli);
    let format = if cli.input == InputFormat::Auto {
        spec_detect(input)
    } else {
        cli.input
    };
    match spec_parse_and_execute(input, format, pipes, sel) {
        Err(e) => match cli.default {
            Some(d) => Ok(d@),
            None => Err(e),
        },
        Ok(rs) => if rs.len() == 0 {
            match cli.default {
                Some(d) => Ok(d@),
                None => Err(ErrV::KeyNotFound(sel)),
            }
        } else if cli.exists {
            Ok(Seq::empty())
        } else if cli.count {
            Ok(nat_text(rs.len()))
        } else {
            let shown = if cli.first {
                seq![rs[0]]
            } else {
                rs
            };
            Ok(spec_format(shown, cli.json, cli.lines, cli.output))
        },
    }
}

fn parse_input(input: &str, format: &InputFormat) -> (r: Result<JsonValue, PickError>)
    ensures
        crate::value::value_result(r) == spec_parse_input(input@, *format),
{
    match format {
        InputFormat::Json => formats::json::parse(input),
        InputFormat::Yaml => formats::yaml::parse(input),
        InputFormat::Toml => formats::toml_format::parse(input),
        InputFormat::Env => formats::env::parse(input),
        InputFormat::Headers => formats::headers::parse(input),
        InputFormat::Logfmt => formats::logfmt::parse(input),
        InputFormat::Csv => formats::csv_format::parse(input),
        InputFormat::Text => formats::text::parse(input),
        InputFormat::Auto => Err(PickError::UnknownFormat),
    }
}

fn parse_and_extract_text(input: &str, expression: &Expression, selector_str: &str) -> (r: Result<Vec<JsonValue>, PickError>)
    ensures
        values_result(r) == spec_text_results(input@, expression@, selector_str@),
{
    let value = match formats::text::parse(input) {
        Ok(v) => v,
        Err(e) => return Err(e),
    };
    match execute(&value, expression) {
        Ok(results) => {
            if results.len() > 0 {
                return Ok(results);
            }
        },
        Err(_) => {},
    }
    if chars_of(selector_str).len() > 0 {
        match formats::text::search_text(input, selector_str) {
            Some(found) => {
                let mut v: Vec<JsonValue> = Vec::new();
                let ghost fv = found@;
                v.push(found);
                assert(items(v@) =~= seq![fv]);
                return Ok(v);
            },
            None => {},
        }
    }
    Err(PickError::KeyNotFound(selector_str.to_owned()))
}

fn parse_and_execute(input: &str, format: &InputFormat, expression: &Expression, selector_str: &str) -> (r: Result<Vec<JsonValue>, PickError>)
    ensures
        values_result(r) == spec_parse_and_execute(input@, *format, expression@, selector_str@),
{
    if *format == InputFormat::Text {
        return parse_and_extract_text(input, expression, selector_str);
    }
    match parse_input(input, format) {
        Err(e) => Err(e),
        Ok(value) => execute(&value, expression),
    }
}

/// Run a selection on an input with the given options, giving the text to
/// print.
pub fn run(cli: &Cli, input: &str) -> (r: Result<String, PickError>)
    ensures
        trim(input@).len() == 0 ==> (r matches Err(e) && e@ == ErrV::NoInput),
        trim(input@).len() > 0 ==> match spec_expression(selector_text(cli)) {
            Err(m) => r matches Err(e) && e@ == ErrV::InvalidSelector(m),
            Ok(pipes) => text_result(r) == spec_run(cli, input@, pipes),
        },
{
    let cs = chars_of(input);
    if trim_slice(cs.as_slice()).len() == 0 {
        return Err(PickError::NoInput);
    }
    let empty = String::new();
    let selector_str: &str = match &cli.selector {
        Some(s) => s.as_str(),
        None => empty.as_str(),
    };
    assert(selector_str@ == selector_text(cli));
    let expression = match Expression::parse(selector_str) {
        Ok(e) => e,
        Err(e) => return Err(e),
    };
    let format = match cli.input {
        InputFormat::Auto => detect_format(input),
        f => f,
    };
    let results = match parse_and_execute(input, &format, &expression, selector_str) {
        Ok(r) => r,
        Err(e) => {
            return match &cli.default {
                Some(d) => Ok(d.clone()),
                None => Err(e),
            };
        },
    };
    if results.len() == 0 {
        return match &cli.default {
            Some(d) => Ok(d.clone()),
            None => Err(PickError::KeyNotFound(selector_str.to_owned())),
        };
    }
    if cli.exists {
        return Ok(String::new());
    }
    if cli.count {
        let digits = u64_text(results.len() as u64);
        return Ok(string_of(digits.as_slice()));
    }
    if cli.first {
        let mut one: Vec<JsonValue> = Vec::new();
        one.push(copy_value(&results[0]));
        assert(items(one@) =~= seq![items(results@)[0]]);
        return Ok(format_output(one.as_slice(), cli.json, cli.lines, &cli.output));
    }
    Ok(format_output(results.as_slice(), cli.json, cli.lines, &cli.output))
}

} // verus!
