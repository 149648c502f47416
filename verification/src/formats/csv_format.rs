//! CSV and TSV input, read by the `csv` crate: one object per record, keyed by
//! the header row.
use vstd::prelude::*;
use crate::error::{ErrV, PickError};
use crate::text::{chars_of, lines, lines_of};
use crate::value::{
    Json, JsonValue, entries, items, lemma_view_entries, lemma_view_items, map_insert, nat_text,
    obj_insert, u64_text, value_result,
};

verus! {

broadcast use vstd::string::group_string_axioms;

/// What a CSV reader yields: the header row, the records read before the
/// first error, and that error's message if one came.
pub struct CsvTable {
    pub headers: Vec<String>,
    pub records: Vec<Vec<String>>,
    pub error: Option<String>,
}

pub struct CsvTableV {
    pub headers: Seq<Seq<char>>,
    pub records: Seq<Seq<Seq<char>>>,
    pub error: Option<Seq<char>>,
}

pub open spec fn strings(v: Seq<String>) -> Seq<Seq<char>> {
    v.map_values(|s: String| s@)
}

impl View for CsvTable {
    type V = CsvTableV;

    open spec fn view(&self) -> CsvTableV {
        CsvTableV {
            headers: strings(self.headers@),
            records: self.records@.map_values(|r: Vec<String>| strings(r@)),
            error: match self.error {
                Some(m) => Some(m@),
                None => None,
            },
        }
    }
}

/// What the `csv` crate reads from a text with a given delimiter byte (headers
/// on, flexible record lengths): the table, or the header row's error message.
pub uninterp spec fn csv_read(input: Seq<char>, delimiter: u8) -> Result<CsvTableV, Seq<char>>;

/// `csv::ReaderBuilder` with `has_headers(true)`, `flexible(true)` and the
/// delimiter, over the text's bytes: `headers()`, then `records()` up to the
/// first error.
#[verifier::external_body]
fn read_csv(input: &str, delimiter: u8) -> (r: Result<CsvTable, String>)
    ensures
        match csv_read(input@, delimiter) {
            Ok(t) => r matches Ok(x) && x@ == t,
            Err(m) => r matches Err(x) && x@ == m,
        },
{
    let mut rdr = csv::ReaderBuilder::new().has_headers(true).flexible(true).delimiter(delimiter)
        .from_reader(input.as_bytes());
    let headers: Vec<String> = rdr.headers().map_err(|e| e.to_string())?.iter().map(String::from).collect();
    let mut records = Vec::new();
    for rec in rdr.records() {
        match rec {
            Ok(r) => records.push(r.iter().map(String::from).collect()),
            Err(e) => return Ok(CsvTable { headers, records, error: Some(e.to_string()) }),
        }
    }
    Ok(CsvTable { headers, records, error: None })
}

/// How many times `c` occurs in `s`.
pub open spec fn count_char(s: Seq<char>, c: char) -> nat
    decreases s.len(),
{
    if s.len() == 0 {
        0
    } else {
        count_char(s.drop_last(), c) + (if s.last() == c {
            1nat
        } else {
            0nat
        })
    }
}

pub open spec fn first_line(input: Seq<char>) -> Seq<char> {
    if lines(input).len() > 0 {
        lines(input)[0]
    } else {
        Seq::empty()
    }
}

/// A tab when the first line holds more tabs than commas, else a comma.
pub open spec fn spec_delimiter(input: Seq<char>) -> u8 {
    let l = first_line(input);
    if count_char(l, '\t') > count_char(l, ',') {
        9
    } else {
        44
    }
}

/// A record's entries: field `i` under header `i`, or under `i` in decimal
/// where the header row is shorter.
pub open spec fn row_entries(headers: Seq<Seq<char>>, fields: Seq<Seq<char>>) -> Seq<(Seq<char>, Json)>
    decreases fields.len(),
{
    if fields.len() == 0 {
        Seq::empty()
    } else {
        let i = fields.len() - 1;
        let key = if i < headers.len() {
            headers[i]
        } else {
            nat_text(i as nat)
        };
        obj_insert(row_entries(headers, fields.drop_last()), key, Json::Str(fields.last()))
    }
}

pub open spec fn rows_json(t: CsvTableV) -> Seq<Json> {
    t.records.map_values(|r: Seq<Seq<char>>| Json::Obj(row_entries(t.headers, r)))
}

/// The value for what the reader yielded.
pub open spec fn spec_rows(read: Result<CsvTableV, Seq<char>>) -> Result<Json, ErrV> {
    match read {
        Err(m) => Err(ErrV::ParseError("CSV"@, m)),
        Ok(t) => if t.headers.len() == 0 {
            Err(ErrV::ParseError("CSV"@, "no headers found"@))
        } else {
            match t.error {
                Some(m) => Err(ErrV::ParseError("CSV"@, m)),
                None => Ok(Json::Arr(rows_json(t))),
            }
        },
    }
}

pub open spec fn spec_parse(input: Seq<char>) -> Result<Json, ErrV> {
    spec_rows(csv_read(input, spec_delimiter(input)))
}

/// The delimiter for a text.
pub fn detect_delimiter(input: &str) -> (d: u8)
    ensures
        d == spec_delimiter(input@),
{
    let cs = chars_of(input);
    let ls = lines_of(cs.as_slice());
    let first: &[char] = if ls.len() > 0 {
        ls[0]
    } else {
        &[]
    };
    assert(first@ == first_line(input@));
    let mut commas: usize = 0;
    let mut tabs: usize = 0;
    let mut i: usize = 0;
    assert(first@.take(0) =~= Seq::<char>::empty());
    while i < first.len()
        invariant
            i <= first@.len(),
            commas == count_char(first@.take(i as int), ','),
            tabs == count_char(first@.take(i as int), '\t'),
            commas <= i,
            tabs <= i,
        decreases first.len() - i,
    {
        assert(first@.take(i + 1).drop_last() =~= first@.take(i as int));
        if first[i] == ',' {
            commas = commas + 1;
        }
        if first[i] == '\t' {
            tabs = tabs + 1;
        }
        i = i + 1;
    }
    assert(first@.take(i as int) =~= first@);
    if tabs > commas {
        9
    } else {
        44
    }
}

fn row_object(headers: &Vec<String>, fields: &Vec<String>) -> (r: Vec<(String, JsonValue)>)
    ensures
        entries(r@) == row_entries(strings(headers@), strings(fields@)),
{
    let mut map: Vec<(String, JsonValue)> = Vec::new();
    let mut i: usize = 0;
    assert(strings(fields@).take(0) =~= Seq::<Seq<char>>::empty());
    while i < fields.len()
        invariant
            i <= fields@.len(),
            entries(map@) == row_entries(strings(headers@), strings(fields@).take(i as int)),
        decreases fields.len() - i,
    {
        let ghost t = strings(fields@).take(i + 1);
        assert(t.drop_last() =~= strings(fields@).take(i as int));
        assert(t.last() == fields@[i as int]@);
        let key = if i < headers.len() {
            headers[i].clone()
        } else {
            let digits = u64_text(i as u64);
            crate::text::string_of(digits.as_slice())
        };
        map_insert(&mut map, key, JsonValue::String(fields[i].clone()));
        i = i + 1;
    }
    assert(strings(fields@).take(i as int) =~= strings(fields@));
    map
}

/// The value for what a CSV reader yielded, as `spec_rows`.
pub fn rows_from_table(read: Result<CsvTable, String>) -> (r: Result<JsonValue, PickError>)
    ensures
        value_result(r) == spec_rows(match read {
            Ok(t) => Ok(t@),
            Err(m) => Err(m@),
        }),
{
    match read {
        Err(m) => Err(PickError::ParseError("CSV".to_owned(), m)),
        Ok(t) => {
            if t.headers.len() == 0 {
                return Err(PickError::ParseError("CSV".to_owned(), "no headers found".to_owned()));
            }
            match t.error {
                Some(m) => Err(PickError::ParseError("CSV".to_owned(), m)),
                None => {
                    let mut rows: Vec<JsonValue> = Vec::new();
                    let mut k: usize = 0;
                    while k < t.records.len()
                        invariant
                            k <= t.records@.len(),
                            items(rows@) == rows_json(t@).take(k as int),
                        decreases t.records.len() - k,
                    {
                        let obj = row_object(&t.headers, &t.records[k]);
                        proof { lemma_view_entries(obj@); }
                        let ghost before = items(rows@);
                        let o = JsonValue::Object(obj);
                        let ghost ov = o@;
                        rows.push(o);
                        assert(items(rows@) =~= before.push(ov));
                        assert(rows_json(t@).take(k + 1) =~= rows_json(t@).take(k as int).push(ov));
                        k = k + 1;
                    }
                    assert(rows_json(t@).take(k as int) =~= rows_json(t@));
                    proof { lemma_view_items(rows@); }
                    Ok(JsonValue::Array(rows))
                },
            }
        },
    }
}

/// Parse CSV (or TSV) text into an array of objects.
pub fn parse(input: &str) -> (r: Result<JsonValue, PickError>)
    ensures
        value_result(r) == spec_parse(input@),
{
    let delimiter = detect_delimiter(input);
    rows_from_table(read_csv(input, delimiter))
}

} // verus!
