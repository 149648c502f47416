//! Path traversal: keys, recursive descent, indices, slices and builtins.
use vstd::prelude::*;
use crate::error::{ErrV, PickError};

use crate::value::{all_wf, wf_json, value_result, values_result, Json, NumView, JsonNumber, JsonValue, copy_value, entries, items, kind_name, lemma_view_entries, lemma_view_items, map_get, obj_get, value_type_name};
use super::types::{Builtin, Index, Segment, Selector, SegV};

verus! {

pub const MAX_EXTRACT_RESULTS: usize = 1_000_000;

// ──────────────────────────────────────────────
// Key resolution (direct or recursive)
// ──────────────────────────────────────────────

/// Every value stored under `k` anywhere in `v`, depth first: in an object
/// its own entry for `k` comes before what its values hold, in key order.
pub open spec fn rfind(v: Json, k: Seq<char>) -> Seq<Json>
    decreases v,
{
    match v {
        Json::Obj(m) => (match obj_get(m, k) {
            Some(x) => seq![x],
            None => Seq::empty(),
        }) + rfind_entries(m, k),
        Json::Arr(a) => rfind_items(a, k),
        _ => Seq::empty(),
    }
}

pub open spec fn rfind_items(a: Seq<Json>, k: Seq<char>) -> Seq<Json>
    decreases a,
{
    if a.len() == 0 {
        Seq::empty()
    } else {
        rfind_items(a.drop_last(), k) + rfind(a.last(), k)
    }
}

pub open spec fn rfind_entries(m: Seq<(Seq<char>, Json)>, k: Seq<char>) -> Seq<Json>
    decreases m,
{
    if m.len() == 0 {
        Seq::empty()
    } else {
        rfind_entries(m.drop_last(), k) + rfind(m.last().1, k)
    }
}

/// The values a segment's key leads to from `v`.
pub open spec fn spec_resolve_key(v: Json, seg: SegV) -> Result<Seq<Json>, ErrV> {
    if seg.key is None && seg.builtin is Some {
        Ok(seq![v])
    } else if seg.recursive {
        match seg.key {
            None => Err(ErrV::InvalidSelector("recursive descent requires a key"@)),
            Some(k) => if rfind(v, k).len() == 0 {
                Err(ErrV::KeyNotFound(k))
            } else {
                Ok(rfind(v, k))
            },
        }
    } else {
        match seg.key {
            Some(k) => match v {
                Json::Obj(m) => match obj_get(m, k) {
                    Some(c) => Ok(seq![c]),
                    None => Err(ErrV::KeyNotFound(k)),
                },
                _ => Err(ErrV::NotAnObject(k, kind_name(v))),
            },
            None => Ok(seq![v]),
        }
    }
}

fn recursive_find_inner(value: &JsonValue, key: &str, results: &mut Vec<JsonValue>)
    ensures
        items(final(results)@) == items(old(results)@) + rfind(value@, key@),
    decreases value,
{
    match value {
        JsonValue::Object(map) => {
            proof { lemma_view_entries(map@); }
            let ghost m = entries(map@);
            let ghost start = items(results@);
            match map_get(map, key) {
                Some(v) => {
                    let c = copy_value(v);
                    results.push(c);
                    assert(items(results@) =~= start + seq![c@]);
                },
                None => {},
            }
            let ghost head = items(results@);
            let mut i: usize = 0;
            assert(m.take(0) =~= Seq::<(Seq<char>, Json)>::empty());
            assert(head =~= head + rfind_entries(m.take(0), key@));
            while i < map.len()
                invariant
                    i <= map@.len(),
                    m == entries(map@),
                    items(results@) == head + rfind_entries(m.take(i as int), key@),
                    decreases_to!(*value => *map),
                decreases map.len() - i,
            {
                proof { vstd::std_specs::vec::axiom_vec_index_decreases(*map, i as int); }
                let ghost before = items(results@);
                recursive_find_inner(&map[i].1, key, results);
                assert(m.take(i + 1).drop_last() =~= m.take(i as int));
                assert(m.take(i + 1).last() == m[i as int]);
                assert(items(results@) =~= head + rfind_entries(m.take(i + 1), key@));
                i = i + 1;
            }
            assert(m.take(i as int) =~= m);
            assert(items(results@) =~= start + (match obj_get(m, key@) {
                Some(x) => seq![x],
                None => Seq::empty(),
            }) + rfind_entries(m, key@));
        },
        JsonValue::Array(arr) => {
            proof { lemma_view_items(arr@); }
            let ghost a = items(arr@);
            let ghost head = items(results@);
            let mut i: usize = 0;
            assert(a.take(0) =~= Seq::<Json>::empty());
            assert(head =~= head + rfind_items(a.take(0), key@));
            while i < arr.len()
                invariant
                    i <= arr@.len(),
                    a == items(arr@),
                    items(results@) == head + rfind_items(a.take(i as int), key@),
                    decreases_to!(*value => *arr),
                decreases arr.len() - i,
            {
                proof { vstd::std_specs::vec::axiom_vec_index_decreases(*arr, i as int); }
                recursive_find_inner(&arr[i], key, results);
                assert(a.take(i + 1).drop_last() =~= a.take(i as int));
                assert(a.take(i + 1).last() == a[i as int]);
                assert(items(results@) =~= head + rfind_items(a.take(i + 1), key@));
                i = i + 1;
            }
            assert(a.take(i as int) =~= a);
        },
        _ => {
            assert(items(results@) =~= items(old(results)@) + Seq::<Json>::empty());
        },
    }
}

/// DFS search for all occurrences of `key` anywhere in the value tree.
fn recursive_find(value: &JsonValue, key: &str) -> (r: Vec<JsonValue>)
    ensures
        items(r@) == rfind(value@, key@),
{
    let mut results: Vec<JsonValue> = Vec::new();
    recursive_find_inner(value, key, &mut results);
    assert(items(results@) =~= rfind(value@, key@));
    results
}

fn key_error(key: &String) -> (e: PickError)
    ensures
        e@ == ErrV::KeyNotFound(key@),
{
    PickError::KeyNotFound(key.clone())
}

fn resolve_key(value: &JsonValue, segment: &Segment) -> (r: Result<Vec<JsonValue>, PickError>)
    ensures
        match spec_resolve_key(value@, segment@) {
            Ok(vs) => r matches Ok(out) && items(out@) == vs,
            Err(e) => r matches Err(x) && x@ == e,
        },
{
    if segment.key.is_none() && segment.builtin.is_some() {
        let mut out: Vec<JsonValue> = Vec::new();
        out.push(copy_value(value));
        assert(items(out@) =~= seq![value@]);
        return Ok(out);
    }
    if segment.recursive {
        match &segment.key {
            None => Err(crate::error::invalid_selector("recursive descent requires a key")),
            Some(key) => {
                let found = recursive_find(value, key.as_str());
                if found.len() == 0 {
                    Err(key_error(key))
                } else {
                    Ok(found)
                }
            },
        }
    } else {
        match &segment.key {
            Some(key) => match value {
                JsonValue::Object(map) => {
                    proof { lemma_view_entries(map@); }
                    match map_get(map, key.as_str()) {
                        Some(v) => {
                            let mut out: Vec<JsonValue> = Vec::new();
                            out.push(copy_value(v));
                            assert(items(out@) =~= seq![v@]);
                            Ok(out)
                        },
                        None => Err(key_error(key)),
                    }
                },
                other => Err(
                    PickError::NotAnObject(key.clone(), value_type_name(other).to_owned()),
                ),
            },
            None => {
                let mut out: Vec<JsonValue> = Vec::new();
                out.push(copy_value(value));
                assert(items(out@) =~= seq![value@]);
                Ok(out)
            },
        }
    }
}

// ──────────────────────────────────────────────
// Index application (Number, Wildcard, Slice)
// ──────────────────────────────────────────────

/// Where index `n` points in an array of `len` elements: negative indices
/// count from the end.  The position may lie past the end.
pub open spec fn spec_array_position(n: i64, len: nat) -> Result<int, ErrV> {
    if len > i64::MAX {
        Err(ErrV::IndexOutOfBounds(n))
    } else if n < 0 {
        if -n > len {
            Err(ErrV::IndexOutOfBounds(n))
        } else {
            Ok(len + n)
        }
    } else if n > usize::MAX {
        Err(ErrV::IndexOutOfBounds(n))
    } else {
        Ok(n as int)
    }
}

pub fn resolve_array_index(n: i64, len: usize) -> (r: Result<usize, PickError>)
    ensures
        match spec_array_position(n, len as nat) {
            Ok(i) => r matches Ok(x) && x == i,
            Err(e) => r matches Err(x) && x@ == e,
        },
{
    if len as u64 > i64::MAX as u64 {
        return Err(PickError::IndexOutOfBounds(n));
    }
    let len_i64 = len as i64;
    assert(len_i64 == len);
    if n < 0 {
        if n == i64::MIN || -n > len_i64 {
            return Err(PickError::IndexOutOfBounds(n));
        }
        Ok((len_i64 + n) as usize)
    } else if n as u64 > usize::MAX as u64 {
        Err(PickError::IndexOutOfBounds(n))
    } else {
        Ok(n as usize)
    }
}

/// Resolve a slice bound, handling negative indices and defaults.
pub open spec fn spec_slice_bound(bound: Option<i64>, default: int, len: int) -> int {
    match bound {
        None => default,
        Some(i) => if i < 0 {
            if len + i > 0 {
                len + i
            } else {
                0
            }
        } else {
            i as int
        },
    }
}

pub fn resolve_slice_bound(bound: Option<i64>, default: i64, len: i64) -> (r: i64)
    requires
        bound matches Some(i) ==> (i < 0 ==> len + i >= i64::MIN),
    ensures
        r == spec_slice_bound(bound, default as int, len as int),
{
    match bound {
        None => default,
        Some(i) => if i < 0 {
            if len + i > 0 {
                len + i
            } else {
                0
            }
        } else {
            i
        },
    }
}

pub open spec fn clamp(x: int, lo: int, hi: int) -> int {
    if x < lo {
        lo
    } else if x > hi {
        hi
    } else {
        x
    }
}

/// The length a slice works with: the array's length, capped to what an
/// `i64` holds.
pub open spec fn slice_len(len: nat) -> int {
    if len > i64::MAX {
        i64::MAX as int
    } else {
        len as int
    }
}

/// The elements `[start, end)` of `a`; missing bounds default to the ends,
/// negative bounds count from the end, and bounds are clamped to the array.
pub open spec fn spec_slice(a: Seq<Json>, start: Option<i64>, end: Option<i64>) -> Seq<Json> {
    let len = slice_len(a.len());
    let s = clamp(spec_slice_bound(start, 0, len), 0, len);
    let e = clamp(spec_slice_bound(end, len, len), 0, len);
    if s < e {
        a.subrange(s, e)
    } else {
        Seq::empty()
    }
}

/// What one index gives on one value.
pub open spec fn spec_index_one(v: Json, idx: Index) -> Result<Seq<Json>, ErrV> {
    match v {
        Json::Arr(a) => match idx {
            Index::Number(n) => match spec_array_position(n, a.len()) {
                Err(e) => Err(e),
                Ok(i) => if i < a.len() {
                    Ok(seq![a[i]])
                } else {
                    Err(ErrV::IndexOutOfBounds(n))
                },
            },
            Index::Wildcard => Ok(a),
            Index::Slice { start, end } => Ok(spec_slice(a, start, end)),
        },
        _ => Err(ErrV::NotAnArray(kind_name(v))),
    }
}

/// One index applied to each value in turn, results concatenated; the first
/// error stops it.
pub open spec fn spec_index_all(vs: Seq<Json>, idx: Index) -> Result<Seq<Json>, ErrV>
    decreases vs.len(),
{
    if vs.len() == 0 {
        Ok(Seq::empty())
    } else {
        match spec_index_all(vs.drop_last(), idx) {
            Err(e) => Err(e),
            Ok(r) => match spec_index_one(vs.last(), idx) {
                Err(e) => Err(e),
                Ok(x) => Ok(r + x),
            },
        }
    }
}

pub open spec fn spec_apply_indices(vs: Seq<Json>, indices: Seq<Index>) -> Result<Seq<Json>, ErrV>
    decreases indices.len(),
{
    if indices.len() == 0 {
        Ok(vs)
    } else {
        match spec_index_all(vs, indices[0]) {
            Err(e) => Err(e),
            Ok(next) => spec_apply_indices(next, indices.drop_first()),
        }
    }
}

fn not_an_array(v: &JsonValue) -> (e: PickError)
    ensures
        e@ == ErrV::NotAnArray(kind_name(v@)),
{
    PickError::NotAnArray(value_type_name(v).to_owned())
}

fn push_copies(out: &mut Vec<JsonValue>, src: &Vec<JsonValue>, from: usize, to: usize)
    requires
        from <= to <= src@.len(),
    ensures
        items(final(out)@) == items(old(out)@) + items(src@).subrange(from as int, to as int),
{
    let ghost start = items(out@);
    let mut i = from;
    while i < to
        invariant
            from <= i <= to,
            to <= src@.len(),
            items(out@) == start + items(src@).subrange(from as int, i as int),
        decreases to - i,
    {
        let c = copy_value(&src[i]);
        let ghost mid = items(out@);
        out.push(c);
        assert(items(out@) =~= mid.push(c@));
        assert(items(src@)[i as int] == src@[i as int]@);
        assert(items(src@).subrange(from as int, i + 1) =~= items(src@).subrange(from as int, i as int).push(items(src@)[i as int]));
        assert(items(out@) =~= start + items(src@).subrange(from as int, i + 1));
        i = i + 1;
    }
}

fn apply_index(value: &JsonValue, index: &Index, out: &mut Vec<JsonValue>) -> (r: Result<(), PickError>)
    ensures
        match spec_index_one(value@, *index) {
            Ok(x) => r is Ok && items(final(out)@) == items(old(out)@) + x,
            Err(e) => r matches Err(x) && x@ == e,
        },
{
    match value {
        JsonValue::Array(arr) => {
            proof { lemma_view_items(arr@); }
            match index {
                Index::Number(n) => {
                    let i = resolve_array_index(*n, arr.len())?;
                    if i < arr.len() {
                        push_copies(out, arr, i, i + 1);
                        assert(items(arr@).subrange(i as int, i + 1) =~= seq![items(arr@)[i as int]]);
                        Ok(())
                    } else {
                        Err(PickError::IndexOutOfBounds(*n))
                    }
                },
                Index::Wildcard => {
                    push_copies(out, arr, 0, arr.len());
                    assert(items(arr@).subrange(0, arr@.len() as int) =~= items(arr@));
                    Ok(())
                },
                Index::Slice { start, end } => {
                    let len: i64 = if arr.len() as u64 > i64::MAX as u64 {
                        i64::MAX
                    } else {
                        arr.len() as i64
                    };
                    let s0 = resolve_slice_bound(*start, 0, len);
                    let e0 = resolve_slice_bound(*end, len, len);
                    let s = if s0 < 0 { 0 } else if s0 > len { len } else { s0 };
                    let e = if e0 < 0 { 0 } else if e0 > len { len } else { e0 };
                    if s < e {
                        push_copies(out, arr, s as usize, e as usize);
                    } else {
                        assert(items(out@) =~= items(out@) + Seq::<Json>::empty());
                    }
                    Ok(())
                },
            }
        },
        other => Err(not_an_array(other)),
    }
}

#[verifier::loop_isolation(false)]
fn apply_indices(values: Vec<JsonValue>, indices: &Vec<Index>) -> (r: Result<Vec<JsonValue>, PickError>)
    ensures
        match spec_apply_indices(items(values@), indices@) {
            Ok(x) => r matches Ok(out) && items(out@) == x,
            Err(e) => r matches Err(x) && x@ == e,
        },
{
    let mut current = values;
    let mut k: usize = 0;
    assert(indices@.skip(0) =~= indices@);
    while k < indices.len()
        invariant
            k <= indices@.len(),
            spec_apply_indices(items(values@), indices@) == spec_apply_indices(
                items(current@),
                indices@.skip(k as int),
            ),
        decreases indices.len() - k,
    {
        let index = &indices[k];
        let mut next: Vec<JsonValue> = Vec::new();
        let mut j: usize = 0;
        assert(items(current@).take(0) =~= Seq::<Json>::empty());
        assert(items(next@) =~= Seq::<Json>::empty());
        while j < current.len()
            invariant
                j <= current@.len(),
                spec_index_all(items(current@).take(j as int), *index) == Ok::<Seq<Json>, ErrV>(
                    items(next@),
                ),
            decreases current.len() - j,
        {
            let ghost before = items(next@);
            let r = apply_index(&current[j], index, &mut next);
            assert(items(current@).take(j + 1).drop_last() =~= items(current@).take(j as int));
            if let Err(e) = r {
                proof {
                    assert(items(current@).take(j + 1).last() == current@[j as int]@);
                    assert(spec_index_all(items(current@).take(j + 1), *index) == Err::<Seq<Json>, ErrV>(e@));
                    lemma_index_all_error(items(current@), *index, j as int);
                    assert(indices@.skip(k as int)[0] == indices@[k as int]);
                }
                return Err(e);
            }
            assert(items(current@).take(j + 1).last() == current@[j as int]@);
            j = j + 1;
        }
        assert(items(current@).take(j as int) =~= items(current@));
        assert(indices@.skip(k as int)[0] == indices@[k as int]);
        assert(indices@.skip(k as int).drop_first() =~= indices@.skip(k + 1));
        current = next;
        k = k + 1;
    }
    Ok(current)
}

pub proof fn lemma_index_all_error(vs: Seq<Json>, idx: Index, j: int)
    requires
        0 <= j < vs.len(),
        spec_index_all(vs.take(j + 1), idx) is Err,
    ensures
        spec_index_all(vs, idx) == spec_index_all(vs.take(j + 1), idx),
    decreases vs.len(),
{
    if j + 1 < vs.len() {
        assert(vs.drop_last().take(j + 1) =~= vs.take(j + 1));
        lemma_index_all_error(vs.drop_last(), idx, j);
    } else {
        assert(vs.take(j + 1) =~= vs);
    }
}

// ──────────────────────────────────────────────
// Builtin application
// ──────────────────────────────────────────────

pub open spec fn count_json(n: nat) -> Json {
    Json::Num(NumView::PosInt(n as u64))
}

/// Length of the UTF-8 encoding, as `str::len` reports it.
pub open spec fn utf8_len(s: Seq<char>) -> nat {
    (vstd::utf8::encode_utf8(s).len() as usize) as nat
}

pub open spec fn key_strings(m: Seq<(Seq<char>, Json)>) -> Seq<Json> {
    m.map_values(|e: (Seq<char>, Json)| Json::Str(e.0))
}

pub open spec fn entry_values(m: Seq<(Seq<char>, Json)>) -> Seq<Json> {
    m.map_values(|e: (Seq<char>, Json)| e.1)
}

pub open spec fn positions(n: nat) -> Seq<Json> {
    Seq::new(n, |i: int| count_json(i as nat))
}

/// `keys()`, `values()` and `length()`.
pub open spec fn spec_apply_builtin(b: Builtin, v: Json) -> Result<Json, ErrV> {
    match b {
        Builtin::Keys => match v {
            Json::Obj(m) => Ok(Json::Arr(key_strings(m))),
            Json::Arr(a) => Ok(Json::Arr(positions(a.len()))),
            _ => Err(ErrV::InvalidSelector("keys() requires object or array, got "@ + kind_name(v))),
        },
        Builtin::Values => match v {
            Json::Obj(m) => Ok(Json::Arr(entry_values(m))),
            Json::Arr(_) => Ok(v),
            _ => Err(
                ErrV::InvalidSelector("values() requires object or array, got "@ + kind_name(v)),
            ),
        },
        Builtin::Length => match v {
            Json::Arr(a) => Ok(count_json(a.len())),
            Json::Obj(m) => Ok(count_json(m.len())),
            Json::Str(s) => Ok(count_json(utf8_len(s))),
            Json::Null => Ok(count_json(0)),
            _ => Err(
                ErrV::InvalidSelector(
                    "length() requires array, object, or string, got "@ + kind_name(v),
                ),
            ),
        },
    }
}

fn builtin_error(prefix: &str, v: &JsonValue) -> (e: PickError)
    ensures
        e@ == ErrV::InvalidSelector(prefix@ + kind_name(v@)),
{
    let mut m = prefix.to_owned();
    m.append(value_type_name(v));
    PickError::InvalidSelector(m)
}

fn count_value(n: usize) -> (v: JsonValue)
    ensures
        v@ == count_json(n as nat),
{
    JsonValue::Number(JsonNumber::PosInt(n as u64))
}

pub fn apply_builtin(builtin: &Builtin, value: &JsonValue) -> (r: Result<JsonValue, PickError>)
    ensures
        value_result(r) == spec_apply_builtin(*builtin, value@),
{
    match builtin {
        Builtin::Keys => match value {
            JsonValue::Object(map) => {
                proof { lemma_view_entries(map@); }
                let mut out: Vec<JsonValue> = Vec::new();
                let mut i: usize = 0;
                while i < map.len()
                    invariant
                        i <= map@.len(),
                        items(out@) == key_strings(entries(map@)).take(i as int),
                    decreases map.len() - i,
                {
                    let ghost before = items(out@);
                    let k = map[i].0.clone();
                    let ghost kv = JsonValue::String(k)@;
                    out.push(JsonValue::String(k));
                    assert(items(out@) =~= before.push(kv));
                    assert(key_strings(entries(map@))[i as int] == kv);
                    assert(key_strings(entries(map@)).take(i + 1) =~= key_strings(entries(map@)).take(i as int).push(kv));
                    i = i + 1;
                }
                proof { lemma_view_items(out@); }
                assert(key_strings(entries(map@)).take(i as int) =~= key_strings(entries(map@)));
                let r = JsonValue::Array(out);
                assert(r@ == Json::Arr(key_strings(entries(map@))));
                assert(value@ == Json::Obj(entries(map@)));
                Ok(r)
            },
            JsonValue::Array(arr) => {
                let mut out: Vec<JsonValue> = Vec::new();
                let mut i: usize = 0;
                while i < arr.len()
                    invariant
                        i <= arr@.len(),
                        items(out@) == positions(arr@.len()).take(i as int),
                    decreases arr.len() - i,
                {
                    let ghost before = items(out@);
                    let c = count_value(i);
                    out.push(c);
                    assert(items(out@) =~= before.push(c@));
                    assert(positions(arr@.len()).take(i + 1) =~= positions(arr@.len()).take(i as int).push(c@));
                    i = i + 1;
                }
                proof { lemma_view_items(out@); lemma_view_items(arr@); }
                assert(positions(arr@.len()).take(i as int) =~= positions(arr@.len()));
                let r = JsonValue::Array(out);
                assert(r@ == Json::Arr(positions(arr@.len())));
                assert(value@ == Json::Arr(items(arr@)));
                Ok(r)
            },
            other => {
                assert(spec_apply_builtin(Builtin::Keys, other@) == Err::<Json, ErrV>(ErrV::InvalidSelector("keys() requires object or array, got "@ + kind_name(other@))));
                Err(builtin_error("keys() requires object or array, got ", other))
            },
        },
        Builtin::Values => match value {
            JsonValue::Object(map) => {
                proof { lemma_view_entries(map@); }
                let mut out: Vec<JsonValue> = Vec::new();
                let mut i: usize = 0;
                while i < map.len()
                    invariant
                        i <= map@.len(),
                        items(out@) == entry_values(entries(map@)).take(i as int),
                    decreases map.len() - i,
                {
                    let ghost before = items(out@);
                    let c = copy_value(&map[i].1);
                    out.push(c);
                    assert(items(out@) =~= before.push(c@));
                    assert(entry_values(entries(map@)).take(i + 1) =~= entry_values(entries(map@)).take(i as int).push(c@));
                    i = i + 1;
                }
                proof { lemma_view_items(out@); }
                assert(entry_values(entries(map@)).take(i as int) =~= entry_values(entries(map@)));
                Ok(JsonValue::Array(out))
            },
            JsonValue::Array(_) => Ok(copy_value(value)),
            other => Err(builtin_error("values() requires object or array, got ", other)),
        },
        Builtin::Length => match value {
            JsonValue::Array(arr) => {
                proof { lemma_view_items(arr@); }
                Ok(count_value(arr.len()))
            },
            JsonValue::Object(map) => {
                proof { lemma_view_entries(map@); }
                Ok(count_value(map.len()))
            },
            JsonValue::String(s) => Ok(count_value(s.as_str().len())),
            JsonValue::Null => Ok(count_value(0)),
            other => Err(
                builtin_error("length() requires array, object, or string, got ", other),
            ),
        },
    }
}

/// A builtin applied to each value; the first error stops it.
pub open spec fn spec_builtin_all(vs: Seq<Json>, b: Builtin) -> Result<Seq<Json>, ErrV>
    decreases vs.len(),
{
    if vs.len() == 0 {
        Ok(Seq::empty())
    } else {
        match spec_builtin_all(vs.drop_last(), b) {
            Err(e) => Err(e),
            Ok(r) => match spec_apply_builtin(b, vs.last()) {
                Err(e) => Err(e),
                Ok(x) => Ok(r.push(x)),
            },
        }
    }
}

fn apply_segment_builtin(builtin: &Option<Builtin>, values: Vec<JsonValue>) -> (r: Result<Vec<JsonValue>, PickError>)
    ensures
        values_result(r) == match builtin {
            None => Ok(items(values@)),
            Some(b) => spec_builtin_all(items(values@), *b),
        },
{
    match builtin {
        None => Ok(values),
        Some(b) => {
            let mut out: Vec<JsonValue> = Vec::new();
            let mut i: usize = 0;
            assert(items(values@).take(0) =~= Seq::<Json>::empty());
            assert(items(out@) =~= Seq::<Json>::empty());
            while i < values.len()
                invariant
                    i <= values@.len(),
                    *builtin == Some(*b),
                    spec_builtin_all(items(values@).take(i as int), *b) == Ok::<Seq<Json>, ErrV>(items(out@)),
                decreases values.len() - i,
            {
                assert(items(values@).take(i + 1).drop_last() =~= items(values@).take(i as int));
                assert(items(values@).take(i + 1).last() == values@[i as int]@);
                match apply_builtin(b, &values[i]) {
                    Ok(v) => {
                        let ghost before = items(out@);
                        out.push(v);
                        assert(items(out@) =~= before.push(v@));
                    },
                    Err(e) => {
                        assert(spec_builtin_all(items(values@).take(i + 1), *b) == Err::<Seq<Json>, ErrV>(e@));
                        proof { lemma_builtin_all_error(items(values@), *b, i as int); }
                        assert(spec_builtin_all(items(values@), *b) == Err::<Seq<Json>, ErrV>(e@));
                        return Err(e);
                    },
                }
                i = i + 1;
            }
            assert(items(values@).take(i as int) =~= items(values@));
            Ok(out)
        },
    }
}

pub proof fn lemma_builtin_all_error(vs: Seq<Json>, b: Builtin, j: int)
    requires
        0 <= j < vs.len(),
        spec_builtin_all(vs.take(j + 1), b) is Err,
    ensures
        spec_builtin_all(vs, b) == spec_builtin_all(vs.take(j + 1), b),
    decreases vs.len(),
{
    if j + 1 < vs.len() {
        assert(vs.drop_last().take(j + 1) =~= vs.take(j + 1));
        lemma_builtin_all_error(vs.drop_last(), b, j);
    } else {
        assert(vs.take(j + 1) =~= vs);
    }
}

// ──────────────────────────────────────────────
// Core extraction (path traversal)
// ──────────────────────────────────────────────

/// What one segment gives from one value: its key, then its indices, then
/// its builtin.
pub open spec fn spec_segment_values(v: Json, seg: SegV) -> Result<Seq<Json>, ErrV> {
    match spec_resolve_key(v, seg) {
        Err(e) => Err(e),
        Ok(keyed) => match spec_apply_indices(keyed, seg.indices) {
            Err(e) => Err(e),
            Ok(ix) => match seg.builtin {
                None => Ok(ix),
                Some(b) => spec_builtin_all(ix, b),
            },
        },
    }
}

/// One segment applied to each current value, the results concatenated; it
/// fails once more than `MAX_EXTRACT_RESULTS` values have gathered.
pub open spec fn spec_step(cur: Seq<Json>, seg: SegV) -> Result<Seq<Json>, ErrV>
    decreases cur.len(),
{
    if cur.len() == 0 {
        Ok(Seq::empty())
    } else {
        match spec_step(cur.drop_last(), seg) {
            Err(e) => Err(e),
            Ok(acc) => match spec_segment_values(cur.last(), seg) {
                Err(e) => Err(e),
                Ok(r) => if acc.len() + r.len() > MAX_EXTRACT_RESULTS {
                    Err(ErrV::TooManyResults(MAX_EXTRACT_RESULTS))
                } else {
                    Ok(acc + r)
                },
            },
        }
    }
}

pub open spec fn spec_extract_from(cur: Seq<Json>, segs: Seq<SegV>) -> Result<Seq<Json>, ErrV>
    decreases segs.len(),
{
    if segs.len() == 0 {
        Ok(cur)
    } else {
        match spec_step(cur, segs[0]) {
            Err(e) => Err(e),
            Ok(next) => spec_extract_from(next, segs.drop_first()),
        }
    }
}

/// The values a path selects from `v`.
pub open spec fn spec_extract(v: Json, segs: Seq<SegV>) -> Result<Seq<Json>, ErrV> {
    spec_extract_from(seq![v], segs)
}

fn segment_values(value: &JsonValue, segment: &Segment) -> (r: Result<Vec<JsonValue>, PickError>)
    ensures
        values_result(r) == spec_segment_values(value@, segment@),
{
    let keyed = resolve_key(value, segment)?;
    let indexed = apply_indices(keyed, &segment.indices)?;
    apply_segment_builtin(&segment.builtin, indexed)
}

pub proof fn lemma_step_error(vs: Seq<Json>, seg: SegV, j: int)
    requires
        0 <= j < vs.len(),
        spec_step(vs.take(j + 1), seg) is Err,
    ensures
        spec_step(vs, seg) == spec_step(vs.take(j + 1), seg),
    decreases vs.len(),
{
    if j + 1 < vs.len() {
        assert(vs.drop_last().take(j + 1) =~= vs.take(j + 1));
        lemma_step_error(vs.drop_last(), seg, j);
    } else {
        assert(vs.take(j + 1) =~= vs);
    }
}

/// Extract values from a JSON value using a path selector.
#[verifier::loop_isolation(false)]
pub fn extract(value: &JsonValue, selector: &Selector) -> (r: Result<Vec<JsonValue>, PickError>)
    ensures
        values_result(r) == spec_extract(value@, selector@),
        wf_json(value@) ==> (r matches Ok(xs) ==> all_wf(items(xs@))),
{
    proof {
        if wf_json(value@) {
            crate::laws::law_extract_keeps_wf(value@, selector@);
        }
    }
    let mut current: Vec<JsonValue> = Vec::new();
    current.push(copy_value(value));
    assert(items(current@) =~= seq![value@]);
    let segs = &selector.segments;
    let ghost sv = selector@;
    let mut k: usize = 0;
    assert(sv.skip(0) =~= sv);
    while k < segs.len()
        invariant
            k <= segs@.len(),
            sv == selector@,
            sv.len() == segs@.len(),
            spec_extract(value@, sv) == spec_extract_from(items(current@), sv.skip(k as int)),
        decreases segs.len() - k,
    {
        let segment = &segs[k];
        assert(sv[k as int] == segment@);
        assert(sv.skip(k as int)[0] == sv[k as int]);
        assert(sv.skip(k as int).drop_first() =~= sv.skip(k + 1));
        let mut next: Vec<JsonValue> = Vec::new();
        let mut j: usize = 0;
        assert(items(current@).take(0) =~= Seq::<Json>::empty());
        assert(items(next@) =~= Seq::<Json>::empty());
        while j < current.len()
            invariant
                j <= current@.len(),
                spec_step(items(current@).take(j as int), segment@) == Ok::<Seq<Json>, ErrV>(
                    items(next@),
                ),
                next@.len() <= MAX_EXTRACT_RESULTS,
            decreases current.len() - j,
        {
            assert(items(current@).take(j + 1).drop_last() =~= items(current@).take(j as int));
            assert(items(current@).take(j + 1).last() == current@[j as int]@);
            match segment_values(&current[j], segment) {
                Err(e) => {
                    proof { lemma_step_error(items(current@), segment@, j as int); }
                    return Err(e);
                },
                Ok(vals) => {
                    let ghost before = items(next@);
                    let mut vals = vals;
                    let ghost added = items(vals@);
                    next.append(&mut vals);
                    assert(items(next@) =~= before + added);
                    if next.len() > MAX_EXTRACT_RESULTS {
                        proof { lemma_step_error(items(current@), segment@, j as int); }
                        return Err(PickError::TooManyResults(MAX_EXTRACT_RESULTS));
                    }
                },
            }
            j = j + 1;
        }
        assert(items(current@).take(j as int) =~= items(current@));
        current = next;
        k = k + 1;
    }
    assert(sv.skip(k as int).len() == 0);
    Ok(current)
}

} // verus!
