//! Editing a value at a path: `set(path, value)` and `del(path)`.
use vstd::prelude::*;
use crate::error::{ErrV, PickError, invalid_selector};
use crate::value::{value_result, Json, JsonValue, copy_entries, copy_items, copy_value, entries, items, kind_name, lemma_view_entries, lemma_view_items, map_get, map_insert, map_remove, obj_get, obj_insert, obj_remove, value_type_name, wf_json};
use super::types::{Index, Segment, SegV};

verus! {

/// The views of a slice of segments.
pub open spec fn seg_views(s: Seq<Segment>) -> Seq<SegV> {
    s.map_values(|x: Segment| x@)
}

/// Where index `n` points in an array of `len` elements for an edit:
/// negative indices count from the end, and a position past the end is kept
/// (`set` pads the array up to it; `del` there changes nothing).
pub open spec fn spec_resolve_index(n: i64, len: nat) -> Result<int, ErrV> {
    if n < 0 {
        if -n > len {
            Err(ErrV::IndexOutOfBounds(n))
        } else {
            Ok(len + n)
        }
    } else if n > usize::MAX {
        Ok(usize::MAX as int)
    } else {
        Ok(n as int)
    }
}

/// Resolve an index for `set`/`del`.
pub fn resolve_index(n: i64, len: usize) -> (r: Result<usize, PickError>)
    ensures
        match spec_resolve_index(n, len as nat) {
            Ok(i) => r matches Ok(x) && x == i,
            Err(e) => r matches Err(x) && x@ == e,
        },
{
    if n < 0 {
        let abs: u64 = if n == i64::MIN {
            9223372036854775808u64
        } else {
            (-n) as u64
        };
        if abs > len as u64 {
            Err(PickError::IndexOutOfBounds(n))
        } else {
            Ok(len - abs as usize)
        }
    } else if n as u64 > usize::MAX as u64 {
        Ok(usize::MAX)
    } else {
        Ok(n as usize)
    }
}

pub open spec fn set_unsupported() -> ErrV {
    ErrV::InvalidSelector("set() does not support wildcard or slice indices"@)
}

pub open spec fn del_unsupported() -> ErrV {
    ErrV::InvalidSelector("del() does not support wildcard or slice indices"@)
}

// ──────────────────────────────────────────────
// set
// ──────────────────────────────────────────────

/// `v` with `nv` placed at the path `segs`.  Missing containers are made as
/// needed: a key on a non-object makes a fresh object, and an index on `null`
/// (a missing child) makes a fresh array.
pub open spec fn spec_set(v: Json, segs: Seq<SegV>, nv: Json) -> Result<Json, ErrV>
    decreases segs.len(), 0int,
{
    if segs.len() == 0 {
        Ok(nv)
    } else {
        let seg = segs[0];
        let rest = segs.drop_first();
        match seg.key {
            Some(k) => {
                let m = match v {
                    Json::Obj(m) => m,
                    _ => Seq::empty(),
                };
                let child = match obj_get(m, k) {
                    Some(c) => c,
                    None => Json::Null,
                };
                match spec_set_idx(child, seg.indices, rest, nv) {
                    Ok(c) => Ok(Json::Obj(obj_insert(m, k, c))),
                    Err(e) => Err(e),
                }
            },
            None => spec_set_idx(v, seg.indices, rest, nv),
        }
    }
}

/// `c` placed at position `i` of `a`: in place of an element, or after `a`
/// padded with `null` up to position `i`.
pub open spec fn place_at(a: Seq<Json>, i: int, c: Json) -> Seq<Json> {
    if i < a.len() {
        a.update(i, c)
    } else {
        (a + Seq::new((i - a.len()) as nat, |j: int| Json::Null)).push(c)
    }
}

/// The elements an index edits: those of an array, none for `null`.
pub open spec fn edit_items(v: Json) -> Option<Seq<Json>> {
    match v {
        Json::Arr(a) => Some(a),
        Json::Null => Some(Seq::empty()),
        _ => None,
    }
}

/// `v` with `nv` placed through the indices `idx` and then the path `rest`.
/// An index past the end extends the array with `null`s.
pub open spec fn spec_set_idx(v: Json, idx: Seq<Index>, rest: Seq<SegV>, nv: Json) -> Result<Json, ErrV>
    decreases rest.len(), idx.len() + 1,
{
    if idx.len() == 0 {
        spec_set(v, rest, nv)
    } else {
        match idx[0] {
            Index::Number(n) => match edit_items(v) {
                Some(a) => match spec_resolve_index(n, a.len()) {
                    Err(e) => Err(e),
                    Ok(i) => {
                        let child = if i < a.len() {
                            a[i]
                        } else {
                            Json::Null
                        };
                        match spec_set_idx(child, idx.drop_first(), rest, nv) {
                            Ok(c) => Ok(Json::Arr(place_at(a, i, c))),
                            Err(e) => Err(e),
                        }
                    },
                },
                None => Err(ErrV::NotAnArray(kind_name(v))),
            },
            _ => Err(set_unsupported()),
        }
    }
}

fn not_an_array(v: &JsonValue) -> (e: PickError)
    ensures
        e@ == ErrV::NotAnArray(kind_name(v@)),
{
    PickError::NotAnArray(value_type_name(v).to_owned())
}

/// Set a value at the given path, returning a new JsonValue with the modification.
/// Creates intermediate objects/arrays as needed.
pub fn apply_set(value: &JsonValue, segments: &[Segment], new_value: &JsonValue) -> (r: Result<JsonValue, PickError>)
    ensures
        value_result(r) == spec_set(value@, seg_views(segments@), new_value@),
        wf_json(value@) && wf_json(new_value@) ==> (r matches Ok(x) ==> wf_json(x@)),
{
    assert(seg_views(segments@).skip(0) =~= seg_views(segments@));
    proof {
        if wf_json(value@) && wf_json(new_value@) {
            crate::laws::law_set_keeps_wf(value@, seg_views(segments@), new_value@);
        }
    }
    set_from(value, segments, 0, new_value)
}

fn set_from(value: &JsonValue, segs: &[Segment], pos: usize, nv: &JsonValue) -> (r: Result<JsonValue, PickError>)
    requires
        pos <= segs@.len(),
    ensures
        value_result(r) == spec_set(value@, seg_views(segs@).skip(pos as int), nv@),
    decreases segs@.len() - pos, 0int,
{
    let ghost sv = seg_views(segs@).skip(pos as int);
    if pos == segs.len() {
        assert(sv.len() == 0);
        return Ok(copy_value(nv));
    }
    let seg = &segs[pos];
    assert(sv[0] == seg@);
    assert(sv.drop_first() =~= seg_views(segs@).skip(pos + 1));
    match &seg.key {
        Some(key) => {
            let mut new_map: Vec<(String, JsonValue)> = match value {
                JsonValue::Object(map) => copy_entries(map),
                _ => Vec::new(),
            };
            let ghost m = entries(new_map@);
            proof {
                match value {
                    JsonValue::Object(map) => {
                        lemma_view_entries(map@);
                    },
                    _ => {
                        assert(m =~= Seq::<(Seq<char>, Json)>::empty());
                    },
                }
            }
            let child = match map_get(&new_map, key.as_str()) {
                Some(c) => set_idx(c, &seg.indices, 0, segs, pos + 1, nv),
                None => set_idx(&JsonValue::Null, &seg.indices, 0, segs, pos + 1, nv),
            };
            assert(seg.indices@.skip(0) =~= seg.indices@);
            match child {
                Ok(c) => {
                    map_insert(&mut new_map, key.clone(), c);
                    proof { lemma_view_entries(new_map@); }
                    Ok(JsonValue::Object(new_map))
                },
                Err(e) => Err(e),
            }
        },
        None => {
            assert(seg.indices@.skip(0) =~= seg.indices@);
            set_idx(value, &seg.indices, 0, segs, pos + 1, nv)
        },
    }
}

fn set_idx(
    value: &JsonValue,
    idx: &Vec<Index>,
    ipos: usize,
    segs: &[Segment],
    pos: usize,
    nv: &JsonValue,
) -> (r: Result<JsonValue, PickError>)
    requires
        ipos <= idx@.len(),
        pos <= segs@.len(),
    ensures
        value_result(r) == spec_set_idx(
            value@,
            idx@.skip(ipos as int),
            seg_views(segs@).skip(pos as int),
            nv@,
        ),
    decreases segs@.len() - pos, idx@.len() - ipos + 1,
{
    let ghost ix = idx@.skip(ipos as int);
    if ipos == idx.len() {
        assert(ix.len() == 0);
        return set_from(value, segs, pos, nv);
    }
    assert(ix[0] == idx@[ipos as int]);
    assert(ix.drop_first() =~= idx@.skip(ipos + 1));
    match &idx[ipos] {
        Index::Number(n) => {
            let empty: Vec<JsonValue> = Vec::new();
            let arr: &Vec<JsonValue> = match value {
                JsonValue::Array(a) => a,
                JsonValue::Null => &empty,
                _ => {
                    return Err(not_an_array(value));
                },
            };
            proof { lemma_view_items(arr@); }
            let ghost a = items(arr@);
            assert(edit_items(value@) == Some(a));
            let len = arr.len();
            match resolve_index(*n, len) {
                Err(e) => Err(e),
                Ok(i) => {
                    let child = if i < len {
                        assert(a[i as int] == arr@[i as int]@);
                        set_idx(&arr[i], idx, ipos + 1, segs, pos, nv)
                    } else {
                        set_idx(&JsonValue::Null, idx, ipos + 1, segs, pos, nv)
                    };
                    match child {
                        Ok(c) => {
                            let ghost cv = c@;
                            let mut new_arr = copy_items(arr);
                            if i < len {
                                new_arr.set(i, c);
                                assert(items(new_arr@) =~= a.update(i as int, cv));
                            } else {
                                while new_arr.len() < i
                                    invariant
                                        len <= new_arr@.len() <= i,
                                        items(new_arr@) =~= a + Seq::new(
                                            (new_arr@.len() - len) as nat,
                                            |j: int| Json::Null,
                                        ),
                                    decreases i - new_arr@.len(),
                                {
                                    let ghost before = items(new_arr@);
                                    new_arr.push(JsonValue::Null);
                                    assert(items(new_arr@) =~= before.push(Json::Null));
                                }
                                new_arr.push(c);
                                assert(items(new_arr@) =~= place_at(a, i as int, cv));
                            }
                            proof { lemma_view_items(new_arr@); }
                            Ok(JsonValue::Array(new_arr))
                        },
                        Err(e) => Err(e),
                    }
                },
            }
        },
        _ => Err(invalid_selector("set() does not support wildcard or slice indices")),
    }
}

// ──────────────────────────────────────────────
// del
// ──────────────────────────────────────────────

/// `v` with the path `segs` taken out.  A missing key, a non-object, a
/// non-array or an index past the end leaves `v` as it is; the empty path
/// gives `null`.
pub open spec fn spec_del(v: Json, segs: Seq<SegV>) -> Result<Json, ErrV>
    decreases segs.len(), 0int,
{
    if segs.len() == 0 {
        Ok(Json::Null)
    } else {
        let seg = segs[0];
        let rest = segs.drop_first();
        match seg.key {
            Some(k) => match v {
                Json::Obj(m) => if rest.len() == 0 && seg.indices.len() == 0 {
                    Ok(Json::Obj(obj_remove(m, k)))
                } else {
                    match obj_get(m, k) {
                        Some(c) => match spec_del_idx(c, seg.indices, rest) {
                            Ok(c2) => Ok(Json::Obj(obj_insert(m, k, c2))),
                            Err(e) => Err(e),
                        },
                        None => Ok(v),
                    }
                },
                _ => Ok(v),
            },
            None => spec_del_idx(v, seg.indices, rest),
        }
    }
}

/// `v` with the element at the indices `idx`, then the path `rest`, taken out.
pub open spec fn spec_del_idx(v: Json, idx: Seq<Index>, rest: Seq<SegV>) -> Result<Json, ErrV>
    decreases rest.len(), idx.len() + 1,
{
    if idx.len() == 0 {
        spec_del(v, rest)
    } else {
        match idx[0] {
            Index::Number(n) => match v {
                Json::Arr(a) => match spec_resolve_index(n, a.len()) {
                    Err(e) => Err(e),
                    Ok(i) => if i >= a.len() {
                        Ok(v)
                    } else if idx.len() == 1 && rest.len() == 0 {
                        Ok(Json::Arr(a.remove(i)))
                    } else {
                        match spec_del_idx(a[i], idx.drop_first(), rest) {
                            Ok(c) => Ok(Json::Arr(a.update(i, c))),
                            Err(e) => Err(e),
                        }
                    },
                },
                _ => Ok(v),
            },
            _ => Err(del_unsupported()),
        }
    }
}

/// Delete the value at the given path, returning a new JsonValue with the deletion.
pub fn apply_del(value: &JsonValue, segments: &[Segment]) -> (r: Result<JsonValue, PickError>)
    ensures
        value_result(r) == spec_del(value@, seg_views(segments@)),
        wf_json(value@) ==> (r matches Ok(x) ==> wf_json(x@)),
{
    assert(seg_views(segments@).skip(0) =~= seg_views(segments@));
    proof {
        if wf_json(value@) {
            crate::laws::law_del_keeps_wf(value@, seg_views(segments@));
        }
    }
    del_from(value, segments, 0)
}

fn del_from(value: &JsonValue, segs: &[Segment], pos: usize) -> (r: Result<JsonValue, PickError>)
    requires
        pos <= segs@.len(),
    ensures
        value_result(r) == spec_del(value@, seg_views(segs@).skip(pos as int)),
    decreases segs@.len() - pos, 0int,
{
    let ghost sv = seg_views(segs@).skip(pos as int);
    if pos == segs.len() {
        assert(sv.len() == 0);
        return Ok(JsonValue::Null);
    }
    let seg = &segs[pos];
    assert(sv[0] == seg@);
    assert(sv.drop_first() =~= seg_views(segs@).skip(pos + 1));
    assert(seg.indices@.skip(0) =~= seg.indices@);
    match &seg.key {
        Some(key) => match value {
            JsonValue::Object(map) => {
                proof { lemma_view_entries(map@); }
                if pos + 1 == segs.len() && seg.indices.len() == 0 {
                    let mut new_map = copy_entries(map);
                    map_remove(&mut new_map, key.as_str());
                    proof { lemma_view_entries(new_map@); }
                    Ok(JsonValue::Object(new_map))
                } else {
                    match map_get(map, key.as_str()) {
                        Some(child) => match del_idx(child, &seg.indices, 0, segs, pos + 1) {
                            Ok(c) => {
                                let mut new_map = copy_entries(map);
                                map_insert(&mut new_map, key.clone(), c);
                                proof { lemma_view_entries(new_map@); }
                                Ok(JsonValue::Object(new_map))
                            },
                            Err(e) => Err(e),
                        },
                        None => Ok(copy_value(value)),
                    }
                }
            },
            _ => Ok(copy_value(value)),
        },
        None => del_idx(value, &seg.indices, 0, segs, pos + 1),
    }
}

fn del_idx(value: &JsonValue, idx: &Vec<Index>, ipos: usize, segs: &[Segment], pos: usize) -> (r: Result<
    JsonValue,
    PickError,
>)
    requires
        ipos <= idx@.len(),
        pos <= segs@.len(),
    ensures
        value_result(r) == spec_del_idx(value@, idx@.skip(ipos as int), seg_views(segs@).skip(pos as int)),
    decreases segs@.len() - pos, idx@.len() - ipos + 1,
{
    let ghost ix = idx@.skip(ipos as int);
    if ipos == idx.len() {
        assert(ix.len() == 0);
        return del_from(value, segs, pos);
    }
    assert(ix[0] == idx@[ipos as int]);
    assert(ix.drop_first() =~= idx@.skip(ipos + 1));
    match &idx[ipos] {
        Index::Number(n) => match value {
            JsonValue::Array(arr) => {
                proof { lemma_view_items(arr@); }
                let len = arr.len();
                match resolve_index(*n, len) {
                    Err(e) => Err(e),
                    Ok(i) => {
                        if i >= len {
                            Ok(copy_value(value))
                        } else if ipos + 1 == idx.len() && pos == segs.len() {
                            let mut new_arr = copy_items(arr);
                            let ghost before = items(new_arr@);
                            new_arr.remove(i);
                            assert(items(new_arr@) =~= before.remove(i as int));
                            proof { lemma_view_items(new_arr@); }
                            Ok(JsonValue::Array(new_arr))
                        } else {
                            match del_idx(&arr[i], idx, ipos + 1, segs, pos) {
                                Ok(c) => {
                                    let mut new_arr = copy_items(arr);
                                    let ghost before = items(new_arr@);
                                    let ghost cv = c@;
                                    new_arr.set(i, c);
                                    assert(items(new_arr@) =~= before.update(i as int, cv));
                                    proof { lemma_view_items(new_arr@); }
                                    Ok(JsonValue::Array(new_arr))
                                },
                                Err(e) => Err(e),
                            }
                        }
                    },
                }
            },
            _ => Ok(copy_value(value)),
        },
        _ => Err(invalid_selector("del() does not support wildcard or slice indices")),
    }
}

} // verus!
