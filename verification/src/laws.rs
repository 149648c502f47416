//! Properties that hold across the library's operations.
use vstd::prelude::*;
use crate::selector::execute::{spec_execute, spec_pipeline, spec_union};
use crate::selector::extract::{key_strings, spec_apply_builtin, spec_extract, spec_extract_from, spec_index_one, spec_resolve_key, spec_segment_values, spec_step};
use crate::selector::filter::spec_evaluate;
use crate::selector::manipulate::{spec_del, spec_del_idx, spec_set, spec_set_idx};
use crate::selector::types::{Builtin, FilterV, Index, SegV, StageV};
use crate::value::{Json, all_wf, keys_sorted, obj_get, obj_insert, obj_remove, str_lt, wf_json};
use crate::error::ErrV;
use crate::cli::InputFormat;
use crate::decimal::{Dec, Order3, dec_of, dec_order, mag_order, reverse, valid_float};
use crate::detector::spec_detect;
use crate::selector::filter::num_order;
use crate::selector::parser::{split_from, split_top};
use crate::text::{is_ascii_alnum, starts_with, trim};
use crate::formats::yaml::{YamlKeyV, YamlV, key_text, yaml_decode, yaml_entries, yaml_items, yaml_json};
use crate::formats::toml_format::{TomlV, toml_decode, toml_entries, toml_items, toml_json};
use crate::formats::logfmt::{key_end, key_stop, lemma_quoted_len, lemma_trim_start_len, quoted_value};

verus! {

// ──────────────────────────────────────────────
// Objects
// ──────────────────────────────────────────────

/// A key just bound is found with its value.
pub proof fn lemma_get_insert_same(m: Seq<(Seq<char>, Json)>, k: Seq<char>, v: Json)
    ensures
        obj_get(obj_insert(m, k, v), k) == Some(v),
    decreases m.len(),
{
    if m.len() > 0 && m[0].0 != k && !str_lt(k, m[0].0) {
        lemma_get_insert_same(m.drop_first(), k, v);
        assert((seq![m[0]] + obj_insert(m.drop_first(), k, v)).drop_first() =~= obj_insert(m.drop_first(), k, v));
    }
}

/// Binding a key leaves every other key's value as it was.
#[verifier::spinoff_prover]
pub proof fn lemma_get_insert_other(m: Seq<(Seq<char>, Json)>, k: Seq<char>, v: Json, k2: Seq<char>)
    requires
        k2 != k,
    ensures
        obj_get(obj_insert(m, k, v), k2) == obj_get(m, k2),
    decreases m.len(),
{
    if m.len() == 0 {
        assert(obj_insert(m, k, v) == seq![(k, v)]);
        assert(seq![(k, v)].drop_first() =~= Seq::<(Seq<char>, Json)>::empty());
    } else if m[0].0 == k {
        assert((seq![(k, v)] + m.drop_first()).drop_first() =~= m.drop_first());
    } else if str_lt(k, m[0].0) {
        assert((seq![(k, v)] + m).drop_first() =~= m);
    } else {
        lemma_get_insert_other(m.drop_first(), k, v, k2);
        assert((seq![m[0]] + obj_insert(m.drop_first(), k, v)).drop_first() =~= obj_insert(m.drop_first(), k, v));
    }
}

pub proof fn lemma_str_lt_irreflexive(a: Seq<char>)
    ensures
        !str_lt(a, a),
    decreases a.len(),
{
    if a.len() > 0 {
        lemma_str_lt_irreflexive(a.drop_first());
    }
}

/// A key that no entry holds is not found.
pub proof fn lemma_get_absent(m: Seq<(Seq<char>, Json)>, k: Seq<char>)
    requires
        forall|j: int| 0 <= j < m.len() ==> (#[trigger] m[j]).0 != k,
    ensures
        obj_get(m, k) is None,
    decreases m.len(),
{
    if m.len() > 0 {
        assert(m[0].0 != k);
        assert forall|j: int| 0 <= j < m.drop_first().len() implies (#[trigger] m.drop_first()[j]).0 != k by {
            assert(m.drop_first()[j] == m[j + 1]);
        }
        lemma_get_absent(m.drop_first(), k);
    }
}

/// In an object whose keys increase, a key taken out is no longer found.
pub proof fn lemma_get_remove_same(m: Seq<(Seq<char>, Json)>, k: Seq<char>)
    requires
        keys_sorted(m),
    ensures
        obj_get(obj_remove(m, k), k) is None,
    decreases m.len(),
{
    if m.len() == 0 {
    } else if m[0].0 == k {
        assert forall|j: int| 0 <= j < m.drop_first().len() implies (#[trigger] m.drop_first()[j]).0 != k by {
            assert(m.drop_first()[j] == m[j + 1]);
            assert(str_lt(m[0].0, m[j + 1].0));
            lemma_str_lt_irreflexive(k);
        }
        lemma_get_absent(m.drop_first(), k);
    } else {
        assert(keys_sorted(m.drop_first())) by {
            assert forall|i: int, j: int| 0 <= i < j < m.drop_first().len() implies str_lt(
                #[trigger] m.drop_first()[i].0,
                #[trigger] m.drop_first()[j].0,
            ) by {
                assert(m.drop_first()[i] == m[i + 1]);
                assert(m.drop_first()[j] == m[j + 1]);
            }
        }
        lemma_get_remove_same(m.drop_first(), k);
        assert((seq![m[0]] + obj_remove(m.drop_first(), k)).drop_first() =~= obj_remove(m.drop_first(), k));
    }
}

/// A value found in an object is one of its entries' values.
pub proof fn lemma_get_entry(m: Seq<(Seq<char>, Json)>, k: Seq<char>)
    ensures
        obj_get(m, k) matches Some(c) ==> exists|j: int| 0 <= j < m.len() && (#[trigger] m[j]).1 == c,
    decreases m.len(),
{
    if m.len() > 0 && m[0].0 != k {
        lemma_get_entry(m.drop_first(), k);
        if obj_get(m, k) is Some {
            let j = choose|j: int| 0 <= j < m.drop_first().len() && (#[trigger] m.drop_first()[j]).1 == obj_get(m, k)->0;
            assert(m[j + 1] == m.drop_first()[j]);
        }
    } else if m.len() > 0 {
        assert(m[0].1 == obj_get(m, k)->0);
    }
}

// ──────────────────────────────────────────────
// set and del against the selection of the same path
// ──────────────────────────────────────────────

/// A path of plain keys: no indices, no recursive descent, no builtin.
pub open spec fn plain_path(segs: Seq<SegV>) -> bool {
    forall|i: int|
        0 <= i < segs.len() ==> {
            &&& (#[trigger] segs[i]).key is Some
            &&& segs[i].indices.len() == 0
            &&& !segs[i].recursive
            &&& segs[i].builtin is None
        }
}

proof fn lemma_plain_rest(segs: Seq<SegV>)
    requires
        segs.len() > 0,
        plain_path(segs),
    ensures
        plain_path(segs.drop_first()),
        segs[0].key is Some,
        segs[0].indices.len() == 0,
        !segs[0].recursive,
        segs[0].builtin is None,
{
    assert forall|i: int| 0 <= i < segs.drop_first().len() implies {
        &&& (#[trigger] segs.drop_first()[i]).key is Some
        &&& segs.drop_first()[i].indices.len() == 0
        &&& !segs.drop_first()[i].recursive
        &&& segs.drop_first()[i].builtin is None
    } by {
        assert(segs.drop_first()[i] == segs[i + 1]);
    }
    assert(segs[0] == segs[0]);
}

/// Selecting one key of a single value gives the value under it.
proof fn lemma_step_key(r: Json, seg: SegV, c: Json)
    requires
        seg.key is Some,
        seg.indices.len() == 0,
        !seg.recursive,
        seg.builtin is None,
        r matches Json::Obj(m) && obj_get(m, seg.key->0) == Some(c),
    ensures
        spec_step(seq![r], seg) == Ok::<Seq<Json>, ErrV>(seq![c]),
{
    assert(seq![r].drop_last() =~= Seq::<Json>::empty());
    assert(spec_step(Seq::<Json>::empty(), seg) == Ok::<Seq<Json>, ErrV>(Seq::empty()));
    assert(seq![r].last() == r);
    assert(spec_resolve_key(r, seg) == Ok::<Seq<Json>, ErrV>(seq![c]));
    assert(crate::selector::extract::spec_apply_indices(seq![c], seg.indices) == Ok::<Seq<Json>, ErrV>(seq![c]));
    assert(spec_segment_values(r, seg) == Ok::<Seq<Json>, ErrV>(seq![c]));
    assert(Seq::<Json>::empty() + seq![c] =~= seq![c]);
}

/// Selecting one key of a single value fails when the key is missing or the
/// value is no object.
proof fn lemma_step_key_fails(r: Json, seg: SegV)
    requires
        seg.key is Some,
        seg.indices.len() == 0,
        !seg.recursive,
        seg.builtin is None,
        !(r matches Json::Obj(m) && obj_get(m, seg.key->0) is Some),
    ensures
        spec_step(seq![r], seg) is Err,
{
    assert(seq![r].drop_last() =~= Seq::<Json>::empty());
    assert(spec_resolve_key(r, seg) is Err);
}

/// After `set(path, v)` along a path of plain keys, selecting that path gives
/// exactly `v`.
pub proof fn law_set_then_get(v: Json, segs: Seq<SegV>, nv: Json)
    requires
        plain_path(segs),
    ensures
        spec_set(v, segs, nv) matches Ok(r) && spec_extract(r, segs) == Ok::<Seq<Json>, ErrV>(seq![nv]),
    decreases segs.len(),
{
    if segs.len() == 0 {
        assert(spec_extract_from(seq![nv], segs) == Ok::<Seq<Json>, ErrV>(seq![nv]));
    } else {
        lemma_plain_rest(segs);
        let seg = segs[0];
        let rest = segs.drop_first();
        let k = seg.key->0;
        let m = match v {
            Json::Obj(m) => m,
            _ => Seq::empty(),
        };
        let child = match obj_get(m, k) {
            Some(c) => c,
            None => Json::Null,
        };
        law_set_then_get(child, rest, nv);
        let c = spec_set(child, rest, nv)->Ok_0;
        assert(spec_set_idx(child, seg.indices, rest, nv) == spec_set(child, rest, nv));
        let r = Json::Obj(obj_insert(m, k, c));
        assert(spec_set(v, segs, nv) == Ok::<Json, ErrV>(r));
        lemma_get_insert_same(m, k, c);
        lemma_step_key(r, seg, c);
        assert(spec_extract(r, segs) == spec_extract_from(seq![c], rest));
    }
}

/// `set(key, v)` leaves every other top-level key's value as it was.
pub proof fn law_set_keeps_other_keys(m: Seq<(Seq<char>, Json)>, seg: SegV, nv: Json, other: Seq<char>)
    requires
        plain_path(seq![seg]),
        other != seg.key->0,
    ensures
        spec_set(Json::Obj(m), seq![seg], nv) matches Ok(Json::Obj(m2)) && obj_get(m2, other) == obj_get(m, other),
{
    lemma_plain_rest(seq![seg]);
    let k = seg.key->0;
    let child = match obj_get(m, k) {
        Some(c) => c,
        None => Json::Null,
    };
    let rest = seq![seg].drop_first();
    assert(rest =~= Seq::<SegV>::empty());
    assert(spec_set_idx(child, seg.indices, rest, nv) == spec_set(child, rest, nv));
    lemma_get_insert_other(m, k, nv, other);
}

/// After `del(path)` along a path of plain keys, on a well-formed value,
/// selecting that path fails.
pub proof fn law_del_then_get(v: Json, segs: Seq<SegV>)
    requires
        plain_path(segs),
        segs.len() > 0,
        wf_json(v),
        spec_del(v, segs) is Ok,
    ensures
        spec_extract(spec_del(v, segs)->Ok_0, segs) is Err,
    decreases segs.len(),
{
    lemma_plain_rest(segs);
    let seg = segs[0];
    let rest = segs.drop_first();
    let k = seg.key->0;
    let r = spec_del(v, segs)->Ok_0;
    match v {
        Json::Obj(m) => {
            if rest.len() == 0 {
                assert(r == Json::Obj(obj_remove(m, k)));
                lemma_get_remove_same(m, k);
                lemma_step_key_fails(r, seg);
            } else {
                match obj_get(m, k) {
                    Some(c) => {
                        assert(spec_del_idx(c, seg.indices, rest) == spec_del(c, rest));
                        let c2 = spec_del(c, rest)->Ok_0;
                        assert(r == Json::Obj(obj_insert(m, k, c2)));
                        lemma_get_entry(m, k);
                        let j = choose|j: int| 0 <= j < m.len() && (#[trigger] m[j]).1 == c;
                        assert(wf_json(m[j].1));
                        law_del_then_get(c, rest);
                        lemma_get_insert_same(m, k, c2);
                        lemma_step_key(r, seg, c2);
                        assert(spec_extract(r, segs) == spec_extract_from(seq![c2], rest));
                    },
                    None => {
                        assert(r == v);
                        lemma_step_key_fails(r, seg);
                    },
                }
            }
        },
        _ => {
            assert(r == v);
            lemma_step_key_fails(r, seg);
        },
    }
}

// ──────────────────────────────────────────────
// Selection
// ──────────────────────────────────────────────

/// Index `-1` selects the last element of a non-empty array.
pub proof fn law_negative_index_last(a: Seq<Json>)
    requires
        0 < a.len() <= i64::MAX,
    ensures
        spec_index_one(Json::Arr(a), Index::Number(-1i64)) == Ok::<Seq<Json>, ErrV>(seq![a.last()]),
{
}

/// `keys()` of an object has as many elements as the object has entries, so
/// `keys() | length()` equals `length()`.
pub proof fn law_keys_length(m: Seq<(Seq<char>, Json)>)
    ensures
        spec_apply_builtin(Builtin::Keys, Json::Obj(m)) matches Ok(ks) && spec_apply_builtin(
            Builtin::Length,
            ks,
        ) == spec_apply_builtin(Builtin::Length, Json::Obj(m)),
{
    assert(key_strings(m).len() == m.len());
}

/// An expression of one pipeline gives exactly that pipeline's results; its
/// `KeyNotFound` is not skipped.
pub proof fn law_single_pipeline(v: Json, p: Seq<StageV>)
    ensures
        spec_execute(v, seq![p]) == spec_pipeline(v, p),
{
    assert(seq![p].drop_last() =~= Seq::<Seq<StageV>>::empty());
    assert(seq![p].last() == p);
    assert(spec_union(v, Seq::<Seq<StageV>>::empty(), true) == Ok::<Seq<Json>, ErrV>(Seq::empty()));
    match spec_pipeline(v, p) {
        Ok(rs) => {
            assert(Seq::<Json>::empty() + rs =~= rs);
        },
        Err(e) => {},
    }
}

/// `not(not(f))` selects exactly what `f` selects.
pub proof fn law_double_negation(v: Json, f: FilterV)
    ensures
        spec_evaluate(v, FilterV::Not(Box::new(FilterV::Not(Box::new(f))))) == spec_evaluate(v, f),
{
    reveal_with_fuel(spec_evaluate, 3);
}

// ──────────────────────────────────────────────
// Well-formedness is kept
// ──────────────────────────────────────────────

pub proof fn lemma_str_lt_transitive(a: Seq<char>, b: Seq<char>, c: Seq<char>)
    requires
        str_lt(a, b),
        str_lt(b, c),
    ensures
        str_lt(a, c),
    decreases a.len(),
{
    if a.len() > 0 && b.len() > 0 && c.len() > 0 && a[0] == b[0] && b[0] == c[0] {
        lemma_str_lt_transitive(a.drop_first(), b.drop_first(), c.drop_first());
    }
}

pub proof fn lemma_str_lt_total(a: Seq<char>, b: Seq<char>)
    requires
        a != b,
    ensures
        str_lt(a, b) || str_lt(b, a),
    decreases a.len(),
{
    if a.len() > 0 && b.len() > 0 && a[0] == b[0] {
        if a.drop_first() == b.drop_first() {
            assert(a =~= seq![a[0]] + a.drop_first());
            assert(b =~= seq![b[0]] + b.drop_first());
        }
        lemma_str_lt_total(a.drop_first(), b.drop_first());
    } else if a.len() > 0 && b.len() > 0 {
        assert(a[0] < b[0] || b[0] < a[0]);
    } else if a.len() == 0 && b.len() == 0 {
        assert(a =~= b);
    }
}

/// Every entry of an object with a key inserted is the new entry or one of
/// the object's entries.
pub proof fn lemma_insert_entries(m: Seq<(Seq<char>, Json)>, k: Seq<char>, v: Json)
    ensures
        forall|j: int|
            0 <= j < obj_insert(m, k, v).len() ==> (#[trigger] obj_insert(m, k, v)[j] == (k, v) || exists|i: int|
                0 <= i < m.len() && m[i] == obj_insert(m, k, v)[j]),
    decreases m.len(),
{
    let r = obj_insert(m, k, v);
    if m.len() == 0 {
    } else if m[0].0 == k {
        assert forall|j: int| 0 <= j < r.len() implies (#[trigger] r[j] == (k, v) || exists|i: int|
            0 <= i < m.len() && m[i] == r[j]) by {
            if j > 0 {
                assert(m[j] == r[j]);
            }
        }
    } else if str_lt(k, m[0].0) {
        assert forall|j: int| 0 <= j < r.len() implies (#[trigger] r[j] == (k, v) || exists|i: int|
            0 <= i < m.len() && m[i] == r[j]) by {
            if j > 0 {
                assert(m[j - 1] == r[j]);
            }
        }
    } else {
        let t = m.drop_first();
        lemma_insert_entries(t, k, v);
        assert forall|j: int| 0 <= j < r.len() implies (#[trigger] r[j] == (k, v) || exists|i: int|
            0 <= i < m.len() && m[i] == r[j]) by {
            if j == 0 {
                assert(m[0] == r[0]);
            } else {
                assert(r[j] == obj_insert(t, k, v)[j - 1]);
                if obj_insert(t, k, v)[j - 1] != (k, v) {
                    let i = choose|i: int| 0 <= i < t.len() && t[i] == obj_insert(t, k, v)[j - 1];
                    assert(m[i + 1] == r[j]);
                }
            }
        }
    }
}

proof fn lemma_sorted_tail(m: Seq<(Seq<char>, Json)>)
    requires
        keys_sorted(m),
        m.len() > 0,
    ensures
        keys_sorted(m.drop_first()),
{
    assert forall|i: int, j: int| 0 <= i < j < m.drop_first().len() implies str_lt(
        #[trigger] m.drop_first()[i].0,
        #[trigger] m.drop_first()[j].0,
    ) by {
        assert(m.drop_first()[i] == m[i + 1]);
        assert(m.drop_first()[j] == m[j + 1]);
    }
}

/// Inserting keeps an object's keys increasing.
pub proof fn lemma_insert_sorted(m: Seq<(Seq<char>, Json)>, k: Seq<char>, v: Json)
    requires
        keys_sorted(m),
    ensures
        keys_sorted(obj_insert(m, k, v)),
    decreases m.len(),
{
    let r = obj_insert(m, k, v);
    if m.len() == 0 {
    } else if m[0].0 == k {
        assert forall|i: int, j: int| 0 <= i < j < r.len() implies str_lt(#[trigger] r[i].0, #[trigger] r[j].0) by {
            if i > 0 {
                assert(r[i] == m[i]);
            }
            assert(r[j] == m[j]);
        }
    } else if str_lt(k, m[0].0) {
        assert forall|i: int, j: int| 0 <= i < j < r.len() implies str_lt(#[trigger] r[i].0, #[trigger] r[j].0) by {
            assert(r[j] == m[j - 1]);
            if i > 0 {
                assert(r[i] == m[i - 1]);
            } else if j - 1 > 0 {
                assert(str_lt(m[0].0, m[j - 1].0));
                lemma_str_lt_transitive(k, m[0].0, m[j - 1].0);
            }
        }
    } else {
        let t = m.drop_first();
        lemma_sorted_tail(m);
        lemma_insert_sorted(t, k, v);
        lemma_insert_entries(t, k, v);
        lemma_str_lt_total(m[0].0, k);
        let rt = obj_insert(t, k, v);
        assert forall|i: int, j: int| 0 <= i < j < r.len() implies str_lt(#[trigger] r[i].0, #[trigger] r[j].0) by {
            assert(r[j] == rt[j - 1]);
            if i > 0 {
                assert(r[i] == rt[i - 1]);
            } else {
                assert(r[0] == m[0]);
                if rt[j - 1] != (k, v) {
                    let q = choose|q: int| 0 <= q < t.len() && t[q] == rt[j - 1];
                    assert(m[q + 1] == t[q]);
                }
            }
        }
    }
}

/// The entries' values are all well-formed.
pub open spec fn values_wf(m: Seq<(Seq<char>, Json)>) -> bool {
    forall|i: int| 0 <= i < m.len() ==> wf_json(#[trigger] m[i].1)
}

proof fn lemma_insert_values_wf(m: Seq<(Seq<char>, Json)>, k: Seq<char>, v: Json)
    requires
        values_wf(m),
        wf_json(v),
    ensures
        values_wf(obj_insert(m, k, v)),
{
    lemma_insert_entries(m, k, v);
    let r = obj_insert(m, k, v);
    assert forall|j: int| 0 <= j < r.len() implies wf_json(#[trigger] r[j].1) by {
        if r[j] != (k, v) {
            let i = choose|i: int| 0 <= i < m.len() && m[i] == r[j];
            assert(wf_json(m[i].1));
        }
    }
}

proof fn lemma_insert_wf(m: Seq<(Seq<char>, Json)>, k: Seq<char>, v: Json)
    requires
        wf_json(Json::Obj(m)),
        wf_json(v),
    ensures
        wf_json(Json::Obj(obj_insert(m, k, v))),
{
    lemma_insert_sorted(m, k, v);
    assert(values_wf(m));
    lemma_insert_values_wf(m, k, v);
}

proof fn lemma_child_wf(m: Seq<(Seq<char>, Json)>, k: Seq<char>)
    requires
        wf_json(Json::Obj(m)),
    ensures
        obj_get(m, k) matches Some(c) ==> wf_json(c),
{
    lemma_get_entry(m, k);
    if obj_get(m, k) is Some {
        let j = choose|j: int| 0 <= j < m.len() && (#[trigger] m[j]).1 == obj_get(m, k)->0;
        assert(wf_json(m[j].1));
    }
}

proof fn lemma_arr_elem_wf(a: Seq<Json>, j: int)
    requires
        wf_json(Json::Arr(a)),
        0 <= j < a.len(),
    ensures
        wf_json(a[j]),
{
    reveal_with_fuel(wf_json, 2);
    let v = Json::Arr(a);
    assert(v matches Json::Arr(b) && b == a);
}

proof fn lemma_update_wf(a: Seq<Json>, i: int, c: Json)
    requires
        wf_json(Json::Arr(a)),
        0 <= i < a.len(),
        wf_json(c),
    ensures
        wf_json(Json::Arr(a.update(i, c))),
{
    assert forall|j: int| 0 <= j < a.update(i, c).len() implies wf_json(#[trigger] a.update(i, c)[j]) by {
        if j != i {
            lemma_arr_elem_wf(a, j);
        }
    }
}

proof fn lemma_set_wf(v: Json, segs: Seq<SegV>, nv: Json)
    requires
        wf_json(v),
        wf_json(nv),
    ensures
        spec_set(v, segs, nv) matches Ok(r) ==> wf_json(r),
    decreases segs.len(), 0int,
{
    if segs.len() > 0 {
        let seg = segs[0];
        let rest = segs.drop_first();
        match seg.key {
            Some(k) => {
                let m = match v {
                    Json::Obj(m) => m,
                    _ => Seq::empty(),
                };
                assert(wf_json(Json::Obj(m)));
                lemma_child_wf(m, k);
                let child = match obj_get(m, k) {
                    Some(c) => c,
                    None => Json::Null,
                };
                lemma_set_idx_wf(child, seg.indices, rest, nv);
                if spec_set_idx(child, seg.indices, rest, nv) is Ok {
                    lemma_insert_wf(m, k, spec_set_idx(child, seg.indices, rest, nv)->Ok_0);
                }
            },
            None => {
                lemma_set_idx_wf(v, seg.indices, rest, nv);
            },
        }
    }
}

proof fn lemma_set_idx_wf(v: Json, idx: Seq<Index>, rest: Seq<SegV>, nv: Json)
    requires
        wf_json(v),
        wf_json(nv),
    ensures
        spec_set_idx(v, idx, rest, nv) matches Ok(r) ==> wf_json(r),
    decreases rest.len(), idx.len() + 1,
{
    if idx.len() == 0 {
        lemma_set_wf(v, rest, nv);
    } else {
        match idx[0] {
            Index::Number(n) => match crate::selector::manipulate::edit_items(v) {
                Some(a) => {
                    assert(wf_json(Json::Arr(a)));
                    match crate::selector::manipulate::spec_resolve_index(n, a.len()) {
                        Ok(i) => {
                            let child = if i < a.len() {
                                a[i]
                            } else {
                                Json::Null
                            };
                            if i < a.len() {
                                lemma_arr_elem_wf(a, i);
                            }
                            lemma_set_idx_wf(child, idx.drop_first(), rest, nv);
                            if spec_set_idx(child, idx.drop_first(), rest, nv) is Ok {
                                lemma_place_wf(a, i, spec_set_idx(child, idx.drop_first(), rest, nv)->Ok_0);
                            }
                        },
                        Err(_) => {},
                    }
                },
                None => {},
            },
            _ => {},
        }
    }
}

proof fn lemma_place_wf(a: Seq<Json>, i: int, c: Json)
    requires
        wf_json(Json::Arr(a)),
        0 <= i,
        wf_json(c),
    ensures
        wf_json(Json::Arr(crate::selector::manipulate::place_at(a, i, c))),
{
    if i < a.len() {
        lemma_update_wf(a, i, c);
    } else {
        let r = crate::selector::manipulate::place_at(a, i, c);
        assert forall|j: int| 0 <= j < r.len() implies wf_json(#[trigger] r[j]) by {
            if j < a.len() {
                lemma_arr_elem_wf(a, j);
                assert(r[j] == a[j]);
            } else if j < i {
                assert(r[j] == Json::Null);
            } else {
                assert(r[j] == c);
            }
        }
    }
}

/// `set` keeps values well-formed: from a well-formed value and a
/// well-formed new value, every object in the result has increasing keys.
pub proof fn law_set_keeps_wf(v: Json, segs: Seq<SegV>, nv: Json)
    requires
        wf_json(v),
        wf_json(nv),
    ensures
        spec_set(v, segs, nv) matches Ok(r) ==> wf_json(r),
{
    lemma_set_wf(v, segs, nv);
}

/// Taking a key out keeps an object's keys increasing.
pub proof fn lemma_remove_sorted(m: Seq<(Seq<char>, Json)>, k: Seq<char>)
    requires
        keys_sorted(m),
    ensures
        keys_sorted(obj_remove(m, k)),
        forall|j: int| 0 <= j < obj_remove(m, k).len() ==> exists|i: int|
            0 <= i < m.len() && m[i] == #[trigger] obj_remove(m, k)[j],
    decreases m.len(),
{
    let r = obj_remove(m, k);
    if m.len() == 0 {
    } else if m[0].0 == k {
        lemma_sorted_tail(m);
        assert forall|j: int| 0 <= j < r.len() implies exists|i: int| 0 <= i < m.len() && m[i] == #[trigger] r[j] by {
            assert(m[j + 1] == r[j]);
        }
    } else {
        let t = m.drop_first();
        lemma_sorted_tail(m);
        lemma_remove_sorted(t, k);
        let rt = obj_remove(t, k);
        assert forall|j: int| 0 <= j < r.len() implies exists|i: int| 0 <= i < m.len() && m[i] == #[trigger] r[j] by {
            if j == 0 {
                assert(m[0] == r[0]);
            } else {
                assert(r[j] == rt[j - 1]);
                let q = choose|q: int| 0 <= q < t.len() && t[q] == rt[j - 1];
                assert(m[q + 1] == r[j]);
            }
        }
        assert forall|i: int, j: int| 0 <= i < j < r.len() implies str_lt(#[trigger] r[i].0, #[trigger] r[j].0) by {
            assert(r[j] == rt[j - 1]);
            if i > 0 {
                assert(r[i] == rt[i - 1]);
            } else {
                let q = choose|q: int| 0 <= q < t.len() && t[q] == rt[j - 1];
                assert(m[q + 1] == t[q]);
                assert(str_lt(m[0].0, m[q + 1].0));
            }
        }
    }
}

proof fn lemma_remove_wf(m: Seq<(Seq<char>, Json)>, k: Seq<char>)
    requires
        wf_json(Json::Obj(m)),
    ensures
        wf_json(Json::Obj(obj_remove(m, k))),
{
    lemma_remove_sorted(m, k);
    let r = obj_remove(m, k);
    assert forall|j: int| 0 <= j < r.len() implies wf_json(#[trigger] r[j].1) by {
        let i = choose|i: int| 0 <= i < m.len() && m[i] == r[j];
        assert(wf_json(m[i].1));
    }
}

proof fn lemma_del_wf(v: Json, segs: Seq<SegV>)
    requires
        wf_json(v),
    ensures
        spec_del(v, segs) matches Ok(r) ==> wf_json(r),
    decreases segs.len(), 0int,
{
    if segs.len() > 0 {
        let seg = segs[0];
        let rest = segs.drop_first();
        match (seg.key, v) {
            (Some(k), Json::Obj(m)) => {
                if rest.len() == 0 && seg.indices.len() == 0 {
                    lemma_remove_wf(m, k);
                } else {
                    lemma_child_wf(m, k);
                    match obj_get(m, k) {
                        Some(c) => {
                            lemma_del_idx_wf(c, seg.indices, rest);
                            if spec_del_idx(c, seg.indices, rest) is Ok {
                                lemma_insert_wf(m, k, spec_del_idx(c, seg.indices, rest)->Ok_0);
                            }
                        },
                        None => {},
                    }
                }
            },
            (None, _) => {
                lemma_del_idx_wf(v, seg.indices, rest);
            },
            _ => {},
        }
    }
}

proof fn lemma_del_idx_wf(v: Json, idx: Seq<Index>, rest: Seq<SegV>)
    requires
        wf_json(v),
    ensures
        spec_del_idx(v, idx, rest) matches Ok(r) ==> wf_json(r),
    decreases rest.len(), idx.len() + 1,
{
    if idx.len() == 0 {
        lemma_del_wf(v, rest);
    } else {
        match (idx[0], v) {
            (Index::Number(n), Json::Arr(a)) => {
                match crate::selector::manipulate::spec_resolve_index(n, a.len()) {
                    Ok(i) => {
                        if 0 <= i < a.len() {
                            if idx.len() == 1 && rest.len() == 0 {
                                assert forall|j: int| 0 <= j < a.remove(i).len() implies wf_json(#[trigger] a.remove(i)[j]) by {
                                    if j < i {
                                        assert(a.remove(i)[j] == a[j]);
                                    } else {
                                        assert(a.remove(i)[j] == a[j + 1]);
                                    }
                                }
                            } else {
                                assert(wf_json(a[i]));
                                lemma_del_idx_wf(a[i], idx.drop_first(), rest);
                                if spec_del_idx(a[i], idx.drop_first(), rest) is Ok {
                                    lemma_update_wf(a, i, spec_del_idx(a[i], idx.drop_first(), rest)->Ok_0);
                                }
                            }
                        }
                    },
                    Err(_) => {},
                }
            },
            _ => {},
        }
    }
}

/// `del` keeps values well-formed.
pub proof fn law_del_keeps_wf(v: Json, segs: Seq<SegV>)
    requires
        wf_json(v),
    ensures
        spec_del(v, segs) matches Ok(r) ==> wf_json(r),
{
    lemma_del_wf(v, segs);
}

// ──────────────────────────────────────────────
// Numbers, splitting, detection
// ──────────────────────────────────────────────

pub proof fn lemma_str_lt_asymmetric(a: Seq<char>, b: Seq<char>)
    requires
        str_lt(a, b),
    ensures
        !str_lt(b, a),
    decreases a.len(),
{
    if a.len() > 0 && b.len() > 0 && a[0] == b[0] {
        lemma_str_lt_asymmetric(a.drop_first(), b.drop_first());
    }
}

proof fn lemma_mag_order_flip(a: Dec, b: Dec)
    ensures
        mag_order(a, b) == reverse(mag_order(b, a)),
{
    if a.digits.len() > 0 && b.digits.len() > 0 && a.point == b.point && a.digits != b.digits {
        lemma_str_lt_total(a.digits, b.digits);
        if str_lt(a.digits, b.digits) {
            lemma_str_lt_asymmetric(a.digits, b.digits);
        } else {
            lemma_str_lt_asymmetric(b.digits, a.digits);
        }
    }
}

/// Comparing two numbers the other way round gives the reverse outcome.
pub proof fn law_number_order_flips(a: Seq<char>, b: Seq<char>)
    requires
        valid_float(a),
        valid_float(b),
    ensures
        num_order(a, b) matches Some(o) && num_order(b, a) == Some(reverse(o)),
{
    lemma_mag_order_flip(dec_of(a), dec_of(b));
    lemma_mag_order_flip(dec_of(b), dec_of(a));
}

/// A number compares equal to itself.
pub proof fn law_number_order_reflexive(a: Seq<char>)
    requires
        valid_float(a),
    ensures
        num_order(a, a) == Some(Order3::Equal),
{
}

/// The parts joined again with `d` between them.
pub open spec fn join_with(ps: Seq<Seq<char>>, d: char) -> Seq<char>
    decreases ps.len(),
{
    if ps.len() == 0 {
        Seq::empty()
    } else if ps.len() == 1 {
        ps[0]
    } else {
        ps[0] + seq![d] + join_with(ps.drop_first(), d)
    }
}

proof fn lemma_split_from_join(s: Seq<char>, d: char, i: int, q: bool, depth: nat, start: int)
    requires
        0 <= start <= i,
        start <= s.len(),
    ensures
        split_from(s, d, i, q, depth, start).len() >= 1,
        join_with(split_from(s, d, i, q, depth, start), d) == s.subrange(start, s.len() as int),
    decreases s.len() - i,
{
    if i < 0 || i >= s.len() {
    } else if q {
        if s[i] == '\\' && i + 1 < s.len() {
            lemma_split_from_join(s, d, i + 2, true, depth, start);
        } else if s[i] == '"' {
            lemma_split_from_join(s, d, i + 1, false, depth, start);
        } else {
            lemma_split_from_join(s, d, i + 1, true, depth, start);
        }
    } else if s[i] == '"' {
        lemma_split_from_join(s, d, i + 1, true, depth, start);
    } else if s[i] == '[' || s[i] == '(' {
        lemma_split_from_join(s, d, i + 1, false, depth + 1, start);
    } else if s[i] == ']' || s[i] == ')' {
        lemma_split_from_join(s, d, i + 1, false, if depth > 0 { (depth - 1) as nat } else { 0 }, start);
    } else if s[i] == d && depth == 0 {
        lemma_split_from_join(s, d, i + 1, false, 0, i + 1);
        let rest = split_from(s, d, i + 1, false, 0, i + 1);
        let ps = seq![s.subrange(start, i)] + rest;
        assert(ps.drop_first() =~= rest);
        assert(ps[0] == s.subrange(start, i));
        assert(s.subrange(start, i) + seq![d] + s.subrange(i + 1, s.len() as int) =~= s.subrange(start, s.len() as int));
    } else {
        lemma_split_from_join(s, d, i + 1, false, depth, start);
    }
}

/// Splitting at top-level delimiters loses nothing: the parts joined with
/// the delimiter give back the text.
pub proof fn law_split_rejoins(s: Seq<char>, d: char)
    ensures
        join_with(split_top(s, d), d) == s,
{
    lemma_split_from_join(s, d, 0, false, 0, 0);
    assert(s.subrange(0, s.len() as int) =~= s);
}

/// Text that starts with `{` (after white space) is taken for JSON.
pub proof fn law_brace_is_json(input: Seq<char>)
    requires
        trim(input).len() > 0,
        trim(input)[0] == '{',
    ensures
        spec_detect(input) == InputFormat::Json,
{
}

// ──────────────────────────────────────────────
// Every reader gives well-formed values
// ──────────────────────────────────────────────

proof fn lemma_empty_obj_wf()
    ensures
        wf_json(Json::Obj(Seq::empty())),
{
}

proof fn lemma_env_entries_wf(ls: Seq<Seq<char>>)
    ensures
        wf_json(Json::Obj(crate::formats::env::env_entries(ls))),
    decreases ls.len(),
{
    if ls.len() > 0 {
        lemma_env_entries_wf(ls.drop_last());
        match crate::formats::env::env_pair(ls.last()) {
            Some((k, v)) => lemma_insert_wf(crate::formats::env::env_entries(ls.drop_last()), k, Json::Str(v)),
            None => {},
        }
    }
}

/// A `.env` text reads as a well-formed value.
pub proof fn law_env_parse_wf(input: Seq<char>)
    ensures
        crate::formats::env::spec_parse(input) matches Ok(v) ==> wf_json(v),
{
    lemma_env_entries_wf(crate::text::lines(input));
}

proof fn lemma_header_entries_wf(ls: Seq<Seq<char>>)
    ensures
        wf_json(Json::Obj(crate::formats::headers::header_entries(ls))),
    decreases ls.len(),
{
    if ls.len() > 0 {
        lemma_header_entries_wf(ls.drop_last());
        match crate::formats::headers::header_pair(ls.last()) {
            Some((k, v)) => lemma_insert_wf(crate::formats::headers::header_entries(ls.drop_last()), k, Json::Str(v)),
            None => {},
        }
    }
}

/// HTTP headers read as a well-formed value.
pub proof fn law_headers_parse_wf(input: Seq<char>)
    ensures
        crate::formats::headers::spec_parse(input) matches Ok(v) ==> wf_json(v),
{
    lemma_header_entries_wf(crate::text::lines(input));
}

proof fn lemma_text_entries_wf(ls: Seq<Seq<char>>)
    ensures
        wf_json(Json::Obj(crate::formats::text::text_entries(ls))),
    decreases ls.len(),
{
    if ls.len() > 0 {
        lemma_text_entries_wf(ls.drop_last());
        match crate::formats::text::text_pair(ls.last()) {
            Some((k, v)) => lemma_insert_wf(crate::formats::text::text_entries(ls.drop_last()), k, Json::Str(v)),
            None => {},
        }
    }
}

/// Plain text reads as a well-formed value.
pub proof fn law_text_parse_wf(input: Seq<char>)
    ensures
        crate::formats::text::spec_parse(input) matches Ok(v) ==> wf_json(v),
{
    let ls = crate::text::lines(input);
    lemma_text_entries_wf(ls);
    let items = crate::formats::text::str_items(ls);
    assert forall|i: int| 0 <= i < items.len() implies wf_json(#[trigger] items[i]) by {
        assert(items[i] == Json::Str(ls[i]));
    }
}

proof fn lemma_logfmt_fields_wf(r: Seq<char>, m: Seq<(Seq<char>, Json)>)
    requires
        wf_json(Json::Obj(m)),
    ensures
        crate::formats::logfmt::logfmt_fields(r, m) matches Ok(m2) ==> wf_json(Json::Obj(m2)),
    decreases r.len(),
{
    if r.len() > 0 {
        let ke = key_end(r);
        crate::text::lemma_first_match_bounds(r, key_stop());
        if ke > 0 {
            let key = r.take(ke);
            let rest = r.skip(ke);
            if rest.len() > 0 && rest[0] == '=' {
                let after = rest.drop_first();
                if after.len() > 0 && after[0] == '"' {
                    let body = after.drop_first();
                    lemma_quoted_len(body);
                    match quoted_value(body) {
                        None => {},
                        Some((v, n)) => {
                            lemma_trim_start_len(body.skip(n));
                            lemma_insert_wf(m, key, Json::Str(v));
                            lemma_logfmt_fields_wf(crate::text::trim_start(body.skip(n)), obj_insert(m, key, Json::Str(v)));
                        },
                    }
                } else {
                    let end = match crate::text::find_char(after, ' ') {
                        Some(i) => i,
                        None => after.len() as int,
                    };
                    crate::text::lemma_first_match_bounds(after, crate::text::is_char(' '));
                    lemma_trim_start_len(after.skip(end));
                    lemma_insert_wf(m, key, Json::Str(after.take(end)));
                    lemma_logfmt_fields_wf(crate::text::trim_start(after.skip(end)), obj_insert(m, key, Json::Str(after.take(end))));
                }
            } else {
                lemma_trim_start_len(rest);
                lemma_insert_wf(m, key, Json::Bool(true));
                lemma_logfmt_fields_wf(crate::text::trim_start(rest), obj_insert(m, key, Json::Bool(true)));
            }
        }
    }
}

proof fn lemma_logfmt_line_wf(line: Seq<char>)
    ensures
        crate::formats::logfmt::spec_line(line) matches Ok(v) ==> wf_json(v),
{
    lemma_logfmt_fields_wf(trim(line), Seq::empty());
}

proof fn lemma_all_lines_wf(ls: Seq<Seq<char>>)
    ensures
        crate::formats::logfmt::all_lines(ls) matches Ok(vs) ==> wf_json(Json::Arr(vs)),
    decreases ls.len(),
{
    if ls.len() > 0 {
        lemma_all_lines_wf(ls.drop_last());
        lemma_logfmt_line_wf(ls.last());
        match crate::formats::logfmt::all_lines(ls) {
            Ok(vs) => {
                let acc = crate::formats::logfmt::all_lines(ls.drop_last())->Ok_0;
                assert(vs == acc.push(crate::formats::logfmt::spec_line(ls.last())->Ok_0));
                assert forall|j: int| 0 <= j < vs.len() implies wf_json(#[trigger] vs[j]) by {
                    if j < acc.len() {
                        lemma_arr_elem_wf(acc, j);
                    }
                }
            },
            Err(_) => {},
        }
    }
}

/// logfmt text reads as a well-formed value.
pub proof fn law_logfmt_parse_wf(input: Seq<char>)
    ensures
        crate::formats::logfmt::spec_parse(input) matches Ok(v) ==> wf_json(v),
{
    let ls = crate::formats::logfmt::nonblank(crate::text::lines(input));
    if ls.len() == 1 {
        lemma_logfmt_line_wf(ls[0]);
    } else {
        lemma_all_lines_wf(ls);
    }
}

proof fn lemma_row_entries_wf(headers: Seq<Seq<char>>, fields: Seq<Seq<char>>)
    ensures
        wf_json(Json::Obj(crate::formats::csv_format::row_entries(headers, fields))),
    decreases fields.len(),
{
    if fields.len() > 0 {
        lemma_row_entries_wf(headers, fields.drop_last());
        let i = fields.len() - 1;
        let key = if i < headers.len() {
            headers[i]
        } else {
            crate::value::nat_text(i as nat)
        };
        lemma_insert_wf(crate::formats::csv_format::row_entries(headers, fields.drop_last()), key, Json::Str(fields.last()));
    }
}

/// What a CSV reader yields becomes a well-formed value.
pub proof fn law_csv_rows_wf(read: Result<crate::formats::csv_format::CsvTableV, Seq<char>>)
    ensures
        crate::formats::csv_format::spec_rows(read) matches Ok(v) ==> wf_json(v),
{
    match read {
        Ok(t) => {
            let rows = crate::formats::csv_format::rows_json(t);
            assert forall|j: int| 0 <= j < rows.len() implies wf_json(#[trigger] rows[j]) by {
                lemma_row_entries_wf(t.headers, t.records[j]);
            }
        },
        Err(_) => {},
    }
}


proof fn lemma_yaml_json_wf(n: YamlV)
    ensures
        wf_json(yaml_json(n)),
    decreases n,
{
    match n {
        YamlV::Sequence(a) => lemma_yaml_items_wf(a),
        YamlV::Mapping(m) => lemma_yaml_entries_wf(m),
        YamlV::Tagged(b) => lemma_yaml_json_wf(*b),
        _ => {},
    }
}

proof fn lemma_yaml_items_wf(a: Seq<YamlV>)
    ensures
        yaml_items(a).len() == a.len(),
        forall|i: int| 0 <= i < a.len() ==> wf_json(#[trigger] yaml_items(a)[i]),
    decreases a,
{
    if a.len() > 0 {
        lemma_yaml_items_wf(a.drop_last());
        lemma_yaml_json_wf(a.last());
    }
}

proof fn lemma_yaml_entries_wf(m: Seq<(YamlKeyV, YamlV)>)
    ensures
        wf_json(Json::Obj(yaml_entries(m))),
    decreases m,
{
    if m.len() > 0 {
        lemma_yaml_entries_wf(m.drop_last());
        lemma_yaml_json_wf(m.last().1);
        lemma_insert_wf(yaml_entries(m.drop_last()), key_text(m.last().0), yaml_json(m.last().1));
    }
}

/// A YAML text that reads at all reads as a well-formed value.
pub proof fn law_yaml_parse_wf(input: Seq<char>)
    ensures
        crate::formats::yaml::spec_parse(input) matches Ok(v) ==> wf_json(v),
{
    if let Ok(n) = yaml_decode(input) {
        lemma_yaml_json_wf(n);
    }
}

proof fn lemma_toml_json_wf(n: TomlV)
    ensures
        wf_json(toml_json(n)),
    decreases n,
{
    match n {
        TomlV::Array(a) => lemma_toml_items_wf(a),
        TomlV::Table(m) => lemma_toml_entries_wf(m),
        _ => {},
    }
}

proof fn lemma_toml_items_wf(a: Seq<TomlV>)
    ensures
        toml_items(a).len() == a.len(),
        forall|i: int| 0 <= i < a.len() ==> wf_json(#[trigger] toml_items(a)[i]),
    decreases a,
{
    if a.len() > 0 {
        lemma_toml_items_wf(a.drop_last());
        lemma_toml_json_wf(a.last());
    }
}

proof fn lemma_toml_entries_wf(m: Seq<(Seq<char>, TomlV)>)
    ensures
        wf_json(Json::Obj(toml_entries(m))),
    decreases m,
{
    if m.len() > 0 {
        lemma_toml_entries_wf(m.drop_last());
        lemma_toml_json_wf(m.last().1);
        lemma_insert_wf(toml_entries(m.drop_last()), m.last().0, toml_json(m.last().1));
    }
}

/// A TOML text that reads at all reads as a well-formed value.
pub proof fn law_toml_parse_wf(input: Seq<char>)
    ensures
        crate::formats::toml_format::spec_parse(input) matches Ok(v) ==> wf_json(v),
{
    if let Ok(n) = toml_decode(input) {
        lemma_toml_json_wf(n);
    }
}

// ──────────────────────────────────────────────
// Selecting keeps values well-formed
// ──────────────────────────────────────────────

proof fn lemma_all_wf_concat(a: Seq<Json>, b: Seq<Json>)
    requires
        all_wf(a),
        all_wf(b),
    ensures
        all_wf(a + b),
{
    assert forall|i: int| 0 <= i < (a + b).len() implies wf_json(#[trigger] (a + b)[i]) by {
        if i < a.len() {
            assert((a + b)[i] == a[i]);
        } else {
            assert((a + b)[i] == b[i - a.len()]);
        }
    }
}

proof fn lemma_all_wf_drop_last(a: Seq<Json>)
    requires
        all_wf(a),
        a.len() > 0,
    ensures
        all_wf(a.drop_last()),
        wf_json(a.last()),
{
    assert forall|i: int| 0 <= i < a.drop_last().len() implies wf_json(#[trigger] a.drop_last()[i]) by {
        assert(a.drop_last()[i] == a[i]);
    }
    assert(wf_json(a[a.len() - 1]));
}

proof fn lemma_arr_all_wf(a: Seq<Json>)
    requires
        wf_json(Json::Arr(a)),
    ensures
        all_wf(a),
{
    assert forall|i: int| 0 <= i < a.len() implies wf_json(#[trigger] a[i]) by {
        lemma_arr_elem_wf(a, i);
    }
}

proof fn lemma_rfind_wf(v: Json, k: Seq<char>)
    requires
        wf_json(v),
    ensures
        all_wf(crate::selector::extract::rfind(v, k)),
    decreases v,
{
    match v {
        Json::Obj(m) => {
            lemma_child_wf(m, k);
            assert(values_wf(m));
            lemma_rfind_entries_wf(m, k);
            let own = match obj_get(m, k) {
                Some(x) => seq![x],
                None => Seq::<Json>::empty(),
            };
            assert(all_wf(own));
            lemma_all_wf_concat(own, crate::selector::extract::rfind_entries(m, k));
        },
        Json::Arr(a) => {
            lemma_arr_all_wf(a);
            lemma_rfind_items_wf(a, k);
        },
        _ => {},
    }
}

proof fn lemma_rfind_items_wf(a: Seq<Json>, k: Seq<char>)
    requires
        all_wf(a),
    ensures
        all_wf(crate::selector::extract::rfind_items(a, k)),
    decreases a,
{
    if a.len() > 0 {
        lemma_all_wf_drop_last(a);
        lemma_rfind_items_wf(a.drop_last(), k);
        lemma_rfind_wf(a.last(), k);
        lemma_all_wf_concat(
            crate::selector::extract::rfind_items(a.drop_last(), k),
            crate::selector::extract::rfind(a.last(), k),
        );
    }
}

proof fn lemma_rfind_entries_wf(m: Seq<(Seq<char>, Json)>, k: Seq<char>)
    requires
        values_wf(m),
    ensures
        all_wf(crate::selector::extract::rfind_entries(m, k)),
    decreases m,
{
    if m.len() > 0 {
        assert(values_wf(m.drop_last())) by {
            assert forall|i: int| 0 <= i < m.drop_last().len() implies wf_json(#[trigger] m.drop_last()[i].1) by {
                assert(m.drop_last()[i] == m[i]);
            }
        }
        assert(wf_json(m[m.len() - 1].1));
        lemma_rfind_entries_wf(m.drop_last(), k);
        lemma_rfind_wf(m.last().1, k);
        lemma_all_wf_concat(
            crate::selector::extract::rfind_entries(m.drop_last(), k),
            crate::selector::extract::rfind(m.last().1, k),
        );
    }
}

proof fn lemma_resolve_key_wf(v: Json, seg: SegV)
    requires
        wf_json(v),
    ensures
        spec_resolve_key(v, seg) matches Ok(r) ==> all_wf(r),
{
    if seg.recursive && seg.key is Some {
        lemma_rfind_wf(v, seg.key->0);
    }
    if let Json::Obj(m) = v {
        if let Some(k) = seg.key {
            lemma_child_wf(m, k);
        }
    }
}

proof fn lemma_index_one_wf(v: Json, idx: Index)
    requires
        wf_json(v),
    ensures
        spec_index_one(v, idx) matches Ok(r) ==> all_wf(r),
{
    if let Json::Arr(a) = v {
        lemma_arr_all_wf(a);
        let r = crate::selector::extract::spec_slice(a, idx->start, idx->end);
        if idx is Slice {
            assert forall|i: int| 0 <= i < r.len() implies wf_json(#[trigger] r[i]) by {
                let len = crate::selector::extract::slice_len(a.len());
                let s = crate::selector::extract::clamp(crate::selector::extract::spec_slice_bound(idx->start, 0, len), 0, len);
                assert(r[i] == a[s + i]);
            }
        }
    }
}

proof fn lemma_index_all_wf(vs: Seq<Json>, idx: Index)
    requires
        all_wf(vs),
    ensures
        crate::selector::extract::spec_index_all(vs, idx) matches Ok(r) ==> all_wf(r),
    decreases vs.len(),
{
    if vs.len() > 0 {
        lemma_all_wf_drop_last(vs);
        lemma_index_all_wf(vs.drop_last(), idx);
        lemma_index_one_wf(vs.last(), idx);
        if let Ok(r) = crate::selector::extract::spec_index_all(vs.drop_last(), idx) {
            if let Ok(x) = spec_index_one(vs.last(), idx) {
                lemma_all_wf_concat(r, x);
            }
        }
    }
}

proof fn lemma_apply_indices_wf(vs: Seq<Json>, indices: Seq<Index>)
    requires
        all_wf(vs),
    ensures
        crate::selector::extract::spec_apply_indices(vs, indices) matches Ok(r) ==> all_wf(r),
    decreases indices.len(),
{
    if indices.len() > 0 {
        lemma_index_all_wf(vs, indices[0]);
        if let Ok(next) = crate::selector::extract::spec_index_all(vs, indices[0]) {
            lemma_apply_indices_wf(next, indices.drop_first());
        }
    }
}

proof fn lemma_builtin_wf(b: Builtin, v: Json)
    requires
        wf_json(v),
    ensures
        spec_apply_builtin(b, v) matches Ok(r) ==> wf_json(r),
{
    match v {
        Json::Obj(m) => {
            let ks = key_strings(m);
            assert forall|i: int| 0 <= i < ks.len() implies wf_json(#[trigger] ks[i]) by {
                assert(ks[i] == Json::Str(m[i].0));
            }
            let vs = crate::selector::extract::entry_values(m);
            assert forall|i: int| 0 <= i < vs.len() implies wf_json(#[trigger] vs[i]) by {
                assert(vs[i] == m[i].1);
            }
        },
        Json::Arr(a) => {
            let ps = crate::selector::extract::positions(a.len());
            assert forall|i: int| 0 <= i < ps.len() implies wf_json(#[trigger] ps[i]) by {
                assert(ps[i] == crate::selector::extract::count_json(i as nat));
            }
        },
        _ => {},
    }
}

proof fn lemma_builtin_all_wf(vs: Seq<Json>, b: Builtin)
    requires
        all_wf(vs),
    ensures
        crate::selector::extract::spec_builtin_all(vs, b) matches Ok(r) ==> all_wf(r),
    decreases vs.len(),
{
    if vs.len() > 0 {
        lemma_all_wf_drop_last(vs);
        lemma_builtin_all_wf(vs.drop_last(), b);
        lemma_builtin_wf(b, vs.last());
        if let Ok(r) = crate::selector::extract::spec_builtin_all(vs.drop_last(), b) {
            if let Ok(x) = spec_apply_builtin(b, vs.last()) {
                assert forall|i: int| 0 <= i < r.push(x).len() implies wf_json(#[trigger] r.push(x)[i]) by {
                    if i < r.len() {
                        assert(r.push(x)[i] == r[i]);
                    }
                }
            }
        }
    }
}

proof fn lemma_step_wf(cur: Seq<Json>, seg: SegV)
    requires
        all_wf(cur),
    ensures
        spec_step(cur, seg) matches Ok(r) ==> all_wf(r),
    decreases cur.len(),
{
    if cur.len() > 0 {
        lemma_all_wf_drop_last(cur);
        lemma_step_wf(cur.drop_last(), seg);
        let v = cur.last();
        lemma_resolve_key_wf(v, seg);
        if let Ok(keyed) = spec_resolve_key(v, seg) {
            lemma_apply_indices_wf(keyed, seg.indices);
            if let Ok(ix) = crate::selector::extract::spec_apply_indices(keyed, seg.indices) {
                if let Some(b) = seg.builtin {
                    lemma_builtin_all_wf(ix, b);
                }
            }
        }
        if let Ok(acc) = spec_step(cur.drop_last(), seg) {
            if let Ok(r) = spec_segment_values(v, seg) {
                lemma_all_wf_concat(acc, r);
            }
        }
    }
}

proof fn lemma_extract_from_wf(cur: Seq<Json>, segs: Seq<SegV>)
    requires
        all_wf(cur),
    ensures
        spec_extract_from(cur, segs) matches Ok(r) ==> all_wf(r),
    decreases segs.len(),
{
    if segs.len() > 0 {
        lemma_step_wf(cur, segs[0]);
        if let Ok(next) = spec_step(cur, segs[0]) {
            lemma_extract_from_wf(next, segs.drop_first());
        }
    }
}

/// Selecting a path from a well-formed value gives well-formed values.
pub proof fn law_extract_keeps_wf(v: Json, segs: Seq<SegV>)
    requires
        wf_json(v),
    ensures
        spec_extract(v, segs) matches Ok(r) ==> all_wf(r),
{
    assert(all_wf(seq![v]));
    lemma_extract_from_wf(seq![v], segs);
}

proof fn lemma_stage_one_wf(x: Json, st: StageV)
    requires
        wf_json(x),
    ensures
        crate::selector::execute::stage_one(x, st) matches Ok(r) ==> all_wf(r),
{
    match st {
        StageV::Path(p) => law_extract_keeps_wf(x, p),
        StageV::Builtin(b) => lemma_builtin_wf(b, x),
        StageV::Select(f) => {},
        StageV::SetAt(p, l) => {
            assert(wf_json(crate::selector::literal::lit_json(l)));
            law_set_keeps_wf(x, p, crate::selector::literal::lit_json(l));
        },
        StageV::Del(p) => law_del_keeps_wf(x, p),
    }
}

proof fn lemma_stage_wf(inputs: Seq<Json>, st: StageV)
    requires
        all_wf(inputs),
    ensures
        crate::selector::execute::spec_stage(inputs, st) matches Ok(r) ==> all_wf(r),
    decreases inputs.len(),
{
    reveal(crate::selector::execute::spec_stage);
    if inputs.len() > 0 {
        lemma_all_wf_drop_last(inputs);
        lemma_stage_wf(inputs.drop_last(), st);
        lemma_stage_one_wf(inputs.last(), st);
        if let Ok(acc) = crate::selector::execute::spec_stage(inputs.drop_last(), st) {
            if let Ok(r) = crate::selector::execute::stage_one(inputs.last(), st) {
                lemma_all_wf_concat(acc, r);
            }
        }
    }
}

proof fn lemma_pipeline_from_wf(cur: Seq<Json>, stages: Seq<StageV>)
    requires
        all_wf(cur),
    ensures
        crate::selector::execute::spec_pipeline_from(cur, stages) matches Ok(r) ==> all_wf(r),
    decreases stages.len(),
{
    if stages.len() > 0 {
        lemma_stage_wf(cur, stages[0]);
        if let Ok(next) = crate::selector::execute::spec_stage(cur, stages[0]) {
            lemma_pipeline_from_wf(next, stages.drop_first());
        }
    }
}

proof fn lemma_union_wf(v: Json, pipes: Seq<Seq<StageV>>, single: bool)
    requires
        wf_json(v),
    ensures
        spec_union(v, pipes, single) matches Ok(r) ==> all_wf(r),
    decreases pipes.len(),
{
    if pipes.len() > 0 {
        lemma_union_wf(v, pipes.drop_last(), single);
        reveal(spec_pipeline);
        assert(all_wf(seq![v]));
        lemma_pipeline_from_wf(seq![v], pipes.last());
        if let Ok(acc) = spec_union(v, pipes.drop_last(), single) {
            if let Ok(rs) = spec_pipeline(v, pipes.last()) {
                lemma_all_wf_concat(acc, rs);
            }
        }
    }
}

/// Running an expression on a well-formed value gives well-formed values.
pub proof fn law_execute_keeps_wf(v: Json, pipes: Seq<Seq<StageV>>)
    requires
        wf_json(v),
    ensures
        spec_execute(v, pipes) matches Ok(r) ==> all_wf(r),
{
    lemma_union_wf(v, pipes, pipes.len() == 1);
}

// ──────────────────────────────────────────────
// Selector syntax
// ──────────────────────────────────────────────

/// Text that ends with a dot.
pub open spec fn ends_in_dot(s: Seq<char>) -> bool {
    s.len() > 0 && s.last() == '.'
}

proof fn lemma_quoted_key_closes(t: Seq<char>)
    ensures
        crate::selector::parser::quoted_key(t) matches Some((k, rest)) ==> rest.len() < t.len() && rest
            =~= t.skip(t.len() - rest.len()) && t[t.len() - rest.len() - 1] == '"',
    decreases t.len(),
{
    if t.len() > 0 && t[0] != '"' {
        if t[0] == '\\' {
            if t.len() >= 2 {
                lemma_quoted_key_closes(t.skip(2));
                if let Some((k, rest)) = crate::selector::parser::quoted_key(t.skip(2)) {
                    assert(t.skip(2)[t.skip(2).len() - rest.len() - 1] == t[t.len() - rest.len() - 1]);
                }
            }
        } else {
            lemma_quoted_key_closes(t.drop_first());
            if let Some((k, rest)) = crate::selector::parser::quoted_key(t.drop_first()) {
                assert(t.drop_first()[t.drop_first().len() - rest.len() - 1] == t[t.len() - rest.len() - 1]);
            }
        }
    }
}

proof fn lemma_indices_keep_dot(s: Seq<char>)
    requires
        ends_in_dot(s),
    ensures
        crate::selector::parser::spec_parse_indices(s) matches Ok((ixs, rest)) ==> ends_in_dot(rest) && rest.len() <= s.len(),
    decreases s.len(),
{
    crate::selector::parser::lemma_indices_suffix(s);
    if s[0] == '[' {
        let r = s.drop_first();
        crate::text::lemma_first_match_bounds(r, crate::text::is_char(']'));
        if let Some(e) = crate::text::find_char(r, ']') {
            assert(r.last() == '.');
            assert(e + 1 < r.len());
            let after = r.skip(e + 1);
            assert(after.last() == s.last());
            lemma_indices_keep_dot(after);
        }
    }
}

proof fn lemma_segment_keeps_dot(s: Seq<char>)
    requires
        ends_in_dot(s),
    ensures
        crate::selector::parser::spec_parse_segment(s) matches Ok((seg, rest)) ==> ends_in_dot(rest),
{
    crate::selector::parser::lemma_segment_suffix(s);
    crate::selector::parser::lemma_parse_key_suffix(s);
    let key_rem = crate::selector::parser::spec_parse_key(s);
    if let Ok((key, rem)) = key_rem {
        // The key leaves the final dot in place.
        assert(ends_in_dot(rem)) by {
            if s[0] == '"' {
                lemma_quoted_key_closes(s.drop_first());
                assert(s.drop_first().last() == '.');
            } else if s[0] == '[' {
            } else {
                crate::text::lemma_first_match_bounds(s, crate::selector::parser::not_bare_key_char());
                assert(!crate::selector::parser::is_bare_key_char(s[s.len() - 1]));
                assert((crate::selector::parser::not_bare_key_char())(s[s.len() - 1]));
            }
            assert(rem.len() > 0);
            assert(rem.last() == s.last());
        }
        if key is Some && crate::selector::parser::spec_recognize_builtin(key->0) is Some
            && starts_with(rem, seq!['(', ')']) {
            assert(rem[1] == ')');
            assert(rem.len() > 2);
            assert(rem.skip(2).last() == rem.last());
        } else {
            lemma_indices_keep_dot(rem);
        }
    }
}

proof fn lemma_segments_reject_dot(s: Seq<char>, rec: bool)
    requires
        ends_in_dot(s),
    ensures
        crate::selector::parser::spec_segments(s, rec) is Err,
    decreases s.len(),
{
    lemma_segment_keeps_dot(s);
    crate::selector::parser::lemma_segment_suffix(s);
    if let Ok((seg, rest)) = crate::selector::parser::spec_parse_segment(s) {
        if starts_with(rest, seq!['.', '.']) {
            if rest.len() > 2 {
                assert(rest.skip(2).last() == rest.last());
                lemma_segments_reject_dot(rest.skip(2), true);
            }
        } else if rest.len() > 0 && rest[0] == '.' {
            if rest.len() > 1 {
                assert(rest.skip(1).last() == rest.last());
                lemma_segments_reject_dot(rest.skip(1), false);
            }
        } else {
            lemma_segments_reject_dot(rest, false);
        }
    }
}

/// A selector that ends with `.` (a trailing `.` or `..`) is never accepted.
pub proof fn law_trailing_dot_rejected(s: Seq<char>)
    requires
        ends_in_dot(s),
    ensures
        crate::selector::parser::spec_parse_selector(s) is Err,
{
    if starts_with(s, seq!['.', '.']) {
        if s.len() > 2 {
            assert(s.skip(2).last() == s.last());
            lemma_segments_reject_dot(s.skip(2), true);
        }
    } else {
        lemma_segments_reject_dot(s, false);
    }
}

// ──────────────────────────────────────────────
// Detection and white space
// ──────────────────────────────────────────────

/// Text made only of white space.
pub open spec fn all_ws(w: Seq<char>) -> bool {
    forall|i: int| 0 <= i < w.len() ==> crate::text::is_ws(#[trigger] w[i])
}

proof fn lemma_trim_start_ws_prefix(w: Seq<char>, s: Seq<char>)
    requires
        all_ws(w),
    ensures
        crate::text::trim_start(w + s) == crate::text::trim_start(s),
    decreases w.len(),
{
    if w.len() > 0 {
        assert((w + s)[0] == w[0]);
        assert((w + s).drop_first() =~= w.drop_first() + s);
        assert(all_ws(w.drop_first())) by {
            assert forall|i: int| 0 <= i < w.drop_first().len() implies crate::text::is_ws(#[trigger] w.drop_first()[i]) by {
                assert(w.drop_first()[i] == w[i + 1]);
            }
        }
        lemma_trim_start_ws_prefix(w.drop_first(), s);
    } else {
        assert(w + s =~= s);
    }
}

proof fn lemma_trim_end_ws_suffix(x: Seq<char>, w: Seq<char>)
    requires
        all_ws(w),
    ensures
        crate::text::trim_end(x + w) == crate::text::trim_end(x),
    decreases w.len(),
{
    if w.len() > 0 {
        assert((x + w).last() == w.last());
        assert(crate::text::is_ws(w[w.len() - 1]));
        assert((x + w).drop_last() =~= x + w.drop_last());
        assert(all_ws(w.drop_last())) by {
            assert forall|i: int| 0 <= i < w.drop_last().len() implies crate::text::is_ws(#[trigger] w.drop_last()[i]) by {
                assert(w.drop_last()[i] == w[i]);
            }
        }
        lemma_trim_end_ws_suffix(x, w.drop_last());
    } else {
        assert(x + w =~= x);
    }
}

proof fn lemma_trim_start_ws_suffix(s: Seq<char>, w: Seq<char>)
    requires
        all_ws(w),
    ensures
        crate::text::trim_start(s + w) == (if crate::text::trim_start(s).len() > 0 {
            crate::text::trim_start(s) + w
        } else {
            Seq::<char>::empty()
        }),
    decreases s.len(),
{
    if s.len() == 0 {
        assert(s + w =~= w + Seq::<char>::empty());
        lemma_trim_start_ws_prefix(w, Seq::<char>::empty());
    } else {
        assert((s + w)[0] == s[0]);
        if crate::text::is_ws(s[0]) {
            assert((s + w).drop_first() =~= s.drop_first() + w);
            lemma_trim_start_ws_suffix(s.drop_first(), w);
        }
    }
}

/// White space around a text does not change the format detected for it;
/// detection always names a format, and blank text is plain text.
pub proof fn law_detect_ignores_surrounding_space(s: Seq<char>, w1: Seq<char>, w2: Seq<char>)
    requires
        all_ws(w1),
        all_ws(w2),
    ensures
        spec_detect(w1 + s + w2) == spec_detect(s),
        spec_detect(s) != InputFormat::Auto,
        trim(s).len() == 0 ==> spec_detect(s) == InputFormat::Text,
{
    assert(w1 + s + w2 =~= w1 + (s + w2));
    lemma_trim_start_ws_prefix(w1, s + w2);
    lemma_trim_start_ws_suffix(s, w2);
    let ts = crate::text::trim_start(s);
    if ts.len() > 0 {
        lemma_trim_end_ws_suffix(ts, w2);
    }
    assert(trim(w1 + s + w2) == trim(s));
}

// ──────────────────────────────────────────────
// keys() and values()
// ──────────────────────────────────────────────

proof fn lemma_sorted_tail_keys(m: Seq<(Seq<char>, Json)>)
    requires
        keys_sorted(m),
        m.len() > 0,
    ensures
        keys_sorted(m.drop_first()),
{
    assert forall|i: int, j: int| 0 <= i < j < m.drop_first().len() implies str_lt(
        #[trigger] m.drop_first()[i].0,
        #[trigger] m.drop_first()[j].0,
    ) by {
        assert(m.drop_first()[i] == m[i + 1]);
        assert(m.drop_first()[j] == m[j + 1]);
    }
}

/// In an object whose keys increase, each entry's key finds that entry's value.
pub proof fn lemma_get_at(m: Seq<(Seq<char>, Json)>, i: int)
    requires
        keys_sorted(m),
        0 <= i < m.len(),
    ensures
        obj_get(m, m[i].0) == Some(m[i].1),
    decreases i,
{
    if i > 0 {
        assert(str_lt(m[0].0, m[i].0));
        lemma_str_lt_irreflexive(m[i].0);
        lemma_sorted_tail_keys(m);
        assert(m.drop_first()[i - 1] == m[i]);
        lemma_get_at(m.drop_first(), i - 1);
    }
}

/// On an object, `keys()` and `values()` give as many elements as it has
/// entries, the keys all different, and each key finds the value at the same
/// position; on an array, `keys()` gives its positions and `values()` the array.
pub proof fn law_keys_values(v: Json)
    requires
        wf_json(v),
    ensures
        v matches Json::Obj(m) ==> {
            let ks = key_strings(m);
            let vs = crate::selector::extract::entry_values(m);
            &&& spec_apply_builtin(Builtin::Keys, v) == Ok::<Json, ErrV>(Json::Arr(ks))
            &&& spec_apply_builtin(Builtin::Values, v) == Ok::<Json, ErrV>(Json::Arr(vs))
            &&& ks.len() == m.len() && vs.len() == m.len()
            &&& forall|i: int, j: int| 0 <= i < j < ks.len() ==> #[trigger] ks[i] != #[trigger] ks[j]
            &&& forall|i: int| 0 <= i < m.len() ==> #[trigger] ks[i] == Json::Str(m[i].0)
                && obj_get(m, m[i].0) == Some(vs[i])
        },
        v matches Json::Arr(a) ==> spec_apply_builtin(Builtin::Keys, v) == Ok::<Json, ErrV>(
            Json::Arr(crate::selector::extract::positions(a.len())),
        ) && spec_apply_builtin(Builtin::Values, v) == Ok::<Json, ErrV>(v),
{
    if let Json::Obj(m) = v {
        let ks = key_strings(m);
        let vs = crate::selector::extract::entry_values(m);
        assert forall|i: int, j: int| 0 <= i < j < ks.len() implies #[trigger] ks[i] != #[trigger] ks[j] by {
            assert(str_lt(m[i].0, m[j].0));
            lemma_str_lt_irreflexive(m[i].0);
        }
        assert forall|i: int| 0 <= i < m.len() implies #[trigger] ks[i] == Json::Str(m[i].0) && obj_get(m, m[i].0)
            == Some(vs[i]) by {
            lemma_get_at(m, i);
        }
    }
}

// ──────────────────────────────────────────────
// set and del on keys
// ──────────────────────────────────────────────

/// A segment of one key, with no indices and no builtin.
pub open spec fn key_seg(k: Seq<char>) -> SegV {
    SegV { key: Some(k), indices: Seq::empty(), recursive: false, builtin: None }
}

proof fn lemma_get_none_absent(m: Seq<(Seq<char>, Json)>, k: Seq<char>)
    requires
        obj_get(m, k) is None,
    ensures
        forall|j: int| 0 <= j < m.len() ==> (#[trigger] m[j]).0 != k,
    decreases m.len(),
{
    if m.len() > 0 {
        lemma_get_none_absent(m.drop_first(), k);
        assert forall|j: int| 0 <= j < m.len() implies (#[trigger] m[j]).0 != k by {
            if j > 0 {
                assert(m[j] == m.drop_first()[j - 1]);
            }
        }
    }
}

proof fn lemma_remove_absent(m: Seq<(Seq<char>, Json)>, k: Seq<char>)
    requires
        obj_get(m, k) is None,
    ensures
        obj_remove(m, k) == m,
    decreases m.len(),
{
    if m.len() > 0 {
        lemma_remove_absent(m.drop_first(), k);
        assert(seq![m[0]] + m.drop_first() =~= m);
    }
}

proof fn lemma_remove_insert(m: Seq<(Seq<char>, Json)>, k: Seq<char>, x: Json)
    requires
        obj_get(m, k) is None,
    ensures
        obj_remove(obj_insert(m, k, x), k) == m,
    decreases m.len(),
{
    if m.len() == 0 {
        assert(obj_insert(m, k, x) == seq![(k, x)]);
        assert(seq![(k, x)].drop_first() =~= m);
    } else if str_lt(k, m[0].0) {
        assert((seq![(k, x)] + m)[0].0 == k);
        assert((seq![(k, x)] + m).drop_first() =~= m);
    } else {
        lemma_remove_insert(m.drop_first(), k, x);
        let r = obj_insert(m.drop_first(), k, x);
        assert((seq![m[0]] + r)[0] == m[0]);
        assert((seq![m[0]] + r).drop_first() =~= r);
        assert(seq![m[0]] + m.drop_first() =~= m);
    }
}

proof fn lemma_remove_other(m: Seq<(Seq<char>, Json)>, k: Seq<char>, k2: Seq<char>)
    requires
        k2 != k,
    ensures
        obj_get(obj_remove(m, k), k2) == obj_get(m, k2),
    decreases m.len(),
{
    if m.len() > 0 && m[0].0 != k {
        lemma_remove_other(m.drop_first(), k, k2);
        assert((seq![m[0]] + obj_remove(m.drop_first(), k)).drop_first() =~= obj_remove(m.drop_first(), k));
    }
}

/// Setting a key an object does not have, then deleting it, gives the object
/// back; deleting a key leaves every other key's value as it was.
pub proof fn law_set_then_del(m: Seq<(Seq<char>, Json)>, k: Seq<char>, x: Json, k2: Seq<char>)
    requires
        obj_get(m, k) is None,
        k2 != k,
    ensures
        spec_set(Json::Obj(m), seq![key_seg(k)], x) matches Ok(w) && spec_del(w, seq![key_seg(k)])
            == Ok::<Json, ErrV>(Json::Obj(m)),
        spec_del(Json::Obj(m), seq![key_seg(k2)]) matches Ok(Json::Obj(m2)) && obj_get(m2, k)
            == obj_get(m, k),
{
    let segs = seq![key_seg(k)];
    assert(segs.drop_first() =~= Seq::<SegV>::empty());
    assert(spec_set(Json::Null, Seq::<SegV>::empty(), x) == Ok::<Json, ErrV>(x));
    assert(spec_set_idx(Json::Null, Seq::<Index>::empty(), Seq::<SegV>::empty(), x) == Ok::<Json, ErrV>(x));
    lemma_remove_insert(m, k, x);
    let segs2 = seq![key_seg(k2)];
    assert(segs2.drop_first() =~= Seq::<SegV>::empty());
    lemma_remove_other(m, k2, k);
}

proof fn lemma_insert_twice(m: Seq<(Seq<char>, Json)>, k: Seq<char>, a: Json, b: Json)
    ensures
        obj_insert(obj_insert(m, k, a), k, b) == obj_insert(m, k, b),
    decreases m.len(),
{
    if m.len() == 0 {
        assert(obj_insert(m, k, a) == seq![(k, a)]);
        assert(seq![(k, a)].drop_first() =~= m);
    } else if m[0].0 == k {
        let r = seq![(k, a)] + m.drop_first();
        assert(r[0].0 == k);
        assert(r.drop_first() =~= m.drop_first());
    } else if str_lt(k, m[0].0) {
        let r = seq![(k, a)] + m;
        assert(r[0].0 == k);
        assert(r.drop_first() =~= m);
    } else {
        lemma_insert_twice(m.drop_first(), k, a, b);
        let r = seq![m[0]] + obj_insert(m.drop_first(), k, a);
        assert(r[0] == m[0]);
        assert(r.drop_first() =~= obj_insert(m.drop_first(), k, a));
    }
}

/// A path of keys alone.
pub open spec fn key_path(segs: Seq<SegV>) -> bool {
    forall|i: int|
        0 <= i < segs.len() ==> (#[trigger] segs[i]).key is Some && segs[i].indices.len() == 0
            && segs[i].builtin is None
}

proof fn lemma_key_path_rest(segs: Seq<SegV>)
    requires
        key_path(segs),
        segs.len() > 0,
    ensures
        key_path(segs.drop_first()),
{
    assert forall|i: int| 0 <= i < segs.drop_first().len() implies (#[trigger] segs.drop_first()[i]).key is Some
        && segs.drop_first()[i].indices.len() == 0 && segs.drop_first()[i].builtin is None by {
        assert(segs.drop_first()[i] == segs[i + 1]);
    }
}

/// Deleting along a path of keys never fails, and on a well-formed value
/// deleting a second time changes nothing.
pub proof fn law_key_del_idempotent(v: Json, segs: Seq<SegV>)
    requires
        key_path(segs),
        segs.len() > 0,
    ensures
        spec_del(v, segs) is Ok,
        wf_json(v) ==> (spec_del(v, segs) matches Ok(once) && spec_del(once, segs) == Ok::<Json, ErrV>(once)),
    decreases segs.len(),
{
    let seg = segs[0];
    let rest = segs.drop_first();
    let k = seg.key->0;
    assert(seg.key is Some && seg.indices.len() == 0);
    lemma_key_path_rest(segs);
    if let Json::Obj(m) = v {
        if rest.len() == 0 {
            if wf_json(v) {
                lemma_get_remove_same(m, k);
                lemma_remove_absent(obj_remove(m, k), k);
            }
        } else {
            if let Some(c) = obj_get(m, k) {
                assert(spec_del_idx(c, seg.indices, rest) == spec_del(c, rest));
                law_key_del_idempotent(c, rest);
                if wf_json(v) {
                    lemma_child_wf(m, k);
                    let c2 = spec_del(c, rest)->Ok_0;
                    lemma_get_insert_same(m, k, c2);
                    assert(spec_del_idx(c2, seg.indices, rest) == spec_del(c2, rest));
                    lemma_insert_twice(m, k, c2, c2);
                }
            }
        }
    }
}

// ──────────────────────────────────────────────
// Parsed selectors and recursive descent
// ──────────────────────────────────────────────

/// A segment has a key, indices or a builtin, and a builtin stands alone.
pub open spec fn seg_shape(seg: SegV) -> bool {
    &&& seg.key is Some || seg.indices.len() > 0 || seg.builtin is Some
    &&& seg.builtin is Some ==> seg.key is None && seg.indices.len() == 0
}

proof fn lemma_segment_shape(s: Seq<char>)
    ensures
        crate::selector::parser::spec_parse_segment(s) matches Ok((seg, rest)) ==> seg_shape(seg),
{
}

proof fn lemma_segments_shape(s: Seq<char>, rec: bool)
    ensures
        crate::selector::parser::spec_segments(s, rec) matches Ok(segs) ==> (s.len() == 0 <==> segs.len()
            == 0) && forall|i: int| 0 <= i < segs.len() ==> seg_shape(#[trigger] segs[i]),
    decreases s.len(),
{
    if s.len() > 0 {
        crate::selector::parser::lemma_segment_suffix(s);
        lemma_segment_shape(s);
        if let Ok((seg, rest)) = crate::selector::parser::spec_parse_segment(s) {
            let seg2 = SegV { recursive: rec, ..seg };
            let tail = if starts_with(rest, seq!['.', '.']) {
                rest.skip(2)
            } else if rest.len() > 0 && rest[0] == '.' {
                rest.skip(1)
            } else {
                rest
            };
            let trec = starts_with(rest, seq!['.', '.']);
            lemma_segments_shape(tail, trec);
            if let Ok(more) = crate::selector::parser::spec_segments(tail, trec) {
                let all = seq![seg2] + more;
                assert forall|i: int| 0 <= i < all.len() implies seg_shape(#[trigger] all[i]) by {
                    if i > 0 {
                        assert(all[i] == more[i - 1]);
                    }
                }
            }
        }
    }
}

/// Every segment of an accepted selector has a key, indices or a builtin, a
/// builtin stands alone, and only the empty selector has no segments.
pub proof fn law_selector_shape(s: Seq<char>)
    ensures
        crate::selector::parser::spec_parse_selector(s) matches Ok(segs) ==> (s.len() == 0 <==> segs.len() == 0)
            && forall|i: int| 0 <= i < segs.len() ==> seg_shape(#[trigger] segs[i]),
{
    if starts_with(s, seq!['.', '.']) && s.len() > 2 {
        lemma_segments_shape(s.skip(2), true);
    } else {
        lemma_segments_shape(s, false);
    }
}

/// `..k` gives every value stored under `k` anywhere in the value, in
/// depth-first order (`rfind`), or `KeyNotFound` when there is none.
pub proof fn law_recursive_descent(v: Json, k: Seq<char>)
    ensures
        spec_extract(v, seq![SegV { key: Some(k), indices: Seq::empty(), recursive: true, builtin: None }])
            == (if crate::selector::extract::rfind(v, k).len() == 0 {
            Err(ErrV::KeyNotFound(k))
        } else if crate::selector::extract::rfind(v, k).len() > crate::selector::extract::MAX_EXTRACT_RESULTS {
            Err(ErrV::TooManyResults(crate::selector::extract::MAX_EXTRACT_RESULTS))
        } else {
            Ok(crate::selector::extract::rfind(v, k))
        }),
{
    let seg = SegV { key: Some(k), indices: Seq::empty(), recursive: true, builtin: None };
    let segs = seq![seg];
    let cur = seq![v];
    assert(cur.drop_last() =~= Seq::<Json>::empty());
    assert(segs.drop_first() =~= Seq::<SegV>::empty());
    let r = crate::selector::extract::rfind(v, k);
    assert(Seq::<Json>::empty() + r =~= r);
    assert(spec_step(Seq::<Json>::empty(), seg) == Ok::<Seq<Json>, ErrV>(Seq::empty()));
    if r.len() > 0 {
        assert(spec_resolve_key(v, seg) == Ok::<Seq<Json>, ErrV>(r));
        assert(crate::selector::extract::spec_apply_indices(r, Seq::<Index>::empty()) == Ok::<Seq<Json>, ErrV>(r));
        assert(spec_segment_values(v, seg) == Ok::<Seq<Json>, ErrV>(r));
        if r.len() <= crate::selector::extract::MAX_EXTRACT_RESULTS {
            assert(spec_step(cur, seg) == Ok::<Seq<Json>, ErrV>(r));
            assert(spec_extract_from(r, Seq::<SegV>::empty()) == Ok::<Seq<Json>, ErrV>(r));
        }
    } else {
        assert(spec_segment_values(v, seg) == Err::<Seq<Json>, ErrV>(ErrV::KeyNotFound(k)));
    }
}

/// A key segment followed by one index.
pub open spec fn key_index_seg(k: Seq<char>, i: Index) -> SegV {
    SegV { key: Some(k), indices: seq![i], recursive: false, builtin: None }
}

/// How selecting a key fails: on a non-object, `NotAnObject`; on an object
/// without the key, `KeyNotFound`; an index or `[*]` after a key whose value
/// is not an array, `NotAnArray`; and the most negative index on a short
/// array, `IndexOutOfBounds`.
pub proof fn law_key_errors(v: Json, k: Seq<char>, i: Index)
    requires
        i is Number || i is Wildcard,
    ensures
        !(v is Obj) ==> spec_extract(v, seq![key_seg(k)]) == Err::<Seq<Json>, ErrV>(
            ErrV::NotAnObject(k, crate::value::kind_name(v)),
        ),
        v matches Json::Obj(m) && obj_get(m, k) is None ==> spec_extract(v, seq![key_seg(k)]) == Err::<
            Seq<Json>,
            ErrV,
        >(ErrV::KeyNotFound(k)),
        v is Obj && obj_get(v->Obj_0, k) is Some && !(obj_get(v->Obj_0, k)->0 is Arr) ==> spec_extract(
            v,
            seq![key_index_seg(k, i)],
        ) == Err::<Seq<Json>, ErrV>(ErrV::NotAnArray(crate::value::kind_name(obj_get(v->Obj_0, k)->0))),
        v matches Json::Arr(a) && a.len() < 0x8000_0000_0000_0000 ==> spec_index_one(v, Index::Number(i64::MIN))
            == Err::<Seq<Json>, ErrV>(ErrV::IndexOutOfBounds(i64::MIN)),
{
    let cur = seq![v];
    assert(cur.drop_last() =~= Seq::<Json>::empty());
    let s1 = seq![key_seg(k)];
    assert(s1[0] == key_seg(k));
    let s2 = seq![key_index_seg(k, i)];
    assert(s2[0] == key_index_seg(k, i));
    assert(spec_step(Seq::<Json>::empty(), key_seg(k)) == Ok::<Seq<Json>, ErrV>(Seq::empty()));
    assert(spec_step(Seq::<Json>::empty(), key_index_seg(k, i)) == Ok::<Seq<Json>, ErrV>(Seq::empty()));
    if let Json::Obj(m) = v {
        if let Some(c) = obj_get(m, k) {
            if !(c is Arr) {
                let one = seq![c];
                assert(one.drop_last() =~= Seq::<Json>::empty());
                assert(spec_index_one(c, i) == Err::<Seq<Json>, ErrV>(ErrV::NotAnArray(crate::value::kind_name(c))));
                assert(crate::selector::extract::spec_index_all(Seq::<Json>::empty(), i) == Ok::<Seq<Json>, ErrV>(Seq::empty()));
                assert(crate::selector::extract::spec_index_all(one, i) == Err::<Seq<Json>, ErrV>(
                    ErrV::NotAnArray(crate::value::kind_name(c)),
                ));
                assert(crate::selector::extract::spec_apply_indices(one, seq![i]) == Err::<Seq<Json>, ErrV>(
                    ErrV::NotAnArray(crate::value::kind_name(c)),
                ));
                assert(spec_segment_values(v, key_index_seg(k, i)) == Err::<Seq<Json>, ErrV>(
                    ErrV::NotAnArray(crate::value::kind_name(c)),
                ));
            }
        } else {
            assert(spec_segment_values(v, key_seg(k)) == Err::<Seq<Json>, ErrV>(ErrV::KeyNotFound(k)));
        }
    } else {
        assert(spec_segment_values(v, key_seg(k)) == Err::<Seq<Json>, ErrV>(
            ErrV::NotAnObject(k, crate::value::kind_name(v)),
        ));
    }
}

// ──────────────────────────────────────────────
// Comparisons in filters
// ──────────────────────────────────────────────

/// A value and a literal of the same kind.
pub open spec fn same_kind(lhs: Json, rhs: crate::selector::types::LitV) -> bool {
    ||| lhs is Str && rhs is Str
    ||| lhs is Num && rhs is Num
    ||| lhs is Bool && rhs is Bool
    ||| lhs is Null && rhs is Null
}

/// Ordering comparisons hold only between two numbers or two strings;
/// equality never holds across kinds; `~` holds exactly when a string matches
/// a string pattern that compiles (a pattern that does not compile gives
/// `false`, not an error).
pub proof fn law_compare_kinds(lhs: Json, op: crate::selector::types::CompareOp, rhs: crate::selector::types::LitV)
    ensures
        (op is Gt || op is Lt || op is Gte || op is Lte) && !(lhs is Num && rhs is Num) && !(lhs is Str
            && rhs is Str) ==> !crate::selector::filter::spec_compare(lhs, op, rhs),
        op is Eq && !same_kind(lhs, rhs) ==> !crate::selector::filter::spec_compare(lhs, op, rhs),
        op is Match ==> (crate::selector::filter::spec_compare(lhs, op, rhs) <==> (lhs is Str && rhs is Str
            && crate::selector::filter::regex_valid(rhs->Str_0) && crate::selector::filter::regex_matches(
            rhs->Str_0,
            lhs->Str_0,
        ))),
{
}

// ──────────────────────────────────────────────
// Slices
// ──────────────────────────────────────────────

/// A slice bound: the default when absent, counted from the end (not below
/// zero) when negative.
pub open spec fn slice_bound(b: Option<i64>, d: int, n: int) -> int {
    match b {
        None => d,
        Some(i) => if i < 0 {
            if n + i > 0 {
                n + i
            } else {
                0
            }
        } else {
            i as int
        },
    }
}

/// `x` held within `[0, n]`.
pub open spec fn within(x: int, n: int) -> int {
    if x < 0 {
        0
    } else if x > n {
        n
    } else {
        x
    }
}

/// `[s:e]` on an array gives the elements from `lo` up to `hi`, the bounds
/// held within the array (none when `lo >= hi`); on anything else it fails
/// with `NotAnArray`.
pub proof fn law_slice(a: Seq<Json>, v: Json, s: Option<i64>, e: Option<i64>)
    ensures
        a.len() <= i64::MAX ==> {
            let n = a.len() as int;
            let lo = within(slice_bound(s, 0, n), n);
            let hi = within(slice_bound(e, n, n), n);
            spec_index_one(Json::Arr(a), Index::Slice { start: s, end: e }) == Ok::<Seq<Json>, ErrV>(
                if lo < hi {
                    a.subrange(lo, hi)
                } else {
                    Seq::empty()
                },
            )
        },
        !(v is Arr) ==> spec_index_one(v, Index::Slice { start: s, end: e }) == Err::<Seq<Json>, ErrV>(
            ErrV::NotAnArray(crate::value::kind_name(v)),
        ),
{
}

// ──────────────────────────────────────────────
// Bare keys through the parser
// ──────────────────────────────────────────────

/// A bare key: an ASCII letter, digit or `_`, then ASCII letters, digits, `_`
/// or `-`.
pub open spec fn bare_key(k: Seq<char>) -> bool {
    &&& k.len() > 0
    &&& is_ascii_alnum(k[0]) || k[0] == '_'
    &&& forall|i: int| 0 <= i < k.len() ==> crate::selector::parser::is_bare_key_char(#[trigger] k[i])
}

proof fn lemma_bare_key_parse(k: Seq<char>, tail: Seq<char>)
    requires
        bare_key(k),
        tail.len() == 0 || !crate::selector::parser::is_bare_key_char(tail[0]),
    ensures
        crate::selector::parser::spec_parse_key(k + tail) == Ok::<(Option<Seq<char>>, Seq<char>), Seq<char>>(
            (Some(k), tail),
        ),
{
    let s = k + tail;
    assert(s[0] == k[0]);
    assert forall|j: int| 0 <= j < k.len() implies !(crate::selector::parser::not_bare_key_char())(#[trigger] s[j]) by {
        assert(s[j] == k[j]);
    }
    if tail.len() > 0 {
        assert(s[k.len() as int] == tail[0]);
    }
    crate::text::lemma_first_match(s, crate::selector::parser::not_bare_key_char(), k.len() as int);
    assert(s.take(k.len() as int) =~= k);
    assert(s.skip(k.len() as int) =~= tail);
}

/// How a bare key `k` parses: `k` as one key segment, `..k` as one recursive
/// key segment, and `k[0]`, `k[*]` as a key segment with that index.
pub proof fn law_bare_key_selectors(k: Seq<char>)
    requires
        bare_key(k),
    ensures
        crate::selector::parser::spec_parse_selector(k) == Ok::<Seq<SegV>, Seq<char>>(seq![key_seg(k)]),
        crate::selector::parser::spec_parse_selector(seq!['.', '.'] + k) == Ok::<Seq<SegV>, Seq<char>>(
            seq![SegV { key: Some(k), indices: Seq::empty(), recursive: true, builtin: None }],
        ),
        crate::selector::parser::spec_parse_selector(k + seq!['[', '0', ']']) == Ok::<Seq<SegV>, Seq<char>>(
            seq![key_index_seg(k, Index::Number(0))],
        ),
        crate::selector::parser::spec_parse_selector(k + seq!['[', '*', ']']) == Ok::<Seq<SegV>, Seq<char>>(
            seq![key_index_seg(k, Index::Wildcard)],
        ),
{
    let empty = Seq::<char>::empty();
    assert(k + empty =~= k);
    lemma_bare_key_parse(k, empty);
    assert(!starts_with(empty, seq!['(', ')']));
    assert(crate::selector::parser::spec_parse_indices(empty) == Ok::<(Seq<Index>, Seq<char>), Seq<char>>(
        (Seq::empty(), empty),
    ));
    assert(crate::selector::parser::spec_segments(empty, false) == Ok::<Seq<SegV>, Seq<char>>(Seq::empty()));
    assert(crate::selector::parser::spec_segments(empty, true) == Ok::<Seq<SegV>, Seq<char>>(Seq::empty()));
    assert(!starts_with(k, seq!['.', '.'])) by {
        assert(k[0] != '.');
    }
    assert(seq![key_seg(k)] =~= seq![key_seg(k)] + Seq::<SegV>::empty());
    // `..k`
    let dk = seq!['.', '.'] + k;
    assert(starts_with(dk, seq!['.', '.'])) by {
        assert(dk.take(2) =~= seq!['.', '.']);
    }
    assert(dk.skip(2) =~= k);
    // `k[0]` and `k[*]`
    let i0 = seq!['[', '0', ']'];
    let iw = seq!['[', '*', ']'];
    lemma_bare_key_parse(k, i0);
    lemma_bare_key_parse(k, iw);
    assert(!starts_with(i0, seq!['(', ')'])) by {
        assert(i0.take(2)[0] == '[');
    }
    assert(!starts_with(iw, seq!['(', ')'])) by {
        assert(iw.take(2)[0] == '[');
    }
    let r0 = i0.drop_first();
    let rw = iw.drop_first();
    crate::text::lemma_first_match(r0, crate::text::is_char(']'), 1);
    crate::text::lemma_first_match(rw, crate::text::is_char(']'), 1);
    assert(r0.take(1) =~= seq!['0']);
    assert(rw.take(1) =~= seq!['*']);
    assert(r0.skip(2) =~= empty);
    assert(rw.skip(2) =~= empty);
    let zero = seq!['0'];
    crate::text::lemma_first_match(zero, crate::text::is_char(':'), 1);
    assert(zero != seq!['*']);
    assert(crate::text::all_digits(zero));
    assert(crate::text::digits_value(zero) == 0) by {
        assert(zero.drop_last() =~= Seq::<char>::empty());
        assert(zero.last() == '0');
        assert(crate::text::digits_value(Seq::<char>::empty()) == 0);
        assert(crate::text::digit_val('0') == 0);
    }
    assert(crate::text::parse_i64(zero) == Some(0i64));
    assert(crate::selector::parser::spec_index_content(zero) == Ok::<Index, Seq<char>>(Index::Number(0)));
    assert(crate::selector::parser::spec_parse_indices(i0) == Ok::<(Seq<Index>, Seq<char>), Seq<char>>(
        (seq![Index::Number(0)], empty),
    )) by {
        assert(seq![Index::Number(0)] + Seq::<Index>::empty() =~= seq![Index::Number(0)]);
    }
    assert(crate::selector::parser::spec_parse_indices(iw) == Ok::<(Seq<Index>, Seq<char>), Seq<char>>(
        (seq![Index::Wildcard], empty),
    )) by {
        assert(seq![Index::Wildcard] + Seq::<Index>::empty() =~= seq![Index::Wildcard]);
    }
    assert((k + i0)[0] == k[0]);
    assert((k + iw)[0] == k[0]);
    assert(seq![key_index_seg(k, Index::Number(0))] =~= seq![key_index_seg(k, Index::Number(0))] + Seq::<SegV>::empty());
    assert(seq![key_index_seg(k, Index::Wildcard)] =~= seq![key_index_seg(k, Index::Wildcard)] + Seq::<SegV>::empty());
}

/// Selecting a bare key `k` by its text: on a non-object it fails with
/// `NotAnObject`, on an object without `k` with `KeyNotFound`, and `k[0]` or
/// `k[*]` on a value of `k` that is not an array with `NotAnArray`; `..k`
/// gives every value under `k` in depth-first order.
pub proof fn law_bare_key_extract(v: Json, k: Seq<char>)
    requires
        bare_key(k),
    ensures
        !(v is Obj) ==> spec_extract(v, crate::selector::parser::spec_parse_selector(k)->Ok_0) == Err::<
            Seq<Json>,
            ErrV,
        >(ErrV::NotAnObject(k, crate::value::kind_name(v))),
        v is Obj && obj_get(v->Obj_0, k) is None ==> spec_extract(v, crate::selector::parser::spec_parse_selector(k)->Ok_0)
            == Err::<Seq<Json>, ErrV>(ErrV::KeyNotFound(k)),
        v is Obj && obj_get(v->Obj_0, k) is Some && !(obj_get(v->Obj_0, k)->0 is Arr) ==> spec_extract(
            v,
            crate::selector::parser::spec_parse_selector(k + seq!['[', '0', ']'])->Ok_0,
        ) == Err::<Seq<Json>, ErrV>(ErrV::NotAnArray(crate::value::kind_name(obj_get(v->Obj_0, k)->0)))
            && spec_extract(v, crate::selector::parser::spec_parse_selector(k + seq!['[', '*', ']'])->Ok_0)
            == Err::<Seq<Json>, ErrV>(ErrV::NotAnArray(crate::value::kind_name(obj_get(v->Obj_0, k)->0))),
        spec_extract(v, crate::selector::parser::spec_parse_selector(seq!['.', '.'] + k)->Ok_0) == (if crate::selector::extract::rfind(
            v,
            k,
        ).len() == 0 {
            Err(ErrV::KeyNotFound(k))
        } else if crate::selector::extract::rfind(v, k).len() > crate::selector::extract::MAX_EXTRACT_RESULTS {
            Err(ErrV::TooManyResults(crate::selector::extract::MAX_EXTRACT_RESULTS))
        } else {
            Ok(crate::selector::extract::rfind(v, k))
        }),
{
    law_bare_key_selectors(k);
    law_key_errors(v, k, Index::Number(0));
    law_key_errors(v, k, Index::Wildcard);
    law_recursive_descent(v, k);
}

// ──────────────────────────────────────────────
// Deleting a key, then selecting it
// ──────────────────────────────────────────────

/// On an object with increasing keys, after deleting key `k`, selecting `k`
/// fails with `KeyNotFound`, and every other key keeps its value.
pub proof fn law_del_key_then_select(m: Seq<(Seq<char>, Json)>, k: Seq<char>, k2: Seq<char>)
    requires
        keys_sorted(m),
        k2 != k,
    ensures
        spec_del(Json::Obj(m), seq![key_seg(k)]) matches Ok(w) && spec_extract(w, seq![key_seg(k)])
            == Err::<Seq<Json>, ErrV>(ErrV::KeyNotFound(k)) && (w matches Json::Obj(m2) && obj_get(m2, k2)
            == obj_get(m, k2)),
{
    let segs = seq![key_seg(k)];
    assert(segs.drop_first() =~= Seq::<SegV>::empty());
    lemma_get_remove_same(m, k);
    lemma_remove_other(m, k, k2);
    law_key_errors(Json::Obj(obj_remove(m, k)), k, Index::Wildcard);
}

// ──────────────────────────────────────────────
// Later lines win in .env files and headers
// ──────────────────────────────────────────────

/// Line `i` assigns `k` the value `v` in a `.env` text, and no later line
/// assigns `k`.
pub open spec fn env_last_assigns(ls: Seq<Seq<char>>, i: int, k: Seq<char>, v: Seq<char>) -> bool {
    &&& 0 <= i < ls.len()
    &&& crate::formats::env::env_pair(ls[i]) == Some((k, v))
    &&& forall|j: int| i < j < ls.len() ==> !(#[trigger] crate::formats::env::env_pair(ls[j]) matches Some((k2, _)) && k2 == k)
}

proof fn lemma_env_last_wins(ls: Seq<Seq<char>>, i: int, k: Seq<char>, v: Seq<char>)
    requires
        env_last_assigns(ls, i, k, v),
    ensures
        obj_get(crate::formats::env::env_entries(ls), k) == Some(Json::Str(v)),
    decreases ls.len(),
{
    let prev = crate::formats::env::env_entries(ls.drop_last());
    if i == ls.len() - 1 {
        lemma_get_insert_same(prev, k, Json::Str(v));
    } else {
        assert(env_last_assigns(ls.drop_last(), i, k, v)) by {
            assert forall|j: int| i < j < ls.drop_last().len() implies !(#[trigger] crate::formats::env::env_pair(
                ls.drop_last()[j],
            ) matches Some((k2, _)) && k2 == k) by {
                assert(ls.drop_last()[j] == ls[j]);
            }
            assert(ls.drop_last()[i] == ls[i]);
        }
        lemma_env_last_wins(ls.drop_last(), i, k, v);
        let last = ls[ls.len() - 1];
        assert(!(crate::formats::env::env_pair(last) matches Some((k2, _)) && k2 == k));
        if let Some((k2, v2)) = crate::formats::env::env_pair(ls.last()) {
            lemma_get_insert_other(prev, k2, Json::Str(v2), k);
        }
    }
}

/// In a `.env` text, a key's value is the value of the last line that
/// assigns it.
pub proof fn law_env_last_assignment_wins(input: Seq<char>, i: int, k: Seq<char>, v: Seq<char>)
    requires
        env_last_assigns(crate::text::lines(input), i, k, v),
    ensures
        crate::formats::env::spec_parse(input) matches Ok(Json::Obj(m)) && obj_get(m, k) == Some(Json::Str(v)),
{
    lemma_env_last_wins(crate::text::lines(input), i, k, v);
    let m = crate::formats::env::env_entries(crate::text::lines(input));
    if m.len() == 0 {
        assert(obj_get(m, k) is None);
    }
}

/// Line `i` gives header `k` the value `v`, and no later line carries `k`.
pub open spec fn header_last_carries(ls: Seq<Seq<char>>, i: int, k: Seq<char>, v: Seq<char>) -> bool {
    &&& 0 <= i < ls.len()
    &&& crate::formats::headers::header_pair(ls[i]) == Some((k, v))
    &&& forall|j: int| i < j < ls.len() ==> !(#[trigger] crate::formats::headers::header_pair(ls[j]) matches Some((k2, _)) && k2 == k)
}

proof fn lemma_header_last_wins(ls: Seq<Seq<char>>, i: int, k: Seq<char>, v: Seq<char>)
    requires
        header_last_carries(ls, i, k, v),
    ensures
        obj_get(crate::formats::headers::header_entries(ls), k) == Some(Json::Str(v)),
    decreases ls.len(),
{
    let prev = crate::formats::headers::header_entries(ls.drop_last());
    if i == ls.len() - 1 {
        lemma_get_insert_same(prev, k, Json::Str(v));
    } else {
        assert(header_last_carries(ls.drop_last(), i, k, v)) by {
            assert forall|j: int| i < j < ls.drop_last().len() implies !(#[trigger] crate::formats::headers::header_pair(
                ls.drop_last()[j],
            ) matches Some((k2, _)) && k2 == k) by {
                assert(ls.drop_last()[j] == ls[j]);
            }
            assert(ls.drop_last()[i] == ls[i]);
        }
        lemma_header_last_wins(ls.drop_last(), i, k, v);
        let last = ls[ls.len() - 1];
        assert(!(crate::formats::headers::header_pair(last) matches Some((k2, _)) && k2 == k));
        if let Some((k2, v2)) = crate::formats::headers::header_pair(ls.last()) {
            lemma_get_insert_other(prev, k2, Json::Str(v2), k);
        }
    }
}

/// In parsed headers, the value under a (lower-cased) name is the value of
/// the last line that carries that name.
pub proof fn law_header_last_line_wins(input: Seq<char>, i: int, k: Seq<char>, v: Seq<char>)
    requires
        header_last_carries(crate::text::lines(input), i, k, v),
    ensures
        crate::formats::headers::spec_parse(input) matches Ok(Json::Obj(m)) && obj_get(m, k) == Some(Json::Str(v)),
{
    lemma_header_last_wins(crate::text::lines(input), i, k, v);
    let m = crate::formats::headers::header_entries(crate::text::lines(input));
    if m.len() == 0 {
        assert(obj_get(m, k) is None);
    }
}

// ──────────────────────────────────────────────
// The text search keeps the lines' order
// ──────────────────────────────────────────────

/// The lines of `a` followed by those of `b` that contain `q` are those of
/// `a` that do, followed by those of `b` that do.
pub proof fn law_containing_splits(a: Seq<Seq<char>>, b: Seq<Seq<char>>, q: Seq<char>)
    ensures
        crate::formats::text::containing(a + b, q) == crate::formats::text::containing(a, q)
            + crate::formats::text::containing(b, q),
    decreases b.len(),
{
    if b.len() == 0 {
        assert(a + b =~= a);
        assert(crate::formats::text::containing(a, q) + crate::formats::text::containing(b, q)
            =~= crate::formats::text::containing(a, q));
    } else {
        assert((a + b).drop_last() =~= a + b.drop_last());
        assert((a + b).last() == b.last());
        law_containing_splits(a, b.drop_last(), q);
        let tail = if crate::formats::text::contains_sub(b.last(), q) {
            seq![b.last()]
        } else {
            Seq::<Seq<char>>::empty()
        };
        assert(crate::formats::text::containing(a, q) + crate::formats::text::containing(b.drop_last(), q) + tail
            =~= crate::formats::text::containing(a, q) + (crate::formats::text::containing(b.drop_last(), q) + tail));
    }
}

proof fn lemma_containing_filter(ls: Seq<Seq<char>>, q: Seq<char>)
    ensures
        crate::formats::text::containing(ls, q) == ls.filter(|l: Seq<char>| crate::formats::text::contains_sub(l, q)),
    decreases ls.len(),
{
    reveal(Seq::filter);
    if ls.len() > 0 {
        lemma_containing_filter(ls.drop_last(), q);
        let sub = ls.drop_last().filter(|l: Seq<char>| crate::formats::text::contains_sub(l, q));
        if crate::formats::text::contains_sub(ls.last(), q) {
            assert(sub + seq![ls.last()] =~= sub.push(ls.last()));
        } else {
            assert(sub + Seq::<Seq<char>>::empty() =~= sub);
        }
    }
}

/// When no line is keyed by the query, the search gives exactly the lines
/// that contain it, in the order they occur in the text: none, the one line,
/// or a list of them.
pub proof fn law_text_search_keeps_order(input: Seq<char>, q: Seq<char>)
    requires
        crate::formats::text::first_search(crate::text::lines(input), q) is None,
    ensures
        ({
            let m = crate::text::lines(input).filter(|l: Seq<char>| crate::formats::text::contains_sub(l, q));
            crate::formats::text::spec_search(input, q) == if m.len() == 0 {
                None
            } else if m.len() == 1 {
                Some(Json::Str(m[0]))
            } else {
                Some(Json::Arr(m.map_values(|l: Seq<char>| Json::Str(l))))
            }
        }),
{
    lemma_containing_filter(crate::text::lines(input), q);
}

// ──────────────────────────────────────────────
// Recursive descent visits children in order
// ──────────────────────────────────────────────

/// The matches under the entries of `m1` followed by `m2` are those under
/// `m1`'s entries followed by those under `m2`'s: an earlier entry's matches
/// come first.
pub proof fn law_rfind_entries_in_order(m1: Seq<(Seq<char>, Json)>, m2: Seq<(Seq<char>, Json)>, k: Seq<char>)
    ensures
        crate::selector::extract::rfind_entries(m1 + m2, k) == crate::selector::extract::rfind_entries(m1, k)
            + crate::selector::extract::rfind_entries(m2, k),
    decreases m2.len(),
{
    if m2.len() == 0 {
        assert(m1 + m2 =~= m1);
        assert(crate::selector::extract::rfind_entries(m1, k) + crate::selector::extract::rfind_entries(m2, k)
            =~= crate::selector::extract::rfind_entries(m1, k));
    } else {
        assert((m1 + m2).drop_last() =~= m1 + m2.drop_last());
        assert((m1 + m2).last() == m2.last());
        law_rfind_entries_in_order(m1, m2.drop_last(), k);
        let a = crate::selector::extract::rfind_entries(m1, k);
        let b = crate::selector::extract::rfind_entries(m2.drop_last(), k);
        let c = crate::selector::extract::rfind(m2.last().1, k);
        assert(a + b + c =~= a + (b + c));
    }
}

/// One entry's matches are the matches inside its value.
pub proof fn law_rfind_one_entry(e: (Seq<char>, Json), k: Seq<char>)
    ensures
        crate::selector::extract::rfind_entries(seq![e], k) == crate::selector::extract::rfind(e.1, k),
{
    let one = seq![e];
    assert(one.drop_last() =~= Seq::<(Seq<char>, Json)>::empty());
    assert(one.last() == e);
    assert(crate::selector::extract::rfind_entries(Seq::<(Seq<char>, Json)>::empty(), k) == Seq::<Json>::empty());
    assert(Seq::<Json>::empty() + crate::selector::extract::rfind(e.1, k) =~= crate::selector::extract::rfind(e.1, k));
    assert(crate::selector::extract::rfind_entries(one, k) == crate::selector::extract::rfind_entries(
        one.drop_last(),
        k,
    ) + crate::selector::extract::rfind(one.last().1, k));
}

/// The matches in the elements of `a1` followed by `a2` are those in `a1`'s
/// elements followed by those in `a2`'s.
pub proof fn law_rfind_items_in_order(a1: Seq<Json>, a2: Seq<Json>, k: Seq<char>)
    ensures
        crate::selector::extract::rfind_items(a1 + a2, k) == crate::selector::extract::rfind_items(a1, k)
            + crate::selector::extract::rfind_items(a2, k),
    decreases a2.len(),
{
    if a2.len() == 0 {
        assert(a1 + a2 =~= a1);
        assert(crate::selector::extract::rfind_items(a1, k) + crate::selector::extract::rfind_items(a2, k)
            =~= crate::selector::extract::rfind_items(a1, k));
    } else {
        assert((a1 + a2).drop_last() =~= a1 + a2.drop_last());
        assert((a1 + a2).last() == a2.last());
        law_rfind_items_in_order(a1, a2.drop_last(), k);
        let x = crate::selector::extract::rfind_items(a1, k);
        let y = crate::selector::extract::rfind_items(a2.drop_last(), k);
        let z = crate::selector::extract::rfind(a2.last(), k);
        assert(x + y + z =~= x + (y + z));
    }
}

/// An object that does not hold `k` itself, split into two objects, gives the
/// matches of the first part, then those of the second: for `..k` on
/// `{a: {k: x}, b: {k: y}}` this is `[x, y]`.
pub proof fn law_rfind_object_in_order(m1: Seq<(Seq<char>, Json)>, m2: Seq<(Seq<char>, Json)>, k: Seq<char>)
    requires
        obj_get(m1 + m2, k) is None,
    ensures
        crate::selector::extract::rfind(Json::Obj(m1 + m2), k) == crate::selector::extract::rfind(Json::Obj(m1), k)
            + crate::selector::extract::rfind(Json::Obj(m2), k),
{
    lemma_get_none_absent(m1 + m2, k);
    assert forall|j: int| 0 <= j < m1.len() implies (#[trigger] m1[j]).0 != k by {
        assert((m1 + m2)[j] == m1[j]);
    }
    assert forall|j: int| 0 <= j < m2.len() implies (#[trigger] m2[j]).0 != k by {
        assert((m1 + m2)[m1.len() + j] == m2[j]);
    }
    lemma_get_absent(m1, k);
    lemma_get_absent(m2, k);
    law_rfind_entries_in_order(m1, m2, k);
    let e = Seq::<Json>::empty();
    assert(e + crate::selector::extract::rfind_entries(m1 + m2, k) =~= crate::selector::extract::rfind_entries(m1 + m2, k));
    assert(e + crate::selector::extract::rfind_entries(m1, k) =~= crate::selector::extract::rfind_entries(m1, k));
    assert(e + crate::selector::extract::rfind_entries(m2, k) =~= crate::selector::extract::rfind_entries(m2, k));
}

/// An object that holds `k` lists its own value first.
pub proof fn law_rfind_own_first(m: Seq<(Seq<char>, Json)>, k: Seq<char>)
    requires
        obj_get(m, k) is Some,
    ensures
        crate::selector::extract::rfind(Json::Obj(m), k).len() > 0,
        crate::selector::extract::rfind(Json::Obj(m), k)[0] == obj_get(m, k)->0,
{
}

// ──────────────────────────────────────────────
// Plain `key = value` text is TOML
// ──────────────────────────────────────────────

/// A character of a bare TOML key: an ASCII letter or digit, `_`, `-` or `.`.
pub open spec fn toml_key_char(c: char) -> bool {
    ('a' <= c <= 'z') || ('A' <= c <= 'Z') || ('0' <= c <= '9') || c == '_' || c == '-' || c == '.'
}

/// Line `l`, trimmed, is `key = value` with a non-empty bare key and a space
/// on each side of the `=`.
pub open spec fn spaced_pair(l: Seq<char>, k: Seq<char>, v: Seq<char>) -> bool {
    &&& k.len() > 0
    &&& forall|i: int| 0 <= i < k.len() ==> toml_key_char(#[trigger] k[i])
    &&& trim(l) == k + seq![' ', '=', ' '] + v
}

/// Line `l` is a `key = value` pair as above.
pub open spec fn is_spaced_pair(l: Seq<char>) -> bool {
    exists|k: Seq<char>, v: Seq<char>| #[trigger] spaced_pair(l, k, v)
}

proof fn lemma_find_spaced_eq(k: Seq<char>, v: Seq<char>)
    requires
        forall|i: int| 0 <= i < k.len() ==> toml_key_char(#[trigger] k[i]),
    ensures
        crate::detector::find_seq(k + seq![' ', '=', ' '] + v, seq![' ', '=', ' ']) == Some(k.len() as int),
    decreases k.len(),
{
    let q = seq![' ', '=', ' '];
    let s = k + q + v;
    if k.len() == 0 {
        assert(s.take(3) =~= q);
    } else {
        assert(s[0] == k[0]);
        assert(toml_key_char(k[0]));
        assert(s.take(3)[0] != q[0]);
        assert(s.drop_first() =~= k.drop_first() + q + v);
        assert forall|i: int| 0 <= i < k.drop_first().len() implies toml_key_char(#[trigger] k.drop_first()[i]) by {
            assert(k.drop_first()[i] == k[i + 1]);
        }
        lemma_find_spaced_eq(k.drop_first(), v);
    }
}

proof fn lemma_spaced_pair_line(l: Seq<char>, k: Seq<char>, v: Seq<char>)
    requires
        spaced_pair(l, k, v),
    ensures
        crate::detector::toml_pair(l),
        !crate::detector::env_pair(l),
        !crate::detector::header_line(l),
{
    let t = trim(l);
    let q = seq![' ', '=', ' '];
    let n = k.len() as int;
    lemma_find_spaced_eq(k, v);
    assert(t.take(n) =~= k);
    assert(t[n] == ' ' && t[n + 1] == '=');
    assert forall|j: int| 0 <= j < n implies t[j] == k[j] by {}
    // Not a `.env` assignment.
    if starts_with(t, crate::detector::export_prefix()) {
        assert(t.take(7)[6] == ' ');
        assert(t[6] == ' ');
        if n > 6 {
            assert(toml_key_char(k[6]));
        }
        if n < 6 {
            assert(t.take(7)[n] == t[n]);
        }
        assert(n == 6);
        let l2 = t.skip(7);
        assert(l2[0] == '=');
        crate::text::lemma_first_match(l2, crate::text::is_char('='), 0);
    } else {
        assert forall|j: int| 0 <= j < n + 1 implies !(crate::text::is_char('='))(#[trigger] t[j]) by {
            if j < n {
                assert(toml_key_char(k[j]));
            }
        }
        crate::text::lemma_first_match(t, crate::text::is_char('='), n + 1);
        let pre = t.take(n + 1);
        crate::text::lemma_first_match_bounds(pre, crate::text::is_char(' '));
        assert(pre[n] == ' ');
    }
    // Not a `Name: value` header line.
    if crate::detector::header_line(l) {
        crate::text::lemma_first_match_bounds(l, crate::text::is_char(':'));
        let p = crate::text::find_char(l, ':')->0;
        assert(crate::detector::alpha_or_dash(l[0]));
        assert(!crate::text::is_ws(l[0]));
        assert(crate::text::trim_start(l) == l);
        crate::text::lemma_trim_end_prefix(l);
        assert(t == l.take(t.len() as int));
        assert(l[n] == t[n]);
        assert(!crate::detector::alpha_or_dash(l[n]));
        assert(p <= n);
        assert(l[p] == ':');
        if p < n {
            assert(l[p] == t[p]);
            assert(toml_key_char(k[p]));
        }
    }
}

proof fn lemma_count_none(ls: Seq<Seq<char>>, test: crate::detector::LineTest)
    requires
        forall|i: int| 0 <= i < ls.len() ==> !crate::detector::holds(test, #[trigger] ls[i]),
    ensures
        crate::detector::count_where(ls, test) == 0,
    decreases ls.len(),
{
    if ls.len() > 0 {
        assert forall|i: int| 0 <= i < ls.drop_last().len() implies !crate::detector::holds(test, #[trigger] ls.drop_last()[i]) by {
            assert(ls.drop_last()[i] == ls[i]);
        }
        lemma_count_none(ls.drop_last(), test);
        assert(!crate::detector::holds(test, ls[ls.len() - 1]));
    }
}

proof fn lemma_count_all(ls: Seq<Seq<char>>, test: crate::detector::LineTest)
    requires
        forall|i: int| 0 <= i < ls.len() ==> crate::detector::holds(test, #[trigger] ls[i]),
    ensures
        crate::detector::count_where(ls, test) == ls.len(),
    decreases ls.len(),
{
    if ls.len() > 0 {
        assert forall|i: int| 0 <= i < ls.drop_last().len() implies crate::detector::holds(test, #[trigger] ls.drop_last()[i]) by {
            assert(ls.drop_last()[i] == ls[i]);
        }
        lemma_count_all(ls.drop_last(), test);
        assert(crate::detector::holds(test, ls[ls.len() - 1]));
    }
}

proof fn lemma_first_line_starts(t: Seq<char>)
    requires
        t.len() > 0,
        !crate::text::is_ws(t[0]),
    ensures
        crate::text::lines(t).len() > 0,
        crate::text::lines(t)[0].len() > 0,
        crate::text::lines(t)[0][0] == t[0],
{
    crate::text::lemma_first_match_bounds(t, crate::text::is_char('\n'));
    if let Some(i) = crate::text::find_char(t, '\n') {
        assert(i > 0);
        let head = t.take(i);
        assert(head[0] == t[0]);
        if i == 1 {
            assert(head.last() == t[0]);
        }
    }
}

/// A text whose every line is `key = value` (a bare key of ASCII letters,
/// digits, `_`, `-` or `.`, and a space on each side of the `=`) is detected
/// as TOML, with or without `[section]` headers.
pub proof fn law_plain_pairs_are_toml(s: Seq<char>)
    requires
        trim(s).len() > 0,
        forall|i: int| 0 <= i < crate::text::lines(trim(s)).len() ==> #[trigger] is_spaced_pair(crate::text::lines(trim(s))[i]),
    ensures
        spec_detect(s) == InputFormat::Toml,
{
    let t = trim(s);
    let ls = crate::text::lines(t);
    // The text starts with a key character.
    crate::text::lemma_trim_start_first(s);
    crate::text::lemma_trim_end_prefix(crate::text::trim_start(s));
    assert(t[0] == crate::text::trim_start(s)[0]);
    lemma_first_line_starts(t);
    let l0 = ls[0];
    assert(is_spaced_pair(l0));
    let (k0, v0) = choose|k: Seq<char>, v: Seq<char>| #[trigger] spaced_pair(l0, k, v);
    assert(crate::text::trim_start(l0) == l0);
    crate::text::lemma_trim_end_prefix(l0);
    assert(trim(l0)[0] == l0[0]);
    assert(trim(l0)[0] == k0[0]);
    assert(toml_key_char(k0[0]));
    // Each line is a TOML pair, and neither an `.env` pair nor a header line.
    assert forall|i: int| 0 <= i < ls.len() implies crate::detector::holds(crate::detector::LineTest::TomlPair, #[trigger] ls[i])
        && !crate::detector::holds(crate::detector::LineTest::EnvPair, ls[i])
        && !crate::detector::holds(crate::detector::LineTest::HeaderLine, ls[i]) by {
        assert(is_spaced_pair(ls[i]));
        let (k, v) = choose|k: Seq<char>, v: Seq<char>| #[trigger] spaced_pair(ls[i], k, v);
        lemma_spaced_pair_line(ls[i], k, v);
    }
    lemma_count_all(ls, crate::detector::LineTest::TomlPair);
    lemma_count_none(ls, crate::detector::LineTest::EnvPair);
    assert(!crate::detector::env_like(ls));
    assert(!crate::detector::headers_like(ls)) by {
        if ls.len() >= 2 {
            let r = if starts_with(ls[0], seq!['H', 'T', 'T', 'P', '/']) {
                ls.skip(1)
            } else {
                ls
            };
            assert forall|i: int| 0 <= i < r.len() implies !crate::detector::holds(
                crate::detector::LineTest::HeaderLine,
                #[trigger] r[i],
            ) by {
                if starts_with(ls[0], seq!['H', 'T', 'T', 'P', '/']) {
                    assert(r[i] == ls[i + 1]);
                }
            }
            lemma_count_none(r, crate::detector::LineTest::HeaderLine);
        }
    }
    assert(crate::detector::toml_like(ls));
}

// ──────────────────────────────────────────────
// What one line of `.env`, headers or text gives
// ──────────────────────────────────────────────

/// Text with no white space at either end.
pub open spec fn unpadded(x: Seq<char>) -> bool {
    x.len() > 0 && !crate::text::is_ws(x[0]) && !crate::text::is_ws(x.last())
}

proof fn lemma_trim_unpadded(x: Seq<char>)
    requires
        unpadded(x),
    ensures
        trim(x) == x,
{
    assert(crate::text::trim_start(x) == x);
    assert(crate::text::trim_end(x) == x);
}

proof fn lemma_trim_lead_space(x: Seq<char>)
    requires
        unpadded(x),
    ensures
        trim(seq![' '] + x) == x,
{
    let y = seq![' '] + x;
    assert(y[0] == ' ');
    assert(y.drop_first() =~= x);
    assert(crate::text::trim_start(y) == crate::text::trim_start(x));
    lemma_trim_unpadded(x);
}

/// An `.env` key: ASCII letters, digits and `_`.
pub open spec fn env_key(k: Seq<char>) -> bool {
    k.len() > 0 && forall|i: int| 0 <= i < k.len() ==> (is_ascii_alnum(#[trigger] k[i]) || k[i] == '_')
}

proof fn lemma_env_line_shape(k: Seq<char>, rest: Seq<char>)
    requires
        env_key(k),
        rest.len() > 0,
        rest[0] == '=',
        !crate::text::is_ws(rest.last()),
    ensures
        ({
            let l = k + rest;
            &&& trim(l) == l
            &&& l[0] != '#'
            &&& !starts_with(l, crate::formats::env::export_prefix())
            &&& crate::text::find_char(l, '=') == Some(k.len() as int)
            &&& l.take(k.len() as int) == k
            &&& l.skip(k.len() as int + 1) == rest.drop_first()
        }),
{
    let l = k + rest;
    let n = k.len() as int;
    assert(l[0] == k[0]);
    assert(l.last() == rest.last());
    lemma_trim_unpadded(l);
    assert(l[n] == '=');
    if starts_with(l, crate::formats::env::export_prefix()) {
        let e = crate::formats::env::export_prefix();
        assert(l.take(7) == e);
        if n < 7 {
            assert(l.take(7)[n] == l[n]);
        } else {
            assert(l.take(7)[6] == l[6]);
            assert(l[6] == k[6]);
        }
    }
    assert forall|j: int| 0 <= j < n implies !(crate::text::is_char('='))(#[trigger] l[j]) by {
        assert(l[j] == k[j]);
    }
    crate::text::lemma_first_match(l, crate::text::is_char('='), n);
    assert(l.take(n) =~= k);
    assert(l.skip(n + 1) =~= rest.drop_first());
}

/// A `.env` line `KEY=value` gives the key and the value as written, and
/// `KEY="value"` gives the value without its quotes.
pub proof fn law_env_line(k: Seq<char>, w: Seq<char>, u: Seq<char>)
    requires
        env_key(k),
        w.len() == 0 || (unpadded(w) && w[0] != '"' && w[0] != '\''),
    ensures
        crate::formats::env::env_pair(k + seq!['='] + w) == Some((k, w)),
        crate::formats::env::env_pair(k + seq!['=', '"'] + u + seq!['"']) == Some((k, u)),
{
    assert(is_ascii_alnum(k[k.len() - 1]) || k[k.len() - 1] == '_');
    assert(unpadded(k));
    lemma_trim_unpadded(k);
    // Unquoted.
    let r1 = seq!['='] + w;
    assert(r1[0] == '=');
    if w.len() > 0 {
        assert(r1.last() == w.last());
    }
    lemma_env_line_shape(k, r1);
    assert(k + seq!['='] + w =~= k + r1);
    assert(r1.drop_first() =~= w);
    if w.len() > 0 {
        lemma_trim_unpadded(w);
    }
    // Quoted.
    let qv = seq!['"'] + u + seq!['"'];
    let r2 = seq!['='] + qv;
    assert(r2[0] == '=');
    assert(r2.last() == '"');
    lemma_env_line_shape(k, r2);
    assert(k + seq!['=', '"'] + u + seq!['"'] =~= k + r2);
    assert(r2.drop_first() =~= qv);
    assert(qv[0] == '"' && qv.last() == '"');
    lemma_trim_unpadded(qv);
    assert(qv.subrange(1, qv.len() - 1) =~= u);
}

/// A header name: ASCII letters, digits and `-`.
pub open spec fn header_name(n: Seq<char>) -> bool {
    n.len() > 0 && forall|i: int| 0 <= i < n.len() ==> (is_ascii_alnum(#[trigger] n[i]) || n[i] == '-')
}

/// A header line `Name: value` gives the lower-cased name and the value.
pub proof fn law_header_line(n: Seq<char>, w: Seq<char>)
    requires
        header_name(n),
        unpadded(w),
    ensures
        crate::formats::headers::header_pair(n + seq![':', ' '] + w) == Some(
            (crate::formats::headers::lowercase(n), w),
        ),
{
    let l = n + seq![':', ' '] + w;
    let m = n.len() as int;
    assert(l[0] == n[0]);
    assert(l.last() == w.last());
    lemma_trim_unpadded(l);
    assert(l[m] == ':');
    if starts_with(l, crate::formats::headers::http_prefix()) {
        assert(l.take(5) == crate::formats::headers::http_prefix());
        if m < 5 {
            assert(l.take(5)[m] == l[m]);
        } else {
            assert(l.take(5)[4] == l[4]);
            assert(l[4] == n[4]);
        }
    }
    assert forall|j: int| 0 <= j < m implies !(crate::text::is_char(':'))(#[trigger] l[j]) by {
        assert(l[j] == n[j]);
    }
    crate::text::lemma_first_match(l, crate::text::is_char(':'), m);
    assert(l.take(m) =~= n);
    assert(unpadded(n)) by {
        assert(is_ascii_alnum(n[m - 1]) || n[m - 1] == '-');
    }
    lemma_trim_unpadded(n);
    assert(l.skip(m + 1) =~= seq![' '] + w);
    lemma_trim_lead_space(w);
}

/// The text search gives the value of the first line keyed by the query,
/// whatever later lines say.
pub proof fn law_first_keyed_line_wins(input: Seq<char>, q: Seq<char>, i: int, v: Seq<char>)
    requires
        0 <= i < crate::text::lines(input).len(),
        crate::formats::text::search_pair(crate::text::lines(input)[i], q) == Some(v),
        forall|j: int| 0 <= j < i ==> crate::formats::text::search_pair(#[trigger] crate::text::lines(input)[j], q) is None,
    ensures
        crate::formats::text::spec_search(input, q) == Some(Json::Str(v)),
{
    lemma_first_search_at(crate::text::lines(input), q, i, v);
}

proof fn lemma_first_search_at(ls: Seq<Seq<char>>, q: Seq<char>, i: int, v: Seq<char>)
    requires
        0 <= i < ls.len(),
        crate::formats::text::search_pair(ls[i], q) == Some(v),
        forall|j: int| 0 <= j < i ==> crate::formats::text::search_pair(#[trigger] ls[j], q) is None,
    ensures
        crate::formats::text::first_search(ls, q) == Some(v),
    decreases i,
{
    if i > 0 {
        assert(crate::formats::text::search_pair(ls[0], q) is None);
        assert forall|j: int| 0 <= j < i - 1 implies crate::formats::text::search_pair(#[trigger] ls.drop_first()[j], q) is None by {
            assert(ls.drop_first()[j] == ls[j + 1]);
        }
        assert(ls.drop_first()[i - 1] == ls[i]);
        lemma_first_search_at(ls.drop_first(), q, i - 1, v);
    }
}

/// A text line `key=value` gives `value` for the key.
pub proof fn law_text_line(k: Seq<char>, w: Seq<char>)
    requires
        env_key(k),
        unpadded(w),
    ensures
        crate::formats::text::search_pair(k + seq!['='] + w, k) == Some(w),
{
    let l = k + seq!['='] + w;
    let n = k.len() as int;
    assert(l[0] == k[0]);
    assert(l.last() == w.last());
    lemma_trim_unpadded(l);
    assert(l[n] == '=');
    assert forall|j: int| 0 <= j < n implies !(crate::text::is_char('='))(#[trigger] l[j]) by {
        assert(l[j] == k[j]);
    }
    crate::text::lemma_first_match(l, crate::text::is_char('='), n);
    assert(l.take(n) =~= k);
    assert(unpadded(k)) by {
        assert(is_ascii_alnum(k[n - 1]) || k[n - 1] == '_');
    }
    lemma_trim_unpadded(k);
    assert(l.skip(n + 1) =~= w);
    lemma_trim_unpadded(w);
}

} // verus!
