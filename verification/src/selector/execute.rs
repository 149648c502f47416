//! Running expressions: pipelines of stages, and comma-separated pipelines.
use vstd::prelude::*;
use crate::error::{ErrV, PickError};
use crate::value::{all_wf, wf_json, values_result, Json, JsonValue, copy_value, items};
use super::extract::{apply_builtin, extract, spec_apply_builtin, spec_extract};
use super::filter::{evaluate, spec_evaluate};
use super::literal::lit_json;
use super::manipulate::{apply_del, apply_set, seg_views, spec_del, spec_set};
use super::types::{Expression, PipeStage, Pipeline, StageV};

verus! {

/// What one stage makes of one input.
pub open spec fn stage_one(x: Json, st: StageV) -> Result<Seq<Json>, ErrV> {
    match st {
        StageV::Path(p) => spec_extract(x, p),
        StageV::Builtin(b) => match spec_apply_builtin(b, x) {
            Ok(y) => Ok(seq![y]),
            Err(e) => Err(e),
        },
        StageV::Select(f) => match spec_evaluate(x, f) {
            Ok(keep) => if keep {
                Ok(seq![x])
            } else {
                Ok(Seq::empty())
            },
            Err(e) => Err(e),
        },
        StageV::SetAt(p, l) => match spec_set(x, p, lit_json(l)) {
            Ok(y) => Ok(seq![y]),
            Err(e) => Err(e),
        },
        StageV::Del(p) => match spec_del(x, p) {
            Ok(y) => Ok(seq![y]),
            Err(e) => Err(e),
        },
    }
}

/// A stage applied to each input in turn, the outputs concatenated; the first
/// failing input's error stops it.
#[verifier::opaque]
pub open spec fn spec_stage(inputs: Seq<Json>, st: StageV) -> Result<Seq<Json>, ErrV>
    decreases inputs.len(),
{
    if inputs.len() == 0 {
        Ok(Seq::empty())
    } else {
        match spec_stage(inputs.drop_last(), st) {
            Err(e) => Err(e),
            Ok(acc) => match stage_one(inputs.last(), st) {
                Err(e) => Err(e),
                Ok(r) => Ok(acc + r),
            },
        }
    }
}

pub open spec fn spec_pipeline_from(cur: Seq<Json>, stages: Seq<StageV>) -> Result<Seq<Json>, ErrV>
    decreases stages.len(),
{
    if stages.len() == 0 {
        Ok(cur)
    } else {
        match spec_stage(cur, stages[0]) {
            Err(e) => Err(e),
            Ok(next) => spec_pipeline_from(next, stages.drop_first()),
        }
    }
}

/// A pipeline: `v` fed through each stage in order.
#[verifier::opaque]
pub open spec fn spec_pipeline(v: Json, stages: Seq<StageV>) -> Result<Seq<Json>, ErrV> {
    spec_pipeline_from(seq![v], stages)
}

/// The first pipelines' results, concatenated.  With more than one pipeline
/// (`single` false), a pipeline that fails with `KeyNotFound` adds nothing;
/// any other error stops it.
pub open spec fn spec_union(v: Json, pipes: Seq<Seq<StageV>>, single: bool) -> Result<Seq<Json>, ErrV>
    decreases pipes.len(),
{
    if pipes.len() == 0 {
        Ok(Seq::empty())
    } else {
        match spec_union(v, pipes.drop_last(), single) {
            Err(e) => Err(e),
            Ok(acc) => match spec_pipeline(v, pipes.last()) {
                Ok(rs) => Ok(acc + rs),
                Err(e) => if !single && e is KeyNotFound {
                    Ok(acc)
                } else {
                    Err(e)
                },
            },
        }
    }
}

/// An expression: the union of its pipelines' results.
pub open spec fn spec_execute(v: Json, pipes: Seq<Seq<StageV>>) -> Result<Seq<Json>, ErrV> {
    spec_union(v, pipes, pipes.len() == 1)
}

pub proof fn lemma_stage_error(vs: Seq<Json>, st: StageV, j: int)
    requires
        0 <= j < vs.len(),
        spec_stage(vs.take(j + 1), st) is Err,
    ensures
        spec_stage(vs, st) == spec_stage(vs.take(j + 1), st),
    decreases vs.len(),
{
    reveal(spec_stage);
    if j + 1 < vs.len() {
        assert(vs.drop_last().take(j + 1) =~= vs.take(j + 1));
        lemma_stage_error(vs.drop_last(), st, j);
    } else {
        assert(vs.take(j + 1) =~= vs);
    }
}

pub proof fn lemma_union_error(v: Json, pipes: Seq<Seq<StageV>>, single: bool, j: int)
    requires
        0 <= j < pipes.len(),
        spec_union(v, pipes.take(j + 1), single) is Err,
    ensures
        spec_union(v, pipes, single) == spec_union(v, pipes.take(j + 1), single),
    decreases pipes.len(),
{
    if j + 1 < pipes.len() {
        assert(pipes.drop_last().take(j + 1) =~= pipes.take(j + 1));
        lemma_union_error(v, pipes.drop_last(), single, j);
    } else {
        assert(pipes.take(j + 1) =~= pipes);
    }
}

fn single_result(r: Result<JsonValue, PickError>) -> (out: Result<Vec<JsonValue>, PickError>)
    ensures
        values_result(out) == match r {
            Ok(y) => Ok::<Seq<Json>, ErrV>(seq![y@]),
            Err(e) => Err(e@),
        },
{
    match r {
        Ok(y) => {
            let mut v: Vec<JsonValue> = Vec::new();
            let ghost yv = y@;
            v.push(y);
            assert(items(v@) =~= seq![yv]);
            Ok(v)
        },
        Err(e) => Err(e),
    }
}

fn stage_on(input: &JsonValue, stage: &PipeStage) -> (r: Result<Vec<JsonValue>, PickError>)
    ensures
        values_result(r) == stage_one(input@, stage@),
{
    match stage {
        PipeStage::Path(selector) => extract(input, selector),
        PipeStage::Builtin(builtin) => single_result(apply_builtin(builtin, input)),
        PipeStage::Select(filter) => match evaluate(input, filter) {
            Err(e) => Err(e),
            Ok(keep) => {
                let mut v: Vec<JsonValue> = Vec::new();
                if keep {
                    v.push(copy_value(input));
                    assert(items(v@) =~= seq![input@]);
                } else {
                    assert(items(v@) =~= Seq::<Json>::empty());
                }
                Ok(v)
            },
        },
        PipeStage::SetAt { path, value } => {
            let json_value = value.to_json_value();
            assert(seg_views(path.segments@) == path@);
            single_result(apply_set(input, path.segments.as_slice(), &json_value))
        },
        PipeStage::Del(path) => {
            assert(seg_views(path.segments@) == path@);
            single_result(apply_del(input, path.segments.as_slice()))
        },
    }
}

/// One stage over every input, outputs concatenated in input order.
#[verifier::loop_isolation(false)]
pub fn execute_stage(inputs: &[JsonValue], stage: &PipeStage) -> (r: Result<Vec<JsonValue>, PickError>)
    ensures
        values_result(r) == spec_stage(items(inputs@), stage@),
{
    reveal(spec_stage);
    let mut results: Vec<JsonValue> = Vec::new();
    let mut j: usize = 0;
    assert(items(inputs@).take(0) =~= Seq::<Json>::empty());
    assert(items(results@) =~= Seq::<Json>::empty());
    while j < inputs.len()
        invariant
            j <= inputs@.len(),
            spec_stage(items(inputs@).take(j as int), stage@) == Ok::<Seq<Json>, ErrV>(items(results@)),
        decreases inputs.len() - j,
    {
        assert(items(inputs@).take(j + 1).drop_last() =~= items(inputs@).take(j as int));
        assert(items(inputs@).take(j + 1).last() == inputs@[j as int]@);
        match stage_on(&inputs[j], stage) {
            Err(e) => {
                proof { lemma_stage_error(items(inputs@), stage@, j as int); }
                return Err(e);
            },
            Ok(vals) => {
                let ghost before = items(results@);
                let mut vals = vals;
                let ghost added = items(vals@);
                results.append(&mut vals);
                assert(items(results@) =~= before + added);
            },
        }
        j = j + 1;
    }
    assert(items(inputs@).take(j as int) =~= items(inputs@));
    Ok(results)
}

/// Execute a single pipeline: feed value through each stage sequentially.
#[verifier::loop_isolation(false)]
pub fn execute_pipeline(value: &JsonValue, pipeline: &Pipeline) -> (r: Result<Vec<JsonValue>, PickError>)
    ensures
        values_result(r) == spec_pipeline(value@, pipeline@),
{
    reveal(spec_pipeline);
    let mut current: Vec<JsonValue> = Vec::new();
    current.push(copy_value(value));
    assert(items(current@) =~= seq![value@]);
    let stages = &pipeline.stages;
    let ghost sv = pipeline@;
    let mut k: usize = 0;
    assert(sv.skip(0) =~= sv);
    while k < stages.len()
        invariant
            k <= stages@.len(),
            sv == pipeline@,
            sv.len() == stages@.len(),
            spec_pipeline(value@, sv) == spec_pipeline_from(items(current@), sv.skip(k as int)),
        decreases stages.len() - k,
    {
        assert(sv[k as int] == stages@[k as int]@);
        assert(sv.skip(k as int)[0] == sv[k as int]);
        assert(sv.skip(k as int).drop_first() =~= sv.skip(k + 1));
        match execute_stage(current.as_slice(), &stages[k]) {
            Err(e) => return Err(e),
            Ok(next) => {
                current = next;
            },
        }
        k = k + 1;
    }
    assert(sv.skip(k as int).len() == 0);
    Ok(current)
}

/// Execute an expression against a value, returning all results.
/// Multiple comma-separated pipelines have their results concatenated.
#[verifier::loop_isolation(false)]
pub fn execute(value: &JsonValue, expression: &Expression) -> (r: Result<Vec<JsonValue>, PickError>)
    ensures
        values_result(r) == spec_execute(value@, expression@),
        wf_json(value@) ==> (r matches Ok(xs) ==> all_wf(items(xs@))),
{
    proof {
        if wf_json(value@) {
            crate::laws::law_execute_keeps_wf(value@, expression@);
        }
    }
    let pipes = &expression.pipelines;
    let ghost pv = expression@;
    let single = pipes.len() == 1;
    let mut all_results: Vec<JsonValue> = Vec::new();
    let mut j: usize = 0;
    assert(pv.take(0) =~= Seq::<Seq<StageV>>::empty());
    assert(items(all_results@) =~= Seq::<Json>::empty());
    while j < pipes.len()
        invariant
            j <= pipes@.len(),
            pv == expression@,
            pv.len() == pipes@.len(),
            single == (pv.len() == 1),
            spec_union(value@, pv.take(j as int), single) == Ok::<Seq<Json>, ErrV>(items(all_results@)),
        decreases pipes.len() - j,
    {
        assert(pv.take(j + 1).drop_last() =~= pv.take(j as int));
        assert(pv.take(j + 1).last() == pipes@[j as int]@);
        match execute_pipeline(value, &pipes[j]) {
            Ok(results) => {
                let ghost before = items(all_results@);
                let mut results = results;
                let ghost added = items(results@);
                all_results.append(&mut results);
                assert(items(all_results@) =~= before + added);
            },
            Err(e) => {
                let skip = match &e {
                    PickError::KeyNotFound(_) => !single,
                    _ => false,
                };
                if !skip {
                    proof { lemma_union_error(value@, pv, single, j as int); }
                    return Err(e);
                }
            },
        }
        j = j + 1;
    }
    assert(pv.take(j as int) =~= pv);
    Ok(all_results)
}

} // verus!
