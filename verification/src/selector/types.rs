//! The abstract syntax of selector expressions, with the views that contracts use.
use vstd::prelude::*;

verus! {

/// Index operation within array brackets.
#[derive(Debug, Clone, Copy, PartialEq, Eq, Structural)]
pub enum Index {
    /// Specific index: `[0]`, `[-1]`
    Number(i64),
    /// Wildcard: `[*]`
    Wildcard,
    /// Slice: `[2:5]`, `[2:]`, `[:5]`, `[:]`
    Slice { start: Option<i64>, end: Option<i64> },
}

/// Built-in functions that transform values.
#[derive(Debug, Clone, Copy, PartialEq, Eq, Structural)]
pub enum Builtin {
    Keys,
    Values,
    Length,
}

/// A single path segment between dots.
#[derive(Debug, PartialEq)]
pub struct Segment {
    pub key: Option<String>,
    pub indices: Vec<Index>,
    pub recursive: bool,
    pub builtin: Option<Builtin>,
}

/// A dot-separated path expression.
#[derive(Debug, PartialEq)]
pub struct Selector {
    pub segments: Vec<Segment>,
}

/// Comparison operators for filter expressions.
#[derive(Debug, Clone, Copy, PartialEq, Eq, Structural)]
pub enum CompareOp {
    Eq,
    Ne,
    Gt,
    Lt,
    Gte,
    Lte,
    Match,
}

/// Logical operators for combining conditions.
#[derive(Debug, Clone, Copy, PartialEq, Eq, Structural)]
pub enum LogicOp {
    And,
    Or,
}

/// A literal value in a filter expression.  A number is kept as the decimal
/// text that the selector wrote.
#[derive(Debug, PartialEq)]
pub enum LiteralValue {
    String(String),
    Number(String),
    Bool(bool),
    Null,
}

/// A single comparison condition.
#[derive(Debug, PartialEq)]
pub struct Condition {
    pub path: Selector,
    pub op: CompareOp,
    pub value: LiteralValue,
}

/// A filter expression, possibly compound with logic operators.
#[derive(Debug, PartialEq)]
pub enum FilterExpr {
    Condition(Condition),
    Truthy(Selector),
    And(Box<FilterExpr>, Box<FilterExpr>),
    Or(Box<FilterExpr>, Box<FilterExpr>),
    Not(Box<FilterExpr>),
}

/// A single stage in a pipeline.
#[derive(Debug, PartialEq)]
pub enum PipeStage {
    Path(Selector),
    Builtin(Builtin),
    Select(FilterExpr),
    SetAt { path: Selector, value: LiteralValue },
    Del(Selector),
}

/// A pipeline of stages separated by `|`.
#[derive(Debug, PartialEq)]
pub struct Pipeline {
    pub stages: Vec<PipeStage>,
}

/// Top-level expression: comma-separated pipelines (union semantics).
#[derive(Debug, PartialEq)]
pub struct Expression {
    pub pipelines: Vec<Pipeline>,
}

// ── views ──

pub struct SegV {
    pub key: Option<Seq<char>>,
    pub indices: Seq<Index>,
    pub recursive: bool,
    pub builtin: Option<Builtin>,
}

pub enum LitV {
    Str(Seq<char>),
    Num(Seq<char>),
    Bool(bool),
    Null,
}

pub struct CondV {
    pub path: Seq<SegV>,
    pub op: CompareOp,
    pub value: LitV,
}

pub enum FilterV {
    Cond(CondV),
    Truthy(Seq<SegV>),
    And(Box<FilterV>, Box<FilterV>),
    Or(Box<FilterV>, Box<FilterV>),
    Not(Box<FilterV>),
}

pub enum StageV {
    Path(Seq<SegV>),
    Builtin(Builtin),
    Select(FilterV),
    SetAt(Seq<SegV>, LitV),
    Del(Seq<SegV>),
}

pub open spec fn opt_view(o: Option<String>) -> Option<Seq<char>> {
    match o {
        Some(s) => Some(s@),
        None => None,
    }
}

impl View for Segment {
    type V = SegV;

    open spec fn view(&self) -> SegV {
        SegV {
            key: opt_view(self.key),
            indices: self.indices@,
            recursive: self.recursive,
            builtin: self.builtin,
        }
    }
}

impl View for Selector {
    type V = Seq<SegV>;

    open spec fn view(&self) -> Seq<SegV> {
        self.segments@.map_values(|s: Segment| s@)
    }
}

impl View for LiteralValue {
    type V = LitV;

    open spec fn view(&self) -> LitV {
        match self {
            LiteralValue::String(s) => LitV::Str(s@),
            LiteralValue::Number(s) => LitV::Num(s@),
            LiteralValue::Bool(b) => LitV::Bool(*b),
            LiteralValue::Null => LitV::Null,
        }
    }
}

impl View for Condition {
    type V = CondV;

    open spec fn view(&self) -> CondV {
        CondV { path: self.path@, op: self.op, value: self.value@ }
    }
}

impl View for FilterExpr {
    type V = FilterV;

    open spec fn view(&self) -> FilterV
        decreases self,
    {
        match self {
            FilterExpr::Condition(c) => FilterV::Cond(c@),
            FilterExpr::Truthy(p) => FilterV::Truthy(p@),
            FilterExpr::And(a, b) => FilterV::And(Box::new((**a).view()), Box::new((**b).view())),
            FilterExpr::Or(a, b) => FilterV::Or(Box::new((**a).view()), Box::new((**b).view())),
            FilterExpr::Not(a) => FilterV::Not(Box::new((**a).view())),
        }
    }
}

impl View for PipeStage {
    type V = StageV;

    open spec fn view(&self) -> StageV {
        match self {
            PipeStage::Path(p) => StageV::Path(p@),
            PipeStage::Builtin(b) => StageV::Builtin(*b),
            PipeStage::Select(f) => StageV::Select(f@),
            PipeStage::SetAt { path, value } => StageV::SetAt(path@, value@),
            PipeStage::Del(p) => StageV::Del(p@),
        }
    }
}

impl View for Pipeline {
    type V = Seq<StageV>;

    open spec fn view(&self) -> Seq<StageV> {
        self.stages@.map_values(|s: PipeStage| s@)
    }
}

impl View for Expression {
    type V = Seq<Seq<StageV>>;

    open spec fn view(&self) -> Seq<Seq<StageV>> {
        self.pipelines@.map_values(|p: Pipeline| p@)
    }
}

} // verus!
