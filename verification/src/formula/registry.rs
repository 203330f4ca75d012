//! The catalogue of report functions: each function's name, category, return type,
//! parameters and wizard settings. Evaluation itself dispatches on the name (see
//! `eval`); these entries are what the designer's function wizard renders.
use vstd::prelude::*;

verus! {

/// A function's category: the wizard group, and whether it fetches.
#[derive(Debug, Clone, Copy, PartialEq, Eq, Structural)]
pub enum FnCategory {
    /// Balance and movement fetches.
    Fetch,
    /// `REF`: another cell, of this report or another.
    Ref,
    /// Totals (`SUM`).
    Agg,
    /// `IF` and friends.
    Logic,
    /// `ABS`, `ROUND`, `MIN`, `MAX`.
    Math,
}

/// The lower-case name of a category.
pub open spec fn category_text(c: FnCategory) -> Seq<char> {
    match c {
        FnCategory::Fetch => "fetch"@,
        FnCategory::Ref => "ref"@,
        FnCategory::Agg => "agg"@,
        FnCategory::Logic => "logic"@,
        FnCategory::Math => "math"@,
    }
}

impl FnCategory {
    /// The category's lower-case name.
    pub fn as_str(&self) -> (r: &'static str)
        ensures
            r@ == category_text(*self),
    {
        match self {
            FnCategory::Fetch => "fetch",
            FnCategory::Ref => "ref",
            FnCategory::Agg => "agg",
            FnCategory::Logic => "logic",
            FnCategory::Math => "math",
        }
    }
}

/// A function's value type.
#[derive(Debug, Clone, Copy, PartialEq, Eq, Structural)]
pub enum ValueType {
    Amount,
    Qty,
    Rate,
    Text,
    Date,
    Bool,
}

/// What a parameter is: the wizard control it gets.
#[derive(Debug, Clone, Copy, PartialEq, Eq, Structural)]
pub enum ParamKind {
    /// A period: a relative offset (0, -1, -12) or an absolute code.
    Period,
    /// An organisation: `@current` or a code.
    Org,
    /// The fetched object: an element or account code.
    Object,
    /// Debit or credit (`FS`).
    Direction,
    /// A report code (`REF`).
    Report,
    /// A version code (`REF`).
    Version,
    /// A cell reference.
    CellRef,
    /// Any number.
    Number,
    /// Any text.
    Text,
    /// Any sub-expression.
    Expr,
}

/// One parameter of a function.
#[derive(Debug, Clone, Copy)]
pub struct Param {
    pub name: &'static str,
    pub kind: ParamKind,
    pub required: bool,
    /// The literal used when the argument is left out.
    pub default: Option<&'static str>,
    /// The wizard's hint.
    pub hint: &'static str,
}

/// A function's parameters: fixed ones, then possibly a repeated trailing one.
#[derive(Debug, Clone)]
pub struct Prototype {
    pub params: Vec<Param>,
    pub variadic: Option<Param>,
}

/// Wizard settings.
#[derive(Debug, Clone, Copy)]
pub struct WizardSpec {
    /// Whether the wizard previews the fetched value live.
    pub preview: bool,
}

/// One function of the catalogue.
#[derive(Debug, Clone)]
pub struct RptFunction {
    pub name: &'static str,
    pub category: FnCategory,
    pub ret_type: ValueType,
    /// Whether evaluation needs fetched data (the fetch functions and `REF`).
    pub is_fetch: bool,
    pub prototype: Prototype,
    pub help: &'static str,
    pub example: &'static str,
    pub wizard: WizardSpec,
}

/// A required parameter.
pub fn p(name: &'static str, kind: ParamKind, hint: &'static str) -> (r: Param)
    ensures
        r.name == name,
        r.kind == kind,
        r.required,
        r.default is None,
        r.hint == hint,
{
    Param { name, kind, required: true, default: None, hint }
}

/// An optional parameter with its default.
pub fn p_opt(name: &'static str, kind: ParamKind, default: Option<&'static str>, hint: &'static str) -> (r: Param)
    ensures
        r.name == name,
        r.kind == kind,
        !r.required,
        r.default == default,
        r.hint == hint,
{
    Param { name, kind, required: false, default, hint }
}

/// A parameter as (name, kind, required, default, hint).
pub open spec fn param_shape(q: Param) -> (Seq<char>, ParamKind, bool, Option<Seq<char>>, Seq<char>) {
    (
        q.name@,
        q.kind,
        q.required,
        match q.default {
            Some(d) => Some(d@),
            None => None,
        },
        q.hint@,
    )
}

/// The shapes of a parameter list.
pub open spec fn params_shape(qs: Seq<Param>) -> Seq<(Seq<char>, ParamKind, bool, Option<Seq<char>>, Seq<char>)> {
    qs.map_values(|q: Param| param_shape(q))
}

} // verus!
