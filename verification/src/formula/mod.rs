//! The report formula language: lexing and parsing into a syntax tree, evaluation
//! over a scope of fetched and referenced values, the function catalogue, and the
//! loaded form of a report.
pub mod cells;
pub mod ast;
pub mod value;
pub mod eval;
pub mod registry;
pub mod functions;
pub mod report;
pub mod deps;
pub mod resolve;

use vstd::prelude::*;
use crate::formula::ast::{parse, parse_spec, node_view, ParseError};
use crate::formula::eval::{EvalCtx, Scope, eval_node, eval_spec, empty_scope};
use crate::formula::value::FValue;

verus! {

/// Parses and evaluates an expression on its own: fields, cells and fetches all read
/// as 0. Its evaluation must not overflow.
pub fn eval_standalone(expr: &str, ctx: &EvalCtx) -> (r: Result<FValue, ParseError>)
    requires
        parse_spec(expr@) is Ok ==> eval_spec(parse_spec(expr@)->Ok_0, empty_scope(*ctx)) is Some,
    ensures
        match parse_spec(expr@) {
            Ok(n) => r matches Ok(v) && eval_spec(n, empty_scope(*ctx)) == Some(v@),
            Err(e) => r matches Err(x) && x@ == e,
        },
{
    let ast = parse(expr)?;
    let scope = Scope::new(ctx);
    Ok(eval_node(&ast, &scope))
}

} // verus!
