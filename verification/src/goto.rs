//! Unconditional jumps: a node state whose target is computed at run time.

use vstd::prelude::*;
use crate::error::{Error, SpecError};
use crate::eval::{eval, eval_spec, Context};
use crate::parser::{expr_wf, view_expr, Expr, SpecExpr};
use crate::value::{SpecValue, Value};

verus! {

/// An unconditional jump to a node id computed by an expression.
#[derive(Debug)]
pub struct Goto {
    pub target: Expr,
}

/// The node id a jump selects: the target expression must yield a string.
pub open spec fn goto_eval_spec(target: SpecExpr, ctx: Map<Seq<char>, SpecValue>) -> Result<
    Seq<char>,
    SpecError,
> {
    match eval_spec(target, ctx) {
        Result::Err(e) => Err(e),
        Result::Ok(SpecValue::String(s)) => Ok(s),
        Result::Ok(_) => Err(SpecError::InvalidTransition("Goto target must be a string"@)),
    }
}

impl Goto {
    /// A jump to the id the expression yields.
    pub fn new(target: Expr) -> (r: Goto)
        ensures
            r.target == target,
    {
        Goto { target }
    }

    /// Selects the next node id under this jump.
    pub fn eval(&self, context: &Context) -> (r: Result<String, Error>)
        requires
            expr_wf(self.target),
            context.wf(),
        ensures
            match r {
                Result::Ok(s) => goto_eval_spec(view_expr(self.target), context@) == Result::<
                    Seq<char>,
                    SpecError,
                >::Ok(s@),
                Result::Err(e) => goto_eval_spec(view_expr(self.target), context@) == Result::<
                    Seq<char>,
                    SpecError,
                >::Err(e@),
            },
    {
        let target = match eval(&self.target, context) {
            Result::Ok(v) => v,
            Result::Err(e) => {
                return Err(e);
            },
        };
        match target {
            Value::String(s) => Ok(s),
            _ => Err(Error::InvalidTransition(String::from_str("Goto target must be a string"))),
        }
    }
}

} // verus!