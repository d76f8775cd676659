//! Conditions: boolean-guarded branch selection.
//!
//! A condition holds a boolean-valued expression and a table of branch
//! expressions keyed by `"true"` and `"false"`.  Evaluating it evaluates the
//! guard, picks the branch named after the outcome, evaluates that branch,
//! and returns its text (a string or a symbol); the caller reads the text as
//! the id of the next node.

use vstd::prelude::*;
use crate::error::{Error, SpecError};
use crate::eval::{eval, eval_spec, Context};
use crate::parser::{expr_wf, view_expr, Expr, SpecExpr};
use crate::value::{str_eq, SpecValue, Value};

verus! {

/// A boolean guard with named branches.
#[derive(Debug)]
pub struct Condition {
    pub condition: Expr,
    pub branches: Vec<(String, Expr)>,
}

/// Mathematical mirror of [`Condition`].
pub struct SpecCondition {
    pub condition: SpecExpr,
    pub branches: Seq<(Seq<char>, SpecExpr)>,
}

/// The mirrors of a branch table.
pub open spec fn view_branches(es: Seq<(String, Expr)>) -> Seq<(Seq<char>, SpecExpr)>
    decreases es,
{
    if es.len() == 0 {
        Seq::empty()
    } else {
        seq![(es[0].0@, view_expr(es[0].1))] + view_branches(es.drop_first())
    }
}

/// Pointwise description of [`view_branches`].
pub proof fn lemma_view_branches(es: Seq<(String, Expr)>)
    ensures
        view_branches(es).len() == es.len(),
        forall|i: int|
            0 <= i < es.len() ==> view_branches(es)[i] == ((#[trigger] es[i]).0@, view_expr(
                es[i].1,
            )),
    decreases es,
{
    if es.len() > 0 {
        lemma_view_branches(es.drop_first());
        assert forall|i: int|
            0 <= i < es.len() implies view_branches(es)[i] == (es[i].0@, view_expr(es[i].1)) by {
            if i > 0 {
                assert(es.drop_first()[i - 1] == es[i]);
            }
        }
    }
}

impl View for Condition {
    type V = SpecCondition;

    open spec fn view(&self) -> SpecCondition {
        SpecCondition { condition: view_expr(self.condition), branches: view_branches(
            self.branches@,
        ) }
    }
}

/// Every branch expression is well formed.
pub open spec fn branches_wf(es: Seq<(String, Expr)>) -> bool
    decreases es,
{
    es.len() == 0 || (expr_wf(es[0].1) && branches_wf(es.drop_first()))
}

/// Pointwise description of [`branches_wf`].
pub proof fn lemma_branches_wf(es: Seq<(String, Expr)>)
    ensures
        branches_wf(es) <==> (forall|i: int| 0 <= i < es.len() ==> expr_wf((#[trigger] es[i]).1)),
    decreases es,
{
    if es.len() > 0 {
        lemma_branches_wf(es.drop_first());
        assert forall|i: int|
            branches_wf(es) && 0 <= i < es.len() implies expr_wf((#[trigger] es[i]).1) by {
            if i > 0 {
                assert(es.drop_first()[i - 1] == es[i]);
            }
        }
        if forall|i: int| 0 <= i < es.len() ==> expr_wf((#[trigger] es[i]).1) {
            assert forall|i: int|
                0 <= i < es.drop_first().len() implies expr_wf(
                (#[trigger] es.drop_first()[i]).1,
            ) by {
                assert(es.drop_first()[i] == es[i + 1]);
            }
        }
    }
}

impl Condition {
    /// The representation invariant: the guard and every branch are well
    /// formed.
    pub open spec fn wf(self) -> bool {
        expr_wf(self.condition) && branches_wf(self.branches@)
    }
}

/// The branch expression under the first entry whose key is `k`, if any.
pub open spec fn spec_branch_get(es: Seq<(Seq<char>, SpecExpr)>, k: Seq<char>) -> Option<SpecExpr>
    decreases es,
{
    if es.len() == 0 {
        None
    } else if es[0].0 == k {
        Some(es[0].1)
    } else {
        spec_branch_get(es.drop_first(), k)
    }
}

/// The node id a condition selects: the guard must yield a boolean, the
/// branch table must name the outcome, and the selected branch must yield a
/// string or a symbol.
pub open spec fn cond_eval_spec(c: SpecCondition, ctx: Map<Seq<char>, SpecValue>) -> Result<
    Seq<char>,
    SpecError,
> {
    match eval_spec(c.condition, ctx) {
        Result::Err(e) => Err(e),
        Result::Ok(SpecValue::Boolean(b)) => {
            let key = if b {
                "true"@
            } else {
                "false"@
            };
            match spec_branch_get(c.branches, key) {
                Option::None => Err(SpecError::MissingBranch(key)),
                Option::Some(be) => match eval_spec(be, ctx) {
                    Result::Err(e) => Err(e),
                    Result::Ok(SpecValue::String(s)) => Ok(s),
                    Result::Ok(SpecValue::Symbol(s)) => Ok(s),
                    Result::Ok(_) => Err(
                        SpecError::TypeError("Condition must evaluate to a string"@),
                    ),
                },
            }
        },
        Result::Ok(_) => Err(SpecError::TypeError("Condition must evaluate to a boolean"@)),
    }
}

/// Skipping a non-matching branch keeps the lookup result.
proof fn lemma_branch_get_step(es: Seq<(Seq<char>, SpecExpr)>, k: Seq<char>, i: int)
    requires
        0 <= i < es.len(),
        es[i].0 != k,
    ensures
        spec_branch_get(es.skip(i), k) == spec_branch_get(es.skip(i + 1), k),
{
    assert(es.skip(i)[0] == es[i]);
    assert(es.skip(i).drop_first() =~= es.skip(i + 1));
}

/// Looks a key up in a branch table.
fn branch_get<'a>(es: &'a Vec<(String, Expr)>, k: &str) -> (r: Option<&'a Expr>)
    ensures
        match r {
            Option::Some(e) => spec_branch_get(view_branches(es@), k@) == Some(e@) && (
            branches_wf(es@) ==> expr_wf(*e)),
            Option::None => spec_branch_get(view_branches(es@), k@) is None,
        },
{
    let ghost ges = view_branches(es@);
    proof {
        lemma_view_branches(es@);
        assert(ges.skip(0) =~= ges);
    }
    let mut i: usize = 0;
    while i < es.len()
        invariant
            0 <= i <= es@.len(),
            ges == view_branches(es@),
            ges.len() == es@.len(),
            spec_branch_get(ges, k@) == spec_branch_get(ges.skip(i as int), k@),
            forall|j: int|
                0 <= j < es@.len() ==> view_branches(es@)[j] == ((#[trigger] es@[j]).0@,
                view_expr(es@[j].1)),
        decreases es@.len() - i,
    {
        let (key, e) = &es[i];
        proof {
            assert(ges.skip(i as int)[0] == ges[i as int]);
        }
        if str_eq(key.as_str(), k) {
            proof {
                if branches_wf(es@) {
                    lemma_branches_wf(es@);
                }
            }
            return Some(e);
        }
        proof {
            lemma_branch_get_step(ges, k@, i as int);
        }
        i = i + 1;
    }
    proof {
        assert(ges.skip(es@.len() as int).len() == 0);
    }
    None
}

impl Condition {
    /// Selects the next node id under this condition.
    pub fn eval(&self, context: &Context) -> (r: Result<String, Error>)
        requires
            self.wf(),
            context.wf(),
        ensures
            match r {
                Result::Ok(s) => cond_eval_spec(self@, context@) == Result::<
                    Seq<char>,
                    SpecError,
                >::Ok(s@),
                Result::Err(e) => cond_eval_spec(self@, context@) == Result::<
                    Seq<char>,
                    SpecError,
                >::Err(e@),
            },
    {
        let cond = match eval(&self.condition, context) {
            Result::Ok(v) => v,
            Result::Err(e) => {
                return Err(e);
            },
        };
        match cond {
            Value::Boolean(b) => {
                let key: &str = if b {
                    "true"
                } else {
                    "false"
                };
                match branch_get(&self.branches, key) {
                    Option::None => Err(Error::MissingBranch(String::from_str(key))),
                    Option::Some(be) => {
                        let result = match eval(be, context) {
                            Result::Ok(v) => v,
                            Result::Err(e) => {
                                return Err(e);
                            },
                        };
                        match result {
                            Value::String(s) => Ok(s),
                            Value::Symbol(s) => Ok(s),
                            _ => Err(
                                Error::TypeError(
                                    String::from_str("Condition must evaluate to a string"),
                                ),
                            ),
                        }
                    },
                }
            },
            _ => Err(Error::TypeError(String::from_str("Condition must evaluate to a boolean"))),
        }
    }
}

} // verus!