//! Structural comparison of syntax trees.

use vstd::prelude::*;
use crate::parser::{args_wf, expr_wf, lemma_args_wf, lemma_view_args, view_args, Expr, SpecExpr};

verus! {

/// Equality of two trees: structural, with the value model's equality at the
/// leaves.
pub open spec fn spec_expr_eq(a: SpecExpr, b: SpecExpr) -> bool
    decreases a,
{
    match (a, b) {
        (SpecExpr::Value(x), SpecExpr::Value(y)) => crate::value::val_eq(x, y),
        (SpecExpr::Binary(o1, l1, r1), SpecExpr::Binary(o2, l2, r2)) => o1 == o2 && spec_expr_eq(
            *l1,
            *l2,
        ) && spec_expr_eq(*r1, *r2),
        (SpecExpr::Unary(o1, e1), SpecExpr::Unary(o2, e2)) => o1 == o2 && spec_expr_eq(*e1, *e2),
        (SpecExpr::Function(n1, a1), SpecExpr::Function(n2, a2)) => n1 == n2 && spec_args_eq(
            a1,
            a2,
        ),
        _ => false,
    }
}

/// Pairwise equality of two argument sequences.
pub open spec fn spec_args_eq(x: Seq<SpecExpr>, y: Seq<SpecExpr>) -> bool
    decreases x,
{
    x.len() == y.len() && (x.len() == 0 || (spec_expr_eq(x[0], y[0]) && spec_args_eq(
        x.drop_first(),
        y.drop_first(),
    )))
}

impl Expr {
    /// Compares two trees under the rules of [`spec_expr_eq`].
    pub fn expr_eq(&self, other: &Expr) -> (r: bool)
        requires
            expr_wf(*self),
            expr_wf(*other),
        ensures
            r == spec_expr_eq(self@, other@),
        decreases *self,
    {
        match (self, other) {
            (Expr::Value(x), Expr::Value(y)) => x.value_eq(y),
            (
                Expr::BinaryOp { op: o1, left: l1, right: r1 },
                Expr::BinaryOp { op: o2, left: l2, right: r2 },
            ) => {
                proof {
                    let ghost sv = *self;
                    assert(decreases_to!(sv => sv->BinaryOp_left));
                    assert(decreases_to!(sv => sv->BinaryOp_right));
                }
                *o1 == *o2 && l1.expr_eq(l2) && r1.expr_eq(r2)
            },
            (Expr::UnaryOp { op: o1, expr: e1 }, Expr::UnaryOp { op: o2, expr: e2 }) => {
                proof {
                    let ghost sv = *self;
                    assert(decreases_to!(sv => sv->UnaryOp_expr));
                }
                *o1 == *o2 && e1.expr_eq(e2)
            },
            (Expr::Function { name: n1, args: a1 }, Expr::Function { name: n2, args: a2 }) => {
                proof {
                    let ghost sv = *self;
                    assert(decreases_to!(sv => sv->Function_args));
                }
                n1.eq(n2) && args_eq_exec(a1, a2)
            },
            _ => false,
        }
    }
}

/// Stepping the argument comparison past an equal pair keeps its result.
proof fn lemma_args_eq_step(x: Seq<SpecExpr>, y: Seq<SpecExpr>, i: int)
    requires
        0 <= i < x.len(),
        i < y.len(),
        x.len() == y.len(),
        spec_expr_eq(x[i], y[i]),
    ensures
        spec_args_eq(x.skip(i), y.skip(i)) == spec_args_eq(x.skip(i + 1), y.skip(i + 1)),
{
    assert(x.skip(i)[0] == x[i]);
    assert(y.skip(i)[0] == y[i]);
    assert(x.skip(i).drop_first() =~= x.skip(i + 1));
    assert(y.skip(i).drop_first() =~= y.skip(i + 1));
}

/// Pairwise comparison of two argument vectors.
fn args_eq_exec(x: &Vec<Expr>, y: &Vec<Expr>) -> (r: bool)
    requires
        args_wf(x@),
        args_wf(y@),
    ensures
        r == spec_args_eq(view_args(x@), view_args(y@)),
    decreases *x,
{
    let ghost gx = view_args(x@);
    let ghost gy = view_args(y@);
    proof {
        lemma_view_args(x@);
        lemma_view_args(y@);
        assert(gx.skip(0) =~= gx);
        assert(gy.skip(0) =~= gy);
    }
    if x.len() != y.len() {
        return false;
    }
    let mut i: usize = 0;
    while i < x.len()
        invariant
            0 <= i <= x@.len() == y@.len(),
            args_wf(x@),
            args_wf(y@),
            gx == view_args(x@),
            gy == view_args(y@),
            gx.len() == x@.len(),
            gy.len() == y@.len(),
            spec_args_eq(gx, gy) == spec_args_eq(gx.skip(i as int), gy.skip(i as int)),
        decreases x@.len() - i,
    {
        proof {
            lemma_args_wf(x@);
            lemma_args_wf(y@);
            lemma_view_args(x@);
            lemma_view_args(y@);
            assert(decreases_to!(*x => x@));
            assert(decreases_to!(x@ => x@[i as int]));
            assert(gx.skip(i as int)[0] == gx[i as int]);
            assert(gy.skip(i as int)[0] == gy[i as int]);
        }
        if !x[i].expr_eq(&y[i]) {
            return false;
        }
        proof {
            lemma_args_eq_step(gx, gy, i as int);
        }
        i = i + 1;
    }
    proof {
        assert(gx.skip(x@.len() as int).len() == 0);
    }
    true
}


} // verus!
