//! The expression language: abstract syntax and the parser.
//!
//! The grammar, lowest precedence first: a single optional relational
//! operator (`==`, `!=`, `>=`, `>`, `<=`, `<`, and the infix `.`) over
//! additive expressions (`+`, `-`, left associative) over multiplicative
//! expressions (`*`, `/`, left associative) over unary forms: a function call
//! `name(arg, ...)` with at least one argument, a `$` access with trailing
//! `.field` and `[index]` segments, `!` applied to one atom, or an atom.
//! Atoms are array literals of atoms, single-quoted strings (no escapes),
//! unsigned decimal numbers, `true`/`false`, and identifiers (ASCII letters,
//! digits and underscores), which read as symbols.
//!
//! The parser is specified by a family of specification-level functions over
//! character sequences; each executable parsing function returns exactly what
//! its specification counterpart denotes, so parsing is deterministic by
//! construction.

use vstd::prelude::*;
use crate::error::Error;
use crate::num::{is_digit, Num};
use crate::value::{val_wf, view_val, SpecValue, Value};

verus! {

/// A binary operator of the expression language.
#[derive(Debug, Clone, Copy, PartialEq, Eq, Structural)]
pub enum BinOp {
    Eq,
    NotEq,
    Gt,
    Ge,
    Lt,
    Le,
    Dot,
    Index,
    Add,
    Sub,
    Mul,
    Div,
}

/// A unary operator of the expression language.
#[derive(Debug, Clone, Copy, PartialEq, Eq, Structural)]
pub enum UnaryOp {
    Dollar,
    Not,
}

/// One node of the abstract syntax tree.
#[derive(Debug)]
pub enum Expr {
    Value(Value),
    BinaryOp { op: BinOp, left: Box<Expr>, right: Box<Expr> },
    UnaryOp { op: UnaryOp, expr: Box<Expr> },
    Function { name: String, args: Vec<Expr> },
}

/// Mathematical mirror of [`Expr`].
pub enum SpecExpr {
    Value(SpecValue),
    Binary(BinOp, Box<SpecExpr>, Box<SpecExpr>),
    Unary(UnaryOp, Box<SpecExpr>),
    Function(Seq<char>, Seq<SpecExpr>),
}

/// The mirror of an expression.
pub open spec fn view_expr(e: Expr) -> SpecExpr
    decreases e,
{
    match e {
        Expr::Value(v) => SpecExpr::Value(view_val(v)),
        Expr::BinaryOp { op, left, right } => SpecExpr::Binary(
            op,
            Box::new(view_expr(*left)),
            Box::new(view_expr(*right)),
        ),
        Expr::UnaryOp { op, expr } => SpecExpr::Unary(op, Box::new(view_expr(*expr))),
        Expr::Function { name, args } => SpecExpr::Function(name@, view_args(args@)),
    }
}

/// The mirrors of a sequence of argument expressions.
pub open spec fn view_args(a: Seq<Expr>) -> Seq<SpecExpr>
    decreases a,
{
    if a.len() == 0 {
        Seq::empty()
    } else {
        seq![view_expr(a[0])] + view_args(a.drop_first())
    }
}

/// Pointwise description of [`view_args`].
pub proof fn lemma_view_args(a: Seq<Expr>)
    ensures
        view_args(a).len() == a.len(),
        forall|i: int| 0 <= i < a.len() ==> view_args(a)[i] == view_expr(#[trigger] a[i]),
    decreases a,
{
    if a.len() > 0 {
        lemma_view_args(a.drop_first());
        assert forall|i: int| 0 <= i < a.len() implies view_args(a)[i] == view_expr(a[i]) by {
            if i > 0 {
                assert(a.drop_first()[i - 1] == a[i]);
            }
        }
    }
}

impl View for Expr {
    type V = SpecExpr;

    open spec fn view(&self) -> SpecExpr {
        view_expr(*self)
    }
}

/// The representation invariant of an expression: every embedded value is
/// well formed.
pub open spec fn expr_wf(e: Expr) -> bool
    decreases e,
{
    match e {
        Expr::Value(v) => val_wf(v),
        Expr::BinaryOp { op, left, right } => expr_wf(*left) && expr_wf(*right),
        Expr::UnaryOp { op, expr } => expr_wf(*expr),
        Expr::Function { name, args } => args_wf(args@),
    }
}

/// Every argument expression is well formed.
pub open spec fn args_wf(a: Seq<Expr>) -> bool
    decreases a,
{
    a.len() == 0 || (expr_wf(a[0]) && args_wf(a.drop_first()))
}

/// Pointwise description of [`args_wf`].
pub proof fn lemma_args_wf(a: Seq<Expr>)
    ensures
        args_wf(a) <==> (forall|i: int| 0 <= i < a.len() ==> expr_wf(#[trigger] a[i])),
    decreases a,
{
    if a.len() > 0 {
        lemma_args_wf(a.drop_first());
        assert forall|i: int| args_wf(a) && 0 <= i < a.len() implies expr_wf(#[trigger] a[i]) by {
            if i > 0 {
                assert(a.drop_first()[i - 1] == a[i]);
            }
        }
        if forall|i: int| 0 <= i < a.len() ==> expr_wf(#[trigger] a[i]) {
            assert forall|i: int|
                0 <= i < a.drop_first().len() implies expr_wf(#[trigger] a.drop_first()[i]) by {
                assert(a.drop_first()[i] == a[i + 1]);
            }
        }
    }
}

/// Whether `c` is blank space the grammar skips between tokens.
pub open spec fn is_ws(c: char) -> bool {
    c == ' ' || c == '\t' || c == '\r' || c == '\n'
}

/// Whether `c` may appear in an identifier: ASCII letters, digits, underscore.
pub open spec fn is_ident_char(c: char) -> bool {
    is_digit(c) || (97 <= (c as u32) <= 122) || (65 <= (c as u32) <= 90) || c == '_'
}

/// The number of blank characters at position `i`.
pub open spec fn ws_count(s: Seq<char>, i: int) -> nat
    decreases s.len() - i,
{
    if i < 0 || i >= s.len() || !is_ws(s[i]) {
        0
    } else {
        1 + ws_count(s, i + 1)
    }
}

/// The number of digits at position `i`.
pub open spec fn digit_count(s: Seq<char>, i: int) -> nat
    decreases s.len() - i,
{
    if i < 0 || i >= s.len() || !is_digit(s[i]) {
        0
    } else {
        1 + digit_count(s, i + 1)
    }
}

/// The number of identifier characters at position `i`.
pub open spec fn ident_count(s: Seq<char>, i: int) -> nat
    decreases s.len() - i,
{
    if i < 0 || i >= s.len() || !is_ident_char(s[i]) {
        0
    } else {
        1 + ident_count(s, i + 1)
    }
}

/// The number of characters at position `i` before the next single quote.
pub open spec fn nonquote_count(s: Seq<char>, i: int) -> nat
    decreases s.len() - i,
{
    if i < 0 || i >= s.len() || s[i] == '\'' {
        0
    } else {
        1 + nonquote_count(s, i + 1)
    }
}

/// Whether the literal word `w` stands at position `i`.
pub open spec fn tag_at(s: Seq<char>, i: int, w: Seq<char>) -> bool {
    0 <= i && i + w.len() <= s.len() && s.subrange(i, i + w.len() as int) == w
}

/// Strips the values out of a sequence of literal expressions; `None` if any
/// member is not a literal value.
pub open spec fn exprs_to_values(es: Seq<SpecExpr>) -> Option<Seq<SpecValue>>
    decreases es,
{
    if es.len() == 0 {
        Some(Seq::empty())
    } else {
        match (es[0], exprs_to_values(es.drop_first())) {
            (SpecExpr::Value(v), Option::Some(rest)) => Some(seq![v] + rest),
            _ => None,
        }
    }
}

/// The characters left at position `i`, clamped to zero outside the input.
pub open spec fn rem(s: Seq<char>, i: int) -> nat {
    if 0 <= i <= s.len() {
        (s.len() - i) as nat
    } else {
        0
    }
}

/// A string atom: a single quote, at least one character that is not a
/// quote, and a closing quote.
pub open spec fn sp_string(s: Seq<char>, i: int) -> Option<(SpecExpr, int)> {
    if 0 <= i < s.len() && s[i] == '\'' {
        let j = i + 1 + ws_to_int(nonquote_count(s, i + 1));
        if j > i + 1 && j < s.len() {
            Some((SpecExpr::Value(SpecValue::String(s.subrange(i + 1, j))), j + 1))
        } else {
            None
        }
    } else {
        None
    }
}

/// Widens a count to a position offset.
pub open spec fn ws_to_int(n: nat) -> int {
    n as int
}

/// A number atom: a run of digits with an optional dot and fraction run,
/// read as an exact decimal.  A literal whose value does not fit the
/// representation is rejected.
pub open spec fn sp_number(s: Seq<char>, i: int) -> Option<(SpecExpr, int)> {
    if 0 <= i {
        let j = i + ws_to_int(digit_count(s, i));
        if j == i {
            None
        } else {
            let k = if j < s.len() && s[j] == '.' && is_digit_at(s, j + 1) {
                j + 1 + ws_to_int(digit_count(s, j + 1))
            } else {
                j
            };
            let ip = s.subrange(i, j);
            let fp = if k == j {
                Seq::<char>::empty()
            } else {
                s.subrange(j + 1, k)
            };
            match crate::num::spec_digits_to_num(ip, fp) {
                Option::Some(n) => Some((SpecExpr::Value(SpecValue::Number(n)), k)),
                Option::None => None,
            }
        }
    } else {
        None
    }
}

/// Whether a digit stands at position `i`.
pub open spec fn is_digit_at(s: Seq<char>, i: int) -> bool {
    0 <= i < s.len() && is_digit(s[i])
}

/// A boolean atom: the word `true` or `false`.
pub open spec fn sp_boolean(s: Seq<char>, i: int) -> Option<(SpecExpr, int)> {
    if tag_at(s, i, "true"@) {
        Some((SpecExpr::Value(SpecValue::Boolean(true)), i + 4))
    } else if tag_at(s, i, "false"@) {
        Some((SpecExpr::Value(SpecValue::Boolean(false)), i + 5))
    } else {
        None
    }
}

/// A symbol atom: a nonempty run of identifier characters.
pub open spec fn sp_symbol(s: Seq<char>, i: int) -> Option<(SpecExpr, int)> {
    if 0 <= i {
        let j = i + ws_to_int(ident_count(s, i));
        if j == i {
            None
        } else {
            Some((SpecExpr::Value(SpecValue::Symbol(s.subrange(i, j))), j))
        }
    } else {
        None
    }
}

/// An atom: an array, a string, a number, a boolean, or a symbol, tried in
/// that order.
pub open spec fn sp_value(s: Seq<char>, i: int) -> Option<(SpecExpr, int)>
    decreases rem(s, i), 3int,
{
    if i < 0 || i >= s.len() {
        None
    } else {
        match sp_array(s, i) {
            Option::Some(r) => Some(r),
            Option::None => match sp_string(s, i) {
                Option::Some(r) => Some(r),
                Option::None => if is_digit(s[i]) {
                    // a token led by a digit can only be a number; a literal
                    // whose value does not fit the representation is rejected
                    // rather than read as something else
                    sp_number(s, i)
                } else {
                    match sp_boolean(s, i) {
                        Option::Some(r) => Some(r),
                        Option::None => sp_symbol(s, i),
                    }
                },
            },
        }
    }
}

/// An array literal: a bracket, blank space, an optional comma-separated
/// list of expressions, blank space, and a closing bracket.  Every element
/// must be a literal value.
pub open spec fn sp_array(s: Seq<char>, i: int) -> Option<(SpecExpr, int)>
    decreases rem(s, i), 2int,
{
    if 0 <= i < s.len() && s[i] == '[' {
        let j1 = i + 1 + ws_to_int(ws_count(s, i + 1));
        let parsed = match sp_binary(s, j1) {
            Option::Some((e0, k0)) => if k0 <= j1 {
                Option::None
            } else {
                sp_array_rest(s, k0, seq![e0])
            },
            Option::None => Some((Seq::<SpecExpr>::empty(), j1)),
        };
        match parsed {
            Option::None => None,
            Option::Some((es, k)) => {
                let j2 = k + ws_to_int(ws_count(s, k));
                if j2 < s.len() && s[j2] == ']' {
                    match exprs_to_values(es) {
                        Option::Some(vs) => Some(
                            (SpecExpr::Value(SpecValue::Array(vs)), j2 + 1),
                        ),
                        Option::None => None,
                    }
                } else {
                    None
                }
            },
        }
    } else {
        None
    }
}

/// Further comma-separated array elements.
pub open spec fn sp_array_rest(s: Seq<char>, i: int, acc: Seq<SpecExpr>) -> Option<
    (Seq<SpecExpr>, int),
>
    decreases rem(s, i), 0int,
{
    if i < 0 {
        None
    } else {
        let j = i + ws_to_int(ws_count(s, i));
        if j < s.len() && s[j] == ',' {
            let j2 = j + 1 + ws_to_int(ws_count(s, j + 1));
            match sp_binary(s, j2) {
                Option::Some((e, k)) => if k <= i {
                    None
                } else {
                    sp_array_rest(s, k, acc.push(e))
                },
                Option::None => Some((acc, i)),
            }
        } else {
            Some((acc, i))
        }
    }
}

/// A function call: an identifier, blank space, a parenthesis, one or more
/// comma-separated arguments, and a closing parenthesis.
pub open spec fn sp_function(s: Seq<char>, i: int) -> Option<(SpecExpr, int)>
    decreases rem(s, i), 4int,
{
    if i < 0 || i >= s.len() {
        None
    } else {
        let j = i + ws_to_int(ident_count(s, i));
        if j == i {
            None
        } else {
            let j1 = j + ws_to_int(ws_count(s, j));
            if j1 < s.len() && s[j1] == '(' {
                let j2 = j1 + 1 + ws_to_int(ws_count(s, j1 + 1));
                match sp_binary(s, j2) {
                    Option::None => None,
                    Option::Some((a0, k0)) => if k0 <= i {
                        None
                    } else {
                        match sp_fn_rest(s, k0, seq![a0]) {
                            Option::None => None,
                            Option::Some((args, k)) => {
                                let j3 = k + ws_to_int(ws_count(s, k));
                                if j3 < s.len() && s[j3] == ')' {
                                    Some(
                                        (SpecExpr::Function(s.subrange(i, j), args), j3 + 1),
                                    )
                                } else {
                                    None
                                }
                            },
                        }
                    },
                }
            } else {
                None
            }
        }
    }
}

/// Further comma-separated arguments.
pub open spec fn sp_fn_rest(s: Seq<char>, i: int, acc: Seq<SpecExpr>) -> Option<
    (Seq<SpecExpr>, int),
>
    decreases rem(s, i), 0int,
{
    if i < 0 {
        None
    } else {
        let j = i + ws_to_int(ws_count(s, i));
        if j < s.len() && s[j] == ',' {
            let j2 = j + 1 + ws_to_int(ws_count(s, j + 1));
            match sp_binary(s, j2) {
                Option::Some((e, k)) => if k <= i {
                    None
                } else {
                    sp_fn_rest(s, k, acc.push(e))
                },
                Option::None => Some((acc, i)),
            }
        } else {
            Some((acc, i))
        }
    }
}

/// Trailing `.field` and `[index]` access segments after a `$` access,
/// folded left onto `acc`.
pub open spec fn sp_chain(s: Seq<char>, i: int, acc: SpecExpr) -> Option<(SpecExpr, int)>
    decreases rem(s, i), 0int,
{
    if i < 0 {
        None
    } else {
        let j = i + ws_to_int(ws_count(s, i));
        if j < s.len() && s[j] == '.' && sp_value(s, j + 1) is Some {
            let (f, k) = sp_value(s, j + 1)->Some_0;
            if k <= i {
                None
            } else {
                sp_chain(s, k, SpecExpr::Binary(BinOp::Dot, Box::new(acc), Box::new(f)))
            }
        } else if j < s.len() && s[j] == '[' {
            match sp_binary(s, j + 1) {
                Option::Some((e, k)) => {
                    let j2 = k + ws_to_int(ws_count(s, k));
                    if j2 < s.len() && s[j2] == ']' && j2 + 1 > i {
                        sp_chain(
                            s,
                            j2 + 1,
                            SpecExpr::Binary(BinOp::Index, Box::new(acc), Box::new(e)),
                        )
                    } else if j2 < s.len() && s[j2] == ']' {
                        None
                    } else {
                        Some((acc, i))
                    }
                },
                Option::None => Some((acc, i)),
            }
        } else {
            Some((acc, i))
        }
    }
}

/// A unary form: a function call, a `$` access with its trailing segments,
/// `!` applied to one atom, or a bare atom, tried in that order.
pub open spec fn sp_unary(s: Seq<char>, i: int) -> Option<(SpecExpr, int)>
    decreases rem(s, i), 5int,
{
    if i < 0 || i >= s.len() {
        None
    } else {
        match sp_function(s, i) {
            Option::Some(r) => Some(r),
            Option::None => {
                if s[i] == '$' {
                    match sp_value(s, i + 1) {
                        Option::Some((v, k)) => if k <= i + 1 {
                            None
                        } else {
                            sp_chain(s, k, SpecExpr::Unary(UnaryOp::Dollar, Box::new(v)))
                        },
                        Option::None => None,
                    }
                } else if s[i] == '!' {
                    match sp_value(s, i + 1) {
                        Option::Some((v, k)) => Some(
                            (SpecExpr::Unary(UnaryOp::Not, Box::new(v)), k),
                        ),
                        Option::None => None,
                    }
                } else {
                    sp_value(s, i)
                }
            },
        }
    }
}

/// A factor: a parenthesized expression or a unary form.
pub open spec fn sp_factor(s: Seq<char>, i: int) -> Option<(SpecExpr, int)>
    decreases rem(s, i), 6int,
{
    if i < 0 || i >= s.len() {
        None
    } else if s[i] == '(' {
        let j = i + 1 + ws_to_int(ws_count(s, i + 1));
        match sp_binary(s, j) {
            Option::Some((e, k)) => {
                let j2 = k + ws_to_int(ws_count(s, k));
                if j2 < s.len() && s[j2] == ')' {
                    Some((e, j2 + 1))
                } else {
                    sp_unary(s, i)
                }
            },
            Option::None => sp_unary(s, i),
        }
    } else {
        sp_unary(s, i)
    }
}

/// A term: factors joined by `*` and `/`, left associative.
pub open spec fn sp_term(s: Seq<char>, i: int) -> Option<(SpecExpr, int)>
    decreases rem(s, i), 7int,
{
    if i < 0 || i >= s.len() {
        None
    } else {
        match sp_factor(s, i) {
            Option::None => None,
            Option::Some((f, k)) => if k <= i {
                None
            } else {
                sp_term_rest(s, k, f)
            },
        }
    }
}

/// Further `*` and `/` factors, folded left onto `acc`.
pub open spec fn sp_term_rest(s: Seq<char>, i: int, acc: SpecExpr) -> Option<(SpecExpr, int)>
    decreases rem(s, i), 0int,
{
    if i < 0 {
        None
    } else {
        let j = i + ws_to_int(ws_count(s, i));
        if j < s.len() && (s[j] == '*' || s[j] == '/') {
            let op = if s[j] == '*' {
                BinOp::Mul
            } else {
                BinOp::Div
            };
            let j2 = j + 1 + ws_to_int(ws_count(s, j + 1));
            match sp_factor(s, j2) {
                Option::Some((f, k)) => if k <= i {
                    None
                } else {
                    sp_term_rest(s, k, SpecExpr::Binary(op, Box::new(acc), Box::new(f)))
                },
                Option::None => Some((acc, i)),
            }
        } else {
            Some((acc, i))
        }
    }
}

/// An additive expression: terms joined by `+` and `-`, left associative.
pub open spec fn sp_arith(s: Seq<char>, i: int) -> Option<(SpecExpr, int)>
    decreases rem(s, i), 8int,
{
    if i < 0 || i >= s.len() {
        None
    } else {
        match sp_term(s, i) {
            Option::None => None,
            Option::Some((t, k)) => if k <= i {
                None
            } else {
                sp_arith_rest(s, k, t)
            },
        }
    }
}

/// Further `+` and `-` terms, folded left onto `acc`.
pub open spec fn sp_arith_rest(s: Seq<char>, i: int, acc: SpecExpr) -> Option<(SpecExpr, int)>
    decreases rem(s, i), 0int,
{
    if i < 0 {
        None
    } else {
        let j = i + ws_to_int(ws_count(s, i));
        if j < s.len() && (s[j] == '+' || s[j] == '-') {
            let op = if s[j] == '+' {
                BinOp::Add
            } else {
                BinOp::Sub
            };
            let j2 = j + 1 + ws_to_int(ws_count(s, j + 1));
            match sp_term(s, j2) {
                Option::Some((t, k)) => if k <= i {
                    None
                } else {
                    sp_arith_rest(s, k, SpecExpr::Binary(op, Box::new(acc), Box::new(t)))
                },
                Option::None => Some((acc, i)),
            }
        } else {
            Some((acc, i))
        }
    }
}

/// The relational operator at position `i`, with the number of characters it
/// occupies.
pub open spec fn sp_rel_op(s: Seq<char>, i: int) -> Option<(BinOp, int)> {
    if tag_at(s, i, "=="@) {
        Some((BinOp::Eq, 2))
    } else if tag_at(s, i, "!="@) {
        Some((BinOp::NotEq, 2))
    } else if tag_at(s, i, ">="@) {
        Some((BinOp::Ge, 2))
    } else if tag_at(s, i, ">"@) {
        Some((BinOp::Gt, 1))
    } else if tag_at(s, i, "<="@) {
        Some((BinOp::Le, 2))
    } else if tag_at(s, i, "<"@) {
        Some((BinOp::Lt, 1))
    } else if tag_at(s, i, "."@) {
        Some((BinOp::Dot, 1))
    } else {
        None
    }
}

/// A full expression: an additive expression, optionally joined to a second
/// one by a single relational operator.
pub open spec fn sp_binary(s: Seq<char>, i: int) -> Option<(SpecExpr, int)>
    decreases rem(s, i), 9int,
{
    if i < 0 || i >= s.len() {
        None
    } else {
        match sp_arith(s, i) {
            Option::None => None,
            Option::Some((l, k)) => if k <= i {
                None
            } else {
                let j = k + ws_to_int(ws_count(s, k));
                match sp_rel_op(s, j) {
                    Option::None => Some((l, k)),
                    Option::Some((op, oplen)) => {
                        let j2 = j + oplen + ws_to_int(ws_count(s, j + oplen));
                        match sp_arith(s, j2) {
                            Option::None => None,
                            Option::Some((r, k2)) => Some(
                                (SpecExpr::Binary(op, Box::new(l), Box::new(r)), k2),
                            ),
                        }
                    },
                }
            },
        }
    }
}

/// The result of parsing: the expression the trimmed input denotes, a note
/// that the grammar matched nothing, or the leftover text after the longest
/// match.
pub open spec fn spec_parse(s: Seq<char>) -> Result<SpecExpr, crate::error::SpecError> {
    let lo = ws_to_int(ws_count(s, 0));
    let hi = s.len() - ws_count_back(s, s.len() as int);
    let t = if lo <= hi {
        s.subrange(lo, hi)
    } else {
        Seq::<char>::empty()
    };
    match sp_binary(t, 0) {
        Option::None => Err(
            crate::error::SpecError::ParseError("expression does not match the grammar"@),
        ),
        Option::Some((e, k)) => if k == t.len() {
            Ok(e)
        } else {
            Err(crate::error::SpecError::TrailingInput(t.subrange(k, t.len() as int)))
        },
    }
}

/// The number of blank characters just before position `i`.
pub open spec fn ws_count_back(s: Seq<char>, i: int) -> nat
    decreases i,
{
    if i <= 0 || i > s.len() || !is_ws(s[i - 1]) {
        0
    } else {
        1 + ws_count_back(s, i - 1)
    }
}

/// Skips blank space from `i`.
fn p_ws(s: &str, i: usize) -> (r: usize)
    requires
        i <= s@.len(),
    ensures
        r as int == i + ws_count(s@, i as int),
        i <= r <= s@.len(),
{
    let len = s.unicode_len();
    let mut r = i;
    while r < len && is_ws_exec(s.get_char(r))
        invariant
            i <= r <= len,
            len == s@.len(),
            i + ws_count(s@, i as int) == r + ws_count(s@, r as int),
        decreases len - r,
    {
        r = r + 1;
    }
    r
}

/// Whether `c` is blank space.
fn is_ws_exec(c: char) -> (r: bool)
    ensures
        r == is_ws(c),
{
    c == ' ' || c == '\t' || c == '\r' || c == '\n'
}

/// Skips decimal digits from `i`.
fn p_digits(s: &str, i: usize) -> (r: usize)
    requires
        i <= s@.len(),
    ensures
        r as int == i + digit_count(s@, i as int),
        i <= r <= s@.len(),
        forall|k: int| i <= k < r ==> is_digit(#[trigger] s@[k]),
{
    let len = s.unicode_len();
    let mut r = i;
    while r < len && is_digit_exec2(s.get_char(r))
        invariant
            i <= r <= len,
            len == s@.len(),
            i + digit_count(s@, i as int) == r + digit_count(s@, r as int),
            forall|k: int| i <= k < r ==> is_digit(#[trigger] s@[k]),
        decreases len - r,
    {
        r = r + 1;
    }
    r
}

/// Whether `c` is a decimal digit.
fn is_digit_exec2(c: char) -> (r: bool)
    ensures
        r == is_digit(c),
{
    let u = c as u32;
    48 <= u && u <= 57
}

/// Skips identifier characters from `i`.
fn p_ident(s: &str, i: usize) -> (r: usize)
    requires
        i <= s@.len(),
    ensures
        r as int == i + ident_count(s@, i as int),
        i <= r <= s@.len(),
{
    let len = s.unicode_len();
    let mut r = i;
    while r < len && is_ident_exec(s.get_char(r))
        invariant
            i <= r <= len,
            len == s@.len(),
            i + ident_count(s@, i as int) == r + ident_count(s@, r as int),
        decreases len - r,
    {
        r = r + 1;
    }
    r
}

/// Whether `c` may appear in an identifier.
fn is_ident_exec(c: char) -> (r: bool)
    ensures
        r == is_ident_char(c),
{
    let u = c as u32;
    (48 <= u && u <= 57) || (97 <= u && u <= 122) || (65 <= u && u <= 90) || c == '_'
}

/// Skips characters that are not a single quote from `i`.
fn p_nonquote(s: &str, i: usize) -> (r: usize)
    requires
        i <= s@.len(),
    ensures
        r as int == i + nonquote_count(s@, i as int),
        i <= r <= s@.len(),
{
    let len = s.unicode_len();
    let mut r = i;
    while r < len && s.get_char(r) != '\''
        invariant
            i <= r <= len,
            len == s@.len(),
            i + nonquote_count(s@, i as int) == r + nonquote_count(s@, r as int),
        decreases len - r,
    {
        r = r + 1;
    }
    r
}

/// Whether the literal word `w` stands at position `i` of `s`.
pub(crate) fn p_tag(s: &str, i: usize, w: &str) -> (r: bool)
    requires
        i <= s@.len(),
    ensures
        r == tag_at(s@, i as int, w@),
{
    let wlen = w.unicode_len();
    let slen = s.unicode_len();
    if wlen > slen - i {
        return false;
    }
    let mut j: usize = 0;
    while j < wlen
        invariant
            0 <= j <= wlen,
            wlen == w@.len(),
            slen == s@.len(),
            i + wlen <= slen,
            forall|k: int| 0 <= k < j ==> s@[i + k] == w@[k],
        decreases wlen - j,
    {
        if s.get_char(i + j) != w.get_char(j) {
            proof {
                assert(s@.subrange(i as int, i + w@.len()) != w@) by {
                    assert(s@.subrange(i as int, i + w@.len())[j as int] == s@[i + j]);
                }
            }
            return false;
        }
        j = j + 1;
    }
    proof {
        assert(s@.subrange(i as int, i + w@.len()) =~= w@);
    }
    true
}

/// Parses a string atom at `i`.
fn p_string(s: &str, i: usize) -> (r: Option<(Expr, usize)>)
    requires
        i <= s@.len(),
    ensures
        match r {
            Option::Some((e, j)) => expr_wf(e) && i <= j <= s@.len() && sp_string(s@, i as int)
                == Some((e@, j as int)),
            Option::None => sp_string(s@, i as int) is None,
        },
{
    let len = s.unicode_len();
    if i >= len || s.get_char(i) != '\'' {
        return None;
    }
    let j = p_nonquote(s, i + 1);
    if j > i + 1 && j < len {
        let content = s.substring_char(i + 1, j);
        let e = Expr::Value(Value::String(String::from_str(content)));
        Some((e, j + 1))
    } else {
        None
    }
}

/// Parses a number atom at `i`.
fn p_number(s: &str, i: usize) -> (r: Option<(Expr, usize)>)
    requires
        i <= s@.len(),
    ensures
        match r {
            Option::Some((e, j)) => expr_wf(e) && i <= j <= s@.len() && sp_number(s@, i as int)
                == Some((e@, j as int)),
            Option::None => sp_number(s@, i as int) is None,
        },
{
    let len = s.unicode_len();
    let j = p_digits(s, i);
    if j == i {
        return None;
    }
    let has_frac = j < len && s.get_char(j) == '.' && j + 1 < len && is_digit_exec2(
        s.get_char(j + 1),
    );
    let k = if has_frac {
        p_digits(s, j + 1)
    } else {
        j
    };
    let ghost ip = s@.subrange(i as int, j as int);
    let ghost fp = if !has_frac {
        Seq::<char>::empty()
    } else {
        s@.subrange(j + 1, k as int)
    };
    proof {
        if has_frac {
            assert(k > j + 1);
        }
    }
    let a1 = match crate::num::digits_value(s, i, j, 0, Ghost(Seq::empty())) {
        Option::Some(a) => a,
        Option::None => {
            proof {
                assert(Seq::<char>::empty() + ip =~= ip);
                crate::num::lemma_digits_append(ip, fp);
            }
            return None;
        },
    };
    proof {
        assert(Seq::<char>::empty() + ip =~= ip);
    }
    let acc = if has_frac {
        match crate::num::digits_value(s, j + 1, k, a1, Ghost(ip)) {
            Option::Some(a) => a,
            Option::None => {
                return None;
            },
        }
    } else {
        proof {
            assert(ip + fp =~= ip);
        }
        a1
    };
    let scale = k - if has_frac {
        j + 1
    } else {
        k
    };
    if scale > 18 {
        return None;
    }
    let n = Num::from_mag_scale(acc, scale as u32);
    proof {
        assert(ip + fp =~= if has_frac {
            ip + s@.subrange(j + 1, k as int)
        } else {
            ip
        });
    }
    Some((Expr::Value(Value::Number(n)), k))
}

/// Parses a boolean atom at `i`.
fn p_boolean(s: &str, i: usize) -> (r: Option<(Expr, usize)>)
    requires
        i <= s@.len(),
    ensures
        match r {
            Option::Some((e, j)) => expr_wf(e) && i <= j <= s@.len() && sp_boolean(s@, i as int)
                == Some((e@, j as int)),
            Option::None => sp_boolean(s@, i as int) is None,
        },
{
    let slen = s.unicode_len();
    if p_tag(s, i, "true") {
        proof {
            reveal_strlit("true");
            assert(i + 4 <= slen);
        }
        Some((Expr::Value(Value::Boolean(true)), i + 4))
    } else if p_tag(s, i, "false") {
        proof {
            reveal_strlit("false");
            assert(i + 5 <= slen);
        }
        Some((Expr::Value(Value::Boolean(false)), i + 5))
    } else {
        None
    }
}

/// Parses a symbol atom at `i`.
fn p_symbol(s: &str, i: usize) -> (r: Option<(Expr, usize)>)
    requires
        i <= s@.len(),
    ensures
        match r {
            Option::Some((e, j)) => expr_wf(e) && i <= j <= s@.len() && sp_symbol(s@, i as int)
                == Some((e@, j as int)),
            Option::None => sp_symbol(s@, i as int) is None,
        },
{
    let j = p_ident(s, i);
    if j == i {
        None
    } else {
        let name = s.substring_char(i, j);
        Some((Expr::Value(Value::Symbol(String::from_str(name))), j))
    }
}

/// Appending an argument appends its mirror.
proof fn lemma_view_args_push(a: Seq<Expr>, x: Expr)
    ensures
        view_args(a.push(x)) == view_args(a).push(view_expr(x)),
{
    lemma_view_args(a);
    lemma_view_args(a.push(x));
    assert forall|i: int|
        0 <= i < a.push(x).len() implies view_args(a.push(x))[i] == view_args(a).push(
        view_expr(x),
    )[i] by {
        if i < a.len() {
            assert(a.push(x)[i] == a[i]);
        } else {
            assert(a.push(x)[i] == x);
        }
    }
    assert(view_args(a.push(x)) =~= view_args(a).push(view_expr(x)));
}

/// Appending a well-formed argument keeps the sequence well formed.
proof fn lemma_args_wf_push(a: Seq<Expr>, x: Expr)
    requires
        args_wf(a),
        expr_wf(x),
    ensures
        args_wf(a.push(x)),
{
    lemma_args_wf(a);
    lemma_args_wf(a.push(x));
    assert forall|i: int| 0 <= i < a.push(x).len() implies expr_wf(#[trigger] a.push(x)[i]) by {
        if i < a.len() {
            assert(a.push(x)[i] == a[i]);
        } else {
            assert(a.push(x)[i] == x);
        }
    }
}

/// Strips the values out of a vector of literal expressions; `None` if any
/// member is not a literal value.
fn values_of_exprs(es: Vec<Expr>) -> (r: Option<Vec<Value>>)
    requires
        args_wf(es@),
    ensures
        match r {
            Option::Some(vs) => exprs_to_values(view_args(es@)) == Some(
                crate::value::view_elems(vs@),
            ) && crate::value::elems_wf(vs@),
            Option::None => exprs_to_values(view_args(es@)) is None,
        },
    decreases es@.len(),
{
    let mut es = es;
    if es.len() == 0 {
        let vs: Vec<Value> = Vec::new();
        proof {
            assert(view_args(es@) =~= Seq::<SpecExpr>::empty());
            assert(crate::value::view_elems(vs@) =~= Seq::<SpecValue>::empty());
        }
        Some(vs)
    } else {
        let ghost orig = es@;
        let e0 = es.remove(0);
        proof {
            assert(es@ =~= orig.drop_first());
            lemma_view_args(orig);
            assert(view_args(orig)[0] == view_expr(orig[0]));
            assert(view_args(orig).drop_first() =~= view_args(orig.drop_first())) by {
                lemma_view_args(orig.drop_first());
                assert forall|i: int|
                    0 <= i < view_args(orig).drop_first().len() implies view_args(
                    orig,
                ).drop_first()[i] == view_args(orig.drop_first())[i] by {
                    assert(view_args(orig)[i + 1] == view_expr(orig[i + 1]));
                    assert(orig.drop_first()[i] == orig[i + 1]);
                }
            }
        }
        match e0 {
            Expr::Value(v) => {
                match values_of_exprs(es) {
                    Option::Some(vs) => {
                        let mut vs = vs;
                        let ghost tail = vs@;
                        vs.insert(0, v);
                        proof {
                            assert(vs@ =~= seq![v].add(tail));
                            crate::value::lemma_view_elems(tail);
                            crate::value::lemma_view_elems(vs@);
                            assert(crate::value::view_elems(vs@) =~= seq![view_val(v)]
                                + crate::value::view_elems(tail)) by {
                                assert forall|i: int|
                                    0 <= i < vs@.len() implies crate::value::view_elems(vs@)[i]
                                    == (seq![view_val(v)] + crate::value::view_elems(tail))[i] by {
                                    if i > 0 {
                                        assert(vs@[i] == tail[i - 1]);
                                    }
                                }
                            }
                            crate::value::lemma_elems_wf(tail);
                            crate::value::lemma_elems_wf(vs@);
                            lemma_args_wf(orig);
                            assert forall|i: int|
                                0 <= i < vs@.len() implies val_wf(#[trigger] vs@[i]) by {
                                if i > 0 {
                                    assert(vs@[i] == tail[i - 1]);
                                }
                            }
                        }
                        Some(vs)
                    },
                    Option::None => None,
                }
            },
            _ => None,
        }
    }
}

/// Parses an atom at `i`.
fn p_value(s: &str, i: usize) -> (r: Option<(Expr, usize)>)
    requires
        i <= s@.len(),
    ensures
        match r {
            Option::Some((e, j)) => expr_wf(e) && i <= j <= s@.len() && sp_value(s@, i as int)
                == Some((e@, j as int)),
            Option::None => sp_value(s@, i as int) is None,
        },
    decreases rem(s@, i as int), 3int,
{
    let len = s.unicode_len();
    if i >= len {
        return None;
    }
    match p_array(s, i) {
        Option::Some(r) => Some(r),
        Option::None => match p_string(s, i) {
            Option::Some(r) => Some(r),
            Option::None => {
                if is_digit_exec2(s.get_char(i)) {
                    p_number(s, i)
                } else {
                    match p_boolean(s, i) {
                        Option::Some(r) => Some(r),
                        Option::None => p_symbol(s, i),
                    }
                }
            },
        },
    }
}

/// Parses an array literal at `i`.
#[verifier::rlimit(100)]
fn p_array(s: &str, i: usize) -> (r: Option<(Expr, usize)>)
    requires
        i <= s@.len(),
    ensures
        match r {
            Option::Some((e, j)) => expr_wf(e) && i <= j <= s@.len() && sp_array(s@, i as int)
                == Some((e@, j as int)),
            Option::None => sp_array(s@, i as int) is None,
        },
    decreases rem(s@, i as int), 2int,
{
    let len = s.unicode_len();
    if i >= len || s.get_char(i) != '[' {
        return None;
    }
    let j1 = p_ws(s, i + 1);
    let parsed: Option<(Vec<Expr>, usize)> = match p_binary(s, j1) {
        Option::Some((e0, k0)) => {
            if k0 <= j1 {
                None
            } else {
                let mut acc: Vec<Expr> = Vec::new();
                proof {
                    assert(view_args(acc@) =~= Seq::<SpecExpr>::empty());
                }
                let ghost ge0: Expr = e0;
                acc.push(e0);
                proof {
                    assert(acc@.drop_first() =~= Seq::<Expr>::empty());
                    assert(args_wf(Seq::<Expr>::empty()));
                    assert(args_wf(acc@));
                    assert(view_args(acc@) =~= seq![view_expr(ge0)]);
                }
                p_array_rest(s, k0, acc)
            }
        },
        Option::None => {
            let acc: Vec<Expr> = Vec::new();
            proof {
                assert(view_args(acc@) =~= Seq::<SpecExpr>::empty());
            }
            Some((acc, j1))
        },
    };
    match parsed {
        Option::None => None,
        Option::Some((es, k)) => {
            let j2 = p_ws(s, k);
            if j2 < len && s.get_char(j2) == ']' {
                match values_of_exprs(es) {
                    Option::Some(vs) => Some((Expr::Value(Value::Array(vs)), j2 + 1)),
                    Option::None => None,
                }
            } else {
                None
            }
        },
    }
}

/// Parses further comma-separated array elements.
fn p_array_rest(s: &str, i: usize, acc: Vec<Expr>) -> (r: Option<(Vec<Expr>, usize)>)
    requires
        i <= s@.len(),
        args_wf(acc@),
    ensures
        match r {
            Option::Some((es, k)) => args_wf(es@) && i <= k <= s@.len() && sp_array_rest(
                s@,
                i as int,
                view_args(acc@),
            ) == Some((view_args(es@), k as int)),
            Option::None => sp_array_rest(s@, i as int, view_args(acc@)) is None,
        },
    decreases rem(s@, i as int), 0int,
{
    let len = s.unicode_len();
    let j = p_ws(s, i);
    if j < len && s.get_char(j) == ',' {
        let j2 = p_ws(s, j + 1);
        match p_binary(s, j2) {
            Option::Some((e, k)) => {
                if k <= i {
                    None
                } else {
                    let mut acc = acc;
                    let ghost old_acc = acc@;
                    let ghost ge: Expr = e;
                    acc.push(e);
                    proof {
                        lemma_view_args_push(old_acc, ge);
                        lemma_args_wf_push(old_acc, ge);
                    }
                    p_array_rest(s, k, acc)
                }
            },
            Option::None => Some((acc, i)),
        }
    } else {
        Some((acc, i))
    }
}

/// Parses a function call at `i`.
#[verifier::rlimit(100)]
fn p_function(s: &str, i: usize) -> (r: Option<(Expr, usize)>)
    requires
        i <= s@.len(),
    ensures
        match r {
            Option::Some((e, j)) => expr_wf(e) && i <= j <= s@.len() && sp_function(s@, i as int)
                == Some((e@, j as int)),
            Option::None => sp_function(s@, i as int) is None,
        },
    decreases rem(s@, i as int), 4int,
{
    let len = s.unicode_len();
    if i >= len {
        return None;
    }
    let j = p_ident(s, i);
    if j == i {
        return None;
    }
    let j1 = p_ws(s, j);
    if !(j1 < len && s.get_char(j1) == '(') {
        return None;
    }
    let j2 = p_ws(s, j1 + 1);
    match p_binary(s, j2) {
        Option::None => None,
        Option::Some((a0, k0)) => {
            if k0 <= i {
                return None;
            }
            let mut acc: Vec<Expr> = Vec::new();
            proof {
                assert(view_args(acc@) =~= Seq::<SpecExpr>::empty());
            }
            let ghost ga0: Expr = a0;
            acc.push(a0);
            proof {
                assert(acc@.drop_first() =~= Seq::<Expr>::empty());
                assert(args_wf(Seq::<Expr>::empty()));
                assert(args_wf(acc@));
                assert(view_args(acc@) =~= seq![view_expr(ga0)]);
            }
            match p_fn_rest(s, k0, acc) {
                Option::None => None,
                Option::Some((args, k)) => {
                    let j3 = p_ws(s, k);
                    if j3 < len && s.get_char(j3) == ')' {
                        let name = String::from_str(s.substring_char(i, j));
                        Some((Expr::Function { name, args }, j3 + 1))
                    } else {
                        None
                    }
                },
            }
        },
    }
}

/// Parses further comma-separated arguments.
fn p_fn_rest(s: &str, i: usize, acc: Vec<Expr>) -> (r: Option<(Vec<Expr>, usize)>)
    requires
        i <= s@.len(),
        args_wf(acc@),
    ensures
        match r {
            Option::Some((es, k)) => args_wf(es@) && i <= k <= s@.len() && sp_fn_rest(
                s@,
                i as int,
                view_args(acc@),
            ) == Some((view_args(es@), k as int)),
            Option::None => sp_fn_rest(s@, i as int, view_args(acc@)) is None,
        },
    decreases rem(s@, i as int), 0int,
{
    let len = s.unicode_len();
    let j = p_ws(s, i);
    if j < len && s.get_char(j) == ',' {
        let j2 = p_ws(s, j + 1);
        match p_binary(s, j2) {
            Option::Some((e, k)) => {
                if k <= i {
                    None
                } else {
                    let mut acc = acc;
                    let ghost old_acc = acc@;
                    let ghost ge: Expr = e;
                    acc.push(e);
                    proof {
                        lemma_view_args_push(old_acc, ge);
                        lemma_args_wf_push(old_acc, ge);
                    }
                    p_fn_rest(s, k, acc)
                }
            },
            Option::None => Some((acc, i)),
        }
    } else {
        Some((acc, i))
    }
}

/// Parses trailing access segments after a `$` access.
fn p_chain(s: &str, i: usize, acc: Expr) -> (r: Option<(Expr, usize)>)
    requires
        i <= s@.len(),
        expr_wf(acc),
    ensures
        match r {
            Option::Some((e, j)) => expr_wf(e) && i <= j <= s@.len() && sp_chain(
                s@,
                i as int,
                acc@,
            ) == Some((e@, j as int)),
            Option::None => sp_chain(s@, i as int, acc@) is None,
        },
    decreases rem(s@, i as int), 0int,
{
    let len = s.unicode_len();
    let j = p_ws(s, i);
    if j < len && s.get_char(j) == '.' {
        match p_value(s, j + 1) {
            Option::Some((f, k)) => {
                if k <= i {
                    None
                } else {
                    p_chain(
                        s,
                        k,
                        Expr::BinaryOp { op: BinOp::Dot, left: Box::new(acc), right: Box::new(f) },
                    )
                }
            },
            Option::None => Some((acc, i)),
        }
    } else if j < len && s.get_char(j) == '[' {
        match p_binary(s, j + 1) {
            Option::Some((e, k)) => {
                let j2 = p_ws(s, k);
                if j2 < len && s.get_char(j2) == ']' {
                    if j2 + 1 > i {
                        p_chain(
                            s,
                            j2 + 1,
                            Expr::BinaryOp {
                                op: BinOp::Index,
                                left: Box::new(acc),
                                right: Box::new(e),
                            },
                        )
                    } else {
                        None
                    }
                } else {
                    Some((acc, i))
                }
            },
            Option::None => Some((acc, i)),
        }
    } else {
        Some((acc, i))
    }
}

/// Parses a unary form at `i`.
fn p_unary(s: &str, i: usize) -> (r: Option<(Expr, usize)>)
    requires
        i <= s@.len(),
    ensures
        match r {
            Option::Some((e, j)) => expr_wf(e) && i <= j <= s@.len() && sp_unary(s@, i as int)
                == Some((e@, j as int)),
            Option::None => sp_unary(s@, i as int) is None,
        },
    decreases rem(s@, i as int), 5int,
{
    let len = s.unicode_len();
    if i >= len {
        return None;
    }
    match p_function(s, i) {
        Option::Some(r) => Some(r),
        Option::None => {
            let c = s.get_char(i);
            if c == '$' {
                match p_value(s, i + 1) {
                    Option::Some((v, k)) => {
                        if k <= i + 1 {
                            None
                        } else {
                            p_chain(
                                s,
                                k,
                                Expr::UnaryOp { op: UnaryOp::Dollar, expr: Box::new(v) },
                            )
                        }
                    },
                    Option::None => None,
                }
            } else if c == '!' {
                match p_value(s, i + 1) {
                    Option::Some((v, k)) => Some(
                        (Expr::UnaryOp { op: UnaryOp::Not, expr: Box::new(v) }, k),
                    ),
                    Option::None => None,
                }
            } else {
                p_value(s, i)
            }
        },
    }
}

/// Parses a factor at `i`.
fn p_factor(s: &str, i: usize) -> (r: Option<(Expr, usize)>)
    requires
        i <= s@.len(),
    ensures
        match r {
            Option::Some((e, j)) => expr_wf(e) && i <= j <= s@.len() && sp_factor(s@, i as int)
                == Some((e@, j as int)),
            Option::None => sp_factor(s@, i as int) is None,
        },
    decreases rem(s@, i as int), 6int,
{
    let len = s.unicode_len();
    if i >= len {
        return None;
    }
    if s.get_char(i) == '(' {
        let j = p_ws(s, i + 1);
        match p_binary(s, j) {
            Option::Some((e, k)) => {
                let j2 = p_ws(s, k);
                if j2 < len && s.get_char(j2) == ')' {
                    Some((e, j2 + 1))
                } else {
                    p_unary(s, i)
                }
            },
            Option::None => p_unary(s, i),
        }
    } else {
        p_unary(s, i)
    }
}

/// Parses a term at `i`.
fn p_term(s: &str, i: usize) -> (r: Option<(Expr, usize)>)
    requires
        i <= s@.len(),
    ensures
        match r {
            Option::Some((e, j)) => expr_wf(e) && i <= j <= s@.len() && sp_term(s@, i as int)
                == Some((e@, j as int)),
            Option::None => sp_term(s@, i as int) is None,
        },
    decreases rem(s@, i as int), 7int,
{
    let len = s.unicode_len();
    if i >= len {
        return None;
    }
    match p_factor(s, i) {
        Option::None => None,
        Option::Some((f, k)) => {
            if k <= i {
                None
            } else {
                p_term_rest(s, k, f)
            }
        },
    }
}

/// Parses further `*` and `/` factors.
fn p_term_rest(s: &str, i: usize, acc: Expr) -> (r: Option<(Expr, usize)>)
    requires
        i <= s@.len(),
        expr_wf(acc),
    ensures
        match r {
            Option::Some((e, j)) => expr_wf(e) && i <= j <= s@.len() && sp_term_rest(
                s@,
                i as int,
                acc@,
            ) == Some((e@, j as int)),
            Option::None => sp_term_rest(s@, i as int, acc@) is None,
        },
    decreases rem(s@, i as int), 0int,
{
    let len = s.unicode_len();
    let j = p_ws(s, i);
    if j < len && (s.get_char(j) == '*' || s.get_char(j) == '/') {
        let op = if s.get_char(j) == '*' {
            BinOp::Mul
        } else {
            BinOp::Div
        };
        let j2 = p_ws(s, j + 1);
        match p_factor(s, j2) {
            Option::Some((f, k)) => {
                if k <= i {
                    None
                } else {
                    p_term_rest(
                        s,
                        k,
                        Expr::BinaryOp { op, left: Box::new(acc), right: Box::new(f) },
                    )
                }
            },
            Option::None => Some((acc, i)),
        }
    } else {
        Some((acc, i))
    }
}

/// Parses an additive expression at `i`.
fn p_arith(s: &str, i: usize) -> (r: Option<(Expr, usize)>)
    requires
        i <= s@.len(),
    ensures
        match r {
            Option::Some((e, j)) => expr_wf(e) && i <= j <= s@.len() && sp_arith(s@, i as int)
                == Some((e@, j as int)),
            Option::None => sp_arith(s@, i as int) is None,
        },
    decreases rem(s@, i as int), 8int,
{
    let len = s.unicode_len();
    if i >= len {
        return None;
    }
    match p_term(s, i) {
        Option::None => None,
        Option::Some((t, k)) => {
            if k <= i {
                None
            } else {
                p_arith_rest(s, k, t)
            }
        },
    }
}

/// Parses further `+` and `-` terms.
fn p_arith_rest(s: &str, i: usize, acc: Expr) -> (r: Option<(Expr, usize)>)
    requires
        i <= s@.len(),
        expr_wf(acc),
    ensures
        match r {
            Option::Some((e, j)) => expr_wf(e) && i <= j <= s@.len() && sp_arith_rest(
                s@,
                i as int,
                acc@,
            ) == Some((e@, j as int)),
            Option::None => sp_arith_rest(s@, i as int, acc@) is None,
        },
    decreases rem(s@, i as int), 0int,
{
    let len = s.unicode_len();
    let j = p_ws(s, i);
    if j < len && (s.get_char(j) == '+' || s.get_char(j) == '-') {
        let op = if s.get_char(j) == '+' {
            BinOp::Add
        } else {
            BinOp::Sub
        };
        let j2 = p_ws(s, j + 1);
        match p_term(s, j2) {
            Option::Some((t, k)) => {
                if k <= i {
                    None
                } else {
                    p_arith_rest(
                        s,
                        k,
                        Expr::BinaryOp { op, left: Box::new(acc), right: Box::new(t) },
                    )
                }
            },
            Option::None => Some((acc, i)),
        }
    } else {
        Some((acc, i))
    }
}

/// Reads the relational operator at `i`.
fn p_rel_op(s: &str, i: usize) -> (r: Option<(BinOp, usize)>)
    requires
        i <= s@.len(),
    ensures
        match r {
            Option::Some((op, l)) => sp_rel_op(s@, i as int) == Some((op, l as int)) && 1 <= l
                <= 2 && i + l <= s@.len(),
            Option::None => sp_rel_op(s@, i as int) is None,
        },
{
    proof {
        reveal_strlit("==");
        reveal_strlit("!=");
        reveal_strlit(">=");
        reveal_strlit(">");
        reveal_strlit("<=");
        reveal_strlit("<");
        reveal_strlit(".");
    }
    if p_tag(s, i, "==") {
        Some((BinOp::Eq, 2))
    } else if p_tag(s, i, "!=") {
        Some((BinOp::NotEq, 2))
    } else if p_tag(s, i, ">=") {
        Some((BinOp::Ge, 2))
    } else if p_tag(s, i, ">") {
        Some((BinOp::Gt, 1))
    } else if p_tag(s, i, "<=") {
        Some((BinOp::Le, 2))
    } else if p_tag(s, i, "<") {
        Some((BinOp::Lt, 1))
    } else if p_tag(s, i, ".") {
        Some((BinOp::Dot, 1))
    } else {
        None
    }
}

/// Parses a full expression at `i`.
fn p_binary(s: &str, i: usize) -> (r: Option<(Expr, usize)>)
    requires
        i <= s@.len(),
    ensures
        match r {
            Option::Some((e, j)) => expr_wf(e) && i <= j <= s@.len() && sp_binary(s@, i as int)
                == Some((e@, j as int)),
            Option::None => sp_binary(s@, i as int) is None,
        },
    decreases rem(s@, i as int), 9int,
{
    let len = s.unicode_len();
    if i >= len {
        return None;
    }
    match p_arith(s, i) {
        Option::None => None,
        Option::Some((l, k)) => {
            if k <= i {
                return None;
            }
            let j = p_ws(s, k);
            match p_rel_op(s, j) {
                Option::None => Some((l, k)),
                Option::Some((op, oplen)) => {
                    let j2 = p_ws(s, j + oplen);
                    match p_arith(s, j2) {
                        Option::None => None,
                        Option::Some((r2, k2)) => Some(
                            (
                                Expr::BinaryOp {
                                    op,
                                    left: Box::new(l),
                                    right: Box::new(r2),
                                },
                                k2,
                            ),
                        ),
                    }
                },
            }
        },
    }
}

/// The end of the input with trailing blank space removed.
fn p_trim_end(s: &str) -> (r: usize)
    ensures
        r as int == s@.len() - ws_count_back(s@, s@.len() as int),
        r <= s@.len(),
{
    let len = s.unicode_len();
    let mut h = len;
    while h > 0 && is_ws_exec(s.get_char(h - 1))
        invariant
            0 <= h <= len,
            len == s@.len(),
            ws_count_back(s@, len as int) == (len - h) + ws_count_back(s@, h as int),
        decreases h,
    {
        h = h - 1;
    }
    h
}

/// Parses `input` as one expression of the language.
///
/// The input is trimmed of surrounding blank space first.  When the grammar
/// matches the whole trimmed input the expression is returned; when it
/// matches a strict prefix the leftover text is reported as trailing input;
/// and when it matches nothing at all the input is rejected as unparsable.
pub fn parse(input: &str) -> (r: Result<Expr, Error>)
    ensures
        match r {
            Result::Ok(e) => expr_wf(e) && spec_parse(input@) == Result::<
                SpecExpr,
                crate::error::SpecError,
            >::Ok(e@),
            Result::Err(err) => spec_parse(input@) == Result::<
                SpecExpr,
                crate::error::SpecError,
            >::Err(err@),
        },
{
    let lo = p_ws(input, 0);
    let hi = p_trim_end(input);
    let t: &str = if lo < hi {
        input.substring_char(lo, hi)
    } else {
        ""
    };
    proof {
        reveal_strlit("");
        if lo >= hi {
            assert(t@ =~= Seq::<char>::empty());
        }
    }
    let tlen = t.unicode_len();
    match p_binary(t, 0) {
        Option::None => Err(
            Error::ParseError(String::from_str("expression does not match the grammar")),
        ),
        Option::Some((e, k)) => {
            if k == tlen {
                Ok(e)
            } else {
                let restt = s_rest(t, k);
                Err(Error::TrailingInput(restt))
            }
        },
    }
}

/// Parsing is deterministic: the contract of [`parse`] pins its result to
/// [`spec_parse`], a function of the input text alone, so two parses of the
/// same text yield structurally identical trees (or the identical failure).
pub proof fn lemma_parse_deterministic(
    s: Seq<char>,
    r1: Result<SpecExpr, crate::error::SpecError>,
    r2: Result<SpecExpr, crate::error::SpecError>,
)
    requires
        r1 == spec_parse(s),
        r2 == spec_parse(s),
    ensures
        r1 == r2,
{
}

/// The text of `t` from position `k` on.
fn s_rest(t: &str, k: usize) -> (r: String)
    requires
        k <= t@.len(),
    ensures
        r@ == t@.subrange(k as int, t@.len() as int),
{
    let len = t.unicode_len();
    String::from_str(t.substring_char(k, len))
}

} // verus!
