//! The variable environment and the expression evaluator.
//!
//! A [`Context`] maps variable names to values; it is created with a single
//! `args` binding and mutated only by the state machine.  [`eval`] walks an
//! abstract syntax tree against a context and yields a value or a typed
//! failure; it never changes the context.
//!
//! The semantics is given by [`eval_spec`], a total function over the
//! mathematical mirrors; `eval` returns exactly what `eval_spec` denotes.

use vstd::prelude::*;
use crate::error::{Error, SpecError};
use crate::num::{digits_of, spec_add, spec_div, spec_mul, spec_sub, spec_trunc, Num, SpecNum};
use crate::parser::{tag_at, BinOp, Expr, SpecExpr, UnaryOp};
use crate::value::{
    elems_wf, entries_wf, lemma_elems_wf, lemma_entries_wf, lemma_view_elems, lemma_view_entries,
    obj_get, spec_obj_get, str_eq, val_cmp, val_eq, val_wf, view_elems, view_entries, view_val,
    SpecValue, Value,
};

verus! {

/// The mutable variable bindings of one run.
pub struct Context {
    variables: Vec<(String, Value)>,
}

/// The bindings as a map from name to value, later entries winning.
pub open spec fn vars_map(es: Seq<(String, Value)>) -> Map<Seq<char>, SpecValue>
    decreases es,
{
    if es.len() == 0 {
        Map::empty()
    } else {
        vars_map(es.drop_last()).insert(es.last().0@, es.last().1@)
    }
}

impl View for Context {
    type V = Map<Seq<char>, SpecValue>;

    closed spec fn view(&self) -> Map<Seq<char>, SpecValue> {
        vars_map(self.variables@)
    }
}

impl Context {
    /// Every stored value is well formed and every name is bound once.
    pub closed spec fn wf(self) -> bool {
        &&& entries_wf(self.variables@)
        &&& forall|i: int, j: int|
            0 <= i < j < self.variables@.len() ==> (#[trigger] self.variables@[i]).0@ != (
            #[trigger] self.variables@[j]).0@
    }
}

/// Every binding is in the map.
proof fn lemma_vars_map_index(es: Seq<(String, Value)>, i: int)
    requires
        0 <= i < es.len(),
        forall|a: int, b: int|
            0 <= a < b < es.len() ==> (#[trigger] es[a]).0@ != (#[trigger] es[b]).0@,
    ensures
        vars_map(es).contains_key(es[i].0@),
        vars_map(es)[es[i].0@] == es[i].1@,
    decreases es,
{
    if i == es.len() - 1 {
        assert(es.last() == es[i]);
    } else {
        assert(es.drop_last()[i] == es[i]);
        lemma_vars_map_index(es.drop_last(), i);
        assert(es[i].0@ != es[es.len() - 1].0@);
        assert(es.last() == es[es.len() - 1]);
    }
}

/// A name bound by no entry is not in the map.
proof fn lemma_vars_map_absent(es: Seq<(String, Value)>, k: Seq<char>)
    requires
        forall|i: int| 0 <= i < es.len() ==> (#[trigger] es[i]).0@ != k,
    ensures
        !vars_map(es).contains_key(k),
    decreases es,
{
    if es.len() > 0 {
        assert(es.last() == es[es.len() - 1]);
        let dl = es.drop_last();
        assert forall|i: int| 0 <= i < dl.len() implies (#[trigger] dl[i]).0@ != k by {
            assert(dl[i] == es[i]);
        }
        lemma_vars_map_absent(dl, k);
    }
}

impl Context {
    /// A fresh context holding the run's input arguments under the name
    /// `args`.
    pub fn new(args: Vec<(String, Value)>) -> (r: Context)
        requires
            entries_wf(args@),
            crate::value::keys_sorted(args@),
        ensures
            r.wf(),
            r@ == Map::<Seq<char>, SpecValue>::empty().insert(
                "args"@,
                SpecValue::Object(view_entries(args@)),
            ),
    {
        let mut variables: Vec<(String, Value)> = Vec::new();
        variables.push((String::from_str("args"), Value::Object(args)));
        proof {
            assert(variables@.drop_last() =~= Seq::<(String, Value)>::empty());
            assert(variables@.drop_first() =~= Seq::<(String, Value)>::empty());
            assert(entries_wf(Seq::<(String, Value)>::empty()));
            assert(val_wf(variables@[0].1));
            assert(entries_wf(variables@));
            assert(vars_map(Seq::<(String, Value)>::empty()) =~= Map::<
                Seq<char>,
                SpecValue,
            >::empty());
            assert(variables@.last().0@ == "args"@);
            assert(variables@.last().1@ == SpecValue::Object(view_entries(args@)));
            assert(vars_map(variables@) == vars_map(variables@.drop_last()).insert(
                variables@.last().0@,
                variables@.last().1@,
            ));
            assert(vars_map(variables@) =~= Map::<Seq<char>, SpecValue>::empty().insert(
                "args"@,
                SpecValue::Object(view_entries(args@)),
            ));
        }
        Context { variables }
    }

    /// The value bound to `name`, if any.
    pub fn lookup(&self, name: &str) -> (r: Option<&Value>)
        requires
            self.wf(),
        ensures
            match r {
                Option::Some(v) => self@.contains_key(name@) && self@[name@] == v@ && val_wf(*v),
                Option::None => !self@.contains_key(name@),
            },
    {
        let mut i: usize = 0;
        while i < self.variables.len()
            invariant
                0 <= i <= self.variables@.len(),
                self.wf(),
                forall|j: int| 0 <= j < i ==> (#[trigger] self.variables@[j]).0@ != name@,
            decreases self.variables@.len() - i,
        {
            let (k, v) = &self.variables[i];
            if str_eq(k.as_str(), name) {
                proof {
                    lemma_vars_map_index(self.variables@, i as int);
                    lemma_entries_wf(self.variables@);
                }
                return Some(v);
            }
            i = i + 1;
        }
        proof {
            lemma_vars_map_absent(self.variables@, name@);
        }
        None
    }

    /// Binds `value` to `name`, replacing any earlier binding.
    pub fn set_variable(&mut self, name: String, value: Value)
        requires
            old(self).wf(),
            val_wf(value),
        ensures
            final(self).wf(),
            final(self)@ == old(self)@.insert(name@, value@),
    {
        let ghost old_vars = self.variables@;
        let mut i: usize = 0;
        while i < self.variables.len()
            invariant
                0 <= i <= self.variables@.len(),
                self.variables@ == old_vars,
                old(self).variables@ == old_vars,
                old(self).wf(),
                val_wf(value),
                entries_wf(old_vars),
                forall|a: int, b: int|
                    0 <= a < b < old_vars.len() ==> (#[trigger] old_vars[a]).0@ != (
                    #[trigger] old_vars[b]).0@,
                forall|j: int| 0 <= j < i ==> (#[trigger] old_vars[j]).0@ != name@,
            decreases self.variables@.len() - i,
        {
            let hit = {
                let (k, _) = &self.variables[i];
                str_eq(k.as_str(), name.as_str())
            };
            if hit {
                let ghost gname = name@;
                let ghost gval = value@;
                self.variables.set(i, (name, value));
                proof {
                    assert(old_vars[i as int].0@ == gname);
                    lemma_vars_map_replace_one(
                        old_vars,
                        self.variables@,
                        i as int,
                        gname,
                        gval,
                    );
                    lemma_entries_wf(old_vars);
                    lemma_entries_wf(self.variables@);
                    assert forall|a: int, b: int|
                        0 <= a < b < self.variables@.len() implies (
                    #[trigger] self.variables@[a]).0@ != (#[trigger] self.variables@[b]).0@ by {
                        assert(old_vars[a].0@ != old_vars[b].0@);
                        if a != i {
                            assert(self.variables@[a] == old_vars[a]);
                        }
                        if b != i {
                            assert(self.variables@[b] == old_vars[b]);
                        }
                    }
                }
                return ;
            }
            i = i + 1;
        }
        let ghost gname = name@;
        self.variables.push((name, value));
        proof {
            assert(self.variables@.drop_last() =~= old_vars);
            lemma_vars_map_absent(old_vars, gname);
            assert(old(self)@.insert(gname, self.variables@.last().1@) =~= vars_map(
                self.variables@,
            ));
            lemma_entries_wf(old_vars);
            lemma_entries_wf(self.variables@);
            assert forall|a: int, b: int|
                0 <= a < b < self.variables@.len() implies (#[trigger] self.variables@[a]).0@ != (
            #[trigger] self.variables@[b]).0@ by {
                if b < self.variables@.len() - 1 {
                    assert(self.variables@[a] == old_vars[a]);
                    assert(self.variables@[b] == old_vars[b]);
                } else {
                    assert(self.variables@[a] == old_vars[a]);
                    assert(old_vars[a].0@ != gname);
                }
            }
        }
    }

    /// Removes the binding of `name`, if any.
    pub fn remove_variable(&mut self, name: String)
        requires
            old(self).wf(),
        ensures
            final(self).wf(),
            final(self)@ == old(self)@.remove(name@),
    {
        let ghost old_vars = self.variables@;
        let mut i: usize = 0;
        while i < self.variables.len()
            invariant
                0 <= i <= self.variables@.len(),
                self.variables@ == old_vars,
                old(self).variables@ == old_vars,
                old(self).wf(),
                entries_wf(old_vars),
                forall|a: int, b: int|
                    0 <= a < b < old_vars.len() ==> (#[trigger] old_vars[a]).0@ != (
                    #[trigger] old_vars[b]).0@,
                forall|j: int| 0 <= j < i ==> (#[trigger] old_vars[j]).0@ != name@,
            decreases self.variables@.len() - i,
        {
            let hit = {
                let (k, _) = &self.variables[i];
                str_eq(k.as_str(), name.as_str())
            };
            if hit {
                self.variables.remove(i);
                proof {
                    assert(self.variables@ =~= old_vars.remove(i as int));
                    lemma_vars_map_remove(old_vars, i as int, name@);
                    lemma_entries_wf(old_vars);
                    lemma_entries_wf(self.variables@);
                    assert forall|a: int, b: int|
                        0 <= a < b < self.variables@.len() implies (
                    #[trigger] self.variables@[a]).0@ != (#[trigger] self.variables@[b]).0@ by {
                        if b < i {
                            assert(self.variables@[a] == old_vars[a]);
                            assert(self.variables@[b] == old_vars[b]);
                        } else if a < i {
                            assert(self.variables@[a] == old_vars[a]);
                            assert(self.variables@[b] == old_vars[b + 1]);
                        } else {
                            assert(self.variables@[a] == old_vars[a + 1]);
                            assert(self.variables@[b] == old_vars[b + 1]);
                        }
                    }
                }
                return ;
            }
            i = i + 1;
        }
        proof {
            lemma_vars_map_absent(old_vars, name@);
            assert(old(self)@.remove(name@) =~= old(self)@);
        }
    }

    /// The bindings, for inspection and result emission.
    pub fn get_context(&self) -> (r: &Vec<(String, Value)>)
        ensures
            vars_map(r@) == self@,
            self.wf() ==> entries_wf(r@),
    {
        &self.variables
    }
}

/// Replacing an entry replaces its binding.
proof fn lemma_vars_map_replace_one(
    es: Seq<(String, Value)>,
    ns: Seq<(String, Value)>,
    i: int,
    k: Seq<char>,
    v: SpecValue,
)
    requires
        0 <= i < es.len(),
        es[i].0@ == k,
        forall|a: int, b: int|
            0 <= a < b < es.len() ==> (#[trigger] es[a]).0@ != (#[trigger] es[b]).0@,
        ns.len() == es.len(),
        forall|j: int| 0 <= j < es.len() && j != i ==> #[trigger] ns[j] == es[j],
        ns[i].0@ == k,
        ns[i].1@ == v,
    ensures
        vars_map(ns) == vars_map(es).insert(k, v),
    decreases es,
{
    if i == es.len() - 1 {
        assert(ns.drop_last() =~= es.drop_last());
        assert(ns.last() == ns[i]);
        assert(es.last() == es[i]);
        assert(vars_map(ns) == vars_map(es.drop_last()).insert(k, v));
        assert(vars_map(es) == vars_map(es.drop_last()).insert(k, es[i].1@));
        assert(vars_map(es).insert(k, v) =~= vars_map(es.drop_last()).insert(k, es[i].1@).insert(
            k,
            v,
        ));
        assert(vars_map(es.drop_last()).insert(k, es[i].1@).insert(k, v) =~= vars_map(
            es.drop_last(),
        ).insert(k, v));
    } else {
        assert(ns.last() == es.last()) by {
            assert(ns[es.len() - 1] == es[es.len() - 1]);
        }
        assert forall|j: int|
            0 <= j < es.drop_last().len() && j != i implies #[trigger] ns.drop_last()[j]
            == es.drop_last()[j] by {
            assert(ns[j] == es[j]);
        }
        assert(ns.drop_last()[i] == ns[i]);
        assert(es.drop_last()[i] == es[i]);
        assert forall|a: int, b: int|
            0 <= a < b < es.drop_last().len() implies (#[trigger] es.drop_last()[a]).0@ != (
        #[trigger] es.drop_last()[b]).0@ by {
            assert(es.drop_last()[a] == es[a]);
            assert(es.drop_last()[b] == es[b]);
        }
        lemma_vars_map_replace_one(es.drop_last(), ns.drop_last(), i, k, v);
        // the last key differs from k
        assert(es[i].0@ != es[es.len() - 1].0@);
        assert(vars_map(ns) == vars_map(ns.drop_last()).insert(es.last().0@, es.last().1@));
        assert(vars_map(ns) =~= vars_map(es).insert(k, v));
    }
}

/// Removing the entry of `k` removes its binding.
proof fn lemma_vars_map_remove(es: Seq<(String, Value)>, i: int, k: Seq<char>)
    requires
        0 <= i < es.len(),
        es[i].0@ == k,
        forall|a: int, b: int|
            0 <= a < b < es.len() ==> (#[trigger] es[a]).0@ != (#[trigger] es[b]).0@,
    ensures
        vars_map(es.remove(i)) == vars_map(es).remove(k),
    decreases es,
{
    if i == es.len() - 1 {
        assert(es.remove(i) =~= es.drop_last());
        assert(es.last() == es[i]);
        let dl = es.drop_last();
        assert forall|j: int| 0 <= j < dl.len() implies (#[trigger] dl[j]).0@ != k by {
            assert(dl[j] == es[j]);
        }
        lemma_vars_map_absent(dl, k);
        assert(vars_map(es).remove(k) =~= vars_map(es.drop_last()).insert(k, es[i].1@).remove(k));
        assert(vars_map(es.drop_last()).insert(k, es[i].1@).remove(k) =~= vars_map(
            es.drop_last(),
        ));
    } else {
        assert(es.remove(i).last() == es.last()) by {
            assert(es.remove(i)[es.len() - 2] == es[es.len() - 1]);
        }
        assert(es.remove(i).drop_last() =~= es.drop_last().remove(i));
        assert(es.drop_last()[i] == es[i]);
        assert forall|a: int, b: int|
            0 <= a < b < es.drop_last().len() implies (#[trigger] es.drop_last()[a]).0@ != (
        #[trigger] es.drop_last()[b]).0@ by {
            assert(es.drop_last()[a] == es[a]);
            assert(es.drop_last()[b] == es[b]);
        }
        lemma_vars_map_remove(es.drop_last(), i, k);
        assert(es[i].0@ != es[es.len() - 1].0@);
        assert(vars_map(es.remove(i)) == vars_map(es.drop_last().remove(i)).insert(
            es.last().0@,
            es.last().1@,
        ));
        assert(vars_map(es.remove(i)) =~= vars_map(es).remove(k));
    }
}

/// The value of one expression against a context, or the failure that stops
/// the evaluation.  Arguments evaluate left to right, failing fast; `$` reads
/// a variable; `!` negates a boolean; comparisons follow the value model's
/// equality and order; `.` and `[..]` select fields and elements; `+ - * /`
/// are exact decimal arithmetic; and the built-in functions are `keys`,
/// `len` and `split`.
pub open spec fn eval_spec(e: SpecExpr, ctx: Map<Seq<char>, SpecValue>) -> Result<
    SpecValue,
    SpecError,
>
    decreases e,
{
    match e {
        SpecExpr::Value(v) => Ok(v),
        SpecExpr::Unary(UnaryOp::Dollar, inner) => match *inner {
            SpecExpr::Value(SpecValue::Symbol(name)) => if ctx.contains_key(name) {
                Ok(ctx[name])
            } else {
                Err(SpecError::UndefinedVariable(name))
            },
            _ => Err(SpecError::TypeError("Dollar operator requires a symbol"@)),
        },
        SpecExpr::Unary(UnaryOp::Not, inner) => match eval_spec(*inner, ctx) {
            Ok(SpecValue::Boolean(b)) => Ok(SpecValue::Boolean(!b)),
            Ok(_) => Err(SpecError::TypeError("Not operator requires a boolean"@)),
            Err(err) => Err(err),
        },
        SpecExpr::Binary(op, l, r) => match eval_spec(*l, ctx) {
            Err(err) => Err(err),
            Ok(lv) => match eval_spec(*r, ctx) {
                Err(err) => Err(err),
                Ok(rv) => apply_bin(op, lv, rv),
            },
        },
        SpecExpr::Function(name, args) => match eval_args_spec(args, ctx) {
            Err(err) => Err(err),
            Ok(vals) => apply_fn(name, vals),
        },
    }
}

/// The values of a sequence of argument expressions, left to right, failing
/// fast.
pub open spec fn eval_args_spec(args: Seq<SpecExpr>, ctx: Map<Seq<char>, SpecValue>) -> Result<
    Seq<SpecValue>,
    SpecError,
>
    decreases args,
{
    if args.len() == 0 {
        Ok(Seq::empty())
    } else {
        match eval_spec(args[0], ctx) {
            Err(err) => Err(err),
            Ok(v) => match eval_args_spec(args.drop_first(), ctx) {
                Err(err) => Err(err),
                Ok(rest) => Ok(seq![v] + rest),
            },
        }
    }
}

/// The value of one binary operator on two evaluated operands.
pub open spec fn apply_bin(op: BinOp, a: SpecValue, b: SpecValue) -> Result<
    SpecValue,
    SpecError,
> {
    match op {
        BinOp::Eq => Ok(SpecValue::Boolean(val_eq(a, b))),
        BinOp::NotEq => Ok(SpecValue::Boolean(!val_eq(a, b))),
        BinOp::Gt => match val_cmp(a, b) {
            Option::Some(ord) => Ok(SpecValue::Boolean(ord == core::cmp::Ordering::Greater)),
            Option::None => Err(SpecError::TypeError("Values of these types cannot be ordered"@)),
        },
        BinOp::Ge => match val_cmp(a, b) {
            Option::Some(ord) => Ok(SpecValue::Boolean(ord != core::cmp::Ordering::Less)),
            Option::None => Err(SpecError::TypeError("Values of these types cannot be ordered"@)),
        },
        BinOp::Lt => match val_cmp(a, b) {
            Option::Some(ord) => Ok(SpecValue::Boolean(ord == core::cmp::Ordering::Less)),
            Option::None => Err(SpecError::TypeError("Values of these types cannot be ordered"@)),
        },
        BinOp::Le => match val_cmp(a, b) {
            Option::Some(ord) => Ok(SpecValue::Boolean(ord != core::cmp::Ordering::Greater)),
            Option::None => Err(SpecError::TypeError("Values of these types cannot be ordered"@)),
        },
        BinOp::Dot => match (a, b) {
            (SpecValue::Object(es), SpecValue::Symbol(f)) => match spec_obj_get(es, f) {
                Option::Some(v) => Ok(v),
                Option::None => Err(
                    SpecError::TypeError("Field '"@ + f + "' not found in object"@),
                ),
            },
            _ => Err(SpecError::TypeError("Dot operator requires an object and a field name"@)),
        },
        BinOp::Index => match (a, b) {
            (SpecValue::Array(xs), SpecValue::Number(n)) => {
                let idx = spec_trunc(n);
                if idx < xs.len() {
                    Ok(xs[idx as int])
                } else {
                    Err(
                        SpecError::IndexOutOfBounds(
                            "Index "@ + digits_of(idx) + " is out of bounds"@,
                        ),
                    )
                }
            },
            (SpecValue::String(sq), SpecValue::Number(n)) => {
                let idx = spec_trunc(n);
                if idx < sq.len() {
                    Ok(SpecValue::String(seq![sq[idx as int]]))
                } else {
                    Err(
                        SpecError::IndexOutOfBounds(
                            "Index "@ + digits_of(idx) + " is out of bounds"@,
                        ),
                    )
                }
            },
            (SpecValue::Object(es), SpecValue::String(k)) => match spec_obj_get(es, k) {
                Option::Some(v) => Ok(v),
                Option::None => Err(
                    SpecError::TypeError("Field '"@ + k + "' not found in object"@),
                ),
            },
            _ => Err(SpecError::TypeError("Index operator requires an array and a number"@)),
        },
        BinOp::Add => match (a, b) {
            (SpecValue::Number(x), SpecValue::Number(y)) => match spec_add(x, y) {
                Option::Some(n) => Ok(SpecValue::Number(n)),
                Option::None => Err(SpecError::TypeError("Arithmetic result is out of range"@)),
            },
            _ => Err(SpecError::TypeError("Arithmetic requires numbers"@)),
        },
        BinOp::Sub => match (a, b) {
            (SpecValue::Number(x), SpecValue::Number(y)) => match spec_sub(x, y) {
                Option::Some(n) => Ok(SpecValue::Number(n)),
                Option::None => Err(SpecError::TypeError("Arithmetic result is out of range"@)),
            },
            _ => Err(SpecError::TypeError("Arithmetic requires numbers"@)),
        },
        BinOp::Mul => match (a, b) {
            (SpecValue::Number(x), SpecValue::Number(y)) => match spec_mul(x, y) {
                Option::Some(n) => Ok(SpecValue::Number(n)),
                Option::None => Err(SpecError::TypeError("Arithmetic result is out of range"@)),
            },
            _ => Err(SpecError::TypeError("Arithmetic requires numbers"@)),
        },
        BinOp::Div => match (a, b) {
            (SpecValue::Number(x), SpecValue::Number(y)) => if y.m == 0 {
                Err(SpecError::TypeError("Division by zero"@))
            } else {
                match spec_div(x, y) {
                    Option::Some(n) => Ok(SpecValue::Number(n)),
                    Option::None => Err(
                        SpecError::TypeError("Division has no exact result in range"@),
                    ),
                }
            },
            _ => Err(SpecError::TypeError("Arithmetic requires numbers"@)),
        },
    }
}

/// The keys of an object's entries, in their canonical order, as strings.
pub open spec fn keys_of(es: Seq<(Seq<char>, SpecValue)>) -> Seq<SpecValue>
    decreases es,
{
    if es.len() == 0 {
        Seq::empty()
    } else {
        seq![SpecValue::String(es[0].0)] + keys_of(es.drop_first())
    }
}

/// The first position at or after `from` where `sep` occurs in `s`, or -1.
pub open spec fn find_sub(s: Seq<char>, sep: Seq<char>, from: int) -> int
    decreases s.len() - from,
{
    if from < 0 || sep.len() == 0 || from + sep.len() > s.len() {
        -1
    } else if tag_at(s, from, sep) {
        from
    } else {
        find_sub(s, sep, from + 1)
    }
}

/// The pieces of `s` from position `start` on, cut at each occurrence of the
/// nonempty separator `sep`.
pub open spec fn split_from(s: Seq<char>, sep: Seq<char>, start: int) -> Seq<Seq<char>>
    decreases s.len() - start,
{
    let d = find_sub(s, sep, start);
    if sep.len() == 0 || d < start || d + sep.len() > s.len() {
        seq![s.subrange(if 0 <= start <= s.len() {
            start
        } else {
            0
        }, s.len() as int)]
    } else {
        seq![s.subrange(start, d)] + split_from(s, sep, d + sep.len() as int)
    }
}

/// The pieces of `s` cut at every character boundary: an empty piece, each
/// character alone, and an empty piece.
pub open spec fn boundary_pieces(s: Seq<char>, i: int) -> Seq<Seq<char>>
    decreases s.len() - i,
{
    if 0 <= i < s.len() {
        seq![seq![s[i]]] + boundary_pieces(s, i + 1)
    } else {
        seq![Seq::<char>::empty()]
    }
}

/// The pieces of `s` cut at each occurrence of `sep`; an empty separator
/// cuts at every character boundary.
pub open spec fn spec_split(s: Seq<char>, sep: Seq<char>) -> Seq<Seq<char>> {
    if sep.len() == 0 {
        seq![Seq::<char>::empty()] + boundary_pieces(s, 0)
    } else {
        split_from(s, sep, 0)
    }
}

/// The pieces as string values.
pub open spec fn strs_to_vals(ps: Seq<Seq<char>>) -> Seq<SpecValue>
    decreases ps,
{
    if ps.len() == 0 {
        Seq::empty()
    } else {
        seq![SpecValue::String(ps[0])] + strs_to_vals(ps.drop_first())
    }
}

/// The value of one built-in function on its evaluated arguments.
pub open spec fn apply_fn(name: Seq<char>, vals: Seq<SpecValue>) -> Result<
    SpecValue,
    SpecError,
> {
    if name == "keys"@ {
        if vals.len() == 1 && vals[0] is Object {
            Ok(SpecValue::Array(keys_of(vals[0]->Object_0)))
        } else {
            Err(SpecError::TypeError("keys function requires an object"@))
        }
    } else if name == "len"@ {
        if vals.len() == 1 && vals[0] is String {
            Ok(SpecValue::Number(SpecNum { m: vals[0]->String_0.len() as int, s: 0 }))
        } else if vals.len() == 1 && vals[0] is Array {
            Ok(SpecValue::Number(SpecNum { m: vals[0]->Array_0.len() as int, s: 0 }))
        } else {
            Err(SpecError::TypeError("len function requires a string or array"@))
        }
    } else if name == "split"@ {
        if vals.len() == 2 && vals[0] is String && vals[1] is String {
            Ok(SpecValue::Array(strs_to_vals(spec_split(vals[0]->String_0, vals[1]->String_0))))
        } else {
            Err(SpecError::TypeError("split function requires a string and a separator"@))
        }
    } else {
        Err(SpecError::TypeError("Unknown function: "@ + name))
    }
}

/// Pointwise description of [`keys_of`].
proof fn lemma_keys_of(es: Seq<(Seq<char>, SpecValue)>)
    ensures
        keys_of(es).len() == es.len(),
        forall|i: int|
            0 <= i < es.len() ==> keys_of(es)[i] == SpecValue::String((#[trigger] es[i]).0),
    decreases es,
{
    if es.len() > 0 {
        lemma_keys_of(es.drop_first());
        assert forall|i: int|
            0 <= i < es.len() implies keys_of(es)[i] == SpecValue::String(es[i].0) by {
            if i > 0 {
                assert(es.drop_first()[i - 1] == es[i]);
            }
        }
    }
}

/// Pointwise description of [`strs_to_vals`].
pub(crate) proof fn lemma_strs_to_vals(ps: Seq<Seq<char>>)
    ensures
        strs_to_vals(ps).len() == ps.len(),
        forall|i: int| 0 <= i < ps.len() ==> strs_to_vals(ps)[i] == SpecValue::String(
            #[trigger] ps[i],
        ),
    decreases ps,
{
    if ps.len() > 0 {
        lemma_strs_to_vals(ps.drop_first());
        assert forall|i: int|
            0 <= i < ps.len() implies strs_to_vals(ps)[i] == SpecValue::String(ps[i]) by {
            if i > 0 {
                assert(ps.drop_first()[i - 1] == ps[i]);
            }
        }
    }
}

/// The keys of an object's entries, as string values in order.
fn keys_values(es: &Vec<(String, Value)>) -> (r: Vec<Value>)
    ensures
        view_elems(r@) == keys_of(view_entries(es@)),
        elems_wf(r@),
{
    let mut out: Vec<Value> = Vec::new();
    let mut i: usize = 0;
    while i < es.len()
        invariant
            0 <= i <= es@.len(),
            out@.len() == i,
            forall|j: int| 0 <= j < i ==> #[trigger] out@[j]@ == SpecValue::String(es@[j].0@),
            forall|j: int| 0 <= j < i ==> val_wf(#[trigger] out@[j]),
        decreases es@.len() - i,
    {
        let (k, _) = &es[i];
        out.push(Value::String(k.clone()));
        i = i + 1;
    }
    proof {
        lemma_view_entries(es@);
        lemma_keys_of(view_entries(es@));
        lemma_view_elems(out@);
        assert forall|j: int|
            0 <= j < out@.len() implies view_elems(out@)[j] == keys_of(view_entries(es@))[j] by {
            assert(view_elems(out@)[j] == view_val(out@[j]));
            assert(out@[j]@ == SpecValue::String(es@[j].0@));
            assert(view_entries(es@)[j] == (es@[j].0@, view_val(es@[j].1)));
            assert(keys_of(view_entries(es@))[j] == SpecValue::String(view_entries(es@)[j].0));
        }
        assert(view_elems(out@) =~= keys_of(view_entries(es@)));
        lemma_elems_wf(out@);
    }
    out
}

/// The first occurrence of the nonempty `sep` in `s` at or after `from`.
fn find_sub_exec(s: &str, sep: &str, from: usize) -> (r: Option<usize>)
    requires
        from <= s@.len(),
        sep@.len() >= 1,
    ensures
        match r {
            Option::Some(d) => find_sub(s@, sep@, from as int) == d && from <= d && d + sep@.len()
                <= s@.len(),
            Option::None => find_sub(s@, sep@, from as int) == -1,
        },
{
    let slen = s.unicode_len();
    let seplen = sep.unicode_len();
    if seplen > slen {
        return None;
    }
    let mut i = from;
    while i <= slen - seplen
        invariant
            from <= i,
            i <= slen + 1,
            seplen <= slen,
            slen == s@.len(),
            seplen == sep@.len(),
            seplen >= 1,
            find_sub(s@, sep@, from as int) == find_sub(s@, sep@, i as int),
        decreases slen - i,
    {
        if crate::parser::p_tag(s, i, sep) {
            return Some(i);
        }
        i = i + 1;
    }
    None
}

/// Splits `s` at each occurrence of `sep` into string values; an empty
/// separator cuts at every character boundary.
fn split_values(s: &str, sep: &str) -> (r: Vec<Value>)
    ensures
        view_elems(r@) == strs_to_vals(spec_split(s@, sep@)),
        elems_wf(r@),
{
    let slen = s.unicode_len();
    let seplen = sep.unicode_len();
    let mut out: Vec<Value> = Vec::new();
    if seplen == 0 {
        out.push(Value::String(String::new()));
        let mut i: usize = 0;
        while i < slen
            invariant
                0 <= i <= slen,
                slen == s@.len(),
                out@.len() == i + 1,
                out@[0]@ == SpecValue::String(Seq::<char>::empty()),
                forall|j: int|
                    1 <= j < i + 1 ==> #[trigger] out@[j]@ == SpecValue::String(
                        seq![s@[j - 1]],
                    ),
                forall|j: int| 0 <= j < i + 1 ==> val_wf(#[trigger] out@[j]),
            decreases slen - i,
        {
            let piece = s.substring_char(i, i + 1);
            out.push(Value::String(String::from_str(piece)));
            proof {
                assert(piece@ =~= seq![s@[i as int]]);
            }
            i = i + 1;
        }
        out.push(Value::String(String::new()));
        proof {
            lemma_boundary_pieces(s@);
            lemma_strs_to_vals(spec_split(s@, sep@));
            lemma_view_elems(out@);
            assert(sep@.len() == 0);
            let target = spec_split(s@, sep@);
            assert(target == seq![Seq::<char>::empty()] + boundary_pieces(s@, 0));
            assert forall|j: int|
                0 <= j < out@.len() implies view_elems(out@)[j] == strs_to_vals(target)[j] by {
                assert(view_elems(out@)[j] == view_val(out@[j]));
                assert(strs_to_vals(target)[j] == SpecValue::String(target[j]));
                if j == 0 {
                    assert(target[0] == Seq::<char>::empty());
                } else if j < out@.len() - 1 {
                    assert(out@[j]@ == SpecValue::String(seq![s@[j - 1]]));
                    assert(target[j] == boundary_pieces(s@, 0)[j - 1]);
                    assert(boundary_pieces(s@, 0)[j - 1] == seq![s@[j - 1]]);
                } else {
                    assert(target[j] == boundary_pieces(s@, 0)[j - 1]);
                    assert(boundary_pieces(s@, 0)[s@.len() as int] == Seq::<char>::empty());
                }
            }
            assert(view_elems(out@) =~= strs_to_vals(target));
            lemma_elems_wf(out@);
        }
        return out;
    }
    let mut start: usize = 0;
    loop
        invariant
            0 <= start <= slen,
            slen == s@.len(),
            seplen == sep@.len(),
            seplen >= 1,
            elems_wf(out@),
            strs_to_vals(spec_split(s@, sep@)) == view_elems(out@) + strs_to_vals(
                split_from(s@, sep@, start as int),
            ),
        decreases slen - start,
    {
        match find_sub_exec(s, sep, start) {
            Option::Some(d) => {
                let piece = String::from_str(s.substring_char(start, d));
                let ghost old_out = out@;
                out.push(Value::String(piece));
                proof {
                    crate::value::lemma_view_elems_push(old_out, Value::String(piece));
                    crate::value::lemma_elems_wf_push(old_out, Value::String(piece));
                    let rest = split_from(s@, sep@, start as int);
                    assert(rest == seq![s@.subrange(start as int, d as int)] + split_from(
                        s@,
                        sep@,
                        d + sep@.len(),
                    ));
                    let tail = split_from(s@, sep@, d + sep@.len());
                    assert(rest[0] == s@.subrange(start as int, d as int));
                    assert(rest.drop_first() =~= tail);
                    assert(strs_to_vals(rest) == seq![
                        SpecValue::String(s@.subrange(start as int, d as int)),
                    ] + strs_to_vals(tail));
                    assert(view_elems(out@) + strs_to_vals(tail) =~= view_elems(old_out)
                        + strs_to_vals(rest));
                }
                start = d + seplen;
            },
            Option::None => {
                let piece = String::from_str(s.substring_char(start, slen));
                let ghost old_out = out@;
                out.push(Value::String(piece));
                proof {
                    crate::value::lemma_view_elems_push(old_out, Value::String(piece));
                    crate::value::lemma_elems_wf_push(old_out, Value::String(piece));
                    let rest = split_from(s@, sep@, start as int);
                    assert(rest == seq![s@.subrange(start as int, s@.len() as int)]);
                    assert(rest.drop_first() =~= Seq::<Seq<char>>::empty());
                    assert(strs_to_vals(Seq::<Seq<char>>::empty()) =~= Seq::<SpecValue>::empty());
                    assert(strs_to_vals(rest) =~= seq![
                        SpecValue::String(s@.subrange(start as int, s@.len() as int)),
                    ]);
                    assert(view_elems(out@) =~= view_elems(old_out) + strs_to_vals(rest));
                }
                return out;
            },
        }
    }
}

/// Pointwise description of the boundary pieces.
proof fn lemma_boundary_pieces(s: Seq<char>)
    ensures
        boundary_pieces(s, 0).len() == s.len() + 1,
        forall|j: int| 0 <= j < s.len() ==> boundary_pieces(s, 0)[j] == seq![#[trigger] s[j]],
        boundary_pieces(s, 0)[s.len() as int] == Seq::<char>::empty(),
{
    lemma_boundary_pieces_from(s, 0);
}

/// Pointwise description of [`boundary_pieces`] from position `i`.
proof fn lemma_boundary_pieces_from(s: Seq<char>, i: int)
    requires
        0 <= i <= s.len(),
    ensures
        boundary_pieces(s, i).len() == s.len() - i + 1,
        forall|j: int|
            0 <= j < s.len() - i ==> #[trigger] boundary_pieces(s, i)[j] == seq![s[i + j]],
        boundary_pieces(s, i)[s.len() - i] == Seq::<char>::empty(),
    decreases s.len() - i,
{
    if i < s.len() {
        lemma_boundary_pieces_from(s, i + 1);
    }
}

/// One evaluated argument extends the argument values.
proof fn lemma_eval_args_step(a: Seq<SpecExpr>, ctx: Map<Seq<char>, SpecValue>, i: int)
    requires
        0 <= i < a.len(),
    ensures
        eval_args_spec(a.skip(i), ctx) == (match eval_spec(a[i], ctx) {
            Result::Err(err) => Result::<Seq<SpecValue>, SpecError>::Err(err),
            Result::Ok(v) => match eval_args_spec(a.skip(i + 1), ctx) {
                Result::Err(err) => Err(err),
                Result::Ok(rest) => Ok(seq![v] + rest),
            },
        }),
{
    assert(a.skip(i)[0] == a[i]);
    assert(a.skip(i).drop_first() =~= a.skip(i + 1));
}

/// Evaluates a vector of argument expressions, left to right, failing fast.
pub(crate) fn eval_args_exec(args: &Vec<Expr>, context: &Context) -> (r: Result<Vec<Value>, Error>)
    requires
        crate::parser::args_wf(args@),
        context.wf(),
    ensures
        match r {
            Result::Ok(vs) => elems_wf(vs@) && eval_args_spec(
                crate::parser::view_args(args@),
                context@,
            ) == Result::<Seq<SpecValue>, SpecError>::Ok(view_elems(vs@)),
            Result::Err(e) => eval_args_spec(crate::parser::view_args(args@), context@)
                == Result::<Seq<SpecValue>, SpecError>::Err(e@),
        },
    decreases *args, 1int,
{
    let ghost ga = crate::parser::view_args(args@);
    proof {
        crate::parser::lemma_view_args(args@);
        assert(ga.skip(0) =~= ga);
    }
    let mut out: Vec<Value> = Vec::new();
    let mut i: usize = 0;
    while i < args.len()
        invariant
            0 <= i <= args@.len(),
            crate::parser::args_wf(args@),
            context.wf(),
            ga == crate::parser::view_args(args@),
            ga.len() == args@.len(),
            elems_wf(out@),
            eval_args_spec(ga, context@) == (match eval_args_spec(
                ga.skip(i as int),
                context@,
            ) {
                Result::Err(err) => Result::<Seq<SpecValue>, SpecError>::Err(err),
                Result::Ok(rest) => Ok(view_elems(out@) + rest),
            }),
        decreases args@.len() - i,
    {
        proof {
            crate::parser::lemma_args_wf(args@);
            crate::parser::lemma_view_args(args@);
            assert(decreases_to!(*args => args@));
            assert(decreases_to!(args@ => args@[i as int]));
        }
        match eval(&args[i], context) {
            Result::Err(e) => {
                proof {
                    lemma_eval_args_step(ga, context@, i as int);
                }
                return Err(e);
            },
            Result::Ok(v) => {
                let ghost old_out = out@;
                let ghost gv: Value = v;
                out.push(v);
                proof {
                    lemma_eval_args_step(ga, context@, i as int);
                    crate::value::lemma_view_elems_push(old_out, gv);
                    crate::value::lemma_elems_wf_push(old_out, gv);
                    assert forall|rest: Seq<SpecValue>|
                        view_elems(old_out) + (seq![gv@] + rest) =~= view_elems(out@)
                        + rest by {}
                }
                i = i + 1;
            },
        }
    }
    proof {
        assert(ga.skip(args@.len() as int).len() == 0);
        assert(view_elems(out@) + Seq::<SpecValue>::empty() =~= view_elems(out@));
    }
    Ok(out)
}

/// Applies one binary operator to two evaluated operands.
fn apply_bin_exec(op: BinOp, a: Value, b: Value) -> (r: Result<Value, Error>)
    requires
        val_wf(a),
        val_wf(b),
    ensures
        match r {
            Result::Ok(v) => val_wf(v) && apply_bin(op, a@, b@) == Result::<
                SpecValue,
                SpecError,
            >::Ok(v@),
            Result::Err(e) => apply_bin(op, a@, b@) == Result::<SpecValue, SpecError>::Err(e@),
        },
{
    match op {
        BinOp::Eq => Ok(Value::Boolean(a.value_eq(&b))),
        BinOp::NotEq => Ok(Value::Boolean(!a.value_eq(&b))),
        BinOp::Gt => match a.value_cmp(&b) {
            Option::Some(ord) => Ok(Value::Boolean(matches!(ord, core::cmp::Ordering::Greater))),
            Option::None => Err(
                Error::TypeError(String::from_str("Values of these types cannot be ordered")),
            ),
        },
        BinOp::Ge => match a.value_cmp(&b) {
            Option::Some(ord) => Ok(Value::Boolean(!matches!(ord, core::cmp::Ordering::Less))),
            Option::None => Err(
                Error::TypeError(String::from_str("Values of these types cannot be ordered")),
            ),
        },
        BinOp::Lt => match a.value_cmp(&b) {
            Option::Some(ord) => Ok(Value::Boolean(matches!(ord, core::cmp::Ordering::Less))),
            Option::None => Err(
                Error::TypeError(String::from_str("Values of these types cannot be ordered")),
            ),
        },
        BinOp::Le => match a.value_cmp(&b) {
            Option::Some(ord) => Ok(
                Value::Boolean(!matches!(ord, core::cmp::Ordering::Greater)),
            ),
            Option::None => Err(
                Error::TypeError(String::from_str("Values of these types cannot be ordered")),
            ),
        },
        BinOp::Dot => match (a, b) {
            (Value::Object(es), Value::Symbol(f)) => {
                proof {
                    lemma_entries_wf(es@);
                }
                match obj_get(&es, f.as_str()) {
                    Option::Some(v) => Ok(v.clone()),
                    Option::None => Err(Error::TypeError(field_not_found(f.as_str()))),
                }
            },
            _ => Err(
                Error::TypeError(
                    String::from_str("Dot operator requires an object and a field name"),
                ),
            ),
        },
        BinOp::Index => match (a, b) {
            (Value::Array(xs), Value::Number(n)) => {
                proof {
                    lemma_elems_wf(xs@);
                    lemma_view_elems(xs@);
                }
                let idx = n.trunc_index();
                if idx < xs.len() as u64 {
                    Ok(xs[idx as usize].clone())
                } else {
                    Err(Error::IndexOutOfBounds(index_out_of_bounds(idx)))
                }
            },
            (Value::String(sq), Value::Number(n)) => {
                let idx = n.trunc_index();
                if idx < sq.as_str().unicode_len() as u64 {
                    let piece = sq.as_str().substring_char(idx as usize, (idx as usize) + 1);
                    proof {
                        assert(piece@ =~= seq![sq@[idx as int]]);
                    }
                    Ok(Value::String(String::from_str(piece)))
                } else {
                    Err(Error::IndexOutOfBounds(index_out_of_bounds(idx)))
                }
            },
            (Value::Object(es), Value::String(k)) => {
                proof {
                    lemma_entries_wf(es@);
                }
                match obj_get(&es, k.as_str()) {
                    Option::Some(v) => Ok(v.clone()),
                    Option::None => Err(Error::TypeError(field_not_found(k.as_str()))),
                }
            },
            _ => Err(
                Error::TypeError(String::from_str("Index operator requires an array and a number")),
            ),
        },
        BinOp::Add => match (a, b) {
            (Value::Number(x), Value::Number(y)) => match x.try_add(&y) {
                Option::Some(n) => Ok(Value::Number(n)),
                Option::None => Err(
                    Error::TypeError(String::from_str("Arithmetic result is out of range")),
                ),
            },
            _ => Err(Error::TypeError(String::from_str("Arithmetic requires numbers"))),
        },
        BinOp::Sub => match (a, b) {
            (Value::Number(x), Value::Number(y)) => match x.try_sub(&y) {
                Option::Some(n) => Ok(Value::Number(n)),
                Option::None => Err(
                    Error::TypeError(String::from_str("Arithmetic result is out of range")),
                ),
            },
            _ => Err(Error::TypeError(String::from_str("Arithmetic requires numbers"))),
        },
        BinOp::Mul => match (a, b) {
            (Value::Number(x), Value::Number(y)) => match x.try_mul(&y) {
                Option::Some(n) => Ok(Value::Number(n)),
                Option::None => Err(
                    Error::TypeError(String::from_str("Arithmetic result is out of range")),
                ),
            },
            _ => Err(Error::TypeError(String::from_str("Arithmetic requires numbers"))),
        },
        BinOp::Div => match (a, b) {
            (Value::Number(x), Value::Number(y)) => {
                if y.is_zero() {
                    Err(Error::TypeError(String::from_str("Division by zero")))
                } else {
                    match x.try_div(&y) {
                        Option::Some(n) => Ok(Value::Number(n)),
                        Option::None => Err(
                            Error::TypeError(
                                String::from_str("Division has no exact result in range"),
                            ),
                        ),
                    }
                }
            },
            _ => Err(Error::TypeError(String::from_str("Arithmetic requires numbers"))),
        },
    }
}

/// The message of a missing-field failure.
fn field_not_found(f: &str) -> (r: String)
    ensures
        r@ == "Field '"@ + f@ + "' not found in object"@,
{
    let r = String::from_str("Field '").concat(f).concat("' not found in object");
    proof {
        assert(r@ =~= "Field '"@ + f@ + "' not found in object"@);
    }
    r
}

/// The message of an index-out-of-bounds failure.
fn index_out_of_bounds(idx: u64) -> (r: String)
    ensures
        r@ == "Index "@ + digits_of(idx as nat) + " is out of bounds"@,
{
    let ds = crate::num::digits_string(idx);
    let r = String::from_str("Index ").concat(ds.as_str()).concat(" is out of bounds");
    proof {
        assert(r@ =~= "Index "@ + digits_of(idx as nat) + " is out of bounds"@);
    }
    r
}

/// Applies one built-in function to its evaluated arguments.
fn apply_fn_exec(name: &String, vals: Vec<Value>) -> (r: Result<Value, Error>)
    requires
        elems_wf(vals@),
    ensures
        match r {
            Result::Ok(v) => val_wf(v) && apply_fn(name@, view_elems(vals@)) == Result::<
                SpecValue,
                SpecError,
            >::Ok(v@),
            Result::Err(e) => apply_fn(name@, view_elems(vals@)) == Result::<
                SpecValue,
                SpecError,
            >::Err(e@),
        },
{
    proof {
        lemma_view_elems(vals@);
        lemma_elems_wf(vals@);
        if vals@.len() >= 1 {
            assert(view_elems(vals@)[0] == vals@[0]@);
        }
        if vals@.len() >= 2 {
            assert(view_elems(vals@)[1] == vals@[1]@);
        }
        reveal_strlit("keys");
        reveal_strlit("len");
        reveal_strlit("split");
    }
    if str_eq(name.as_str(), "keys") {
        if vals.len() == 1 {
            match &vals[0] {
                Value::Object(es) => {
                    return Ok(Value::Array(keys_values(es)));
                },
                _ => {
                    return Err(
                        Error::TypeError(String::from_str("keys function requires an object")),
                    );
                },
            }
        }
        Err(Error::TypeError(String::from_str("keys function requires an object")))
    } else if str_eq(name.as_str(), "len") {
        if vals.len() == 1 {
            match &vals[0] {
                Value::String(sq) => {
                    let n = sq.as_str().unicode_len();
                    proof {
                        assert(view_elems(vals@)[0] == vals@[0]@);
                        assert(view_elems(vals@)[0]->String_0 == sq@);
                        assert(n as nat == sq@.len());
                        assert((n as u64) as int == sq@.len() as int);
                        assert(apply_fn(name@, view_elems(vals@)) == Result::<
                            SpecValue,
                            SpecError,
                        >::Ok(
                            SpecValue::Number(
                                SpecNum { m: view_elems(vals@)[0]->String_0.len() as int, s: 0 },
                            ),
                        ));
                    }
                    return Ok(Value::Number(Num::from_u64(n as u64)));
                },
                Value::Array(xs) => {
                    let n = xs.len();
                    proof {
                        assert(view_elems(vals@)[0] == vals@[0]@);
                        lemma_view_elems(xs@);
                        assert(view_elems(vals@)[0]->Array_0.len() == xs@.len());
                    }
                    return Ok(Value::Number(Num::from_u64(n as u64)));
                },
                _ => {
                    return Err(
                        Error::TypeError(
                            String::from_str("len function requires a string or array"),
                        ),
                    );
                },
            }
        }
        Err(Error::TypeError(String::from_str("len function requires a string or array")))
    } else if str_eq(name.as_str(), "split") {
        if vals.len() == 2 {
            match (&vals[0], &vals[1]) {
                (Value::String(sa), Value::String(sb)) => {
                    return Ok(Value::Array(split_values(sa.as_str(), sb.as_str())));
                },
                _ => {
                    return Err(
                        Error::TypeError(
                            String::from_str("split function requires a string and a separator"),
                        ),
                    );
                },
            }
        }
        Err(Error::TypeError(String::from_str("split function requires a string and a separator")))
    } else {
        let msg = String::from_str("Unknown function: ").concat(name.as_str());
        proof {
            assert(msg@ =~= "Unknown function: "@ + name@);
        }
        Err(Error::TypeError(msg))
    }
}

/// Evaluates one expression against a context.
///
/// Returns exactly what [`eval_spec`] denotes for the expression's and the
/// context's mirrors; the context is never changed.
pub fn eval(expr: &Expr, context: &Context) -> (r: Result<Value, Error>)
    requires
        crate::parser::expr_wf(*expr),
        context.wf(),
    ensures
        match r {
            Result::Ok(v) => val_wf(v) && eval_spec(expr@, context@) == Result::<
                SpecValue,
                SpecError,
            >::Ok(v@),
            Result::Err(e) => eval_spec(expr@, context@) == Result::<SpecValue, SpecError>::Err(
                e@,
            ),
        },
    decreases *expr, 0int,
{
    match expr {
        Expr::Value(v) => {
            proof {
                assert(eval_spec(expr@, context@) == Result::<SpecValue, SpecError>::Ok(
                    view_val(*v),
                ));
            }
            Ok(v.clone())
        },
        Expr::UnaryOp { op: UnaryOp::Dollar, expr: inner } => {
            proof {
                assert(expr@ == SpecExpr::Unary(
                    UnaryOp::Dollar,
                    Box::new(crate::parser::view_expr(**inner)),
                ));
            }
            match &**inner {
                Expr::Value(Value::Symbol(name)) => {
                    proof {
                        assert(crate::parser::view_expr(**inner) == SpecExpr::Value(
                            SpecValue::Symbol(name@),
                        ));
                    }
                    match context.lookup(name.as_str()) {
                        Option::Some(v) => Ok(v.clone()),
                        Option::None => Err(Error::UndefinedVariable(name.clone())),
                    }
                },
                _ => Err(Error::TypeError(String::from_str("Dollar operator requires a symbol"))),
            }
        },
        Expr::UnaryOp { op: UnaryOp::Not, expr: inner } => {
            proof {
                let ghost sv = *expr;
                assert(decreases_to!(sv => sv->UnaryOp_expr));
            }
            match eval(inner, context) {
                Result::Ok(Value::Boolean(b)) => Ok(Value::Boolean(!b)),
                Result::Ok(_) => Err(
                    Error::TypeError(String::from_str("Not operator requires a boolean")),
                ),
                Result::Err(e) => Err(e),
            }
        },
        Expr::BinaryOp { op, left, right } => {
            proof {
                let ghost sv = *expr;
                assert(decreases_to!(sv => sv->BinaryOp_left));
                assert(decreases_to!(sv => sv->BinaryOp_right));
            }
            match eval(left, context) {
                Result::Err(e) => Err(e),
                Result::Ok(lv) => match eval(right, context) {
                    Result::Err(e) => Err(e),
                    Result::Ok(rv) => apply_bin_exec(*op, lv, rv),
                },
            }
        },
        Expr::Function { name, args } => {
            proof {
                let ghost sv = *expr;
                assert(decreases_to!(sv => sv->Function_args));
            }
            match eval_args_exec(args, context) {
                Result::Err(e) => Err(e),
                Result::Ok(vals) => apply_fn_exec(name, vals),
            }
        },
    }
}

} // verus!