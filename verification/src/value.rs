//! The dynamically typed value model of the expression language.
//!
//! A [`Value`] is a string, an exact decimal number, a boolean, a symbol (an
//! unquoted identifier, distinct from a string), an object (a mapping from
//! string keys to values, kept sorted by key so iteration and comparison are
//! deterministic), or an array.
//!
//! Equality compares like variants structurally, with one deliberate
//! coercion: a string equals a number exactly when it is the number's
//! canonical decimal rendering.  Ordering is defined for like variants and
//! for string/number pairs (the string is read as a decimal first);
//! everything else is unordered and the caller reports a type error.

use vstd::prelude::*;
use crate::num::{spec_cmp, spec_num_text, spec_str_to_num, str_to_num, Num, SpecNum};

verus! {

/// One value of the expression language.
#[derive(Debug)]
pub enum Value {
    String(String),
    Number(Num),
    Boolean(bool),
    Symbol(String),
    Object(Vec<(String, Value)>),
    Array(Vec<Value>),
}

/// Mathematical mirror of [`Value`].
pub enum SpecValue {
    String(Seq<char>),
    Number(SpecNum),
    Boolean(bool),
    Symbol(Seq<char>),
    Object(Seq<(Seq<char>, SpecValue)>),
    Array(Seq<SpecValue>),
}

/// The mirror of a value.
pub open spec fn view_val(v: Value) -> SpecValue
    decreases v,
{
    match v {
        Value::String(s) => SpecValue::String(s@),
        Value::Number(n) => SpecValue::Number(n@),
        Value::Boolean(b) => SpecValue::Boolean(b),
        Value::Symbol(s) => SpecValue::Symbol(s@),
        Value::Object(o) => SpecValue::Object(view_entries(o@)),
        Value::Array(a) => SpecValue::Array(view_elems(a@)),
    }
}

/// The mirrors of a sequence of array elements.
pub open spec fn view_elems(a: Seq<Value>) -> Seq<SpecValue>
    decreases a,
{
    if a.len() == 0 {
        Seq::empty()
    } else {
        seq![view_val(a[0])] + view_elems(a.drop_first())
    }
}

/// The mirrors of a sequence of object entries.
pub open spec fn view_entries(es: Seq<(String, Value)>) -> Seq<(Seq<char>, SpecValue)>
    decreases es,
{
    if es.len() == 0 {
        Seq::empty()
    } else {
        seq![(es[0].0@, view_val(es[0].1))] + view_entries(es.drop_first())
    }
}

/// Pointwise description of [`view_elems`].
pub proof fn lemma_view_elems(a: Seq<Value>)
    ensures
        view_elems(a).len() == a.len(),
        forall|i: int| 0 <= i < a.len() ==> view_elems(a)[i] == view_val(#[trigger] a[i]),
    decreases a,
{
    if a.len() > 0 {
        lemma_view_elems(a.drop_first());
        assert forall|i: int| 0 <= i < a.len() implies view_elems(a)[i] == view_val(a[i]) by {
            if i > 0 {
                assert(a.drop_first()[i - 1] == a[i]);
            }
        }
    }
}

/// Pointwise description of [`view_entries`].
pub proof fn lemma_view_entries(es: Seq<(String, Value)>)
    ensures
        view_entries(es).len() == es.len(),
        forall|i: int|
            0 <= i < es.len() ==> view_entries(es)[i] == ((#[trigger] es[i]).0@, view_val(
                es[i].1,
            )),
    decreases es,
{
    if es.len() > 0 {
        lemma_view_entries(es.drop_first());
        assert forall|i: int|
            0 <= i < es.len() implies view_entries(es)[i] == (es[i].0@, view_val(es[i].1)) by {
            if i > 0 {
                assert(es.drop_first()[i - 1] == es[i]);
            }
        }
    }
}

impl View for Value {
    type V = SpecValue;

    open spec fn view(&self) -> SpecValue {
        view_val(*self)
    }
}

/// Three-way lexicographic comparison of character sequences by code point,
/// starting at position `i`.
pub open spec fn lex_cmp_from(a: Seq<char>, b: Seq<char>, i: int) -> core::cmp::Ordering
    decreases a.len() - i,
{
    if i < 0 {
        core::cmp::Ordering::Equal
    } else if i >= a.len() && i >= b.len() {
        core::cmp::Ordering::Equal
    } else if i >= a.len() {
        core::cmp::Ordering::Less
    } else if i >= b.len() {
        core::cmp::Ordering::Greater
    } else if (a[i] as u32) < (b[i] as u32) {
        core::cmp::Ordering::Less
    } else if (a[i] as u32) > (b[i] as u32) {
        core::cmp::Ordering::Greater
    } else {
        lex_cmp_from(a, b, i + 1)
    }
}

/// Three-way lexicographic comparison of character sequences.
pub open spec fn lex_cmp(a: Seq<char>, b: Seq<char>) -> core::cmp::Ordering {
    lex_cmp_from(a, b, 0)
}

/// Strict lexicographic order.
pub open spec fn lex_lt(a: Seq<char>, b: Seq<char>) -> bool {
    lex_cmp(a, b) == core::cmp::Ordering::Less
}

/// Compares two strings lexicographically by code point.
pub fn str_cmp(a: &str, b: &str) -> (r: core::cmp::Ordering)
    ensures
        r == lex_cmp(a@, b@),
{
    let alen = a.unicode_len();
    let blen = b.unicode_len();
    let mut i: usize = 0;
    loop
        invariant
            0 <= i,
            alen == a@.len(),
            blen == b@.len(),
            lex_cmp(a@, b@) == lex_cmp_from(a@, b@, i as int),
            i <= alen || i <= blen,
        decreases alen + blen - i,
    {
        if i >= alen && i >= blen {
            return core::cmp::Ordering::Equal;
        } else if i >= alen {
            return core::cmp::Ordering::Less;
        } else if i >= blen {
            return core::cmp::Ordering::Greater;
        }
        let ca = a.get_char(i) as u32;
        let cb = b.get_char(i) as u32;
        if ca < cb {
            return core::cmp::Ordering::Less;
        } else if ca > cb {
            return core::cmp::Ordering::Greater;
        }
        i = i + 1;
    }
}


/// The entries of an object are strictly sorted by key.
pub open spec fn entries_sorted(es: Seq<(Seq<char>, SpecValue)>) -> bool {
    forall|i: int| 0 <= i < es.len() - 1 ==> lex_lt(#[trigger] es[i].0, es[i + 1].0)
}

/// The keys of an object's entries are strictly sorted.
pub open spec fn keys_sorted(es: Seq<(String, Value)>) -> bool {
    forall|i: int| 0 <= i < es.len() - 1 ==> lex_lt((#[trigger] es[i]).0@, es[i + 1].0@)
}

/// The representation invariant of a value: numbers are normalized and in
/// range, object entries are strictly sorted by key (which also makes keys
/// unique), and both constraints hold recursively.
pub open spec fn val_wf(v: Value) -> bool
    decreases v,
{
    match v {
        Value::String(_) => true,
        Value::Number(n) => n.wf(),
        Value::Boolean(_) => true,
        Value::Symbol(_) => true,
        Value::Object(o) => entries_wf(o@) && keys_sorted(o@),
        Value::Array(a) => elems_wf(a@),
    }
}

/// Every element of the sequence is well formed.
pub open spec fn elems_wf(a: Seq<Value>) -> bool
    decreases a,
{
    a.len() == 0 || (val_wf(a[0]) && elems_wf(a.drop_first()))
}

/// Every entry's value is well formed.
pub open spec fn entries_wf(es: Seq<(String, Value)>) -> bool
    decreases es,
{
    es.len() == 0 || (val_wf(es[0].1) && entries_wf(es.drop_first()))
}

/// Pointwise description of [`elems_wf`].
pub proof fn lemma_elems_wf(a: Seq<Value>)
    ensures
        elems_wf(a) <==> (forall|i: int| 0 <= i < a.len() ==> val_wf(#[trigger] a[i])),
    decreases a,
{
    if a.len() > 0 {
        lemma_elems_wf(a.drop_first());
        assert forall|i: int|
            elems_wf(a) && 0 <= i < a.len() implies val_wf(#[trigger] a[i]) by {
            if i > 0 {
                assert(a.drop_first()[i - 1] == a[i]);
            }
        }
        if forall|i: int| 0 <= i < a.len() ==> val_wf(#[trigger] a[i]) {
            assert forall|i: int|
                0 <= i < a.drop_first().len() implies val_wf(#[trigger] a.drop_first()[i]) by {
                assert(a.drop_first()[i] == a[i + 1]);
            }
        }
    }
}

/// Pointwise description of [`entries_wf`].
pub proof fn lemma_entries_wf(es: Seq<(String, Value)>)
    ensures
        entries_wf(es) <==> (forall|i: int| 0 <= i < es.len() ==> val_wf((#[trigger] es[i]).1)),
    decreases es,
{
    if es.len() > 0 {
        lemma_entries_wf(es.drop_first());
        assert forall|i: int|
            entries_wf(es) && 0 <= i < es.len() implies val_wf((#[trigger] es[i]).1) by {
            if i > 0 {
                assert(es.drop_first()[i - 1] == es[i]);
            }
        }
        if forall|i: int| 0 <= i < es.len() ==> val_wf((#[trigger] es[i]).1) {
            assert forall|i: int|
                0 <= i < es.drop_first().len() implies val_wf(
                (#[trigger] es.drop_first()[i]).1,
            ) by {
                assert(es.drop_first()[i] == es[i + 1]);
            }
        }
    }
}

/// Equality of two values: like variants compare structurally (numbers by
/// value), and a string equals a number exactly when it is the number's
/// canonical rendering.  All other cross-variant pairs are unequal.
pub open spec fn val_eq(a: SpecValue, b: SpecValue) -> bool
    decreases a,
{
    match (a, b) {
        (SpecValue::String(x), SpecValue::String(y)) => x == y,
        (SpecValue::Number(x), SpecValue::Number(y)) => x.same_value(y),
        (SpecValue::Boolean(x), SpecValue::Boolean(y)) => x == y,
        (SpecValue::Symbol(x), SpecValue::Symbol(y)) => x == y,
        (SpecValue::Object(x), SpecValue::Object(y)) => spec_entries_eq(x, y),
        (SpecValue::Array(x), SpecValue::Array(y)) => spec_elems_eq(x, y),
        (SpecValue::String(s), SpecValue::Number(n)) => s == spec_num_text(n),
        (SpecValue::Number(n), SpecValue::String(s)) => spec_num_text(n) == s,
        _ => false,
    }
}

/// Pairwise equality of two element sequences.
pub open spec fn spec_elems_eq(x: Seq<SpecValue>, y: Seq<SpecValue>) -> bool
    decreases x,
{
    x.len() == y.len() && (x.len() == 0 || (val_eq(x[0], y[0]) && spec_elems_eq(
        x.drop_first(),
        y.drop_first(),
    )))
}

/// Pairwise equality of two entry sequences: keys identical, values equal.
pub open spec fn spec_entries_eq(
    x: Seq<(Seq<char>, SpecValue)>,
    y: Seq<(Seq<char>, SpecValue)>,
) -> bool
    decreases x,
{
    x.len() == y.len() && (x.len() == 0 || (x[0].0 == y[0].0 && val_eq(x[0].1, y[0].1)
        && spec_entries_eq(x.drop_first(), y.drop_first())))
}

/// Pointwise description of [`spec_elems_eq`].
pub proof fn lemma_elems_eq(x: Seq<SpecValue>, y: Seq<SpecValue>)
    ensures
        spec_elems_eq(x, y) <==> (x.len() == y.len() && forall|i: int|
            0 <= i < x.len() ==> val_eq(#[trigger] x[i], y[i])),
    decreases x,
{
    if x.len() > 0 && x.len() == y.len() {
        lemma_elems_eq(x.drop_first(), y.drop_first());
        if spec_elems_eq(x, y) {
            assert forall|i: int| 0 <= i < x.len() implies val_eq(#[trigger] x[i], y[i]) by {
                if i > 0 {
                    assert(x.drop_first()[i - 1] == x[i]);
                    assert(y.drop_first()[i - 1] == y[i]);
                }
            }
        }
        if x.len() == y.len() && forall|i: int| 0 <= i < x.len() ==> val_eq(#[trigger] x[i], y[i]) {
            assert forall|i: int|
                0 <= i < x.drop_first().len() implies val_eq(
                #[trigger] x.drop_first()[i],
                y.drop_first()[i],
            ) by {
                assert(x.drop_first()[i] == x[i + 1]);
                assert(y.drop_first()[i] == y[i + 1]);
            }
        }
    }
}

/// Pointwise description of [`spec_entries_eq`].
pub proof fn lemma_entries_eq(x: Seq<(Seq<char>, SpecValue)>, y: Seq<(Seq<char>, SpecValue)>)
    ensures
        spec_entries_eq(x, y) <==> (x.len() == y.len() && forall|i: int|
            0 <= i < x.len() ==> (#[trigger] x[i]).0 == y[i].0 && val_eq(x[i].1, y[i].1)),
    decreases x,
{
    if x.len() > 0 && x.len() == y.len() {
        lemma_entries_eq(x.drop_first(), y.drop_first());
        if spec_entries_eq(x, y) {
            assert forall|i: int|
                0 <= i < x.len() implies (#[trigger] x[i]).0 == y[i].0 && val_eq(
                x[i].1,
                y[i].1,
            ) by {
                if i > 0 {
                    assert(x.drop_first()[i - 1] == x[i]);
                    assert(y.drop_first()[i - 1] == y[i]);
                }
            }
        }
        if x.len() == y.len() && forall|i: int|
            0 <= i < x.len() ==> (#[trigger] x[i]).0 == y[i].0 && val_eq(x[i].1, y[i].1) {
            assert forall|i: int|
                0 <= i < x.drop_first().len() implies (#[trigger] x.drop_first()[i]).0
                == y.drop_first()[i].0 && val_eq(x.drop_first()[i].1, y.drop_first()[i].1) by {
                assert(x.drop_first()[i] == x[i + 1]);
                assert(y.drop_first()[i] == y[i + 1]);
            }
        }
    }
}

impl Value {
    /// Compares two values for equality under the rules of [`val_eq`].
    pub fn value_eq(&self, other: &Value) -> (r: bool)
        requires
            val_wf(*self),
            val_wf(*other),
        ensures
            r == val_eq(self@, other@),
        decreases *self,
    {
        match (self, other) {
            (Value::String(x), Value::String(y)) => x.eq(y),
            (Value::Number(x), Value::Number(y)) => x.num_eq(y),
            (Value::Boolean(x), Value::Boolean(y)) => x == y,
            (Value::Symbol(x), Value::Symbol(y)) => x.eq(y),
            (Value::Object(x), Value::Object(y)) => {
                proof {
                    let ghost sv = *self;
                    assert(decreases_to!(sv => sv->Object_0));
                    assert(sv->Object_0 == *x);
                }
                entries_eq_exec(x, y)
            },
            (Value::Array(x), Value::Array(y)) => {
                proof {
                    let ghost sv = *self;
                    assert(decreases_to!(sv => sv->Array_0));
                    assert(sv->Array_0 == *x);
                }
                elems_eq_exec(x, y)
            },
            (Value::String(s), Value::Number(n)) => {
                let t = n.to_text();
                s.eq(&t)
            },
            (Value::Number(n), Value::String(s)) => {
                let t = n.to_text();
                t.eq(s)
            },
            _ => false,
        }
    }
}

/// Pairwise equality of two entry vectors.
fn entries_eq_exec(x: &Vec<(String, Value)>, y: &Vec<(String, Value)>) -> (r: bool)
    requires
        entries_wf(x@),
        entries_wf(y@),
    ensures
        r == spec_entries_eq(view_entries(x@), view_entries(y@)),
    decreases *x,
{
    proof {
        lemma_view_entries(x@);
        lemma_view_entries(y@);
        lemma_entries_eq(view_entries(x@), view_entries(y@));
    }
    if x.len() != y.len() {
        return false;
    }
    let mut i: usize = 0;
    while i < x.len()
        invariant
            0 <= i <= x@.len() == y@.len(),
            entries_wf(x@),
            entries_wf(y@),
            forall|j: int|
                0 <= j < i ==> (#[trigger] x@[j]).0@ == y@[j].0@ && val_eq(
                    view_val(x@[j].1),
                    view_val(y@[j].1),
                ),
        ensures
            i <= x@.len(),
            i < x@.len() ==> x@[i as int].0@ != y@[i as int].0@ || !val_eq(
                view_val(x@[i as int].1),
                view_val(y@[i as int].1),
            ),
            i == x@.len() ==> forall|j: int|
                0 <= j < i ==> (#[trigger] x@[j]).0@ == y@[j].0@ && val_eq(
                    view_val(x@[j].1),
                    view_val(y@[j].1),
                ),
        decreases x@.len() - i,
    {
        let (ka, va) = &x[i];
        let (kb, vb) = &y[i];
        proof {
            lemma_entries_wf(x@);
            lemma_entries_wf(y@);
            assert(decreases_to!(*x => x@));
            assert(decreases_to!(x@ => x@[i as int]));
            assert(decreases_to!(x@[i as int] => x@[i as int].1));
        }
        if !ka.eq(kb) {
            break;
        }
        if !va.value_eq(vb) {
            break;
        }
        i = i + 1;
    }
    proof {
        lemma_view_entries(x@);
        lemma_view_entries(y@);
        lemma_entries_eq(view_entries(x@), view_entries(y@));
        if i < x@.len() {
            assert(view_entries(x@)[i as int] == (x@[i as int].0@, view_val(x@[i as int].1)));
            assert(view_entries(y@)[i as int] == (y@[i as int].0@, view_val(y@[i as int].1)));
            assert(!spec_entries_eq(view_entries(x@), view_entries(y@)));
        } else {
            assert forall|j: int|
                0 <= j < view_entries(x@).len() implies ((#[trigger] view_entries(x@)[j]).0
                == view_entries(y@)[j].0 && val_eq(
                view_entries(x@)[j].1,
                view_entries(y@)[j].1,
            )) by {
                assert(view_entries(x@)[j] == (x@[j].0@, view_val(x@[j].1)));
                assert(view_entries(y@)[j] == (y@[j].0@, view_val(y@[j].1)));
            }
            assert(spec_entries_eq(view_entries(x@), view_entries(y@)));
        }
    }
    i == x.len()
}

/// Pairwise equality of two element vectors.
fn elems_eq_exec(x: &Vec<Value>, y: &Vec<Value>) -> (r: bool)
    requires
        elems_wf(x@),
        elems_wf(y@),
    ensures
        r == spec_elems_eq(view_elems(x@), view_elems(y@)),
    decreases *x,
{
    proof {
        lemma_view_elems(x@);
        lemma_view_elems(y@);
        lemma_elems_eq(view_elems(x@), view_elems(y@));
    }
    if x.len() != y.len() {
        return false;
    }
    let mut i: usize = 0;
    while i < x.len()
        invariant
            0 <= i <= x@.len() == y@.len(),
            elems_wf(x@),
            elems_wf(y@),
            forall|j: int| 0 <= j < i ==> val_eq(view_val(#[trigger] x@[j]), view_val(y@[j])),
        ensures
            i <= x@.len(),
            i < x@.len() ==> !val_eq(view_val(x@[i as int]), view_val(y@[i as int])),
            i == x@.len() ==> forall|j: int|
                0 <= j < i ==> val_eq(view_val(#[trigger] x@[j]), view_val(y@[j])),
        decreases x@.len() - i,
    {
        proof {
            lemma_elems_wf(x@);
            lemma_elems_wf(y@);
            assert(decreases_to!(*x => x@));
            assert(decreases_to!(x@ => x@[i as int]));
        }
        if !x[i].value_eq(&y[i]) {
            break;
        }
        i = i + 1;
    }
    proof {
        lemma_view_elems(x@);
        lemma_view_elems(y@);
        lemma_elems_eq(view_elems(x@), view_elems(y@));
        if i < x@.len() {
            assert(view_elems(x@)[i as int] == view_val(x@[i as int]));
            assert(view_elems(y@)[i as int] == view_val(y@[i as int]));
            assert(!spec_elems_eq(view_elems(x@), view_elems(y@)));
        } else {
            assert forall|j: int|
                0 <= j < view_elems(x@).len() implies val_eq(
                #[trigger] view_elems(x@)[j],
                view_elems(y@)[j],
            ) by {
                assert(view_elems(x@)[j] == view_val(x@[j]));
                assert(view_elems(y@)[j] == view_val(y@[j]));
            }
            assert(spec_elems_eq(view_elems(x@), view_elems(y@)));
        }
    }
    i == x.len()
}

/// Order on booleans: false before true.
pub open spec fn bool_cmp(x: bool, y: bool) -> core::cmp::Ordering {
    if x == y {
        core::cmp::Ordering::Equal
    } else if !x {
        core::cmp::Ordering::Less
    } else {
        core::cmp::Ordering::Greater
    }
}

/// Order of two values, where defined: like variants compare naturally
/// (strings and symbols lexicographically, numbers by value, booleans false
/// before true, arrays element by element and then by length, objects by
/// their sorted key sequences and then by their values), and a string is
/// ordered against a number by reading it as a decimal first.  Every other
/// pairing, and a string that is no decimal, has no order.
pub open spec fn val_cmp(a: SpecValue, b: SpecValue) -> Option<core::cmp::Ordering>
    decreases a,
{
    match (a, b) {
        (SpecValue::String(x), SpecValue::String(y)) => Some(lex_cmp(x, y)),
        (SpecValue::Number(x), SpecValue::Number(y)) => Some(spec_cmp(x, y)),
        (SpecValue::Boolean(x), SpecValue::Boolean(y)) => Some(bool_cmp(x, y)),
        (SpecValue::Symbol(x), SpecValue::Symbol(y)) => Some(lex_cmp(x, y)),
        (SpecValue::Object(x), SpecValue::Object(y)) => match spec_keys_cmp(x, y) {
            core::cmp::Ordering::Equal => spec_vals_cmp(x, y),
            ord => Some(ord),
        },
        (SpecValue::Array(x), SpecValue::Array(y)) => spec_arr_cmp(x, y),
        (SpecValue::String(s), SpecValue::Number(n)) => match spec_str_to_num(s) {
            Option::Some(sn) => Some(spec_cmp(sn, n)),
            Option::None => None,
        },
        (SpecValue::Number(n), SpecValue::String(s)) => match spec_str_to_num(s) {
            Option::Some(sn) => Some(spec_cmp(n, sn)),
            Option::None => None,
        },
        _ => None,
    }
}

/// Order of two element sequences: element by element, then by length.
pub open spec fn spec_arr_cmp(x: Seq<SpecValue>, y: Seq<SpecValue>) -> Option<core::cmp::Ordering>
    decreases x,
{
    if x.len() == 0 && y.len() == 0 {
        Some(core::cmp::Ordering::Equal)
    } else if x.len() == 0 {
        Some(core::cmp::Ordering::Less)
    } else if y.len() == 0 {
        Some(core::cmp::Ordering::Greater)
    } else {
        match val_cmp(x[0], y[0]) {
            Option::Some(core::cmp::Ordering::Equal) => spec_arr_cmp(
                x.drop_first(),
                y.drop_first(),
            ),
            other => other,
        }
    }
}

/// Order of two sorted key sequences: key by key, then by length.
pub open spec fn spec_keys_cmp(
    x: Seq<(Seq<char>, SpecValue)>,
    y: Seq<(Seq<char>, SpecValue)>,
) -> core::cmp::Ordering
    decreases x,
{
    if x.len() == 0 && y.len() == 0 {
        core::cmp::Ordering::Equal
    } else if x.len() == 0 {
        core::cmp::Ordering::Less
    } else if y.len() == 0 {
        core::cmp::Ordering::Greater
    } else {
        match lex_cmp(x[0].0, y[0].0) {
            core::cmp::Ordering::Equal => spec_keys_cmp(x.drop_first(), y.drop_first()),
            ord => ord,
        }
    }
}

/// Order of two entry sequences by their values, entry by entry.
pub open spec fn spec_vals_cmp(
    x: Seq<(Seq<char>, SpecValue)>,
    y: Seq<(Seq<char>, SpecValue)>,
) -> Option<core::cmp::Ordering>
    decreases x,
{
    if x.len() == 0 || y.len() == 0 {
        Some(core::cmp::Ordering::Equal)
    } else {
        match val_cmp(x[0].1, y[0].1) {
            Option::Some(core::cmp::Ordering::Equal) => spec_vals_cmp(
                x.drop_first(),
                y.drop_first(),
            ),
            other => other,
        }
    }
}

impl Value {
    /// Compares two values under the rules of [`val_cmp`]; `None` when the
    /// pair has no defined order.
    pub fn value_cmp(&self, other: &Value) -> (r: Option<core::cmp::Ordering>)
        requires
            val_wf(*self),
            val_wf(*other),
        ensures
            r == val_cmp(self@, other@),
        decreases *self,
    {
        match (self, other) {
            (Value::String(x), Value::String(y)) => Some(str_cmp(x.as_str(), y.as_str())),
            (Value::Number(x), Value::Number(y)) => Some(x.num_cmp(y)),
            (Value::Boolean(x), Value::Boolean(y)) => {
                if x == y {
                    Some(core::cmp::Ordering::Equal)
                } else if !*x {
                    Some(core::cmp::Ordering::Less)
                } else {
                    Some(core::cmp::Ordering::Greater)
                }
            },
            (Value::Symbol(x), Value::Symbol(y)) => Some(str_cmp(x.as_str(), y.as_str())),
            (Value::Object(x), Value::Object(y)) => {
                proof {
                    let ghost sv = *self;
                    assert(decreases_to!(sv => sv->Object_0));
                    assert(sv->Object_0 == *x);
                }
                match keys_cmp_exec(x, y) {
                    core::cmp::Ordering::Equal => vals_cmp_exec(x, y),
                    ord => Some(ord),
                }
            },
            (Value::Array(x), Value::Array(y)) => {
                proof {
                    let ghost sv = *self;
                    assert(decreases_to!(sv => sv->Array_0));
                    assert(sv->Array_0 == *x);
                }
                arr_cmp_exec(x, y)
            },
            (Value::String(s), Value::Number(n)) => match str_to_num(s.as_str()) {
                Option::Some(sn) => Some(sn.num_cmp(n)),
                Option::None => None,
            },
            (Value::Number(n), Value::String(s)) => match str_to_num(s.as_str()) {
                Option::Some(sn) => Some(n.num_cmp(&sn)),
                Option::None => None,
            },
            _ => None,
        }
    }
}

/// Stepping the array comparison past an equal pair keeps its result.
proof fn lemma_arr_cmp_step(x: Seq<SpecValue>, y: Seq<SpecValue>, i: int)
    requires
        0 <= i < x.len(),
        i < y.len(),
        val_cmp(x[i], y[i]) == Some(core::cmp::Ordering::Equal),
    ensures
        spec_arr_cmp(x.skip(i), y.skip(i)) == spec_arr_cmp(x.skip(i + 1), y.skip(i + 1)),
{
    assert(x.skip(i)[0] == x[i]);
    assert(y.skip(i)[0] == y[i]);
    assert(x.skip(i).drop_first() =~= x.skip(i + 1));
    assert(y.skip(i).drop_first() =~= y.skip(i + 1));
}

/// Order of two element vectors, element by element and then by length.
fn arr_cmp_exec(x: &Vec<Value>, y: &Vec<Value>) -> (r: Option<core::cmp::Ordering>)
    requires
        elems_wf(x@),
        elems_wf(y@),
    ensures
        r == spec_arr_cmp(view_elems(x@), view_elems(y@)),
    decreases *x,
{
    let ghost gx = view_elems(x@);
    let ghost gy = view_elems(y@);
    proof {
        lemma_view_elems(x@);
        lemma_view_elems(y@);
        assert(gx.skip(0) =~= gx);
        assert(gy.skip(0) =~= gy);
    }
    let mut i: usize = 0;
    loop
        invariant
            0 <= i <= x@.len(),
            i <= y@.len(),
            elems_wf(x@),
            elems_wf(y@),
            gx == view_elems(x@),
            gy == view_elems(y@),
            gx.len() == x@.len(),
            gy.len() == y@.len(),
            spec_arr_cmp(gx, gy) == spec_arr_cmp(gx.skip(i as int), gy.skip(i as int)),
        decreases x@.len() - i,
    {
        if i >= x.len() && i >= y.len() {
            proof {
                assert(gx.skip(i as int).len() == 0);
                assert(gy.skip(i as int).len() == 0);
            }
            return Some(core::cmp::Ordering::Equal);
        } else if i >= x.len() {
            proof {
                assert(gx.skip(i as int).len() == 0);
                assert(gy.skip(i as int).len() > 0);
            }
            return Some(core::cmp::Ordering::Less);
        } else if i >= y.len() {
            proof {
                assert(gx.skip(i as int).len() > 0);
                assert(gy.skip(i as int).len() == 0);
            }
            return Some(core::cmp::Ordering::Greater);
        }
        proof {
            lemma_elems_wf(x@);
            lemma_elems_wf(y@);
            lemma_view_elems(x@);
            lemma_view_elems(y@);
            assert(decreases_to!(*x => x@));
            assert(decreases_to!(x@ => x@[i as int]));
            assert(gx.skip(i as int)[0] == gx[i as int]);
            assert(gy.skip(i as int)[0] == gy[i as int]);
        }
        let c = x[i].value_cmp(&y[i]);
        match c {
            Option::Some(core::cmp::Ordering::Equal) => {
                proof {
                    lemma_arr_cmp_step(gx, gy, i as int);
                }
                i = i + 1;
            },
            other => {
                return other;
            },
        }
    }
}

/// Stepping the key comparison past an equal pair keeps its result.
proof fn lemma_keys_cmp_step(
    x: Seq<(Seq<char>, SpecValue)>,
    y: Seq<(Seq<char>, SpecValue)>,
    i: int,
)
    requires
        0 <= i < x.len(),
        i < y.len(),
        lex_cmp(x[i].0, y[i].0) == core::cmp::Ordering::Equal,
    ensures
        spec_keys_cmp(x.skip(i), y.skip(i)) == spec_keys_cmp(x.skip(i + 1), y.skip(i + 1)),
{
    assert(x.skip(i)[0] == x[i]);
    assert(y.skip(i)[0] == y[i]);
    assert(x.skip(i).drop_first() =~= x.skip(i + 1));
    assert(y.skip(i).drop_first() =~= y.skip(i + 1));
}

/// Order of two entry vectors by their key sequences.
fn keys_cmp_exec(x: &Vec<(String, Value)>, y: &Vec<(String, Value)>) -> (r: core::cmp::Ordering)
    ensures
        r == spec_keys_cmp(view_entries(x@), view_entries(y@)),
{
    let ghost gx = view_entries(x@);
    let ghost gy = view_entries(y@);
    proof {
        lemma_view_entries(x@);
        lemma_view_entries(y@);
        assert(gx.skip(0) =~= gx);
        assert(gy.skip(0) =~= gy);
    }
    let mut i: usize = 0;
    loop
        invariant
            0 <= i <= x@.len(),
            i <= y@.len(),
            gx == view_entries(x@),
            gy == view_entries(y@),
            gx.len() == x@.len(),
            gy.len() == y@.len(),
            spec_keys_cmp(gx, gy) == spec_keys_cmp(gx.skip(i as int), gy.skip(i as int)),
        decreases x@.len() - i,
    {
        if i >= x.len() && i >= y.len() {
            return core::cmp::Ordering::Equal;
        } else if i >= x.len() {
            proof {
                assert(gx.skip(i as int).len() == 0);
                assert(gy.skip(i as int).len() > 0);
            }
            return core::cmp::Ordering::Less;
        } else if i >= y.len() {
            proof {
                assert(gx.skip(i as int).len() > 0);
                assert(gy.skip(i as int).len() == 0);
            }
            return core::cmp::Ordering::Greater;
        }
        proof {
            lemma_view_entries(x@);
            lemma_view_entries(y@);
            assert(gx.skip(i as int)[0] == gx[i as int]);
            assert(gy.skip(i as int)[0] == gy[i as int]);
        }
        let (ka, _) = &x[i];
        let (kb, _) = &y[i];
        match str_cmp(ka.as_str(), kb.as_str()) {
            core::cmp::Ordering::Equal => {
                proof {
                    lemma_keys_cmp_step(gx, gy, i as int);
                }
                i = i + 1;
            },
            ord => {
                return ord;
            },
        }
    }
}

/// Stepping the value comparison past an equal pair keeps its result.
proof fn lemma_vals_cmp_step(
    x: Seq<(Seq<char>, SpecValue)>,
    y: Seq<(Seq<char>, SpecValue)>,
    i: int,
)
    requires
        0 <= i < x.len(),
        i < y.len(),
        val_cmp(x[i].1, y[i].1) == Some(core::cmp::Ordering::Equal),
    ensures
        spec_vals_cmp(x.skip(i), y.skip(i)) == spec_vals_cmp(x.skip(i + 1), y.skip(i + 1)),
{
    assert(x.skip(i)[0] == x[i]);
    assert(y.skip(i)[0] == y[i]);
    assert(x.skip(i).drop_first() =~= x.skip(i + 1));
    assert(y.skip(i).drop_first() =~= y.skip(i + 1));
}

/// Order of two entry vectors by their values, entry by entry.
fn vals_cmp_exec(x: &Vec<(String, Value)>, y: &Vec<(String, Value)>) -> (r: Option<
    core::cmp::Ordering,
>)
    requires
        entries_wf(x@),
        entries_wf(y@),
    ensures
        r == spec_vals_cmp(view_entries(x@), view_entries(y@)),
    decreases *x,
{
    let ghost gx = view_entries(x@);
    let ghost gy = view_entries(y@);
    proof {
        lemma_view_entries(x@);
        lemma_view_entries(y@);
        assert(gx.skip(0) =~= gx);
        assert(gy.skip(0) =~= gy);
    }
    let mut i: usize = 0;
    loop
        invariant
            0 <= i <= x@.len(),
            i <= y@.len(),
            entries_wf(x@),
            entries_wf(y@),
            gx == view_entries(x@),
            gy == view_entries(y@),
            gx.len() == x@.len(),
            gy.len() == y@.len(),
            spec_vals_cmp(gx, gy) == spec_vals_cmp(gx.skip(i as int), gy.skip(i as int)),
        decreases x@.len() - i,
    {
        if i >= x.len() || i >= y.len() {
            proof {
                assert(gx.skip(i as int).len() == 0 || gy.skip(i as int).len() == 0);
            }
            return Some(core::cmp::Ordering::Equal);
        }
        proof {
            lemma_entries_wf(x@);
            lemma_entries_wf(y@);
            lemma_view_entries(x@);
            lemma_view_entries(y@);
            assert(decreases_to!(*x => x@));
            assert(decreases_to!(x@ => x@[i as int]));
            assert(decreases_to!(x@[i as int] => x@[i as int].1));
            assert(gx.skip(i as int)[0] == gx[i as int]);
            assert(gy.skip(i as int)[0] == gy[i as int]);
        }
        let (_, va) = &x[i];
        let (_, vb) = &y[i];
        match va.value_cmp(vb) {
            Option::Some(core::cmp::Ordering::Equal) => {
                proof {
                    lemma_vals_cmp_step(gx, gy, i as int);
                }
                i = i + 1;
            },
            other => {
                return other;
            },
        }
    }
}

impl Clone for Value {
    /// A deep copy with the same mirror, preserving well-formedness.
    fn clone(&self) -> (res: Self)
        ensures
            res@ == self@,
            val_wf(*self) ==> val_wf(res),
        decreases *self,
    {
        match self {
            Value::String(s) => Value::String(s.clone()),
            Value::Number(n) => Value::Number(*n),
            Value::Boolean(b) => Value::Boolean(*b),
            Value::Symbol(s) => Value::Symbol(s.clone()),
            Value::Object(o) => {
                let mut out: Vec<(String, Value)> = Vec::new();
                let mut i: usize = 0;
                while i < o.len()
                    invariant
                        0 <= i <= o@.len(),
                        *self == Value::Object(*o),
                        out@.len() == i,
                        forall|j: int|
                            0 <= j < i ==> (#[trigger] out@[j]).0@ == o@[j].0@ && out@[j].1@
                                == o@[j].1@ && (val_wf(o@[j].1) ==> val_wf(out@[j].1)),
                    decreases o@.len() - i,
                {
                    let (k, v) = &o[i];
                    proof {
                        let ghost sv = *self;
                        assert(decreases_to!(sv => sv->Object_0));
                        assert(sv->Object_0 == *o);
                        assert(decreases_to!(*o => o@));
                        assert(decreases_to!(o@ => o@[i as int]));
                        assert(decreases_to!(o@[i as int] => o@[i as int].1));
                    }
                    let nv = v.clone();
                    out.push((k.clone(), nv));
                    i = i + 1;
                }
                proof {
                    lemma_view_entries(out@);
                    lemma_view_entries(o@);
                    assert forall|j: int|
                        0 <= j < out@.len() implies view_entries(out@)[j] == view_entries(
                        o@,
                    )[j] by {
                        assert(out@[j].0@ == o@[j].0@);
                        assert(out@[j].1@ == o@[j].1@);
                    }
                    assert(view_entries(out@) =~= view_entries(o@));
                    if val_wf(*self) {
                        lemma_entries_wf(o@);
                        lemma_entries_wf(out@);
                        assert(keys_sorted(out@));
                    }
                }
                Value::Object(out)
            },
            Value::Array(a) => {
                let mut out: Vec<Value> = Vec::new();
                let mut i: usize = 0;
                while i < a.len()
                    invariant
                        0 <= i <= a@.len(),
                        *self == Value::Array(*a),
                        out@.len() == i,
                        forall|j: int|
                            0 <= j < i ==> (#[trigger] out@[j])@ == a@[j]@ && (val_wf(a@[j])
                                ==> val_wf(out@[j])),
                    decreases a@.len() - i,
                {
                    proof {
                        let ghost sv = *self;
                        assert(decreases_to!(sv => sv->Array_0));
                        assert(sv->Array_0 == *a);
                        assert(decreases_to!(*a => a@));
                        assert(decreases_to!(a@ => a@[i as int]));
                    }
                    let nv = a[i].clone();
                    out.push(nv);
                    i = i + 1;
                }
                proof {
                    lemma_view_elems(out@);
                    lemma_view_elems(a@);
                    assert forall|j: int|
                        0 <= j < out@.len() implies view_elems(out@)[j] == view_elems(a@)[j] by {
                        assert(out@[j]@ == a@[j]@);
                    }
                    assert(view_elems(out@) =~= view_elems(a@));
                    if val_wf(*self) {
                        lemma_elems_wf(a@);
                        lemma_elems_wf(out@);
                    }
                }
                Value::Array(out)
            },
        }
    }
}

/// Appending an element appends its mirror.
pub proof fn lemma_view_elems_push(a: Seq<Value>, x: Value)
    ensures
        view_elems(a.push(x)) == view_elems(a).push(view_val(x)),
{
    lemma_view_elems(a);
    lemma_view_elems(a.push(x));
    assert forall|i: int|
        0 <= i < a.push(x).len() implies view_elems(a.push(x))[i] == view_elems(a).push(
        view_val(x),
    )[i] by {
        if i < a.len() {
            assert(a.push(x)[i] == a[i]);
        } else {
            assert(a.push(x)[i] == x);
        }
    }
    assert(view_elems(a.push(x)) =~= view_elems(a).push(view_val(x)));
}

/// Appending a well-formed element keeps the sequence well formed.
pub proof fn lemma_elems_wf_push(a: Seq<Value>, x: Value)
    requires
        elems_wf(a),
        val_wf(x),
    ensures
        elems_wf(a.push(x)),
{
    lemma_elems_wf(a);
    lemma_elems_wf(a.push(x));
    assert forall|i: int| 0 <= i < a.push(x).len() implies val_wf(#[trigger] a.push(x)[i]) by {
        if i < a.len() {
            assert(a.push(x)[i] == a[i]);
        } else {
            assert(a.push(x)[i] == x);
        }
    }
}

/// Whether two strings hold the same characters.
pub fn str_eq(a: &str, b: &str) -> (r: bool)
    ensures
        r == (a@ == b@),
{
    let alen = a.unicode_len();
    let blen = b.unicode_len();
    if alen != blen {
        return false;
    }
    let mut i: usize = 0;
    while i < alen
        invariant
            0 <= i <= alen,
            alen == a@.len() == b@.len(),
            forall|k: int| 0 <= k < i ==> a@[k] == b@[k],
        decreases alen - i,
    {
        if a.get_char(i) != b.get_char(i) {
            return false;
        }
        i = i + 1;
    }
    proof {
        assert(a@ =~= b@);
    }
    true
}

/// Comparing a sequence with itself from any position yields equality.
proof fn lemma_lex_refl(a: Seq<char>, i: int)
    ensures
        lex_cmp_from(a, a, i) == core::cmp::Ordering::Equal,
    decreases a.len() - i,
{
    if 0 <= i < a.len() {
        lemma_lex_refl(a, i + 1);
    }
}

/// Equal comparison means equal sequences.
proof fn lemma_lex_from_eq(a: Seq<char>, b: Seq<char>, i: int)
    requires
        0 <= i <= a.len(),
        i <= b.len(),
        lex_cmp_from(a, b, i) == core::cmp::Ordering::Equal,
    ensures
        a.len() == b.len(),
        forall|j: int| i <= j < a.len() ==> a[j] == b[j],
    decreases a.len() - i,
{
    if i < a.len() && i < b.len() {
        assert((a[i] as u32) == (b[i] as u32));
        vstd::utf8::char_u32_cast(a[i], a[i] as u32);
        vstd::utf8::char_u32_cast(b[i], b[i] as u32);
        assert(a[i] == b[i]);
        lemma_lex_from_eq(a, b, i + 1);
    }
}

/// The comparison is equality exactly on equal sequences.
pub proof fn lemma_lex_eq(a: Seq<char>, b: Seq<char>)
    ensures
        (lex_cmp(a, b) == core::cmp::Ordering::Equal) <==> a == b,
{
    if lex_cmp(a, b) == core::cmp::Ordering::Equal {
        lemma_lex_from_eq(a, b, 0);
        assert(a =~= b);
    }
    if a == b {
        lemma_lex_refl(a, 0);
    }
}

/// Swapping the sides swaps less and greater.
proof fn lemma_lex_from_antisym(a: Seq<char>, b: Seq<char>, i: int)
    ensures
        (lex_cmp_from(a, b, i) == core::cmp::Ordering::Less) <==> (lex_cmp_from(b, a, i)
            == core::cmp::Ordering::Greater),
    decreases a.len() + b.len() - i,
{
    if 0 <= i && (i < a.len() || i < b.len()) {
        if i < a.len() && i < b.len() && (a[i] as u32) == (b[i] as u32) {
            lemma_lex_from_antisym(a, b, i + 1);
        }
    }
}

/// Swapping the sides swaps less and greater.
pub proof fn lemma_lex_antisym(a: Seq<char>, b: Seq<char>)
    ensures
        (lex_cmp(a, b) == core::cmp::Ordering::Less) <==> (lex_cmp(b, a)
            == core::cmp::Ordering::Greater),
{
    lemma_lex_from_antisym(a, b, 0);
}

/// The strict order is transitive.
proof fn lemma_lex_from_trans(a: Seq<char>, b: Seq<char>, c: Seq<char>, i: int)
    requires
        0 <= i,
        lex_cmp_from(a, b, i) == core::cmp::Ordering::Less,
        lex_cmp_from(b, c, i) == core::cmp::Ordering::Less,
    ensures
        lex_cmp_from(a, c, i) == core::cmp::Ordering::Less,
    decreases a.len() - i,
{
    if i < a.len() && i < b.len() && i < c.len() && (a[i] as u32) == (b[i] as u32) && (b[i] as u32)
        == (c[i] as u32) {
        lemma_lex_from_trans(a, b, c, i + 1);
    }
}

/// The strict order is transitive.
pub proof fn lemma_lex_trans(a: Seq<char>, b: Seq<char>, c: Seq<char>)
    requires
        lex_lt(a, b),
        lex_lt(b, c),
    ensures
        lex_lt(a, c),
{
    lemma_lex_from_trans(a, b, c, 0);
}

/// In a sorted entry sequence every earlier key is strictly below every
/// later one; in particular all keys are distinct.
pub proof fn lemma_sorted_pairwise(es: Seq<(Seq<char>, SpecValue)>, i: int, j: int)
    requires
        entries_sorted(es),
        0 <= i < j < es.len(),
    ensures
        lex_lt(es[i].0, es[j].0),
        es[i].0 != es[j].0,
    decreases j - i,
{
    if j == i + 1 {
    } else {
        lemma_sorted_pairwise(es, i, j - 1);
        lemma_lex_trans(es[i].0, es[j - 1].0, es[j].0);
    }
    lemma_lex_eq(es[i].0, es[j].0);
}

/// A key found by lookup occurs in the sequence.
proof fn lemma_get_means_present(es: Seq<(Seq<char>, SpecValue)>, k: Seq<char>)
    requires
        spec_obj_get(es, k) is Some,
    ensures
        exists|i: int| 0 <= i < es.len() && (#[trigger] es[i]).0 == k,
    decreases es,
{
    if es.len() > 0 && es[0].0 != k {
        lemma_get_means_present(es.drop_first(), k);
        let i = choose|i: int|
            0 <= i < es.drop_first().len() && (#[trigger] es.drop_first()[i]).0 == k;
        assert(es[i + 1] == es.drop_first()[i]);
    }
}

/// Equality of two values is determined by their mirrors, so the same fields
/// give equal objects regardless of how they were assembled: two sorted
/// objects with the same keys and pairwise-equal values are equal.
pub proof fn lemma_object_extensional(
    x: Seq<(Seq<char>, SpecValue)>,
    y: Seq<(Seq<char>, SpecValue)>,
)
    requires
        entries_sorted(x),
        entries_sorted(y),
        forall|k: Seq<char>|
            (#[trigger] spec_obj_get(x, k)) is Some <==> (#[trigger] spec_obj_get(y, k)) is Some,
        forall|k: Seq<char>|
            (#[trigger] spec_obj_get(x, k)) is Some && spec_obj_get(y, k) is Some ==> val_eq(
                spec_obj_get(x, k)->Some_0,
                spec_obj_get(y, k)->Some_0,
            ),
    ensures
        val_eq(SpecValue::Object(x), SpecValue::Object(y)),
    decreases x,
{
    if x.len() == 0 && y.len() == 0 {
        assert(spec_entries_eq(x, y));
    } else if x.len() == 0 {
        assert(spec_obj_get(y, y[0].0) is Some);
        assert(spec_obj_get(x, y[0].0) is None);
        assert(false);
    } else if y.len() == 0 {
        assert(spec_obj_get(x, x[0].0) is Some);
        assert(spec_obj_get(y, x[0].0) is None);
        assert(false);
    } else {
        // the heads carry the same key
        assert(spec_obj_get(x, x[0].0) == Some(x[0].1));
        assert(spec_obj_get(y, y[0].0) == Some(y[0].1));
        if x[0].0 != y[0].0 {
            assert(spec_obj_get(y, x[0].0) is Some);
            lemma_get_means_present(y, x[0].0);
            let j = choose|j: int| 0 <= j < y.len() && (#[trigger] y[j]).0 == x[0].0;
            assert(j > 0);
            lemma_sorted_pairwise(y, 0, j);
            assert(lex_lt(y[0].0, x[0].0));
            assert(spec_obj_get(x, y[0].0) is Some);
            lemma_get_means_present(x, y[0].0);
            let i = choose|i: int| 0 <= i < x.len() && (#[trigger] x[i]).0 == y[0].0;
            assert(i > 0);
            lemma_sorted_pairwise(x, 0, i);
            assert(lex_lt(x[0].0, y[0].0));
            lemma_lex_trans(x[0].0, y[0].0, x[0].0);
            lemma_lex_eq(x[0].0, x[0].0);
            assert(false);
        }
        assert(val_eq(x[0].1, y[0].1));
        // the tails satisfy the same hypotheses
        let xt = x.drop_first();
        let yt = y.drop_first();
        assert forall|i: int| 0 <= i < xt.len() - 1 implies lex_lt(
            (#[trigger] xt[i]).0,
            xt[i + 1].0,
        ) by {
            assert(xt[i] == x[i + 1]);
            assert(xt[i + 1] == x[i + 2]);
        }
        assert forall|i: int| 0 <= i < yt.len() - 1 implies lex_lt(
            (#[trigger] yt[i]).0,
            yt[i + 1].0,
        ) by {
            assert(yt[i] == y[i + 1]);
            assert(yt[i + 1] == y[i + 2]);
        }
        assert forall|k: Seq<char>|
            (#[trigger] spec_obj_get(xt, k)) is Some <==> (#[trigger] spec_obj_get(
                yt,
                k,
            )) is Some by {
            lemma_tail_get(x, k);
            lemma_tail_get(y, k);
        }
        assert forall|k: Seq<char>|
            (#[trigger] spec_obj_get(xt, k)) is Some && spec_obj_get(yt, k) is Some implies
            val_eq(spec_obj_get(xt, k)->Some_0, spec_obj_get(yt, k)->Some_0) by {
            lemma_tail_get(x, k);
            lemma_tail_get(y, k);
        }
        lemma_object_extensional(xt, yt);
        assert(spec_entries_eq(xt, yt));
        assert(spec_entries_eq(x, y));
    }
}

/// Lookup in the tail of a sorted sequence: the head's key is gone, every
/// other key resolves as before.
proof fn lemma_tail_get(es: Seq<(Seq<char>, SpecValue)>, k: Seq<char>)
    requires
        entries_sorted(es),
        es.len() > 0,
    ensures
        k == es[0].0 ==> spec_obj_get(es.drop_first(), k) is None,
        k != es[0].0 ==> spec_obj_get(es.drop_first(), k) == spec_obj_get(es, k),
{
    if k == es[0].0 {
        if spec_obj_get(es.drop_first(), k) is Some {
            lemma_get_means_present(es.drop_first(), k);
            let i = choose|i: int|
                0 <= i < es.drop_first().len() && (#[trigger] es.drop_first()[i]).0 == k;
            assert(es[i + 1] == es.drop_first()[i]);
            lemma_sorted_pairwise(es, 0, i + 1);
            assert(false);
        }
    }
}

/// A rendered number equals the number it renders, and no other cross-variant
/// pair is ever equal: the string/number coercion is exactly the canonical
/// rendering.
pub proof fn lemma_string_number_coercion(n: SpecNum)
    ensures
        val_eq(SpecValue::String(spec_num_text(n)), SpecValue::Number(n)),
        val_eq(SpecValue::Number(n), SpecValue::String(spec_num_text(n))),
{
}

/// Every cross-variant pair other than a string and a number compares
/// unequal.
pub proof fn lemma_cross_variant_unequal(a: SpecValue, b: SpecValue)
    requires
        !(a is String && b is String),
        !(a is Number && b is Number),
        !(a is Boolean && b is Boolean),
        !(a is Symbol && b is Symbol),
        !(a is Object && b is Object),
        !(a is Array && b is Array),
        !(a is String && b is Number),
        !(a is Number && b is String),
    ensures
        !val_eq(a, b),
{
}

/// The sorted entry sequence that binds `k` to `v` and every other key as
/// `es` binds it.
pub open spec fn spec_entry_insert(
    es: Seq<(Seq<char>, SpecValue)>,
    k: Seq<char>,
    v: SpecValue,
) -> Seq<(Seq<char>, SpecValue)>
    decreases es,
{
    if es.len() == 0 {
        seq![(k, v)]
    } else if lex_lt(k, es[0].0) {
        seq![(k, v)] + es
    } else if k == es[0].0 {
        seq![(k, v)] + es.drop_first()
    } else {
        seq![es[0]] + spec_entry_insert(es.drop_first(), k, v)
    }
}

/// Binds `key` to `value` among sorted object entries, keeping the entries
/// sorted and the keys unique.  This is the one constructor of object
/// contents; building objects with it keeps them well formed.
pub fn obj_set(entries: Vec<(String, Value)>, key: String, value: Value) -> (r: Vec<
    (String, Value),
>)
    requires
        entries_wf(entries@),
        keys_sorted(entries@),
        val_wf(value),
    ensures
        entries_wf(r@),
        keys_sorted(r@),
        view_entries(r@) == spec_entry_insert(view_entries(entries@), key@, value@),
    decreases entries@.len(),
{
    let mut entries = entries;
    let ghost orig = entries@;
    if entries.len() == 0 {
        let ghost gkey = key@;
        let ghost gval = value@;
        entries.push((key, value));
        proof {
            assert(entries@.drop_first() =~= Seq::<(String, Value)>::empty());
            assert(entries_wf(Seq::<(String, Value)>::empty()));
            assert(entries_wf(entries@));
            lemma_view_entries(entries@);
            assert(view_entries(orig) =~= Seq::<(Seq<char>, SpecValue)>::empty());
            assert(entries@[0].0@ == gkey);
            assert(entries@[0].1@ == gval);
            assert(view_entries(entries@) =~= seq![(gkey, gval)]);
            assert(view_entries(entries@) =~= spec_entry_insert(view_entries(orig), gkey, gval));
        }
        return entries;
    }
    let c = {
        let (k0, _) = &entries[0];
        str_cmp(key.as_str(), k0.as_str())
    };
    proof {
        lemma_view_entries(orig);
        lemma_lex_eq(key@, orig[0].0@);
    }
    match c {
        core::cmp::Ordering::Less => {
            let ghost gkey = key@;
            let ghost gval = value@;
            entries.insert(0, (key, value));
            proof {
                assert(entries@.drop_first() =~= orig);
                lemma_view_entries(entries@);
                assert(view_entries(entries@) =~= seq![(gkey, gval)] + view_entries(orig));
                lemma_entries_wf(orig);
                lemma_entries_wf(entries@);
                assert forall|i: int|
                    0 <= i < entries@.len() - 1 implies lex_lt(
                    (#[trigger] entries@[i]).0@,
                    entries@[i + 1].0@,
                ) by {
                    if i > 0 {
                        assert(entries@[i] == orig[i - 1]);
                        assert(entries@[i + 1] == orig[i]);
                    }
                }
            }
            entries
        },
        core::cmp::Ordering::Equal => {
            let ghost gkey = key@;
            let ghost gval = value@;
            entries.set(0, (key, value));
            proof {
                assert(entries@.drop_first() =~= orig.drop_first());
                lemma_view_entries(entries@);
                lemma_view_entries(orig.drop_first());
                assert(view_entries(orig).drop_first() =~= view_entries(orig.drop_first())) by {
                    lemma_view_entries(orig);
                    assert forall|i: int|
                        0 <= i < orig.drop_first().len() implies view_entries(
                        orig,
                    ).drop_first()[i] == view_entries(orig.drop_first())[i] by {
                        assert(orig.drop_first()[i] == orig[i + 1]);
                    }
                }
                assert(view_entries(entries@) =~= seq![(gkey, gval)] + view_entries(
                    orig.drop_first(),
                ));
                lemma_entries_wf(orig);
                lemma_entries_wf(entries@);
                assert forall|i: int|
                    0 <= i < entries@.len() - 1 implies lex_lt(
                    (#[trigger] entries@[i]).0@,
                    entries@[i + 1].0@,
                ) by {
                    assert(entries@[i + 1] == orig[i + 1]);
                    if i > 0 {
                        assert(entries@[i] == orig[i]);
                    } else {
                        assert(lex_lt(orig[0].0@, orig[1].0@));
                    }
                }
            }
            entries
        },
        core::cmp::Ordering::Greater => {
            proof {
                lemma_lex_antisym(orig[0].0@, key@);
                assert(lex_lt(orig[0].0@, key@));
            }
            let head = entries.remove(0);
            let ghost ghead: (String, Value) = head;
            proof {
                assert(entries@ =~= orig.drop_first());
                lemma_entries_wf(orig);
                lemma_entries_wf(orig.drop_first());
                assert forall|i: int|
                    0 <= i < orig.drop_first().len() implies val_wf(
                    (#[trigger] orig.drop_first()[i]).1,
                ) by {
                    assert(orig.drop_first()[i] == orig[i + 1]);
                }
                assert forall|i: int|
                    0 <= i < orig.drop_first().len() - 1 implies lex_lt(
                    (#[trigger] orig.drop_first()[i]).0@,
                    orig.drop_first()[i + 1].0@,
                ) by {
                    assert(orig.drop_first()[i] == orig[i + 1]);
                    assert(orig.drop_first()[i + 1] == orig[i + 2]);
                }
            }
            let ghost gkey = key@;
            let ghost gval = value@;
            let mut rest = obj_set(entries, key, value);
            let ghost grest = rest@;
            rest.insert(0, head);
            proof {
                assert(rest@.drop_first() =~= grest);
                assert(rest@[0] == ghead);
                lemma_view_entries(rest@);
                lemma_view_entries(grest);
                assert(view_entries(rest@) =~= seq![(ghead.0@, view_val(ghead.1))] + view_entries(
                    grest,
                ));
                assert(view_entries(orig).drop_first() =~= view_entries(orig.drop_first())) by {
                    lemma_view_entries(orig);
                    lemma_view_entries(orig.drop_first());
                    assert forall|i: int|
                        0 <= i < orig.drop_first().len() implies view_entries(
                        orig,
                    ).drop_first()[i] == view_entries(orig.drop_first())[i] by {
                        assert(orig.drop_first()[i] == orig[i + 1]);
                    }
                }
                assert(spec_entry_insert(view_entries(orig), gkey, gval) == seq![
                    view_entries(orig)[0],
                ] + spec_entry_insert(view_entries(orig).drop_first(), gkey, gval)) by {
                    lemma_view_entries(orig);
                    assert(view_entries(orig)[0] == (orig[0].0@, view_val(orig[0].1)));
                    lemma_lex_eq(gkey, orig[0].0@);
                }
                assert(view_entries(rest@) =~= spec_entry_insert(view_entries(orig), gkey, gval));
                // well-formedness of the assembled sequence
                lemma_entries_wf(grest);
                lemma_entries_wf(rest@);
                assert forall|i: int|
                    0 <= i < rest@.len() - 1 implies lex_lt(
                    (#[trigger] rest@[i]).0@,
                    rest@[i + 1].0@,
                ) by {
                    if i > 0 {
                        assert(rest@[i] == grest[i - 1]);
                        assert(rest@[i + 1] == grest[i]);
                        assert(lex_lt(grest[i - 1].0@, grest[i].0@));
                    } else {
                        assert(rest@[0] == ghead);
                        assert(rest@[1] == grest[0]);
                        assert(lex_lt(ghead.0@, gkey));
                        lemma_view_entries(grest);
                        assert(view_entries(grest)[0] == (grest[0].0@, view_val(grest[0].1)));
                        let vt = view_entries(orig.drop_first());
                        if vt.len() == 0 {
                            assert(view_entries(grest) =~= seq![(gkey, gval)]);
                            assert(grest[0].0@ == gkey);
                        } else if lex_lt(gkey, vt[0].0) || gkey == vt[0].0 {
                            assert(view_entries(grest)[0] == (gkey, gval));
                            assert(grest[0].0@ == gkey);
                        } else {
                            assert(view_entries(grest)[0] == vt[0]);
                            lemma_view_entries(orig.drop_first());
                            assert(vt[0] == (orig.drop_first()[0].0@, view_val(
                                orig.drop_first()[0].1,
                            )));
                            assert(orig.drop_first()[0] == orig[1]);
                            assert(lex_lt(orig[0].0@, orig[1].0@));
                        }
                    }
                }
            }
            rest
        },
    }
}

/// The value under the first entry whose key is `k`, if any.
pub open spec fn spec_obj_get(es: Seq<(Seq<char>, SpecValue)>, k: Seq<char>) -> Option<SpecValue>
    decreases es,
{
    if es.len() == 0 {
        None
    } else if es[0].0 == k {
        Some(es[0].1)
    } else {
        spec_obj_get(es.drop_first(), k)
    }
}

/// Skipping a non-matching entry keeps the lookup result.
proof fn lemma_obj_get_step(es: Seq<(Seq<char>, SpecValue)>, k: Seq<char>, i: int)
    requires
        0 <= i < es.len(),
        es[i].0 != k,
    ensures
        spec_obj_get(es.skip(i), k) == spec_obj_get(es.skip(i + 1), k),
{
    assert(es.skip(i)[0] == es[i]);
    assert(es.skip(i).drop_first() =~= es.skip(i + 1));
}

/// Looks a key up among an object's entries.
pub fn obj_get<'a>(es: &'a Vec<(String, Value)>, k: &str) -> (r: Option<&'a Value>)
    ensures
        match r {
            Option::Some(v) => spec_obj_get(view_entries(es@), k@) == Some(v@) && (entries_wf(es@)
                ==> val_wf(*v)),
            Option::None => spec_obj_get(view_entries(es@), k@) is None,
        },
{
    let ghost ges = view_entries(es@);
    proof {
        lemma_view_entries(es@);
        assert(ges.skip(0) =~= ges);
    }
    let mut i: usize = 0;
    while i < es.len()
        invariant
            0 <= i <= es@.len(),
            ges == view_entries(es@),
            ges.len() == es@.len(),
            spec_obj_get(ges, k@) == spec_obj_get(ges.skip(i as int), k@),
            forall|j: int|
                0 <= j < es@.len() ==> view_entries(es@)[j] == ((#[trigger] es@[j]).0@, view_val(
                    es@[j].1,
                )),
        decreases es@.len() - i,
    {
        let (key, v) = &es[i];
        proof {
            assert(ges.skip(i as int)[0] == ges[i as int]);
        }
        if str_eq(key.as_str(), k) {
            proof {
                if entries_wf(es@) {
                    lemma_entries_wf(es@);
                }
            }
            return Some(v);
        }
        proof {
            lemma_obj_get_step(ges, k@, i as int);
        }
        i = i + 1;
    }
    proof {
        assert(ges.skip(es@.len() as int).len() == 0);
    }
    None
}

} // verus!
