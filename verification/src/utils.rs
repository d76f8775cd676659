//! Flattening of evaluated option values into display strings.

use vstd::prelude::*;
use crate::error::Error;
use crate::eval::Context;
use crate::num::spec_num_text;
use crate::value::{
    elems_wf, entries_wf, lemma_elems_wf, lemma_entries_wf, lemma_view_elems, lemma_view_entries,
    val_wf, view_elems, view_entries, view_val, SpecValue, Value,
};

verus! {

/// The display strings one value contributes to an option list: strings,
/// symbols, and the canonical renderings of numbers and booleans, one each;
/// arrays contribute their elements in order, and objects their values in
/// canonical key order, both recursively.
pub open spec fn flatten_val(v: SpecValue) -> Seq<Seq<char>>
    decreases v,
{
    match v {
        SpecValue::String(s) => seq![s],
        SpecValue::Number(n) => seq![spec_num_text(n)],
        SpecValue::Boolean(b) => seq![
            if b {
                "true"@
            } else {
                "false"@
            },
        ],
        SpecValue::Symbol(s) => seq![s],
        SpecValue::Object(es) => flatten_entries(es),
        SpecValue::Array(xs) => flatten_list(xs),
    }
}

/// The concatenation of the strings each element contributes.
pub open spec fn flatten_list(xs: Seq<SpecValue>) -> Seq<Seq<char>>
    decreases xs,
{
    if xs.len() == 0 {
        Seq::empty()
    } else {
        flatten_val(xs[0]) + flatten_list(xs.drop_first())
    }
}

/// The concatenation of the strings each entry's value contributes.
pub open spec fn flatten_entries(es: Seq<(Seq<char>, SpecValue)>) -> Seq<Seq<char>>
    decreases es,
{
    if es.len() == 0 {
        Seq::empty()
    } else {
        flatten_val(es[0].1) + flatten_entries(es.drop_first())
    }
}

/// The views of a vector of strings.
pub open spec fn strings_view(ss: Seq<String>) -> Seq<Seq<char>>
    decreases ss,
{
    if ss.len() == 0 {
        Seq::empty()
    } else {
        seq![ss[0]@] + strings_view(ss.drop_first())
    }
}

/// Pointwise description of [`strings_view`].
pub proof fn lemma_strings_view(ss: Seq<String>)
    ensures
        strings_view(ss).len() == ss.len(),
        forall|i: int| 0 <= i < ss.len() ==> strings_view(ss)[i] == (#[trigger] ss[i])@,
    decreases ss,
{
    if ss.len() > 0 {
        lemma_strings_view(ss.drop_first());
        assert forall|i: int| 0 <= i < ss.len() implies strings_view(ss)[i] == ss[i]@ by {
            if i > 0 {
                assert(ss.drop_first()[i - 1] == ss[i]);
            }
        }
    }
}

/// Appending a string appends its view.
proof fn lemma_strings_view_push(ss: Seq<String>, x: String)
    ensures
        strings_view(ss.push(x)) == strings_view(ss).push(x@),
{
    lemma_strings_view(ss);
    lemma_strings_view(ss.push(x));
    assert forall|i: int|
        0 <= i < ss.push(x).len() implies strings_view(ss.push(x))[i] == strings_view(ss).push(
        x@,
    )[i] by {
        if i < ss.len() {
            assert(ss.push(x)[i] == ss[i]);
        } else {
            assert(ss.push(x)[i] == x);
        }
    }
    assert(strings_view(ss.push(x)) =~= strings_view(ss).push(x@));
}

/// Appends the strings `v` contributes to `out`.
fn flatten_value_into(v: &Value, out: &mut Vec<String>)
    requires
        val_wf(*v),
    ensures
        strings_view(final(out)@) == strings_view(old(out)@) + flatten_val(v@),
    decreases *v,
{
    match v {
        Value::String(s) => {
            let ghost old_out = out@;
            out.push(s.clone());
            proof {
                lemma_strings_view_push(old_out, *s);
                assert(strings_view(out@) =~= strings_view(old_out) + flatten_val(v@));
            }
        },
        Value::Number(n) => {
            let ghost old_out = out@;
            let t = n.to_text();
            let ghost gt: String = t;
            out.push(t);
            proof {
                lemma_strings_view_push(old_out, gt);
                assert(strings_view(out@) =~= strings_view(old_out) + flatten_val(v@));
            }
        },
        Value::Boolean(b) => {
            let ghost old_out = out@;
            let t = if *b {
                String::from_str("true")
            } else {
                String::from_str("false")
            };
            let ghost gt: String = t;
            out.push(t);
            proof {
                lemma_strings_view_push(old_out, gt);
                assert(strings_view(out@) =~= strings_view(old_out) + flatten_val(v@));
            }
        },
        Value::Symbol(s) => {
            let ghost old_out = out@;
            out.push(s.clone());
            proof {
                lemma_strings_view_push(old_out, *s);
                assert(strings_view(out@) =~= strings_view(old_out) + flatten_val(v@));
            }
        },
        Value::Array(xs) => {
            proof {
                lemma_view_elems(xs@);
                lemma_elems_wf(xs@);
            }
            let ghost gxs = view_elems(xs@);
            let ghost base = out@;
            proof {
                assert(gxs.skip(0) =~= gxs);
                assert(strings_view(out@) + flatten_list(gxs.skip(0)) =~= strings_view(base)
                    + flatten_list(gxs));
            }
            let mut i: usize = 0;
            while i < xs.len()
                invariant
                    0 <= i <= xs@.len(),
                    elems_wf(xs@),
                    gxs == view_elems(xs@),
                    gxs.len() == xs@.len(),
                    *v == Value::Array(*xs),
                    strings_view(out@) + flatten_list(gxs.skip(i as int)) == strings_view(base)
                        + flatten_list(gxs),
                decreases xs@.len() - i,
            {
                proof {
                    lemma_elems_wf(xs@);
                    lemma_view_elems(xs@);
                    let ghost sv = *v;
                    assert(decreases_to!(sv => sv->Array_0));
                    assert(sv->Array_0 == *xs);
                    assert(decreases_to!(*xs => xs@));
                    assert(decreases_to!(xs@ => xs@[i as int]));
                }
                flatten_value_into(&xs[i], out);
                proof {
                    assert(gxs.skip(i as int)[0] == gxs[i as int]);
                    assert(gxs.skip(i as int).drop_first() =~= gxs.skip(i as int + 1));
                    assert(flatten_list(gxs.skip(i as int)) == flatten_val(gxs[i as int])
                        + flatten_list(gxs.skip(i as int + 1)));
                    assert(strings_view(out@) + flatten_list(gxs.skip(i as int + 1))
                        =~= strings_view(base) + flatten_list(gxs));
                }
                i = i + 1;
            }
            proof {
                assert(gxs.skip(xs@.len() as int).len() == 0);
                assert(strings_view(out@) + flatten_list(gxs.skip(xs@.len() as int))
                    =~= strings_view(out@));
            }
        },
        Value::Object(es) => {
            proof {
                lemma_view_entries(es@);
                lemma_entries_wf(es@);
            }
            let ghost ges = view_entries(es@);
            let ghost base = out@;
            proof {
                assert(ges.skip(0) =~= ges);
                assert(strings_view(out@) + flatten_entries(ges.skip(0)) =~= strings_view(base)
                    + flatten_entries(ges));
            }
            let mut i: usize = 0;
            while i < es.len()
                invariant
                    0 <= i <= es@.len(),
                    entries_wf(es@),
                    ges == view_entries(es@),
                    ges.len() == es@.len(),
                    *v == Value::Object(*es),
                    strings_view(out@) + flatten_entries(ges.skip(i as int)) == strings_view(base)
                        + flatten_entries(ges),
                decreases es@.len() - i,
            {
                proof {
                    lemma_entries_wf(es@);
                    lemma_view_entries(es@);
                    let ghost sv = *v;
                    assert(decreases_to!(sv => sv->Object_0));
                    assert(sv->Object_0 == *es);
                    assert(decreases_to!(*es => es@));
                    assert(decreases_to!(es@ => es@[i as int]));
                    assert(decreases_to!(es@[i as int] => es@[i as int].1));
                }
                let (_, ev) = &es[i];
                flatten_value_into(ev, out);
                proof {
                    assert(ges.skip(i as int)[0] == ges[i as int]);
                    assert(ges.skip(i as int).drop_first() =~= ges.skip(i as int + 1));
                    assert(flatten_entries(ges.skip(i as int)) == flatten_val(ges[i as int].1)
                        + flatten_entries(ges.skip(i as int + 1)));
                    assert(strings_view(out@) + flatten_entries(ges.skip(i as int + 1))
                        =~= strings_view(base) + flatten_entries(ges));
                }
                i = i + 1;
            }
            proof {
                assert(ges.skip(es@.len() as int).len() == 0);
                assert(strings_view(out@) + flatten_entries(ges.skip(es@.len() as int))
                    =~= strings_view(out@));
            }
        },
    }
}

/// Flattens evaluated option values into their display strings.
///
/// The context is untouched; it is accepted for interface compatibility with
/// option evaluation, which reads it.
pub fn get_options(options: Vec<Value>, context: &mut Context) -> (r: Result<Vec<String>, Error>)
    requires
        elems_wf(options@),
    ensures
        *final(context) == *old(context),
        match r {
            Result::Ok(ss) => strings_view(ss@) == flatten_list(view_elems(options@)),
            Result::Err(_) => false,
        },
{
    let mut out: Vec<String> = Vec::new();
    let ghost gos = view_elems(options@);
    proof {
        lemma_view_elems(options@);
        assert(gos.skip(0) =~= gos);
        assert(strings_view(out@) =~= Seq::<Seq<char>>::empty());
    }
    let mut i: usize = 0;
    while i < options.len()
        invariant
            0 <= i <= options@.len(),
            elems_wf(options@),
            gos == view_elems(options@),
            gos.len() == options@.len(),
            strings_view(out@) + flatten_list(gos.skip(i as int)) == flatten_list(gos),
        decreases options@.len() - i,
    {
        proof {
            lemma_elems_wf(options@);
            lemma_view_elems(options@);
        }
        flatten_value_into(&options[i], &mut out);
        proof {
            assert(gos.skip(i as int)[0] == gos[i as int]);
            assert(gos.skip(i as int).drop_first() =~= gos.skip(i as int + 1));
            assert(flatten_list(gos.skip(i as int)) == flatten_val(gos[i as int]) + flatten_list(
                gos.skip(i as int + 1),
            ));
            assert(strings_view(out@) + flatten_list(gos.skip(i as int + 1)) =~= flatten_list(
                gos,
            ));
        }
        i = i + 1;
    }
    proof {
        assert(gos.skip(options@.len() as int).len() == 0);
        assert(strings_view(out@) + flatten_list(gos.skip(options@.len() as int)) =~= strings_view(
            out@,
        ));
    }
    Ok(out)
}

} // verus!