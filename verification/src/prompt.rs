//! Prompts: the interactive questions a flow may ask.
//!
//! The six prompt widgets are data here; actually showing one and collecting
//! an answer is the business of an implementation of the [`Prompt`] trait,
//! which the embedding program supplies.  This module evaluates and flattens
//! the option expressions of the selection widgets, hands the capability the
//! widget kind, its message and its option strings, and turns the raw reply
//! into the value bound to the asking node's name: the text of the answer for
//! text-like widgets, a boolean read case-insensitively from `yes`/`y`/`true`
//! and `no`/`n`/`false` for confirmations, and an array of strings for
//! multi-selections.

use vstd::prelude::*;
use crate::error::{Error, SpecError};
use crate::eval::{eval_args_spec, strs_to_vals, Context};
use crate::parser::{args_wf, view_args, Expr};
use crate::utils::{flatten_list, get_options, strings_view};
use crate::value::{val_wf, view_elems, SpecValue, Value};

verus! {

/// The widget a prompt asks with.
#[derive(Debug, Clone, Copy, PartialEq, Eq, Structural)]
pub enum PromptKind {
    Text,
    Confirm,
    Password,
    Select,
    MultiSelect,
    FuzzySelect,
}

/// The raw outcome of showing a prompt: one line of text, or the chosen
/// entries of a multi-selection.
#[derive(Debug)]
pub enum PromptReply {
    Answer(String),
    Choices(Vec<String>),
}

/// Mathematical mirror of [`PromptReply`].
pub enum SpecReply {
    Answer(Seq<char>),
    Choices(Seq<Seq<char>>),
}

impl View for PromptReply {
    type V = SpecReply;

    open spec fn view(&self) -> SpecReply {
        match self {
            PromptReply::Answer(s) => SpecReply::Answer(s@),
            PromptReply::Choices(vs) => SpecReply::Choices(strings_view(vs@)),
        }
    }
}

/// The capability that shows a prompt and collects the user's reply.
///
/// Implementations live outside the library (a terminal front end, a test
/// stub); nothing is assumed of the reply beyond its type.
pub trait Prompt {
    /// Shows the widget `kind` with `message` and, for selection widgets,
    /// the given option strings, and returns the user's reply.
    fn run(&mut self, kind: PromptKind, message: &str, options: &Vec<String>) -> Result<
        PromptReply,
        Error,
    >;
}

/// A free-text question.
#[derive(Debug)]
pub struct TextPrompt {
    pub message: String,
}

/// A yes/no question.
#[derive(Debug)]
pub struct ConfirmPrompt {
    pub message: String,
}

/// A hidden-input question.
#[derive(Debug)]
pub struct PasswordPrompt {
    pub message: String,
}

/// A single selection from a list of options.
#[derive(Debug)]
pub struct SelectPrompt {
    pub message: String,
    pub options: Vec<Expr>,
}

/// A multiple selection from a list of options.
#[derive(Debug)]
pub struct MultiSelectPrompt {
    pub message: String,
    pub options: Vec<Expr>,
}

/// A single selection with fuzzy filtering.
#[derive(Debug)]
pub struct FuzzySelectPrompt {
    pub message: String,
    pub options: Vec<Expr>,
}

/// One prompt of any kind.
#[derive(Debug)]
pub enum PromptType {
    Text(TextPrompt),
    Confirm(ConfirmPrompt),
    Password(PasswordPrompt),
    Select(SelectPrompt),
    MultiSelect(MultiSelectPrompt),
    FuzzySelect(FuzzySelectPrompt),
}

impl PromptType {
    /// The representation invariant: every option expression is well formed.
    pub open spec fn wf(self) -> bool {
        match self {
            PromptType::Select(p) => args_wf(p.options@),
            PromptType::MultiSelect(p) => args_wf(p.options@),
            PromptType::FuzzySelect(p) => args_wf(p.options@),
            _ => true,
        }
    }

    /// The widget this prompt asks with.
    pub open spec fn spec_kind(self) -> PromptKind {
        match self {
            PromptType::Text(_) => PromptKind::Text,
            PromptType::Confirm(_) => PromptKind::Confirm,
            PromptType::Password(_) => PromptKind::Password,
            PromptType::Select(_) => PromptKind::Select,
            PromptType::MultiSelect(_) => PromptKind::MultiSelect,
            PromptType::FuzzySelect(_) => PromptKind::FuzzySelect,
        }
    }
}

/// Whether `a` and `b` are the same letter up to ASCII case.
pub open spec fn char_ci_eq(a: char, b: char) -> bool {
    ||| a as u32 == b as u32
    ||| (65 <= a as u32 <= 90 && a as u32 + 32 == b as u32)
    ||| (65 <= b as u32 <= 90 && b as u32 + 32 == a as u32)
}

/// Whether `s` and `t` are equal up to ASCII case.
pub open spec fn str_ci_eq(s: Seq<char>, t: Seq<char>) -> bool {
    s.len() == t.len() && forall|i: int| 0 <= i < s.len() ==> char_ci_eq(#[trigger] s[i], t[i])
}

/// The boolean a confirmation answer denotes: `yes`, `y` and `true` affirm,
/// `no`, `n` and `false` decline, all case-insensitively; anything else is no
/// answer.
pub open spec fn spec_confirm(s: Seq<char>) -> Option<bool> {
    if str_ci_eq(s, "yes"@) || str_ci_eq(s, "y"@) || str_ci_eq(s, "true"@) {
        Some(true)
    } else if str_ci_eq(s, "no"@) || str_ci_eq(s, "n"@) || str_ci_eq(s, "false"@) {
        Some(false)
    } else {
        None
    }
}

/// Compares two strings up to ASCII case.
fn ci_eq(s: &str, t: &str) -> (r: bool)
    ensures
        r == str_ci_eq(s@, t@),
{
    let slen = s.unicode_len();
    let tlen = t.unicode_len();
    if slen != tlen {
        return false;
    }
    let mut i: usize = 0;
    while i < slen
        invariant
            0 <= i <= slen,
            slen == s@.len(),
            slen == t@.len(),
            forall|k: int| 0 <= k < i ==> char_ci_eq(#[trigger] s@[k], t@[k]),
        decreases slen - i,
    {
        let a = s.get_char(i) as u32;
        let b = t.get_char(i) as u32;
        let same = a == b || (65 <= a && a <= 90 && a + 32 == b) || (65 <= b && b <= 90 && b + 32
            == a);
        if !same {
            return false;
        }
        i = i + 1;
    }
    true
}

/// Reads a confirmation answer.
fn confirm_of(s: &str) -> (r: Option<bool>)
    ensures
        r == spec_confirm(s@),
{
    if ci_eq(s, "yes") || ci_eq(s, "y") || ci_eq(s, "true") {
        Some(true)
    } else if ci_eq(s, "no") || ci_eq(s, "n") || ci_eq(s, "false") {
        Some(false)
    } else {
        None
    }
}

/// The shape of the value a widget binds: text-like widgets bind a string, a
/// confirmation binds a boolean, and a multi-selection binds an array.
pub open spec fn kind_shape(k: PromptKind, v: SpecValue) -> bool {
    match k {
        PromptKind::Text => v is String,
        PromptKind::Password => v is String,
        PromptKind::Select => v is String,
        PromptKind::FuzzySelect => v is String,
        PromptKind::Confirm => v is Boolean,
        PromptKind::MultiSelect => v is Array,
    }
}

/// The message a prompt shows.
pub open spec fn spec_message(pt: PromptType) -> Seq<char> {
    match pt {
        PromptType::Text(p) => p.message@,
        PromptType::Confirm(p) => p.message@,
        PromptType::Password(p) => p.message@,
        PromptType::Select(p) => p.message@,
        PromptType::MultiSelect(p) => p.message@,
        PromptType::FuzzySelect(p) => p.message@,
    }
}

/// The value a reply binds under a widget, or the failure the reply causes:
/// text-like widgets bind the answer's text, a confirmation binds the
/// case-insensitive yes/no reading of the answer and rejects any other
/// answer, a multi-selection binds the chosen strings as an array, and a
/// reply of the wrong shape for the widget is rejected.
pub open spec fn reply_value(kind: PromptKind, reply: SpecReply) -> Result<SpecValue, SpecError> {
    match (kind, reply) {
        (PromptKind::Confirm, SpecReply::Answer(s)) => match spec_confirm(s) {
            Option::Some(b) => Ok(SpecValue::Boolean(b)),
            Option::None => Err(
                SpecError::FailedToRunPrompt("Invalid confirmation response: "@ + s),
            ),
        },
        (PromptKind::MultiSelect, SpecReply::Choices(vs)) => Ok(
            SpecValue::Array(strs_to_vals(vs)),
        ),
        (PromptKind::Text, SpecReply::Answer(s)) => Ok(SpecValue::String(s)),
        (PromptKind::Password, SpecReply::Answer(s)) => Ok(SpecValue::String(s)),
        (PromptKind::Select, SpecReply::Answer(s)) => Ok(SpecValue::String(s)),
        (PromptKind::FuzzySelect, SpecReply::Answer(s)) => Ok(SpecValue::String(s)),
        _ => Err(SpecError::FailedToRunPrompt("Prompt returned the wrong kind of value"@)),
    }
}

/// The display strings of a list of option expressions: each evaluated, then
/// flattened, failing fast on the first evaluation failure.
pub open spec fn options_of(es: Seq<Expr>, ctx: Map<Seq<char>, SpecValue>) -> Result<
    Seq<Seq<char>>,
    SpecError,
> {
    match eval_args_spec(view_args(es), ctx) {
        Result::Err(e) => Err(e),
        Result::Ok(vals) => Ok(flatten_list(vals)),
    }
}

/// The option strings a prompt shows: none for the widgets without options,
/// and the evaluated, flattened option expressions for the selection widgets.
pub open spec fn spec_prompt_options(pt: PromptType, ctx: Map<Seq<char>, SpecValue>) -> Result<
    Seq<Seq<char>>,
    SpecError,
> {
    match pt {
        PromptType::Select(p) => options_of(p.options@, ctx),
        PromptType::MultiSelect(p) => options_of(p.options@, ctx),
        PromptType::FuzzySelect(p) => options_of(p.options@, ctx),
        _ => Ok(Seq::empty()),
    }
}

/// Whether `v` is a value some reply can bind for this prompt in this
/// context: the prompt's options evaluate, and a reply of the widget's kind
/// yields exactly `v`.
pub open spec fn prompt_value_ok(
    pt: PromptType,
    ctx: Map<Seq<char>, SpecValue>,
    v: SpecValue,
) -> bool {
    &&& spec_prompt_options(pt, ctx) is Ok
    &&& exists|rep: SpecReply|
        reply_value(pt.spec_kind(), rep) == Result::<SpecValue, SpecError>::Ok(v)
}

/// The widget kind and the message of a prompt, as handed to the capability.
pub fn prompt_parts(pt: &PromptType) -> (r: (PromptKind, &String))
    ensures
        r.0 == pt.spec_kind(),
        r.1@ == spec_message(*pt),
{
    match pt {
        PromptType::Text(p) => (PromptKind::Text, &p.message),
        PromptType::Confirm(p) => (PromptKind::Confirm, &p.message),
        PromptType::Password(p) => (PromptKind::Password, &p.message),
        PromptType::Select(p) => (PromptKind::Select, &p.message),
        PromptType::MultiSelect(p) => (PromptKind::MultiSelect, &p.message),
        PromptType::FuzzySelect(p) => (PromptKind::FuzzySelect, &p.message),
    }
}

/// The option strings of a prompt, as handed to the capability: exactly what
/// [`spec_prompt_options`] denotes; the context is read, never changed.
pub fn prompt_options(pt: &PromptType, context: &mut Context) -> (r: Result<Vec<String>, Error>)
    requires
        pt.wf(),
        old(context).wf(),
    ensures
        *final(context) == *old(context),
        match r {
            Result::Ok(ss) => spec_prompt_options(*pt, old(context)@) == Result::<
                Seq<Seq<char>>,
                SpecError,
            >::Ok(strings_view(ss@)),
            Result::Err(e) => spec_prompt_options(*pt, old(context)@) == Result::<
                Seq<Seq<char>>,
                SpecError,
            >::Err(e@),
        },
{
    match pt {
        PromptType::Select(p) => option_strings(&p.options, context),
        PromptType::MultiSelect(p) => option_strings(&p.options, context),
        PromptType::FuzzySelect(p) => option_strings(&p.options, context),
        _ => {
            proof {
                assert(strings_view(Seq::<String>::empty()) =~= Seq::<Seq<char>>::empty());
            }
            Ok(Vec::new())
        },
    }
}

/// Evaluates and flattens a prompt's option expressions.
fn option_strings(options: &Vec<Expr>, context: &mut Context) -> (r: Result<Vec<String>, Error>)
    requires
        args_wf(options@),
        old(context).wf(),
    ensures
        *final(context) == *old(context),
        match r {
            Result::Ok(ss) => options_of(options@, old(context)@) == Result::<
                Seq<Seq<char>>,
                SpecError,
            >::Ok(strings_view(ss@)),
            Result::Err(e) => options_of(options@, old(context)@) == Result::<
                Seq<Seq<char>>,
                SpecError,
            >::Err(e@),
        },
{
    let vals = match crate::eval::eval_args_exec(options, context) {
        Result::Ok(vs) => vs,
        Result::Err(e) => {
            return Err(e);
        },
    };
    get_options(vals, context)
}

/// Turns the capability's raw reply into the value the widget binds, exactly
/// as [`reply_value`] denotes.
pub fn bind_reply(kind: PromptKind, reply: PromptReply) -> (r: Result<Value, Error>)
    ensures
        match r {
            Result::Ok(v) => val_wf(v) && reply_value(kind, reply@) == Result::<
                SpecValue,
                SpecError,
            >::Ok(v@),
            Result::Err(e) => reply_value(kind, reply@) == Result::<SpecValue, SpecError>::Err(
                e@,
            ),
        },
{
    match (kind, reply) {
        (PromptKind::Confirm, PromptReply::Answer(s)) => match confirm_of(s.as_str()) {
            Option::Some(b) => Ok(Value::Boolean(b)),
            Option::None => {
                let msg = String::from_str("Invalid confirmation response: ").concat(s.as_str());
                proof {
                    assert(msg@ =~= "Invalid confirmation response: "@ + s@);
                }
                Err(Error::FailedToRunPrompt(msg))
            },
        },
        (PromptKind::MultiSelect, PromptReply::Choices(vs)) => {
            let mut items: Vec<Value> = Vec::new();
            let mut i: usize = 0;
            while i < vs.len()
                invariant
                    0 <= i <= vs@.len(),
                    items@.len() == i,
                    forall|j: int|
                        0 <= j < i ==> #[trigger] items@[j]@ == SpecValue::String(vs@[j]@),
                    forall|j: int| 0 <= j < i ==> val_wf(#[trigger] items@[j]),
                decreases vs@.len() - i,
            {
                let s = vs[i].clone();
                items.push(Value::String(s));
                i = i + 1;
            }
            proof {
                crate::value::lemma_elems_wf(items@);
                crate::value::lemma_view_elems(items@);
                crate::utils::lemma_strings_view(vs@);
                crate::eval::lemma_strs_to_vals(strings_view(vs@));
                assert forall|j: int|
                    0 <= j < items@.len() implies view_elems(items@)[j] == strs_to_vals(
                    strings_view(vs@),
                )[j] by {
                    assert(view_elems(items@)[j] == items@[j]@);
                    assert(strings_view(vs@)[j] == vs@[j]@);
                    assert(strs_to_vals(strings_view(vs@))[j] == SpecValue::String(
                        strings_view(vs@)[j],
                    ));
                }
                assert(view_elems(items@) =~= strs_to_vals(strings_view(vs@)));
            }
            Ok(Value::Array(items))
        },
        (PromptKind::Text, PromptReply::Answer(s)) => Ok(Value::String(s)),
        (PromptKind::Password, PromptReply::Answer(s)) => Ok(Value::String(s)),
        (PromptKind::Select, PromptReply::Answer(s)) => Ok(Value::String(s)),
        (PromptKind::FuzzySelect, PromptReply::Answer(s)) => Ok(Value::String(s)),
        _ => Err(
            Error::FailedToRunPrompt(String::from_str("Prompt returned the wrong kind of value")),
        ),
    }
}

/// Shows one prompt through the capability and binds the reply under `name`.
///
/// What the capability is handed is pinned by [`prompt_parts`] and
/// [`prompt_options`]: the widget's kind, its message, and the evaluated,
/// flattened option strings.  A failing option expression ends the step with
/// exactly that failure.  On success the context gains exactly one binding
/// under `name`: a value some reply of the widget's kind yields under
/// [`reply_value`].  On any failure — options, the capability itself, or a
/// reply the widget rejects — the context is unchanged.
pub fn run_prompt<P: Prompt>(
    pt: &PromptType,
    name: &str,
    context: &mut Context,
    handler: &mut P,
) -> (r: Result<(), Error>)
    requires
        pt.wf(),
        old(context).wf(),
    ensures
        final(context).wf(),
        spec_prompt_options(*pt, old(context)@) matches Result::Err(e0) ==> (r
            matches Result::Err(e) && e@ == e0 && final(context)@ == old(context)@),
        r is Ok ==> spec_prompt_options(*pt, old(context)@) is Ok,
        r is Ok ==> exists|sv: SpecValue|
            #[trigger] prompt_value_ok(*pt, old(context)@, sv) && kind_shape(pt.spec_kind(), sv)
                && final(context)@ == old(context)@.insert(name@, sv),
        r is Err ==> final(context)@ == old(context)@,
{
    let (kind, message) = prompt_parts(pt);
    let opts: Vec<String> = match prompt_options(pt, context) {
        Result::Ok(ss) => ss,
        Result::Err(e) => {
            return Err(e);
        },
    };
    let reply = match handler.run(kind, message.as_str(), &opts) {
        Result::Ok(rep) => rep,
        Result::Err(e) => {
            return Err(e);
        },
    };
    let ghost grep = reply@;
    let value: Value = match bind_reply(kind, reply) {
        Result::Ok(v) => v,
        Result::Err(e) => {
            return Err(e);
        },
    };
    let ghost gv = value@;
    context.set_variable(String::from_str(name), value);
    proof {
        assert(reply_value(pt.spec_kind(), grep) == Result::<SpecValue, SpecError>::Ok(gv));
        assert(prompt_value_ok(*pt, old(context)@, gv));
        assert(kind_shape(pt.spec_kind(), gv));
    }
    Ok(())
}

} // verus!