//! Building a node graph from a plain flow definition.
//!
//! A flow definition is a start id and a list of node definitions made of
//! plain strings: the node's declared name, its message or expression texts,
//! and its transition targets.  [`load`] parses every expression text once,
//! up front, and yields the graph the state machine walks; it fails with the
//! parser's failure when any expression text does not parse, so the machine
//! itself never parses anything at run time.

use vstd::prelude::*;
use crate::condition::{branches_wf, Condition};
use crate::error::Error;
use crate::goto::Goto;
use crate::parser::{args_wf, expr_wf, parse, spec_parse, view_expr, Expr, SpecExpr};
use crate::prompt::{
    ConfirmPrompt, FuzzySelectPrompt, MultiSelectPrompt, PasswordPrompt, PromptType, SelectPrompt,
    TextPrompt,
};
use crate::state::{nodes_wf, state_wf, Node, State};

verus! {

/// One node definition, in plain strings.
#[derive(Debug)]
pub enum StateConfig {
    /// A free-text prompt binding `name`, moving to `to`.
    Text { name: String, message: String, to: String },
    /// A yes/no prompt binding `name`, moving to `to`.
    Confirm { name: String, message: String, to: String },
    /// A hidden-input prompt binding `name`, moving to `to`.
    Password { name: String, message: String, to: String },
    /// A selection prompt; each option is an expression text.
    Select { name: String, message: String, options: Vec<String>, to: String },
    /// A multi-selection prompt; each option is an expression text.
    MultiSelect { name: String, message: String, options: Vec<String>, to: String },
    /// A fuzzy selection prompt; each option is an expression text.
    FuzzySelect { name: String, message: String, options: Vec<String>, to: String },
    /// A condition; the guard and each branch target are expression texts.
    Condition { name: String, condition: String, branches: Vec<(String, String)> },
    /// Removal of the binding of `name`, moving to `to`.
    Remove { name: String, to: String },
    /// An unconditional jump; the target is an expression text.
    Goto { name: String, target: String },
    /// The end of the flow.
    Done,
}

/// Whether every expression text of a definition parses.
pub open spec fn config_ok(c: StateConfig) -> bool {
    match c {
        StateConfig::Select { options, .. } => all_parse(options@),
        StateConfig::MultiSelect { options, .. } => all_parse(options@),
        StateConfig::FuzzySelect { options, .. } => all_parse(options@),
        StateConfig::Condition { condition, branches, .. } => spec_parse(condition@) is Ok
            && all_branches_parse(branches@),
        StateConfig::Goto { target, .. } => spec_parse(target@) is Ok,
        _ => true,
    }
}

/// Whether every text in the sequence parses.
pub open spec fn all_parse(ss: Seq<String>) -> bool {
    forall|i: int| 0 <= i < ss.len() ==> spec_parse((#[trigger] ss[i])@) is Ok
}

/// Whether every branch text parses.
pub open spec fn all_branches_parse(bs: Seq<(String, String)>) -> bool {
    forall|i: int| 0 <= i < bs.len() ==> spec_parse((#[trigger] bs[i]).1@) is Ok
}

/// Whether every text parsed into the matching expression, pairwise.
pub open spec fn options_parsed(texts: Seq<String>, es: Seq<Expr>) -> bool {
    texts.len() == es.len() && forall|i: int|
        0 <= i < texts.len() ==> spec_parse((#[trigger] texts[i])@) == Result::<
            SpecExpr,
            crate::error::SpecError,
        >::Ok(view_expr(es[i]))
}

/// Whether every branch key carried over and every branch text parsed into
/// the matching expression, pairwise.
pub open spec fn branches_parsed(src: Seq<(String, String)>, bs: Seq<(String, Expr)>) -> bool {
    src.len() == bs.len() && forall|i: int|
        0 <= i < src.len() ==> (#[trigger] bs[i]).0@ == src[i].0@ && spec_parse(src[i].1@)
            == Result::<SpecExpr, crate::error::SpecError>::Ok(view_expr(bs[i].1))
}

/// Whether `n` is the node the definition `c` builds under graph key `key`:
/// the behavior variant matches the definition's, the declared name, message
/// and transition target carry through unchanged, every expression text is
/// replaced by its parse, and a `Done` node is named after its graph key.
pub open spec fn node_matches(key: Seq<char>, c: StateConfig, n: Node) -> bool {
    match c {
        StateConfig::Text { name, message, to } => n.name@ == name@ && (n.state
            matches State::Prompt(pt, to2) && (pt matches PromptType::Text(p) && p.message@
            == message@ && to2@ == to@)),
        StateConfig::Confirm { name, message, to } => n.name@ == name@ && (n.state
            matches State::Prompt(pt, to2) && (pt matches PromptType::Confirm(p) && p.message@
            == message@ && to2@ == to@)),
        StateConfig::Password { name, message, to } => n.name@ == name@ && (n.state
            matches State::Prompt(pt, to2) && (pt matches PromptType::Password(p) && p.message@
            == message@ && to2@ == to@)),
        StateConfig::Select { name, message, options, to } => n.name@ == name@ && (n.state
            matches State::Prompt(pt, to2) && (pt matches PromptType::Select(p) && p.message@
            == message@ && to2@ == to@ && options_parsed(options@, p.options@))),
        StateConfig::MultiSelect { name, message, options, to } => n.name@ == name@ && (n.state
            matches State::Prompt(pt, to2) && (pt matches PromptType::MultiSelect(p)
            && p.message@ == message@ && to2@ == to@ && options_parsed(options@, p.options@))),
        StateConfig::FuzzySelect { name, message, options, to } => n.name@ == name@ && (n.state
            matches State::Prompt(pt, to2) && (pt matches PromptType::FuzzySelect(p)
            && p.message@ == message@ && to2@ == to@ && options_parsed(options@, p.options@))),
        StateConfig::Condition { name, condition, branches } => n.name@ == name@ && (n.state
            matches State::Condition(c2) && spec_parse(condition@) == Result::<
            SpecExpr,
            crate::error::SpecError,
        >::Ok(view_expr(c2.condition)) && branches_parsed(branches@, c2.branches@)),
        StateConfig::Remove { name, to } => n.name@ == name@ && (n.state matches State::Remove(
            to2,
        ) && to2@ == to@),
        StateConfig::Goto { name, target } => n.name@ == name@ && (n.state matches State::Goto(g)
            && spec_parse(target@) == Result::<SpecExpr, crate::error::SpecError>::Ok(
            view_expr(g.target),
        )),
        StateConfig::Done => n.name@ == key && n.state is Done,
    }
}

/// Parses a list of option texts.
fn parse_options(options: &Vec<String>) -> (r: Result<Vec<Expr>, Error>)
    ensures
        match r {
            Result::Ok(es) => all_parse(options@) && args_wf(es@) && es@.len() == options@.len()
                && (forall|i: int|
                0 <= i < es@.len() ==> spec_parse(options@[i]@) == Result::<
                    SpecExpr,
                    crate::error::SpecError,
                >::Ok(view_expr(#[trigger] es@[i]))),
            Result::Err(_) => !all_parse(options@),
        },
{
    let mut out: Vec<Expr> = Vec::new();
    let mut i: usize = 0;
    while i < options.len()
        invariant
            0 <= i <= options@.len(),
            out@.len() == i,
            forall|j: int| 0 <= j < i ==> expr_wf(#[trigger] out@[j]),
            forall|j: int|
                0 <= j < i ==> spec_parse(options@[j]@) == Result::<
                    SpecExpr,
                    crate::error::SpecError,
                >::Ok(view_expr(#[trigger] out@[j])),
        decreases options@.len() - i,
    {
        match parse(options[i].as_str()) {
            Result::Ok(e) => {
                out.push(e);
            },
            Result::Err(err) => {
                return Err(err);
            },
        }
        i = i + 1;
    }
    proof {
        crate::parser::lemma_args_wf(out@);
        assert forall|j: int|
            0 <= j < options@.len() implies spec_parse((#[trigger] options@[j])@) is Ok by {
            assert(spec_parse(options@[j]@) == Result::<SpecExpr, crate::error::SpecError>::Ok(
                view_expr(out@[j]),
            ));
        }
    }
    Ok(out)
}

/// Parses a table of branch texts.
fn parse_branches(branches: &Vec<(String, String)>) -> (r: Result<Vec<(String, Expr)>, Error>)
    ensures
        match r {
            Result::Ok(bs) => all_branches_parse(branches@) && branches_wf(bs@) && bs@.len()
                == branches@.len() && (forall|i: int|
                0 <= i < bs@.len() ==> (#[trigger] bs@[i]).0@ == branches@[i].0@ && spec_parse(
                    branches@[i].1@,
                ) == Result::<SpecExpr, crate::error::SpecError>::Ok(view_expr(bs@[i].1))),
            Result::Err(_) => !all_branches_parse(branches@),
        },
{
    let mut out: Vec<(String, Expr)> = Vec::new();
    let mut i: usize = 0;
    while i < branches.len()
        invariant
            0 <= i <= branches@.len(),
            out@.len() == i,
            forall|j: int| 0 <= j < i ==> expr_wf((#[trigger] out@[j]).1),
            forall|j: int|
                0 <= j < i ==> (#[trigger] out@[j]).0@ == branches@[j].0@ && spec_parse(
                    branches@[j].1@,
                ) == Result::<SpecExpr, crate::error::SpecError>::Ok(view_expr(out@[j].1)),
        decreases branches@.len() - i,
    {
        let (key, text) = &branches[i];
        match parse(text.as_str()) {
            Result::Ok(e) => {
                out.push((key.clone(), e));
            },
            Result::Err(err) => {
                return Err(err);
            },
        }
        i = i + 1;
    }
    proof {
        crate::condition::lemma_branches_wf(out@);
        assert forall|j: int|
            0 <= j < branches@.len() implies spec_parse((#[trigger] branches@[j]).1@) is Ok by {
            assert(spec_parse(branches@[j].1@) == Result::<SpecExpr, crate::error::SpecError>::Ok(
                view_expr(out@[j].1),
            ));
        }
    }
    Ok(out)
}

/// Builds one node from its definition.  The graph key `key` names `Done`
/// nodes, which declare no name of their own.
fn build_node(key: &String, c: StateConfig) -> (r: Result<Node, Error>)
    ensures
        match r {
            Result::Ok(n) => config_ok(c) && state_wf(n.state) && node_matches(key@, c, n),
            Result::Err(_) => !config_ok(c),
        },
{
    match c {
        StateConfig::Text { name, message, to } => Ok(
            Node { name, state: State::Prompt(PromptType::Text(TextPrompt { message }), to) },
        ),
        StateConfig::Confirm { name, message, to } => Ok(
            Node {
                name,
                state: State::Prompt(PromptType::Confirm(ConfirmPrompt { message }), to),
            },
        ),
        StateConfig::Password { name, message, to } => Ok(
            Node {
                name,
                state: State::Prompt(PromptType::Password(PasswordPrompt { message }), to),
            },
        ),
        StateConfig::Select { name, message, options, to } => match parse_options(&options) {
            Result::Ok(es) => Ok(
                Node {
                    name,
                    state: State::Prompt(
                        PromptType::Select(SelectPrompt { message, options: es }),
                        to,
                    ),
                },
            ),
            Result::Err(e) => Err(e),
        },
        StateConfig::MultiSelect { name, message, options, to } => match parse_options(&options) {
            Result::Ok(es) => Ok(
                Node {
                    name,
                    state: State::Prompt(
                        PromptType::MultiSelect(MultiSelectPrompt { message, options: es }),
                        to,
                    ),
                },
            ),
            Result::Err(e) => Err(e),
        },
        StateConfig::FuzzySelect { name, message, options, to } => match parse_options(&options) {
            Result::Ok(es) => Ok(
                Node {
                    name,
                    state: State::Prompt(
                        PromptType::FuzzySelect(FuzzySelectPrompt { message, options: es }),
                        to,
                    ),
                },
            ),
            Result::Err(e) => Err(e),
        },
        StateConfig::Condition { name, condition, branches } => {
            let cond = match parse(condition.as_str()) {
                Result::Ok(e) => e,
                Result::Err(e) => {
                    return Err(e);
                },
            };
            match parse_branches(&branches) {
                Result::Ok(bs) => Ok(
                    Node {
                        name,
                        state: State::Condition(Condition { condition: cond, branches: bs }),
                    },
                ),
                Result::Err(e) => Err(e),
            }
        },
        StateConfig::Remove { name, to } => Ok(Node { name, state: State::Remove(to) }),
        StateConfig::Goto { name, target } => match parse(target.as_str()) {
            Result::Ok(e) => Ok(Node { name, state: State::Goto(Goto { target: e }) }),
            Result::Err(e) => Err(e),
        },
        StateConfig::Done => Ok(Node { name: key.clone(), state: State::Done }),
    }
}

/// Builds the node graph of a flow definition.
///
/// Succeeds exactly when every expression text of every definition parses;
/// the graph then holds one node per definition, under the definition's key,
/// and the returned start id is the given one.  The first parse failure is
/// returned as is.
pub fn load(start: String, states: Vec<(String, StateConfig)>) -> (r: Result<
    (String, Vec<(String, Node)>),
    Error,
>)
    ensures
        match r {
            Result::Ok(p) => (forall|i: int|
                0 <= i < states@.len() ==> config_ok((#[trigger] states@[i]).1)) && p.0@ == start@
                && nodes_wf(p.1@) && p.1@.len() == states@.len() && (forall|i: int|
                0 <= i < states@.len() ==> (#[trigger] p.1@[i]).0@ == states@[i].0@) && (forall|
                i: int,
            |
                0 <= i < states@.len() ==> node_matches(
                    (#[trigger] states@[i]).0@,
                    states@[i].1,
                    p.1@[i].1,
                )),
            Result::Err(_) => !(forall|i: int|
                0 <= i < states@.len() ==> config_ok((#[trigger] states@[i]).1)),
        },
{
    let mut nodes: Vec<(String, Node)> = Vec::new();
    let mut remaining = states;
    let mut i: usize = 0;
    while remaining.len() > 0
        invariant
            0 <= i <= states@.len(),
            remaining@ =~= states@.skip(i as int),
            nodes@.len() == i,
            forall|j: int| 0 <= j < i ==> config_ok((#[trigger] states@[j]).1),
            forall|j: int| 0 <= j < i ==> state_wf((#[trigger] nodes@[j]).1.state),
            forall|j: int| 0 <= j < i ==> (#[trigger] nodes@[j]).0@ == states@[j].0@,
            forall|j: int|
                0 <= j < i ==> node_matches(
                    (#[trigger] states@[j]).0@,
                    states@[j].1,
                    nodes@[j].1,
                ),
        decreases remaining@.len(),
    {
        let (key, c) = remaining.remove(0);
        proof {
            assert(states@.skip(i as int)[0] == states@[i as int]);
            assert(states@.skip(i as int).drop_first() =~= states@.skip(i as int + 1));
        }
        match build_node(&key, c) {
            Result::Ok(n) => {
                nodes.push((key, n));
            },
            Result::Err(e) => {
                proof {
                    assert(!config_ok(states@[i as int].1));
                }
                return Err(e);
            },
        }
        i = nodes.len();
    }
    proof {
        assert(states@.skip(i as int).len() == 0);
        assert(i == states@.len());
        crate::state::lemma_nodes_wf(nodes@);
        assert forall|j: int|
            0 <= j < states@.len() implies config_ok((#[trigger] states@[j]).1) by {}
    }
    Ok((start, nodes))
}

} // verus!