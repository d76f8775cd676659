//! The state machine that walks a flow graph.
//!
//! A node holds a declared name (the variable its results bind to) and one
//! behavior: ask a prompt, evaluate a condition, set a variable, remove a
//! variable, jump unconditionally, or finish.  The machine holds the node
//! graph and the run's context, and repeatedly executes the current node and
//! follows its transition until a `Done` node is reached or a step fails.
//! Every transition target is resolved by name at run time; a target absent
//! from the graph fails with an invalid-transition error naming the source
//! and the target.  Cycles are permitted by design — a flow may re-ask a
//! question until a condition is met — so a run has no termination
//! guarantee; the machine bounds the number of transitions by a limit no
//! realistic flow can reach.

use vstd::prelude::*;
use crate::condition::{cond_eval_spec, Condition};
use crate::error::{Error, SpecError};
use crate::eval::{eval, eval_spec, Context};
use crate::goto::{goto_eval_spec, Goto};
use crate::parser::{expr_wf, view_expr, Expr};
use crate::prompt::{
    prompt_value_ok, run_prompt, spec_prompt_options, Prompt, PromptType,
};
use crate::value::SpecValue;

verus! {

/// The behavior of one node.
#[derive(Debug)]
pub enum State {
    /// Ask a prompt, bind the reply, and move on.
    Prompt(PromptType, String),
    /// Evaluate a condition and move to the node it selects.
    Condition(Condition),
    /// Evaluate an expression, bind its value, and move on.
    Assign(Expr, String),
    /// Remove the binding of the node's name and move on.
    Remove(String),
    /// Move to the node a computed id selects.
    Goto(Goto),
    /// Finish the run.
    Done,
}

/// One node: the name results bind to, and a behavior.
#[derive(Debug)]
pub struct Node {
    pub name: String,
    pub state: State,
}

/// The node graph and the run's variable bindings.
pub struct StateMachine {
    pub context: Context,
    pub nodes: Vec<(String, Node)>,
}

/// The representation invariant of a behavior: every embedded expression is
/// well formed.
pub open spec fn state_wf(s: State) -> bool {
    match s {
        State::Prompt(pt, _) => pt.wf(),
        State::Condition(c) => c.wf(),
        State::Assign(e, _) => expr_wf(e),
        State::Remove(_) => true,
        State::Goto(g) => expr_wf(g.target),
        State::Done => true,
    }
}

/// Every node's behavior is well formed.
pub open spec fn nodes_wf(ns: Seq<(String, Node)>) -> bool
    decreases ns,
{
    ns.len() == 0 || (state_wf(ns[0].1.state) && nodes_wf(ns.drop_first()))
}

/// Pointwise description of [`nodes_wf`].
pub proof fn lemma_nodes_wf(ns: Seq<(String, Node)>)
    ensures
        nodes_wf(ns) <==> (forall|i: int|
            0 <= i < ns.len() ==> state_wf((#[trigger] ns[i]).1.state)),
    decreases ns,
{
    if ns.len() > 0 {
        lemma_nodes_wf(ns.drop_first());
        assert forall|i: int|
            nodes_wf(ns) && 0 <= i < ns.len() implies state_wf((#[trigger] ns[i]).1.state) by {
            if i > 0 {
                assert(ns.drop_first()[i - 1] == ns[i]);
            }
        }
        if forall|i: int| 0 <= i < ns.len() ==> state_wf((#[trigger] ns[i]).1.state) {
            assert forall|i: int|
                0 <= i < ns.drop_first().len() implies state_wf(
                (#[trigger] ns.drop_first()[i]).1.state,
            ) by {
                assert(ns.drop_first()[i] == ns[i + 1]);
            }
        }
    }
}

/// Whether the graph holds a node under id `k`.
pub open spec fn has_node(ns: Seq<(String, Node)>, k: Seq<char>) -> bool {
    exists|i: int| 0 <= i < ns.len() && (#[trigger] ns[i]).0@ == k
}

/// The node under id `k`, if any; lookups take the first match.
pub open spec fn spec_find_node(ns: Seq<(String, Node)>, k: Seq<char>) -> Option<Node>
    decreases ns,
{
    if ns.len() == 0 {
        None
    } else if ns[0].0@ == k {
        Some(ns[0].1)
    } else {
        spec_find_node(ns.drop_first(), k)
    }
}

/// Skipping a non-matching entry keeps the lookup result.
proof fn lemma_find_node_step(ns: Seq<(String, Node)>, k: Seq<char>, i: int)
    requires
        0 <= i < ns.len(),
        ns[i].0@ != k,
    ensures
        spec_find_node(ns.skip(i), k) == spec_find_node(ns.skip(i + 1), k),
{
    assert(ns.skip(i)[0] == ns[i]);
    assert(ns.skip(i).drop_first() =~= ns.skip(i + 1));
}

/// The index of the first node under id `k`, if any.
fn find_node(ns: &Vec<(String, Node)>, k: &str) -> (r: Option<usize>)
    ensures
        match r {
            Option::Some(i) => i < ns@.len() && ns@[i as int].0@ == k@ && spec_find_node(ns@, k@)
                == Some(ns@[i as int].1),
            Option::None => !has_node(ns@, k@) && spec_find_node(ns@, k@) is None,
        },
{
    let ghost g = ns@;
    proof {
        assert(g.skip(0) =~= g);
    }
    let mut i: usize = 0;
    while i < ns.len()
        invariant
            0 <= i <= ns@.len(),
            g == ns@,
            spec_find_node(g, k@) == spec_find_node(g.skip(i as int), k@),
            forall|j: int| 0 <= j < i ==> (#[trigger] ns@[j]).0@ != k@,
        decreases ns@.len() - i,
    {
        let (key, _) = &ns[i];
        if crate::value::str_eq(key.as_str(), k) {
            proof {
                assert(g.skip(i as int)[0] == g[i as int]);
            }
            return Some(i);
        }
        proof {
            lemma_find_node_step(g, k@, i as int);
        }
        i = i + 1;
    }
    proof {
        assert(g.skip(ns@.len() as int).len() == 0);
    }
    None
}

/// The message of a transition to an id absent from the graph.
pub open spec fn invalid_transition_msg(from: Seq<char>, to: Seq<char>) -> Seq<char> {
    "Invalid transition from "@ + from + " to "@ + to
}

/// The message reported for a missing start node.
pub open spec fn invalid_start_msg(start: Seq<char>) -> Seq<char> {
    "Invalid start node: "@ + start
}

/// The failure reported when a transition names an id absent from the graph.
fn invalid_transition(from: &str, to: &str) -> (r: Error)
    ensures
        r@ == SpecError::InvalidTransition(invalid_transition_msg(from@, to@)),
{
    let msg = String::from_str("Invalid transition from ").concat(from).concat(" to ").concat(to);
    proof {
        assert(msg@ =~= "Invalid transition from "@ + from@ + " to "@ + to@);
    }
    Error::InvalidTransition(msg)
}

/// One recorded step of a run: the id of the executed node and, at a prompt,
/// the value its reply bound.
pub struct SpecStep {
    pub id: Seq<char>,
    pub prompt_value: Option<SpecValue>,
}

/// The context effect and transition of one successful step at node `n`: a
/// prompt binds its recorded reply-derived value under the declared name, an
/// assignment binds the evaluated value, a removal deletes the binding, and
/// a condition or jump leaves the context alone and chooses the next id.
/// `Done` takes no step, and a failing step has no entry here.
pub open spec fn step_effect(
    n: Node,
    ctx: Map<Seq<char>, SpecValue>,
    pv: Option<SpecValue>,
) -> Option<(Map<Seq<char>, SpecValue>, Seq<char>)> {
    match n.state {
        State::Prompt(pt, to) => match pv {
            Option::Some(v) => if prompt_value_ok(pt, ctx, v) {
                Some((ctx.insert(n.name@, v), to@))
            } else {
                None
            },
            Option::None => None,
        },
        State::Condition(c) => match cond_eval_spec(c@, ctx) {
            Result::Ok(t) => Some((ctx, t)),
            Result::Err(_) => None,
        },
        State::Assign(e, to) => match eval_spec(view_expr(e), ctx) {
            Result::Ok(v) => Some((ctx.insert(n.name@, v), to@)),
            Result::Err(_) => None,
        },
        State::Remove(to) => Some((ctx.remove(n.name@), to@)),
        State::Goto(g) => match goto_eval_spec(view_expr(g.target), ctx) {
            Result::Ok(t) => Some((ctx, t)),
            Result::Err(_) => None,
        },
        State::Done => None,
    }
}

/// Whether a step at node `n` can fail with exactly `e`: condition,
/// assignment and jump failures propagate verbatim; a prompt step fails with
/// its option-evaluation failure when the options do not evaluate, and
/// otherwise with whatever the capability or the reply check reported.
pub open spec fn step_fails(n: Node, ctx: Map<Seq<char>, SpecValue>, e: SpecError) -> bool {
    match n.state {
        State::Prompt(pt, _) => match spec_prompt_options(pt, ctx) {
            Result::Err(e0) => e == e0,
            Result::Ok(_) => true,
        },
        State::Condition(c) => cond_eval_spec(c@, ctx) == Result::<Seq<char>, SpecError>::Err(e),
        State::Assign(ex, _) => eval_spec(view_expr(ex), ctx) == Result::<
            SpecValue,
            SpecError,
        >::Err(e),
        State::Remove(_) => false,
        State::Goto(g) => goto_eval_spec(view_expr(g.target), ctx) == Result::<
            Seq<char>,
            SpecError,
        >::Err(e),
        State::Done => false,
    }
}

/// Replays recorded steps from id `from` with context `ctx`: every step must
/// name the id control rests at, execute that node successfully, and hand
/// control on; the result is the final context and the id control rests at
/// after the last step.
pub open spec fn trace_result(
    ns: Seq<(String, Node)>,
    from: Seq<char>,
    ctx: Map<Seq<char>, SpecValue>,
    steps: Seq<SpecStep>,
) -> Option<(Map<Seq<char>, SpecValue>, Seq<char>)>
    decreases steps,
{
    if steps.len() == 0 {
        Some((ctx, from))
    } else if steps[0].id != from {
        None
    } else {
        match spec_find_node(ns, from) {
            Option::None => None,
            Option::Some(n) => match step_effect(n, ctx, steps[0].prompt_value) {
                Option::None => None,
                Option::Some(p) => trace_result(ns, p.1, p.0, steps.drop_first()),
            },
        }
    }
}

/// A replay extends by one successful step at its resting id.
proof fn lemma_trace_snoc(
    ns: Seq<(String, Node)>,
    from: Seq<char>,
    ctx: Map<Seq<char>, SpecValue>,
    steps: Seq<SpecStep>,
    c2: Map<Seq<char>, SpecValue>,
    id: Seq<char>,
    n: Node,
    pv: Option<SpecValue>,
    c3: Map<Seq<char>, SpecValue>,
    next: Seq<char>,
)
    requires
        trace_result(ns, from, ctx, steps) == Some((c2, id)),
        spec_find_node(ns, id) == Some(n),
        step_effect(n, c2, pv) == Some((c3, next)),
    ensures
        trace_result(ns, from, ctx, steps.push(SpecStep { id, prompt_value: pv })) == Some(
            (c3, next),
        ),
    decreases steps,
{
    let s1 = steps.push(SpecStep { id, prompt_value: pv });
    if steps.len() == 0 {
        assert(c2 == ctx && id == from);
        assert(s1[0] == SpecStep { id, prompt_value: pv });
        assert(s1[0].id == from);
        assert(s1.drop_first() =~= Seq::<SpecStep>::empty());
        assert(trace_result(ns, next, c3, s1.drop_first()) == Some((c3, next)));
        assert(trace_result(ns, from, ctx, s1) == Some((c3, next)));
    } else {
        assert(spec_find_node(ns, from) is Some);
        let n0 = spec_find_node(ns, from)->Some_0;
        assert(steps[0].id == from);
        assert(step_effect(n0, ctx, steps[0].prompt_value) is Some);
        let p = step_effect(n0, ctx, steps[0].prompt_value)->Some_0;
        assert(trace_result(ns, p.1, p.0, steps.drop_first()) == Some((c2, id)));
        assert(s1[0] == steps[0]);
        assert(s1.drop_first() =~= steps.drop_first().push(SpecStep { id, prompt_value: pv }));
        lemma_trace_snoc(ns, p.1, p.0, steps.drop_first(), c2, id, n, pv, c3, next);
        assert(trace_result(ns, p.1, p.0, s1.drop_first()) == Some((c3, next)));
        assert(trace_result(ns, from, ctx, s1) == Some((c3, next)));
    }
}

/// Whether any node of the graph asks a prompt.
pub open spec fn has_prompt(ns: Seq<(String, Node)>) -> bool {
    exists|i: int| 0 <= i < ns.len() && (#[trigger] ns[i]).1.state is Prompt
}

/// The deterministic run of a prompt-free graph: executes node `n` against
/// `ctx` and follows transitions until a `Done` node, a failing step, a
/// missing target, or the step budget runs out.  Prompt nodes have no
/// deterministic outcome and are not described here.
pub open spec fn run_pure(
    ns: Seq<(String, Node)>,
    n: Node,
    ctx: Map<Seq<char>, SpecValue>,
    fuel: nat,
) -> Result<Map<Seq<char>, SpecValue>, SpecError>
    decreases fuel,
{
    if fuel == 0 {
        Err(SpecError::InvalidTransition("Transition limit exceeded"@))
    } else if n.state is Done {
        Ok(ctx)
    } else if n.state is Prompt {
        Err(SpecError::TypeError(Seq::empty()))
    } else {
        match step_effect(n, ctx, None) {
            Option::None => match first_step_error(n, ctx) {
                Option::Some(e) => Err(e),
                Option::None => Err(SpecError::TypeError(Seq::empty())),
            },
            Option::Some(p) => match spec_find_node(ns, p.1) {
                Option::None => Err(
                    SpecError::InvalidTransition(invalid_transition_msg(n.name@, p.1)),
                ),
                Option::Some(n2) => run_pure(ns, n2, p.0, (fuel - 1) as nat),
            },
        }
    }
}

/// The failure of one deterministic step, if it fails.
pub open spec fn first_step_error(n: Node, ctx: Map<Seq<char>, SpecValue>) -> Option<SpecError> {
    match n.state {
        State::Condition(c) => match cond_eval_spec(c@, ctx) {
            Result::Ok(_) => None,
            Result::Err(e) => Some(e),
        },
        State::Assign(ex, _) => match eval_spec(view_expr(ex), ctx) {
            Result::Ok(_) => None,
            Result::Err(e) => Some(e),
        },
        State::Goto(g) => match goto_eval_spec(view_expr(g.target), ctx) {
            Result::Ok(_) => None,
            Result::Err(e) => Some(e),
        },
        _ => None,
    }
}

impl StateMachine {
    /// Every node's behavior and the context are well formed.
    pub open spec fn wf(self) -> bool {
        self.context.wf() && nodes_wf(self.nodes@)
    }

    /// A machine over the given graph and context.
    pub fn new(nodes: Vec<(String, Node)>, context: Context) -> (r: StateMachine)
        ensures
            r.nodes == nodes,
            r.context == context,
    {
        StateMachine { nodes, context }
    }

    /// Runs the flow from the node under the id `start`.
    ///
    /// A missing start id fails at once, naming it, with the context
    /// untouched.  Success means an executed trace — one recorded step per
    /// node, each applying exactly that node's effect under its declared name
    /// — led from `start` to a `Done` node, and the final context is that
    /// trace's result.  Any failure ends the run at the first failing point:
    /// either the step itself failed (its failure returned verbatim, as
    /// [`step_fails`] describes), or a completed step handed control to an id
    /// absent from the graph (an invalid-transition failure naming the source
    /// node and the target), or the transition limit ran out; the context
    /// keeps the effects of the steps already completed.  A graph without
    /// prompt nodes runs deterministically: success, the final context and
    /// any failure are exactly what [`run_pure`] denotes.
    pub fn run<P: Prompt>(&mut self, start: String, handler: &mut P) -> (r: Result<(), Error>)
        requires
            old(self).wf(),
        ensures
            final(self).wf(),
            final(self).nodes@ == old(self).nodes@,
            !has_node(old(self).nodes@, start@) ==> (r matches Result::Err(e)
                && e@ == SpecError::InvalidTransition(invalid_start_msg(start@))
                && final(self).context@ == old(self).context@),
            r is Ok ==> exists|steps: Seq<SpecStep>|
                #[trigger] trace_result(old(self).nodes@, start@, old(self).context@, steps)
                    matches Some(p)
                    && final(self).context@ == p.0
                    && (spec_find_node(old(self).nodes@, p.1) matches Some(n)
                        && n.state is Done),
            r matches Result::Err(e) ==> has_node(old(self).nodes@, start@)
                ==> exists|steps: Seq<SpecStep>|
                #[trigger] trace_result(old(self).nodes@, start@, old(self).context@, steps)
                    matches Some(p)
                    && final(self).context@ == p.0
                    && ((spec_find_node(old(self).nodes@, p.1) matches Some(n)
                            && step_fails(n, p.0, e@))
                        || (spec_find_node(old(self).nodes@, p.1) is None
                            && steps.len() > 0
                            && (spec_find_node(old(self).nodes@, steps.last().id)
                                matches Some(src)
                                && e@ == SpecError::InvalidTransition(
                                invalid_transition_msg(src.name@, p.1),
                            )))
                        || (e@ == SpecError::InvalidTransition("Transition limit exceeded"@)
                            && steps.len() == 0xffff_ffff_ffff_ffff)),
            !has_prompt(old(self).nodes@) ==> (spec_find_node(old(self).nodes@, start@)
                matches Some(n0) ==> ({
                let rp = run_pure(
                    old(self).nodes@,
                    n0,
                    old(self).context@,
                    0xffff_ffff_ffff_ffff as nat,
                );
                &&& (r is Ok <==> rp is Ok)
                &&& (r is Ok ==> rp == Result::<Map<Seq<char>, SpecValue>, SpecError>::Ok(
                    final(self).context@,
                ))
                &&& (r matches Result::Err(e) ==> rp == Result::<
                    Map<Seq<char>, SpecValue>,
                    SpecError,
                >::Err(e@))
            })),
    {
        let ghost ns = self.nodes@;
        let ghost octx = self.context@;
        let mut cur: usize = match find_node(&self.nodes, start.as_str()) {
            Option::Some(i) => i,
            Option::None => {
                let msg = String::from_str("Invalid start node: ").concat(start.as_str());
                proof {
                    assert(msg@ =~= invalid_start_msg(start@));
                }
                return Err(Error::InvalidTransition(msg));
            },
        };
        let ghost mut gsteps: Seq<SpecStep> = Seq::empty();
        let ghost mut cur_id: Seq<char> = start@;
        let mut fuel: u64 = 0xffff_ffff_ffff_ffff;
        loop
            invariant
                cur < self.nodes@.len(),
                self.nodes@ == ns,
                ns == old(self).nodes@,
                octx == old(self).context@,
                has_node(ns, start@),
                self.context.wf(),
                nodes_wf(self.nodes@),
                trace_result(ns, start@, octx, gsteps) == Some((self.context@, cur_id)),
                spec_find_node(ns, cur_id) == Some(self.nodes@[cur as int].1),
                gsteps.len() + fuel == 0xffff_ffff_ffff_ffff,
                spec_find_node(ns, start@) is Some,
                !has_prompt(ns) ==> run_pure(
                    ns,
                    spec_find_node(ns, start@)->Some_0,
                    octx,
                    0xffff_ffff_ffff_ffff as nat,
                ) == run_pure(ns, self.nodes@[cur as int].1, self.context@, fuel as nat),
            decreases fuel,
        {
            if fuel == 0 {
                return Err(
                    Error::InvalidTransition(String::from_str("Transition limit exceeded")),
                );
            }
            fuel = fuel - 1;
            proof {
                lemma_nodes_wf(self.nodes@);
                assert(state_wf(self.nodes@[cur as int].1.state));
            }
            let ghost pre_ctx = self.context@;
            let ghost gnode = self.nodes@[cur as int].1;
            let next: String = {
                let node = &self.nodes[cur].1;
                match &node.state {
                    State::Done => {
                        proof {
                            assert(gnode.state is Done);
                        }
                        return Ok(());
                    },
                    State::Prompt(pt, to) => {
                        proof {
                            assert(self.nodes@[cur as int].1.state is Prompt);
                            assert(has_prompt(ns));
                        }
                        let name = node.name.clone();
                        let to = to.clone();
                        match run_prompt(pt, name.as_str(), &mut self.context, handler) {
                            Result::Ok(()) => {},
                            Result::Err(e) => {
                                proof {
                                    assert(step_fails(gnode, pre_ctx, e@));
                                }
                                return Err(e);
                            },
                        }
                        proof {
                            let sv = choose|sv: SpecValue|
                                prompt_value_ok(*pt, pre_ctx, sv) && crate::prompt::kind_shape(
                                    pt.spec_kind(),
                                    sv,
                                ) && self.context@ == pre_ctx.insert(name@, sv);
                            assert(step_effect(gnode, pre_ctx, Some(sv)) == Some(
                                (self.context@, to@),
                            ));
                            lemma_trace_snoc(
                                ns,
                                start@,
                                octx,
                                gsteps,
                                pre_ctx,
                                cur_id,
                                gnode,
                                Some(sv),
                                self.context@,
                                to@,
                            );
                            gsteps = gsteps.push(
                                SpecStep { id: cur_id, prompt_value: Some(sv) },
                            );
                            cur_id = to@;
                        }
                        to
                    },
                    State::Condition(c) => {
                        match c.eval(&self.context) {
                            Result::Ok(target) => {
                                proof {
                                    assert(step_effect(gnode, pre_ctx, None) == Some(
                                        (self.context@, target@),
                                    ));
                                    lemma_trace_snoc(
                                        ns,
                                        start@,
                                        octx,
                                        gsteps,
                                        pre_ctx,
                                        cur_id,
                                        gnode,
                                        None,
                                        self.context@,
                                        target@,
                                    );
                                    gsteps = gsteps.push(
                                        SpecStep { id: cur_id, prompt_value: None },
                                    );
                                    cur_id = target@;
                                }
                                target
                            },
                            Result::Err(e) => {
                                proof {
                                    assert(step_fails(gnode, pre_ctx, e@));
                                }
                                return Err(e);
                            },
                        }
                    },
                    State::Assign(e, to) => {
                        let name = node.name.clone();
                        let to = to.clone();
                        let v = match eval(e, &self.context) {
                            Result::Ok(v) => v,
                            Result::Err(err) => {
                                proof {
                                    assert(step_fails(gnode, pre_ctx, err@));
                                }
                                return Err(err);
                            },
                        };
                        let ghost gv = v@;
                        self.context.set_variable(name, v);
                        proof {
                            assert(step_effect(gnode, pre_ctx, None) == Some(
                                (self.context@, to@),
                            ));
                            lemma_trace_snoc(
                                ns,
                                start@,
                                octx,
                                gsteps,
                                pre_ctx,
                                cur_id,
                                gnode,
                                None,
                                self.context@,
                                to@,
                            );
                            gsteps = gsteps.push(SpecStep { id: cur_id, prompt_value: None });
                            cur_id = to@;
                        }
                        to
                    },
                    State::Remove(to) => {
                        let name = node.name.clone();
                        let to = to.clone();
                        self.context.remove_variable(name);
                        proof {
                            assert(step_effect(gnode, pre_ctx, None) == Some(
                                (self.context@, to@),
                            ));
                            lemma_trace_snoc(
                                ns,
                                start@,
                                octx,
                                gsteps,
                                pre_ctx,
                                cur_id,
                                gnode,
                                None,
                                self.context@,
                                to@,
                            );
                            gsteps = gsteps.push(SpecStep { id: cur_id, prompt_value: None });
                            cur_id = to@;
                        }
                        to
                    },
                    State::Goto(g) => {
                        match g.eval(&self.context) {
                            Result::Ok(target) => {
                                proof {
                                    assert(step_effect(gnode, pre_ctx, None) == Some(
                                        (self.context@, target@),
                                    ));
                                    lemma_trace_snoc(
                                        ns,
                                        start@,
                                        octx,
                                        gsteps,
                                        pre_ctx,
                                        cur_id,
                                        gnode,
                                        None,
                                        self.context@,
                                        target@,
                                    );
                                    gsteps = gsteps.push(
                                        SpecStep { id: cur_id, prompt_value: None },
                                    );
                                    cur_id = target@;
                                }
                                target
                            },
                            Result::Err(e) => {
                                proof {
                                    assert(step_fails(gnode, pre_ctx, e@));
                                }
                                return Err(e);
                            },
                        }
                    },
                }
            };
            match find_node(&self.nodes, next.as_str()) {
                Option::Some(j) => {
                    cur = j;
                },
                Option::None => {
                    let from = self.nodes[cur].1.name.clone();
                    return Err(invalid_transition(from.as_str(), next.as_str()));
                },
            }
        }
    }
}

} // verus!
