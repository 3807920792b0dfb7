//! One bounded round of rules.
//!
//! All rules of a round match against the rows as they were when it began. The
//! round is run in three calls: [`EGraph::begin_iteration`] sorts the rules out and
//! fires those without body atoms, [`EGraph::join_request`] says what the join
//! circuit is to be fed, and [`EGraph::finish_iteration`] takes the bindings it
//! gave, runs the heads and the rebuild, and applies the writes.
use crate::backend::{ExternalFunctionId, FunctionId};
use crate::collections::Env;
use crate::feldera::compile::{slot_val, slots_vals, BodyOp, HeadOp, RuleIr, Slot};
use crate::feldera::egraph::{EGraph, EgState};
use crate::feldera::head::{
    apply_head, build_row, failure, first_unbound, frame, head_fits, head_keeps_the_rest,
    head_leads, lemma_frame_refl, lemma_frame_trans, lemma_head_fits_frame, write_views, writes_fit,
    HeadError, HeadErrorView, HeadRun, LookupIndex, Write, WriteView,
};
use crate::feldera::join::may_answer;
use crate::feldera::rebuild::env_views;
use crate::text::{contains_str, occurs_in};
use std::rc::Rc;
use vstd::prelude::*;

verus! {

// ---------------------------------------------------------------------------
// Sorting the rules out
// ---------------------------------------------------------------------------

/// Whether a rule drains the record of leader changes. The in-core union-find
/// makes it idle.
pub fn is_uf_drain_rule(name: &str) -> (b: bool)
    ensures
        b == occurs_in("uf_change_drain"@, name@),
{
    contains_str(name, "uf_change_drain")
}

/// Whether a rule canonicalizes a view.
pub fn is_uf_rebuild_rule(name: &str) -> (b: bool)
    ensures
        b == occurs_in("rebuild_rule"@, name@),
{
    contains_str(name, "rebuild_rule")
}

/// Whether a rule probes new view rows against the union-find.
pub fn is_uf_dview_probe_rule(name: &str) -> (b: bool)
    ensures
        b == occurs_in("rebuild_dview_probe"@, name@),
{
    contains_str(name, "rebuild_dview_probe")
}

/// What a round does with a rule.
#[derive(Clone, Copy, Debug, PartialEq, Eq, Structural)]
pub enum RuleKind {
    /// It is not run.
    Idle,
    /// It is run on the host against the union-find.
    Rebuild,
    /// It is joined.
    Joined,
    /// It has no body atom and fires once.
    Atomless,
}

/// Whether a body reads a table.
pub open spec fn has_atoms(body: Seq<BodyOp>) -> bool {
    exists|i: int| 0 <= i < body.len() && (#[trigger] body[i]) is Atom
}

/// What a round does with a rule. Under the in-core union-find the rules that
/// maintain a relational one are idle, and rebuild rules leave the join.
pub open spec fn kind_of(native_uf: bool, rule: RuleIr) -> RuleKind {
    let name = rule.name@;
    if native_uf && (occurs_in("uf_change_drain"@, name) || occurs_in(
        "rebuild_dview_probe"@,
        name,
    )) {
        RuleKind::Idle
    } else if native_uf && occurs_in("rebuild_rule"@, name) {
        RuleKind::Rebuild
    } else if has_atoms(rule.body@) {
        RuleKind::Joined
    } else {
        RuleKind::Atomless
    }
}

/// What a round does with a rule.
pub fn rule_kind(native_uf: bool, rule: &RuleIr) -> (k: RuleKind)
    ensures
        k == kind_of(native_uf, *rule),
{
    if native_uf {
        if is_uf_drain_rule(rule.name.as_str()) || is_uf_dview_probe_rule(rule.name.as_str()) {
            return RuleKind::Idle;
        }
        if is_uf_rebuild_rule(rule.name.as_str()) {
            return RuleKind::Rebuild;
        }
    }
    for i in 0..rule.body.len()
        invariant
            forall|k: int| 0 <= k < i ==> !((#[trigger] rule.body@[k]) is Atom),
            native_uf ==> !occurs_in("uf_change_drain"@, rule.name@) && !occurs_in(
                "rebuild_dview_probe"@,
                rule.name@,
            ) && !occurs_in("rebuild_rule"@, rule.name@),
    {
        if let BodyOp::Atom(_) = &rule.body[i] {
            assert(rule.body@[i as int] is Atom);
            return RuleKind::Joined;
        }
    }
    RuleKind::Atomless
}

/// The rules at the given indices that are not freed.
pub open spec fn live_rules(s: EgState, idxs: Seq<usize>) -> Seq<(usize, RuleIr)>
    decreases idxs.len(),
{
    if idxs.len() == 0 {
        Seq::empty()
    } else {
        let before = live_rules(s, idxs.drop_last());
        let i = idxs.last();
        if i < s.rules.len() && s.rules[i as int] is Some {
            before.push((i, s.rules[i as int]->0))
        } else {
            before
        }
    }
}

/// The rules of one kind.
pub open spec fn of_kind(
    rules: Seq<(usize, RuleIr)>,
    native_uf: bool,
    kind: RuleKind,
) -> Seq<(usize, RuleIr)>
    decreases rules.len(),
{
    if rules.len() == 0 {
        Seq::empty()
    } else {
        let before = of_kind(rules.drop_last(), native_uf, kind);
        if kind_of(native_uf, rules.last().1) == kind {
            before.push(rules.last())
        } else {
            before
        }
    }
}

/// Rules with their indices, as values.
pub open spec fn rule_views(rules: Seq<(usize, Rc<RuleIr>)>) -> Seq<(usize, RuleIr)> {
    rules.map_values(|r: (usize, Rc<RuleIr>)| (r.0, *r.1))
}

/// Whether the atoms and actions of a rule fit the functions they name.
pub open spec fn rule_fits(s: EgState, rule: RuleIr) -> bool {
    &&& head_fits(s, rule.head@)
    &&& forall|i: int|
        0 <= i < rule.body@.len() ==> match #[trigger] rule.body@[i] {
            BodyOp::Atom(a) => a.func.rep < s.tables.len() && a.slots@.len()
                <= s.tables[a.func.rep as int].info.arity,
            BodyOp::Prim { id, args, ret } => s.canon.contains_key(id.rep) ==> args@.len() > 0,
            BodyOp::Differ(_, _) => true,
        }
}

/// Whether all rules at the given indices fit.
pub open spec fn rules_fit(s: EgState, rules: Seq<(usize, RuleIr)>) -> bool {
    forall|i: int| 0 <= i < rules.len() ==> rule_fits(s, (#[trigger] rules[i]).1)
}

// ---------------------------------------------------------------------------
// Rules without body atoms
// ---------------------------------------------------------------------------

/// The bindings after a body primitive; none if it pruned the match. `reply` is the
/// primitive's result.
pub open spec fn body_step(
    s: EgState,
    env: Map<u32, u32>,
    op: BodyOp,
    reply: Option<u32>,
) -> Option<Map<u32, u32>> {
    match op {
        BodyOp::Atom(_) => None,
        BodyOp::Prim { id, args, ret } => if first_unbound(args@, env) is Some {
            None
        } else {
            let result = if s.canon.contains_key(id.rep) {
                Some(s.find(s.canon[id.rep] as int, slots_vals(args@, env)[0]))
            } else {
                reply
            };
            match result {
                None => None,
                Some(v) => match ret {
                    Slot::Var(x) => if env.contains_key(x) && env[x] != v {
                        None
                    } else {
                        Some(env.insert(x, v))
                    },
                    Slot::Const(c) => if c == v {
                        Some(env)
                    } else {
                        None
                    },
                },
            }
        },
        BodyOp::Differ(l, r) => match (slot_val(l, env), slot_val(r, env)) {
            (Some(a), Some(b)) => if a != b {
                Some(env)
            } else {
                None
            },
            _ => None,
        },
    }
}

/// Whether `reply` is what the primitive answered.
pub open spec fn body_reply_ok<F: Fn(ExternalFunctionId, &Vec<u32>) -> Option<u32>>(
    prim: F,
    s: EgState,
    env: Map<u32, u32>,
    op: BodyOp,
    reply: Option<u32>,
) -> bool {
    match op {
        BodyOp::Atom(_) => true,
        BodyOp::Prim { id, args, ret } => first_unbound(args@, env) is None
            && !s.canon.contains_key(id.rep) ==> may_answer(prim, id, slots_vals(args@, env), reply),
        BodyOp::Differ(_, _) => true,
    }
}

/// Whether a body primitive may lead from bindings to `out`.
pub open spec fn body_op_leads<F: Fn(ExternalFunctionId, &Vec<u32>) -> Option<u32>>(
    prim: F,
    s: EgState,
    env: Map<u32, u32>,
    op: BodyOp,
    out: Option<Map<u32, u32>>,
) -> bool {
    exists|reply: Option<u32>|
        #![trigger body_step(s, env, op, reply)]
        body_reply_ok(prim, s, env, op, reply) && out == body_step(s, env, op, reply)
}

/// Whether a body primitive may lead from bindings, if there are any, to `out`.
pub open spec fn body_op_leads_opt<F: Fn(ExternalFunctionId, &Vec<u32>) -> Option<u32>>(
    prim: F,
    s: EgState,
    mid: Option<Map<u32, u32>>,
    op: BodyOp,
    out: Option<Map<u32, u32>>,
) -> bool {
    match mid {
        None => out is None,
        Some(env) => body_op_leads(prim, s, env, op, out),
    }
}

/// Whether `envs` are the bindings before and after each of the first `n`
/// primitives of a body.
pub open spec fn body_chain<F: Fn(ExternalFunctionId, &Vec<u32>) -> Option<u32>>(
    prim: F,
    s: EgState,
    body: Seq<BodyOp>,
    n: int,
    envs: Seq<Option<Map<u32, u32>>>,
) -> bool {
    &&& envs.len() == n + 1
    &&& envs[0] == Some(Map::<u32, u32>::empty())
    &&& forall|i: int|
        #![trigger body[i]]
        0 <= i < n ==> body_op_leads_opt(prim, s, envs[i], body[i], envs[i + 1])
}

/// Whether the first `n` primitives of a body may lead from no bindings to `out`.
pub open spec fn body_leads<F: Fn(ExternalFunctionId, &Vec<u32>) -> Option<u32>>(
    prim: F,
    s: EgState,
    body: Seq<BodyOp>,
    n: int,
    out: Option<Map<u32, u32>>,
) -> bool {
    exists|envs: Seq<Option<Map<u32, u32>>>| #[trigger]
        body_chain(prim, s, body, n, envs) && envs.last() == out
}

proof fn lemma_body_more<F: Fn(ExternalFunctionId, &Vec<u32>) -> Option<u32>>(
    prim: F,
    s: EgState,
    body: Seq<BodyOp>,
    n: int,
    mid: Option<Map<u32, u32>>,
    out: Option<Map<u32, u32>>,
)
    requires
        0 <= n < body.len(),
        body_leads(prim, s, body, n, mid),
        body_op_leads_opt(prim, s, mid, body[n], out),
    ensures
        body_leads(prim, s, body, n + 1, out),
{
    let envs = choose|envs: Seq<Option<Map<u32, u32>>>| #[trigger]
        body_chain(prim, s, body, n, envs) && envs.last() == mid;
    let more = envs.push(out);
    assert forall|i: int|
        #![trigger body[i]]
        0 <= i < n + 1 implies body_op_leads_opt(prim, s, more[i], body[i], more[i + 1]) by {
        if i < n {
            assert(more[i] == envs[i] && more[i + 1] == envs[i + 1]);
        } else {
            assert(more[i] == envs.last());
        }
    }
    assert(body_chain(prim, s, body, n + 1, more));
}

/// The value of a slot, if it is bound.
fn bound_val(slot: &Slot, env: &Env) -> (r: Option<u32>)
    ensures
        r == slot_val(*slot, env@),
{
    match slot {
        Slot::Const(c) => Some(*c),
        Slot::Var(v) => env.get(*v),
    }
}

/// Evaluates a body primitive under some bindings.
pub fn eval_body_prim<F: Fn(ExternalFunctionId, &Vec<u32>) -> Option<u32>>(
    eg: &EGraph,
    op: &BodyOp,
    env: Env,
    prim: &F,
) -> (out: Option<Env>)
    requires
        eg.wf(),
        forall|id: ExternalFunctionId, v: Vec<u32>| #[trigger] call_requires(*prim, (id, &v)),
        *op matches BodyOp::Prim { id, args, ret } ==> (eg@.canon.contains_key(id.rep) ==> args@.len()
            > 0),
    ensures
        body_op_leads(*prim, eg@, env@, *op, env_view(out)),
{
    proof {
        eg.lemma_wf();
    }
    match op {
        BodyOp::Atom(_) => {
            assert(body_step(eg@, env@, *op, None) is None);
            None
        },
        BodyOp::Prim { id, args, ret } => {
            let argv = match build_row(args, &env) {
                Ok(a) => a,
                Err(_) => {
                    assert(body_reply_ok(*prim, eg@, env@, *op, None));
                    assert(body_step(eg@, env@, *op, None) is None);
                    return None;
                },
            };
            let ghost mut reply: Option<u32> = None;
            let result: Option<u32> = match eg.canon_table(*id) {
                Some(t) => {
                    assert(eg@.canon.contains_key(id.rep));
                    Some(eg.native_uf_find(FunctionId::new(t as u32), argv[0]))
                },
                None => {
                    let r: Option<u32> = prim(*id, &argv);
                    proof {
                        reply = r;
                        assert(may_answer(*prim, *id, slots_vals(args@, env@), r));
                    }
                    r
                },
            };
            assert(body_reply_ok(*prim, eg@, env@, *op, reply));
            let ghost env0 = env@;
            let out = match result {
                None => None,
                Some(v) => match ret {
                    Slot::Var(x) => {
                        let clash = match env.get(*x) {
                            Some(old_v) => old_v != v,
                            None => false,
                        };
                        if clash {
                            None
                        } else {
                            let mut next = env;
                            next.insert(*x, v);
                            Some(next)
                        }
                    },
                    Slot::Const(c) => if *c == v {
                        Some(env)
                    } else {
                        None
                    },
                },
            };
            assert(env_view(out) == body_step(eg@, env0, *op, reply));
            out
        },
        BodyOp::Differ(l, r) => {
            let ghost env0 = env@;
            assert(body_reply_ok(*prim, eg@, env0, *op, None));
            let kept = match (bound_val(l, &env), bound_val(r, &env)) {
                (Some(a), Some(b)) => a != b,
                _ => false,
            };
            let out = if kept {
                Some(env)
            } else {
                None
            };
            assert(env_view(out) == body_step(eg@, env0, *op, None));
            out
        },
    }
}

/// The bindings under which a rule without body atoms fires, if it does.
fn eval_body<F: Fn(ExternalFunctionId, &Vec<u32>) -> Option<u32>>(
    eg: &EGraph,
    rule: &RuleIr,
    prim: &F,
) -> (out: Option<Env>)
    requires
        eg.wf(),
        rule_fits(eg@, *rule),
        forall|id: ExternalFunctionId, v: Vec<u32>| #[trigger] call_requires(*prim, (id, &v)),
    ensures
        body_leads(*prim, eg@, rule.body@, rule.body@.len() as int, env_view(out)),
{
    let ghost body = rule.body@;
    let mut cur = Some(Env::new());
    proof {
        assert(env_view(cur) == Some(Map::<u32, u32>::empty()));
        let start = seq![Some(Map::<u32, u32>::empty())];
        assert(body_chain(*prim, eg@, body, 0, start));
        assert(start.last() == env_view(cur));
    }
    for i in 0..rule.body.len()
        invariant
            eg.wf(),
            rule_fits(eg@, *rule),
            body == rule.body@,
            forall|id: ExternalFunctionId, v: Vec<u32>| #[trigger] call_requires(*prim, (id, &v)),
            body_leads(*prim, eg@, body, i as int, env_view(cur)),
    {
        let ghost mid = env_view(cur);
        assert(match body[i as int] {
            BodyOp::Atom(a) => true,
            BodyOp::Prim { id, args, ret } => eg@.canon.contains_key(id.rep) ==> args@.len() > 0,
            BodyOp::Differ(_, _) => true,
        });
        cur =
        match cur {
            None => {
                proof {
                    lemma_body_more(*prim, eg@, body, i as int, mid, None);
                }
                None
            },
            Some(env) => {
                let ghost env0 = env@;
                let next = eval_body_prim(eg, &rule.body[i], env, prim);
                proof {
                    lemma_body_more(*prim, eg@, body, i as int, mid, env_view(next));
                }
                next
            },
        };
    }
    cur
}

/// Bindings that may be missing, as a value.
pub open spec fn env_view(e: Option<Env>) -> Option<Map<u32, u32>> {
    match e {
        Some(x) => Some(x@),
        None => None,
    }
}

// ---------------------------------------------------------------------------
// Sequences of heads
// ---------------------------------------------------------------------------

/// A round under way: the state, the collected writes, and the failure that
/// stopped it.
pub struct JobRun {
    pub eg: EgState,
    pub writes: Seq<WriteView>,
    pub err: Option<HeadErrorView>,
}

/// A head to run under some bindings.
pub struct Job {
    pub head: Seq<HeadOp>,
    pub env: Map<u32, u32>,
}

/// Whether `states` are the states before and after each item.
pub open spec fn chain<S, T>(
    step: spec_fn(S, T, S) -> bool,
    items: Seq<T>,
    states: Seq<S>,
) -> bool {
    &&& states.len() == items.len() + 1
    &&& forall|i: int|
        #![trigger items[i]]
        0 <= i < items.len() ==> step(states[i], items[i], states[i + 1])
}

/// Whether a sequence of items may lead from one state to another.
pub open spec fn leads<S, T>(
    step: spec_fn(S, T, S) -> bool,
    start: S,
    items: Seq<T>,
    out: S,
) -> bool {
    exists|states: Seq<S>| #[trigger]
        chain(step, items, states) && states[0] == start && states.last() == out
}

pub proof fn lemma_leads_none<S, T>(step: spec_fn(S, T, S) -> bool, start: S)
    ensures
        leads(step, start, Seq::<T>::empty(), start),
{
    let states = seq![start];
    assert(chain(step, Seq::<T>::empty(), states));
    assert(states.last() == start);
}

pub proof fn lemma_leads_more<S, T>(
    step: spec_fn(S, T, S) -> bool,
    start: S,
    items: Seq<T>,
    mid: S,
    item: T,
    out: S,
)
    requires
        leads(step, start, items, mid),
        step(mid, item, out),
    ensures
        leads(step, start, items.push(item), out),
{
    let states = choose|states: Seq<S>| #[trigger]
        chain(step, items, states) && states[0] == start && states.last() == mid;
    let more = states.push(out);
    let items2 = items.push(item);
    assert forall|i: int|
        #![trigger items2[i]]
        0 <= i < items2.len() implies step(more[i], items2[i], more[i + 1]) by {
        if i < items.len() {
            assert(items2[i] == items[i]);
            assert(more[i] == states[i] && more[i + 1] == states[i + 1]);
        } else {
            assert(more[i] == states.last());
        }
    }
    assert(chain(step, items2, more));
    assert(more.last() == out);
}

/// A failure at the end of one sequence of items ends it.
pub proof fn lemma_leads_stop<S, T>(
    step: spec_fn(S, T, S) -> bool,
    start: S,
    items: Seq<T>,
    n: int,
    out: S,
)
    requires
        0 <= n <= items.len(),
        leads(step, start, items.take(n), out),
        forall|t: T| #[trigger] step(out, t, out),
    ensures
        leads(step, start, items, out),
    decreases items.len() - n,
{
    if n == items.len() {
        assert(items.take(n) =~= items);
    } else {
        assert(items.take(n + 1) =~= items.take(n).push(items[n]));
        assert(step(out, items[n], out));
        lemma_leads_more(step, start, items.take(n), out, items[n], out);
        lemma_leads_stop(step, start, items, n + 1, out);
    }
}

/// Two sequences of items, one after the other.
pub proof fn lemma_leads_concat<S, T>(
    step: spec_fn(S, T, S) -> bool,
    start: S,
    a: Seq<T>,
    mid: S,
    b: Seq<T>,
    out: S,
)
    requires
        leads(step, start, a, mid),
        leads(step, mid, b, out),
    ensures
        leads(step, start, a + b, out),
{
    let sa = choose|states: Seq<S>| #[trigger]
        chain(step, a, states) && states[0] == start && states.last() == mid;
    let sb = choose|states: Seq<S>| #[trigger]
        chain(step, b, states) && states[0] == mid && states.last() == out;
    let all = sa + sb.skip(1);
    let items = a + b;
    assert forall|i: int|
        #![trigger items[i]]
        0 <= i < items.len() implies step(all[i], items[i], all[i + 1]) by {
        if i < a.len() {
            assert(items[i] == a[i]);
            assert(all[i] == sa[i] && all[i + 1] == sa[i + 1]);
        } else {
            let j = i - a.len();
            assert(items[i] == b[j]);
            assert(all[i + 1] == sb[j + 1]);
            if j == 0 {
                assert(all[i] == sa.last());
            } else {
                assert(all[i] == sb[j]);
            }
        }
    }
    assert(chain(step, items, all));
    assert(all.last() == out) by {
        if b.len() == 0 {
            assert(sb.skip(1) =~= Seq::empty());
            assert(all =~= sa);
        }
    }
}

/// Whether a job may lead from one state to another; none runs after a failure.
pub open spec fn job_leads<F: Fn(ExternalFunctionId, &Vec<u32>) -> Option<u32>>(
    prim: F,
    a: JobRun,
    job: Job,
    b: JobRun,
) -> bool {
    if a.err is Some {
        b == a
    } else {
        exists|run: HeadRun| #[trigger]
            head_leads(
                prim,
                HeadRun { eg: a.eg, writes: a.writes, env: job.env, err: None },
                job.head,
                run,
            ) && b == (JobRun { eg: run.eg, writes: run.writes, err: run.err })
    }
}

proof fn lemma_job<F: Fn(ExternalFunctionId, &Vec<u32>) -> Option<u32>>(
    prim: F,
    a: JobRun,
    job: Job,
    run: HeadRun,
)
    requires
        a.err is None,
        head_leads(
            prim,
            HeadRun { eg: a.eg, writes: a.writes, env: job.env, err: None },
            job.head,
            run,
        ),
    ensures
        job_leads(prim, a, job, JobRun { eg: run.eg, writes: run.writes, err: run.err }),
{
}

/// The step of a sequence of jobs.
pub open spec fn job_step<F: Fn(ExternalFunctionId, &Vec<u32>) -> Option<u32>>(
    prim: F,
) -> spec_fn(JobRun, Job, JobRun) -> bool {
    |a: JobRun, job: Job, b: JobRun| job_leads(prim, a, job, b)
}

/// The jobs of one head under each of some bindings.
pub open spec fn jobs_of(head: Seq<HeadOp>, envs: Seq<Map<u32, u32>>) -> Seq<Job> {
    envs.map_values(|env: Map<u32, u32>| Job { head, env })
}

/// Runs a head under each of some bindings, in order, up to the first failure.
pub fn run_envs<F: Fn(ExternalFunctionId, &Vec<u32>) -> Option<u32>>(
    eg: &mut EGraph,
    head: &Vec<HeadOp>,
    envs: &Vec<Env>,
    writes: &mut Vec<Write>,
    index: &mut LookupIndex,
    prim: &F,
) -> (r: Result<(), HeadError>)
    requires
        old(eg).wf(),
        old(index).ok(old(eg)@),
        head_fits(old(eg)@, head@),
        writes_fit(old(eg)@, write_views(old(writes)@)),
        forall|id: ExternalFunctionId, v: Vec<u32>| #[trigger] call_requires(*prim, (id, &v)),
    ensures
        final(eg).wf(),
        final(index).ok(final(eg)@),
        final(eg).runs() == old(eg).runs(),
        frame(old(eg)@, final(eg)@),
        writes_fit(final(eg)@, write_views(final(writes)@)),
        leads(
            job_step(*prim),
            JobRun { eg: old(eg)@, writes: write_views(old(writes)@), err: None },
            jobs_of(head@, env_views(envs@)),
            JobRun { eg: final(eg)@, writes: write_views(final(writes)@), err: failure(r) },
        ),
{
    let ghost start = JobRun { eg: eg@, writes: write_views(writes@), err: None };
    let ghost jobs = jobs_of(head@, env_views(envs@));
    proof {
        lemma_leads_none(job_step(*prim), start);
        assert(jobs.take(0) =~= Seq::<Job>::empty());
        lemma_frame_refl(eg@);
    }
    for i in 0..envs.len()
        invariant
            start == (JobRun { eg: old(eg)@, writes: write_views(old(writes)@), err: None }),
            jobs == jobs_of(head@, env_views(envs@)),
            jobs.len() == envs@.len(),
            eg.wf(),
            index.ok(eg@),
            eg.runs() == old(eg).runs(),
            head_fits(old(eg)@, head@),
            frame(old(eg)@, eg@),
            writes_fit(eg@, write_views(writes@)),
            forall|id: ExternalFunctionId, v: Vec<u32>| #[trigger] call_requires(*prim, (id, &v)),
            leads(
                job_step(*prim),
                start,
                jobs.take(i as int),
                JobRun { eg: eg@, writes: write_views(writes@), err: None },
            ),
    {
        let ghost mid = JobRun { eg: eg@, writes: write_views(writes@), err: None };
        let ghost job = jobs[i as int];
        let mut env = envs[i].clone();
        proof {
            lemma_head_fits_frame(old(eg)@, eg@, head@);
        }
        let r = apply_head(eg, head, &mut env, writes, index, prim);
        let ghost out = JobRun { eg: eg@, writes: write_views(writes@), err: failure(r) };
        proof {
            let run0 = HeadRun { eg: mid.eg, writes: mid.writes, env: job.env, err: None };
            let run1 = HeadRun {
                eg: eg@,
                writes: write_views(writes@),
                env: env@,
                err: failure(r),
            };
            assert(head_leads(*prim, run0, job.head, run1));
            head_keeps_the_rest(*prim, run0, job.head, run1);
            lemma_frame_trans(old(eg)@, mid.eg, eg@);
            assert(job_leads(*prim, mid, job, out));
            lemma_leads_more(job_step(*prim), start, jobs.take(i as int), mid, job, out);
            assert(jobs.take(i + 1) =~= jobs.take(i as int).push(job));
        }
        if let Err(e) = r {
            proof {
                lemma_leads_stop(job_step(*prim), start, jobs, i + 1, out);
            }
            return Err(e);
        }
    }
    assert(jobs.take(envs@.len() as int) =~= jobs);
    Ok(())
}

/// Whether a rule without body atoms may lead from one state to another: it fires
/// once, under the bindings of its primitives.
pub open spec fn atomless_leads<F: Fn(ExternalFunctionId, &Vec<u32>) -> Option<u32>>(
    prim: F,
    a: JobRun,
    rule: (usize, RuleIr),
    b: JobRun,
) -> bool {
    if a.err is Some || a.eg.fired.contains(rule.0) {
        b == a
    } else {
        let fired = JobRun { eg: EgState { fired: a.eg.fired.insert(rule.0), ..a.eg }, ..a };
        exists|env: Option<Map<u32, u32>>| #[trigger]
            body_leads(prim, a.eg, rule.1.body@, rule.1.body@.len() as int, env) && match env {
                None => b == fired,
                Some(m) => job_leads(prim, fired, Job { head: rule.1.head@, env: m }, b),
            }
    }
}

/// The step of a sequence of rules without body atoms.
pub open spec fn atomless_step<F: Fn(ExternalFunctionId, &Vec<u32>) -> Option<u32>>(
    prim: F,
) -> spec_fn(JobRun, (usize, RuleIr), JobRun) -> bool {
    |a: JobRun, rule: (usize, RuleIr), b: JobRun| atomless_leads(prim, a, rule, b)
}

/// A state with another record of fired rules.
pub open spec fn with_fired(s: EgState, fired: Set<usize>) -> EgState {
    EgState { fired, ..s }
}

proof fn lemma_atomless<F: Fn(ExternalFunctionId, &Vec<u32>) -> Option<u32>>(
    prim: F,
    a: JobRun,
    rule: (usize, RuleIr),
    env: Option<Map<u32, u32>>,
    b: JobRun,
)
    requires
        a.err is None,
        !a.eg.fired.contains(rule.0),
        body_leads(prim, a.eg, rule.1.body@, rule.1.body@.len() as int, env),
        ({
            let fired = JobRun { eg: with_fired(a.eg, a.eg.fired.insert(rule.0)), ..a };
            match env {
                None => b == fired,
                Some(m) => job_leads(prim, fired, Job { head: rule.1.head@, env: m }, b),
            }
        }),
    ensures
        atomless_leads(prim, a, rule, b),
{
}

/// Fires a rule without body atoms, once.
pub fn fire_atomless<F: Fn(ExternalFunctionId, &Vec<u32>) -> Option<u32>>(
    eg: &mut EGraph,
    idx: usize,
    rule: &RuleIr,
    writes: &mut Vec<Write>,
    index: &mut LookupIndex,
    prim: &F,
) -> (r: Result<(), HeadError>)
    requires
        old(eg).wf(),
        old(index).ok(old(eg)@),
        rule_fits(old(eg)@, *rule),
        writes_fit(old(eg)@, write_views(old(writes)@)),
        forall|id: ExternalFunctionId, v: Vec<u32>| #[trigger] call_requires(*prim, (id, &v)),
    ensures
        final(eg).wf(),
        final(index).ok(final(eg)@),
        final(eg).runs() == old(eg).runs(),
        frame(with_fired(old(eg)@, final(eg)@.fired), final(eg)@),
        writes_fit(final(eg)@, write_views(final(writes)@)),
        atomless_leads(
            *prim,
            JobRun { eg: old(eg)@, writes: write_views(old(writes)@), err: None },
            (idx, *rule),
            JobRun { eg: final(eg)@, writes: write_views(final(writes)@), err: failure(r) },
        ),
{
    let ghost s0 = eg@;
    proof {
        lemma_frame_refl(s0);
        assert(with_fired(s0, s0.fired) =~= s0);
    }
    if eg.has_fired(idx) {
        return Ok(());
    }
    let env = eval_body(eg, rule, prim);
    eg.set_fired(idx);
    let ghost s1 = eg@;
    proof {
        index.lemma_same_rows(s0, s1);
        lemma_frame_refl(s1);
        assert(with_fired(s0, s1.fired) =~= s1);
        assert forall|i: int| 0 <= i < rule.head@.len() implies crate::feldera::head::op_fits(
            s1,
            #[trigger] rule.head@[i],
        ) by {
            assert(crate::feldera::head::op_fits(s0, rule.head@[i]));
        }
        assert forall|i: int| 0 <= i < write_views(writes@).len() implies
            crate::feldera::head::write_fits(s1, #[trigger] write_views(writes@)[i]) by {
            assert(crate::feldera::head::write_fits(s0, write_views(writes@)[i]));
        }
    }
    let ghost ev = env_view(env);
    match env {
        None => {
            proof {
                let a = JobRun { eg: s0, writes: write_views(writes@), err: None };
                let b = JobRun { eg: s1, writes: write_views(writes@), err: None };
                lemma_atomless(*prim, a, (idx, *rule), ev, b);
            }
            Ok(())
        },
        Some(e) => {
            let mut env1 = e;
            let ghost w0 = write_views(writes@);
            let ghost m = env1@;
            let r = apply_head(eg, &rule.head, &mut env1, writes, index, prim);
            proof {
                let run0 = HeadRun { eg: s1, writes: w0, env: m, err: None };
                let run1 = HeadRun {
                    eg: eg@,
                    writes: write_views(writes@),
                    env: env1@,
                    err: failure(r),
                };
                assert(head_leads(*prim, run0, rule.head@, run1));
                head_keeps_the_rest(*prim, run0, rule.head@, run1);
                let a = JobRun { eg: s0, writes: w0, err: None };
                let b = JobRun { eg: eg@, writes: write_views(writes@), err: failure(r) };
                let fired = JobRun { eg: s1, writes: w0, err: None };
                let job = Job { head: rule.head@, env: m };
                lemma_job(*prim, fired, job, run1);
                lemma_atomless(*prim, a, (idx, *rule), ev, b);
            }
            r
        },
    }
}

} // verus!
