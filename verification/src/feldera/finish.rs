//! The end of a round: heads over the join's bindings, the host rebuild, the
//! writes, and the queued unions.
use crate::backend::{ExternalFunctionId, FunctionId};
use crate::collections::{weighted_views, Env};
use crate::feldera::compile::{BodyOp, HeadOp, RuleIr, Slot};
use crate::feldera::egraph::{
    drained_all, rows_at, seeded, shared_rows, some_leader_moves, table_ok, EGraph, EgState,
};
use crate::feldera::head::{
    failure, frame, head_fits, lemma_frame_refl, lemma_frame_trans, lemma_head_fits_frame, op_fits,
    table_frame, write_fits, write_views, writes_fit, HeadError, HeadErrorView, WriteView,
};
use crate::feldera::interpret::{
    job_step, jobs_of, leads, lemma_leads_concat, lemma_leads_more, lemma_leads_none,
    lemma_leads_stop, rule_fits, rule_views, rules_fit, run_envs, Job, JobRun,
};
use crate::feldera::rebuild::{
    are_envs_of, canon_cols, col_in, env_views, first_atom, first_cols, first_set,
    native_uf_rebuild_envs, plan_fits, rebuild_plan_of, rebuild_rows, rebuild_rule_plan,
    RebuildError, RebuildPlan, RebuildView,
};
use crate::feldera::round::{lemma_rule_fits_frame, lemma_rules_fit_frame, Pass};
use crate::feldera::settle::{settle, settled, some_table_changes};
use crate::feldera::table::{rows_fit, TableState};
use std::rc::Rc;
use vstd::prelude::*;

verus! {

/// Why a round failed.
#[derive(Debug)]
pub enum RunError {
    /// A head failed.
    Head(HeadError),
    /// A rule with the name of a rebuild rule is none.
    Rebuild(RebuildError),
}

/// Why a round failed, as a value.
pub enum RunErrorView {
    Head(HeadErrorView),
    Rebuild(RebuildError),
}

impl RunError {
    pub open spec fn view(&self) -> RunErrorView {
        match self {
            RunError::Head(e) => RunErrorView::Head(e.view()),
            RunError::Rebuild(e) => RunErrorView::Rebuild(*e),
        }
    }
}

/// A round under way, as a value.
pub struct RoundRun {
    pub eg: EgState,
    pub writes: Seq<WriteView>,
    pub err: Option<RunErrorView>,
}

/// The failure of a head as that of the round.
pub open spec fn head_failure(e: Option<HeadErrorView>) -> Option<RunErrorView> {
    match e {
        Some(x) => Some(RunErrorView::Head(x)),
        None => None,
    }
}

/// The failure of a result, as a value.
pub open spec fn run_failure<A>(r: Result<A, RunError>) -> Option<RunErrorView> {
    match r {
        Ok(_) => None,
        Err(e) => Some(e.view()),
    }
}

// ---------------------------------------------------------------------------
// Bindings
// ---------------------------------------------------------------------------

/// The values that a binding row gives its variables.
pub open spec fn bind_env(var_order: Seq<u32>, bind: Seq<u32>) -> Map<u32, u32>
    decreases var_order.len(),
{
    if var_order.len() == 0 {
        Map::empty()
    } else {
        bind_env(var_order.drop_last(), bind).insert(var_order.last(), bind[var_order.len() - 1])
    }
}

/// The bindings that are new: those of positive weight, in their order.
pub open spec fn new_envs(var_order: Seq<u32>, binds: Seq<(Seq<u32>, i64)>) -> Seq<Map<u32, u32>>
    decreases binds.len(),
{
    if binds.len() == 0 {
        Seq::empty()
    } else {
        let before = new_envs(var_order, binds.drop_last());
        if binds.last().1 > 0 {
            before.push(bind_env(var_order, binds.last().0))
        } else {
            before
        }
    }
}

/// Whether the binding rows of a rule hold all its variables.
pub open spec fn binds_fit(var_order: Seq<u32>, binds: Seq<(Vec<u32>, i64)>) -> bool {
    forall|i: int| 0 <= i < binds.len() ==> var_order.len() <= (#[trigger] binds[i]).0@.len()
}

/// The environments of a rule's new bindings. A binding of negative weight is a
/// retraction, for which nothing is run.
pub fn route_bindings(var_order: &Vec<u32>, binds: &Vec<(Vec<u32>, i64)>) -> (envs: Vec<Env>)
    requires
        binds_fit(var_order@, binds@),
    ensures
        env_views(envs@) == new_envs(var_order@, weighted_views(binds@)),
{
    let ghost bv = weighted_views(binds@);
    let mut envs: Vec<Env> = Vec::new();
    assert(bv.take(0) =~= Seq::empty());
    assert(env_views(envs@) =~= Seq::empty());
    for i in 0..binds.len()
        invariant
            bv == weighted_views(binds@),
            binds_fit(var_order@, binds@),
            env_views(envs@) == new_envs(var_order@, bv.take(i as int)),
    {
        assert(bv.take(i + 1).drop_last() =~= bv.take(i as int));
        assert(bv.take(i + 1).last() == bv[i as int]);
        let b = &binds[i];
        assert(bv[i as int] == (b.0@, b.1));
        if b.1 > 0 {
            let mut env = Env::new();
            assert(var_order@.take(0) =~= Seq::empty());
            for k in 0..var_order.len()
                invariant
                    var_order@.len() <= b.0@.len(),
                    env@ == bind_env(var_order@.take(k as int), b.0@),
            {
                assert(var_order@.take(k + 1).drop_last() =~= var_order@.take(k as int));
                assert(var_order@.take(k + 1).last() == var_order@[k as int]);
                env.insert(var_order[k], b.0[k]);
            }
            assert(var_order@.take(var_order@.len() as int) =~= var_order@);
            let ghost e0 = envs@;
            envs.push(env);
            assert(env_views(envs@) =~= env_views(e0).push(env@));
        }
    }
    assert(bv.take(binds@.len() as int) =~= bv);
    envs
}

/// The jobs of the first `n` rules to join: each head under the new bindings of its
/// rule.
pub open spec fn joined_jobs(pass: &Pass, per_rule: Seq<Vec<(Vec<u32>, i64)>>, n: int) -> Seq<Job>
    decreases n,
{
    if n <= 0 {
        Seq::empty()
    } else {
        joined_jobs(pass, per_rule, n - 1) + jobs_of(
            pass.atom_rules@[n - 1].1.head@,
            new_envs(
                pass.var_orders@[n - 1]@,
                weighted_views(per_rule[pass.places@[n - 1] as int]@),
            ),
        )
    }
}

/// Whether the bindings of a circuit fit the rules of a round.
pub open spec fn bindings_fit(pass: &Pass, per_rule: Seq<Vec<(Vec<u32>, i64)>>) -> bool {
    &&& pass.places@.len() == pass.atom_rules@.len()
    &&& pass.var_orders@.len() == pass.atom_rules@.len()
    &&& forall|i: int|
        0 <= i < pass.places@.len() ==> (#[trigger] pass.places@[i]) < per_rule.len() && binds_fit(
            pass.var_orders@[i]@,
            per_rule[pass.places@[i] as int]@,
        )
}

/// Runs the heads of the rules to join over their new bindings.
fn run_joined<F: Fn(ExternalFunctionId, &Vec<u32>) -> Option<u32>>(
    eg: &mut EGraph,
    pass: &mut Pass,
    per_rule: &Vec<Vec<(Vec<u32>, i64)>>,
    prim: &F,
) -> (r: Result<(), HeadError>)
    requires
        old(eg).wf(),
        old(pass).wf(old(eg)@),
        bindings_fit(old(pass), per_rule@),
        forall|id: ExternalFunctionId, v: Vec<u32>| #[trigger] call_requires(*prim, (id, &v)),
    ensures
        final(eg).wf(),
        final(eg).runs() == old(eg).runs(),
        *final(pass) == (Pass {
            writes: final(pass).writes,
            index: final(pass).index,
            ..*old(pass)
        }),
        frame(old(eg)@, final(eg)@),
        final(pass).index.ok(final(eg)@),
        writes_fit(final(eg)@, write_views(final(pass).writes@)),
        leads(
            job_step(*prim),
            JobRun { eg: old(eg)@, writes: write_views(old(pass).writes@), err: None },
            joined_jobs(old(pass), per_rule@, old(pass).atom_rules@.len() as int),
            JobRun { eg: final(eg)@, writes: write_views(final(pass).writes@), err: failure(r) },
        ),
{
    let ghost s0 = eg@;
    let ghost p0 = *pass;
    let ghost start = JobRun { eg: s0, writes: write_views(pass.writes@), err: None };
    let ghost step = job_step(*prim);
    let n: usize = pass.atom_rules.len();
    proof {
        lemma_frame_refl(s0);
        lemma_leads_none(step, start);
    }
    for i in 0..n
        invariant
            s0 == old(eg)@,
            p0 == *old(pass),
            start == (JobRun { eg: s0, writes: write_views(p0.writes@), err: None }),
            step == job_step(*prim),
            n == p0.atom_rules@.len(),
            p0.wf(s0),
            bindings_fit(&p0, per_rule@),
            *pass == (Pass { writes: pass.writes, index: pass.index, ..p0 }),
            eg.wf(),
            eg.runs() == old(eg).runs(),
            frame(s0, eg@),
            pass.index.ok(eg@),
            writes_fit(eg@, write_views(pass.writes@)),
            forall|id: ExternalFunctionId, v: Vec<u32>| #[trigger] call_requires(*prim, (id, &v)),
            leads(
                step,
                start,
                joined_jobs(&p0, per_rule@, i as int),
                JobRun { eg: eg@, writes: write_views(pass.writes@), err: None },
            ),
    {
        let ghost s1 = eg@;
        let ghost mid = JobRun { eg: s1, writes: write_views(pass.writes@), err: None };
        let rule = pass.atom_rules[i].1.clone();
        proof {
            assert(rule_views(p0.atom_rules@)[i as int] == (
                p0.atom_rules@[i as int].0,
                *p0.atom_rules@[i as int].1,
            ));
            assert(rule_fits(s0, rule_views(p0.atom_rules@)[i as int].1));
            lemma_head_fits_frame(s0, s1, rule.head@);
        }
        let envs = route_bindings(&pass.var_orders[i], &per_rule[pass.places[i]]);
        let ghost jobs = jobs_of(rule.head@, env_views(envs@));
        let r = run_envs(eg, &rule.head, &envs, &mut pass.writes, &mut pass.index, prim);
        let ghost out = JobRun { eg: eg@, writes: write_views(pass.writes@), err: failure(r) };
        proof {
            lemma_frame_trans(s0, s1, eg@);
            lemma_leads_concat(step, start, joined_jobs(&p0, per_rule@, i as int), mid, jobs, out);
            assert(joined_jobs(&p0, per_rule@, i + 1) == joined_jobs(&p0, per_rule@, i as int)
                + jobs);
        }
        if let Err(e) = r {
            proof {
                lemma_joined_stop(*prim, &p0, per_rule@, start, i + 1, n as int, out);
            }
            return Err(e);
        }
    }
    Ok(())
}

proof fn lemma_joined_stop<F: Fn(ExternalFunctionId, &Vec<u32>) -> Option<u32>>(
    prim: F,
    pass: &Pass,
    per_rule: Seq<Vec<(Vec<u32>, i64)>>,
    start: JobRun,
    n: int,
    m: int,
    out: JobRun,
)
    requires
        0 <= n <= m,
        leads(job_step(prim), start, joined_jobs(pass, per_rule, n), out),
        out.err is Some,
    ensures
        leads(job_step(prim), start, joined_jobs(pass, per_rule, m), out),
    decreases m - n,
{
    let step = job_step(prim);
    if n < m {
        let a = joined_jobs(pass, per_rule, n);
        let b = joined_jobs(pass, per_rule, n + 1);
        assert(b.take(a.len() as int) =~= a);
        assert forall|t: Job| #[trigger] step(out, t, out) by {}
        lemma_leads_stop(step, start, b, a.len() as int, out);
        lemma_joined_stop(prim, pass, per_rule, start, n + 1, m, out);
    }
}

// ---------------------------------------------------------------------------
// The host rebuild
// ---------------------------------------------------------------------------

/// The columns that a rebuild plan canonicalizes.
pub open spec fn canon_columns(p: RebuildView) -> Seq<usize> {
    p.col_uf.map_values(|x: (usize, usize)| x.0)
}

/// The state once the views of some rebuild rules are indexed.
pub open spec fn seed_all(s: EgState, rules: Seq<(usize, RuleIr)>) -> EgState
    decreases rules.len(),
{
    if rules.len() == 0 {
        s
    } else {
        let before = seed_all(s, rules.drop_last());
        match rebuild_plan_of(s, rules.last().1) {
            Ok(p) => seeded(before, p.view_func.rep as int, canon_columns(p)),
            Err(_) => before,
        }
    }
}

/// The state once the waiting ids of some union-finds are taken.
pub open spec fn take_ids(s: EgState, col_uf: Seq<(usize, usize)>) -> EgState
    decreases col_uf.len(),
{
    if col_uf.len() == 0 {
        s
    } else {
        let before = take_ids(s, col_uf.drop_last());
        let f = col_uf.last().1 as int;
        before.with_table(f, TableState { displaced: Set::empty(), ..before.tables[f] })
    }
}

/// The state once the waiting ids of all union-finds that some rebuild rules read
/// are taken.
pub open spec fn take_all(s: EgState, rules: Seq<(usize, RuleIr)>) -> EgState
    decreases rules.len(),
{
    if rules.len() == 0 {
        s
    } else {
        let before = take_all(s, rules.drop_last());
        match rebuild_plan_of(s, rules.last().1) {
            Ok(p) => take_ids(before, p.col_uf),
            Err(_) => before,
        }
    }
}

/// Whether a rebuild rule may lead from one state to another. `read` holds the rows
/// when the round began.
pub open spec fn rebuild_leads<F: Fn(ExternalFunctionId, &Vec<u32>) -> Option<u32>>(
    prim: F,
    read: Seq<Set<Seq<u32>>>,
    a: RoundRun,
    rule: (usize, RuleIr),
    b: RoundRun,
) -> bool {
    if a.err is Some {
        b == a
    } else {
        match rebuild_plan_of(a.eg, rule.1) {
            Err(e) => b == (RoundRun { err: Some(RunErrorView::Rebuild(e)), ..a }),
            Ok(p) => exists|envs: Seq<Map<u32, u32>>, jr: JobRun|
                #![trigger rebuild_job(prim, a, rule.1, envs, jr)]
                are_envs_of(
                    p,
                    rebuild_rows(a.eg, p, rows_at(read, p.view_func.rep as int)),
                    envs,
                ) && rebuild_job(prim, a, rule.1, envs, jr) && b == (RoundRun {
                    eg: jr.eg,
                    writes: jr.writes,
                    err: head_failure(jr.err),
                }),
        }
    }
}

/// Whether running a rule's head under some bindings may lead to `jr`.
pub open spec fn rebuild_job<F: Fn(ExternalFunctionId, &Vec<u32>) -> Option<u32>>(
    prim: F,
    a: RoundRun,
    rule: RuleIr,
    envs: Seq<Map<u32, u32>>,
    jr: JobRun,
) -> bool {
    leads(
        job_step(prim),
        JobRun { eg: a.eg, writes: a.writes, err: None },
        jobs_of(rule.head@, envs),
        jr,
    )
}

/// The step of a sequence of rebuild rules.
pub open spec fn rebuild_step<F: Fn(ExternalFunctionId, &Vec<u32>) -> Option<u32>>(
    prim: F,
    read: Seq<Set<Seq<u32>>>,
) -> spec_fn(RoundRun, (usize, RuleIr), RoundRun) -> bool {
    |a: RoundRun, rule: (usize, RuleIr), b: RoundRun| rebuild_leads(prim, read, a, rule, b)
}

proof fn lemma_canon_cols_same(
    a: EgState,
    b: EgState,
    var_col: Seq<(u32, usize)>,
    head: Seq<HeadOp>,
)
    requires
        a.canon == b.canon,
    ensures
        canon_cols(a, var_col, head) == canon_cols(b, var_col, head),
    decreases head.len(),
{
    if head.len() > 0 {
        lemma_canon_cols_same(a, b, var_col, head.drop_last());
    }
}

proof fn lemma_plan_same(a: EgState, b: EgState, rule: RuleIr)
    requires
        a.canon == b.canon,
    ensures
        rebuild_plan_of(a, rule) == rebuild_plan_of(b, rule),
{
    if let Some(f) = first_set(rule.head@) {
        if let Some(slots) = first_atom(rule.body@, f) {
            lemma_canon_cols_same(a, b, first_cols(slots), rule.head@);
        }
    }
}

proof fn lemma_first_set_fits(s: EgState, head: Seq<HeadOp>)
    requires
        head_fits(s, head),
        first_set(head) is Some,
    ensures
        (first_set(head)->0).rep < s.tables.len(),
    decreases head.len(),
{
    if head.len() > 0 {
        let less = head.drop_last();
        assert forall|i: int| 0 <= i < less.len() implies op_fits(s, #[trigger] less[i]) by {
            assert(less[i] == head[i]);
        }
        assert(op_fits(s, head[head.len() - 1]));
        if first_set(less) is Some {
            lemma_first_set_fits(s, less);
        }
    }
}

proof fn lemma_first_atom_fits(s: EgState, rule: RuleIr, n: int, f: FunctionId)
    requires
        rule_fits(s, rule),
        0 <= n <= rule.body@.len(),
        first_atom(rule.body@.take(n), f) is Some,
    ensures
        (first_atom(rule.body@.take(n), f)->0).len() <= s.tables[f.rep as int].info.arity,
    decreases n,
{
    let body = rule.body@.take(n);
    if n > 0 {
        assert(body.drop_last() =~= rule.body@.take(n - 1));
        assert(body.last() == rule.body@[n - 1]);
        if first_atom(rule.body@.take(n - 1), f) is Some {
            lemma_first_atom_fits(s, rule, n - 1, f);
        }
    }
}

proof fn lemma_first_cols_within(slots: Seq<Slot>)
    requires
        slots.len() <= usize::MAX,
    ensures
        forall|i: int|
            0 <= i < first_cols(slots).len() ==> (#[trigger] first_cols(slots)[i]).1 < slots.len(),
    decreases slots.len(),
{
    if slots.len() > 0 {
        let before = first_cols(slots.drop_last());
        lemma_first_cols_within(slots.drop_last());
        let after = first_cols(slots);
        assert forall|i: int| 0 <= i < after.len() implies (#[trigger] after[i]).1 < slots.len() by {
            if i < before.len() {
                assert(after[i] == before[i]);
            }
        }
    }
}

proof fn lemma_col_in_within(var_col: Seq<(u32, usize)>, v: u32, n: nat)
    requires
        forall|i: int| 0 <= i < var_col.len() ==> (#[trigger] var_col[i]).1 < n,
        col_in(var_col, v) is Some,
    ensures
        col_in(var_col, v)->0 < n,
    decreases var_col.len(),
{
    if var_col.len() > 0 {
        let less = var_col.drop_last();
        assert forall|i: int| 0 <= i < less.len() implies (#[trigger] less[i]).1 < n by {
            assert(less[i] == var_col[i]);
        }
        assert(var_col[var_col.len() - 1].1 < n);
        if col_in(less, v) is Some {
            lemma_col_in_within(less, v, n);
        }
    }
}

proof fn lemma_canon_cols_within(
    s: EgState,
    var_col: Seq<(u32, usize)>,
    head: Seq<HeadOp>,
    n: nat,
)
    requires
        s.wf(),
        forall|i: int| 0 <= i < var_col.len() ==> (#[trigger] var_col[i]).1 < n,
        canon_cols(s, var_col, head) is Ok,
    ensures
        ({
            let cols = canon_cols(s, var_col, head)->Ok_0;
            &&& forall|i: int| 0 <= i < cols.len() ==> (#[trigger] cols[i]).0 < n
            &&& forall|i: int| 0 <= i < cols.len() ==> (#[trigger] cols[i]).1 < s.tables.len()
        }),
    decreases head.len(),
{
    if head.len() > 0 {
        lemma_canon_cols_within(s, var_col, head.drop_last(), n);
        if let HeadOp::Call { id, args, ret } = head.last() {
            if s.canon.contains_key(id.rep) {
                lemma_col_in_within(var_col, args@[0]->Var_0, n);
            }
        }
    }
}

/// The plan of a rule that fits the e-graph fits it too.
proof fn lemma_plan_fits(s: EgState, rule: RuleIr)
    requires
        s.wf(),
        rule_fits(s, rule),
        rebuild_plan_of(s, rule) is Ok,
    ensures
        plan_fits(s, rebuild_plan_of(s, rule)->Ok_0),
{
    let p = rebuild_plan_of(s, rule)->Ok_0;
    lemma_first_set_fits(s, rule.head@);
    assert(rule.body@.take(rule.body@.len() as int) =~= rule.body@);
    lemma_first_atom_fits(s, rule, rule.body@.len() as int, p.view_func);
    let slots = first_atom(rule.body@, p.view_func)->0;
    assert(table_ok(s.tables[p.view_func.rep as int]));
    lemma_first_cols_within(slots);
    lemma_canon_cols_within(s, first_cols(slots), rule.head@, slots.len());
}

/// A state in which views were indexed and waiting ids taken, and nothing else.
spec fn marks_only(a: EgState, b: EgState) -> bool {
    &&& b == (EgState { tables: b.tables, ..a })
    &&& a.tables.len() == b.tables.len()
    &&& forall|f: int|
        0 <= f < a.tables.len() ==> (#[trigger] b.tables[f]) == (TableState {
            view_cols: b.tables[f].view_cols,
            displaced: b.tables[f].displaced,
            ..a.tables[f]
        })
}

proof fn lemma_marks_fit(a: EgState, b: EgState, rules: Seq<(usize, RuleIr)>, ws: Seq<WriteView>)
    requires
        marks_only(a, b),
    ensures
        rules_fit(a, rules) ==> rules_fit(b, rules),
        writes_fit(a, ws) ==> writes_fit(b, ws),
{
    assert forall|f: int| 0 <= f < a.tables.len() implies (#[trigger] b.tables[f]).info
        == a.tables[f].info by {}
    if rules_fit(a, rules) {
        assert forall|i: int| 0 <= i < rules.len() implies rule_fits(b, (#[trigger] rules[i]).1) by {
            let rule = rules[i].1;
            assert(rule_fits(a, rule));
            assert forall|k: int| 0 <= k < rule.head@.len() implies op_fits(
                b,
                #[trigger] rule.head@[k],
            ) by {
                assert(op_fits(a, rule.head@[k]));
            }
            assert forall|k: int| 0 <= k < rule.body@.len() implies match #[trigger] rule.body@[k] {
                BodyOp::Atom(x) => x.func.rep < b.tables.len() && x.slots@.len()
                    <= b.tables[x.func.rep as int].info.arity,
                BodyOp::Prim { id, args, ret } => b.canon.contains_key(id.rep) ==> args@.len() > 0,
                BodyOp::Differ(_, _) => true,
            } by {}
        }
    }
    if writes_fit(a, ws) {
        assert forall|i: int| 0 <= i < ws.len() implies write_fits(b, #[trigger] ws[i]) by {
            assert(write_fits(a, ws[i]));
        }
    }
}

/// The plans of rebuild rules.
spec fn plans_are(
    s: EgState,
    rules: Seq<(usize, RuleIr)>,
    plans: Seq<Result<RebuildPlan, RebuildError>>,
) -> bool {
    &&& plans.len() == rules.len()
    &&& forall|i: int|
        0 <= i < plans.len() ==> match rebuild_plan_of(s, rules[i].1) {
            Ok(p) => (#[trigger] plans[i]) matches Ok(plan) && plan.view() == p,
            Err(e) => plans[i] == Err::<RebuildPlan, RebuildError>(e),
        }
}

fn collect_plans(eg: &EGraph, rules: &Vec<(usize, Rc<RuleIr>)>) -> (plans: Vec<
    Result<RebuildPlan, RebuildError>,
>)
    ensures
        plans_are(eg@, rule_views(rules@), plans@),
{
    let ghost rv = rule_views(rules@);
    let mut plans: Vec<Result<RebuildPlan, RebuildError>> = Vec::with_capacity(rules.len());
    for i in 0..rules.len()
        invariant
            rv == rule_views(rules@),
            plans_are(eg@, rv.take(i as int), plans@),
    {
        let ghost p0 = plans@;
        let plan = rebuild_rule_plan(eg, &rules[i].1);
        plans.push(plan);
        assert forall|k: int| 0 <= k < plans@.len() implies match rebuild_plan_of(
            eg@,
            rv.take(i + 1)[k].1,
        ) {
            Ok(p) => (#[trigger] plans@[k]) matches Ok(plan) && plan.view() == p,
            Err(e) => plans@[k] == Err::<RebuildPlan, RebuildError>(e),
        } by {
            if k < i {
                assert(plans@[k] == p0[k]);
                assert(rv.take(i as int)[k] == rv.take(i + 1)[k]);
            }
        }
    }
    assert(rv.take(rules@.len() as int) =~= rv);
    plans
}

/// Indexes the views of rebuild rules.
fn seed_views(
    eg: &mut EGraph,
    plans: &Vec<Result<RebuildPlan, RebuildError>>,
    Ghost(rules): Ghost<Seq<(usize, RuleIr)>>,
)
    requires
        old(eg).wf(),
        rules_fit(old(eg)@, rules),
        plans_are(old(eg)@, rules, plans@),
    ensures
        final(eg).wf(),
        final(eg).runs() == old(eg).runs(),
        final(eg)@ == seed_all(old(eg)@, rules),
        marks_only(old(eg)@, final(eg)@),
{
    let ghost s0 = eg@;
    assert(rules.take(0) =~= Seq::empty());
    proof {
        eg.lemma_wf();
    }
    for i in 0..plans.len()
        invariant
            s0 == old(eg)@,
            s0.wf(),
            rules_fit(s0, rules),
            plans_are(s0, rules, plans@),
            eg.wf(),
            eg.runs() == old(eg).runs(),
            eg@ == seed_all(s0, rules.take(i as int)),
            marks_only(s0, eg@),
    {
        assert(rules.take(i + 1).drop_last() =~= rules.take(i as int));
        assert(rules.take(i + 1).last() == rules[i as int]);
        assert(rule_fits(s0, rules[i as int].1));
        if let Ok(plan) = &plans[i] {
            let ghost p = rebuild_plan_of(s0, rules[i as int].1)->Ok_0;
            let mut cols: Vec<usize> = Vec::with_capacity(plan.col_uf.len());
            for k in 0..plan.col_uf.len()
                invariant
                    cols@ =~= canon_columns(plan.view()).take(k as int),
            {
                cols.push(plan.col_uf[k].0);
            }
            proof {
                assert(canon_columns(p).take(plan.col_uf@.len() as int) =~= canon_columns(p));
                lemma_plan_fits(s0, rules[i as int].1);
            }
            let ghost s1 = eg@;
            eg.native_uf_seed_view_index(plan.view_func, &cols);
            proof {
                assert forall|f: int| 0 <= f < s0.tables.len() implies (#[trigger] eg@.tables[f])
                    == (TableState {
                    view_cols: eg@.tables[f].view_cols,
                    displaced: eg@.tables[f].displaced,
                    ..s0.tables[f]
                }) by {
                    assert(s1.tables[f] == (TableState {
                        view_cols: s1.tables[f].view_cols,
                        displaced: s1.tables[f].displaced,
                        ..s0.tables[f]
                    }));
                }
                assert(eg@ =~= EgState { tables: eg@.tables, ..s0 });
            }
        }
    }
    assert(rules.take(plans@.len() as int) =~= rules);
}

/// Takes the waiting ids of the union-finds that rebuild rules read.
fn take_displaced(
    eg: &mut EGraph,
    plans: &Vec<Result<RebuildPlan, RebuildError>>,
    Ghost(rules): Ghost<Seq<(usize, RuleIr)>>,
)
    requires
        old(eg).wf(),
        rules_fit(old(eg)@, rules),
        plans_are(old(eg)@, rules, plans@),
    ensures
        final(eg).wf(),
        final(eg).runs() == old(eg).runs(),
        final(eg)@ == take_all(old(eg)@, rules),
        marks_only(old(eg)@, final(eg)@),
{
    let ghost s0 = eg@;
    assert(rules.take(0) =~= Seq::empty());
    proof {
        eg.lemma_wf();
    }
    for i in 0..plans.len()
        invariant
            s0 == old(eg)@,
            s0.wf(),
            rules_fit(s0, rules),
            plans_are(s0, rules, plans@),
            eg.wf(),
            eg.runs() == old(eg).runs(),
            eg@ == take_all(s0, rules.take(i as int)),
            marks_only(s0, eg@),
    {
        assert(rules.take(i + 1).drop_last() =~= rules.take(i as int));
        assert(rules.take(i + 1).last() == rules[i as int]);
        assert(rule_fits(s0, rules[i as int].1));
        if let Ok(plan) = &plans[i] {
            let ghost p = rebuild_plan_of(s0, rules[i as int].1)->Ok_0;
            let ghost s1 = eg@;
            proof {
                lemma_plan_fits(s0, rules[i as int].1);
                assert(plan.view() == p);
                assert(p.col_uf.take(0) =~= Seq::empty());
            }
            for k in 0..plan.col_uf.len()
                invariant
                    p.col_uf == plan.col_uf@,
                    plan_fits(s0, p),
                    eg.wf(),
                    eg.runs() == old(eg).runs(),
                    eg@ == take_ids(s1, p.col_uf.take(k as int)),
                    marks_only(s0, eg@),
            {
                assert(p.col_uf.take(k + 1).drop_last() =~= p.col_uf.take(k as int));
                assert(p.col_uf.take(k + 1).last() == p.col_uf[k as int]);
                let uf: usize = plan.col_uf[k].1;
                let ghost s2 = eg@;
                assert(p.col_uf[k as int].1 < s0.tables.len());
                let _ = eg.native_uf_take_displaced(uf);
                proof {
                    assert forall|f: int| 0 <= f < s0.tables.len() implies (
                    #[trigger] eg@.tables[f]) == (TableState {
                        view_cols: eg@.tables[f].view_cols,
                        displaced: eg@.tables[f].displaced,
                        ..s0.tables[f]
                    }) by {
                        assert(s2.tables[f] == (TableState {
                            view_cols: s2.tables[f].view_cols,
                            displaced: s2.tables[f].displaced,
                            ..s0.tables[f]
                        }));
                    }
                    assert(eg@ =~= EgState { tables: eg@.tables, ..s0 });
                }
            }
            assert(p.col_uf.take(plan.col_uf@.len() as int) =~= p.col_uf);
        }
    }
    assert(rules.take(plans@.len() as int) =~= rules);
}

/// Runs the rebuild rules of a round.
fn run_rebuilds<F: Fn(ExternalFunctionId, &Vec<u32>) -> Option<u32>>(
    eg: &mut EGraph,
    pass: &mut Pass,
    plans: &Vec<Result<RebuildPlan, RebuildError>>,
    prim: &F,
) -> (r: Result<(), RunError>)
    requires
        old(eg).wf(),
        old(pass).wf(old(eg)@),
        plans_are(old(eg)@, rule_views(old(pass).rebuild_rules@), plans@),
        forall|id: ExternalFunctionId, v: Vec<u32>| #[trigger] call_requires(*prim, (id, &v)),
    ensures
        final(eg).wf(),
        final(eg).runs() == old(eg).runs(),
        *final(pass) == (Pass {
            writes: final(pass).writes,
            index: final(pass).index,
            ..*old(pass)
        }),
        frame(old(eg)@, final(eg)@),
        final(pass).index.ok(final(eg)@),
        writes_fit(final(eg)@, write_views(final(pass).writes@)),
        leads(
            rebuild_step(*prim, shared_rows(old(pass).read@)),
            RoundRun { eg: old(eg)@, writes: write_views(old(pass).writes@), err: None },
            rule_views(old(pass).rebuild_rules@),
            RoundRun {
                eg: final(eg)@,
                writes: write_views(final(pass).writes@),
                err: run_failure(r),
            },
        ),
{
    let ghost s0 = eg@;
    let ghost p0 = *pass;
    let ghost rules = rule_views(pass.rebuild_rules@);
    let ghost rd = shared_rows(pass.read@);
    let ghost step = rebuild_step(*prim, rd);
    let ghost start = RoundRun { eg: s0, writes: write_views(pass.writes@), err: None };
    proof {
        lemma_frame_refl(s0);
        lemma_leads_none(step, start);
        assert(rules.take(0) =~= Seq::<(usize, RuleIr)>::empty());
    }
    for i in 0..plans.len()
        invariant
            s0 == old(eg)@,
            p0 == *old(pass),
            p0.wf(s0),
            rules == rule_views(p0.rebuild_rules@),
            rd == shared_rows(p0.read@),
            step == rebuild_step(*prim, rd),
            start == (RoundRun { eg: s0, writes: write_views(p0.writes@), err: None }),
            plans_are(s0, rules, plans@),
            *pass == (Pass { writes: pass.writes, index: pass.index, ..p0 }),
            eg.wf(),
            eg.runs() == old(eg).runs(),
            frame(s0, eg@),
            pass.index.ok(eg@),
            writes_fit(eg@, write_views(pass.writes@)),
            forall|id: ExternalFunctionId, v: Vec<u32>| #[trigger] call_requires(*prim, (id, &v)),
            leads(
                step,
                start,
                rules.take(i as int),
                RoundRun { eg: eg@, writes: write_views(pass.writes@), err: None },
            ),
    {
        let ghost s1 = eg@;
        let ghost item = rules[i as int];
        let ghost mid = RoundRun { eg: s1, writes: write_views(pass.writes@), err: None };
        proof {
            assert(rules.take(i + 1) =~= rules.take(i as int).push(item));
            assert(item == (p0.rebuild_rules@[i as int].0, *p0.rebuild_rules@[i as int].1));
            assert(rule_fits(s0, rules[i as int].1));
            lemma_rule_fits_frame(s0, s1, item.1);
            lemma_plan_same(s0, s1, item.1);
            eg.lemma_wf();
        }
        match &plans[i] {
            Err(e) => {
                let ghost out = RoundRun { err: Some(RunErrorView::Rebuild(*e)), ..mid };
                proof {
                    assert(step(mid, item, out));
                    lemma_leads_more(step, start, rules.take(i as int), mid, item, out);
                    assert forall|t: (usize, RuleIr)| #[trigger] step(out, t, out) by {}
                    lemma_leads_stop(step, start, rules, i + 1, out);
                }
                return Err(RunError::Rebuild(*e));
            },
            Ok(plan) => {
                let ghost p = plan.view();
                let rule = pass.rebuild_rules[i].1.clone();
                let f: usize = plan.view_func.rep as usize;
                proof {
                    lemma_plan_fits(s1, item.1);
                    assert(table_frame(s0.tables[f as int], s1.tables[f as int]));
                    assert(rd[f as int] == p0.read@[f as int]@);
                    assert(rows_fit(p0.read@[f as int]@, s0.tables[f as int].info.arity));
                }
                let envs = native_uf_rebuild_envs(eg, &pass.read[f], plan);
                let ghost ev = env_views(envs@);
                let ghost w1 = write_views(pass.writes@);
                let r = run_envs(eg, &rule.head, &envs, &mut pass.writes, &mut pass.index, prim);
                let ghost jr = JobRun {
                    eg: eg@,
                    writes: write_views(pass.writes@),
                    err: failure(r),
                };
                let ghost out = RoundRun {
                    eg: eg@,
                    writes: write_views(pass.writes@),
                    err: head_failure(failure(r)),
                };
                proof {
                    lemma_frame_trans(s0, s1, eg@);
                    assert(rebuild_job(*prim, mid, item.1, ev, jr));
                    assert(rebuild_leads(*prim, rd, mid, item, out));
                    assert(step(mid, item, out));
                    lemma_leads_more(step, start, rules.take(i as int), mid, item, out);
                }
                if let Err(e) = r {
                    proof {
                        assert forall|t: (usize, RuleIr)| #[trigger] step(out, t, out) by {}
                        lemma_leads_stop(step, start, rules, i + 1, out);
                    }
                    return Err(RunError::Head(e));
                }
            },
        }
    }
    assert(rules.take(plans@.len() as int) =~= rules);
    Ok(())
}

// ---------------------------------------------------------------------------
// The whole
// ---------------------------------------------------------------------------

/// The state at the end of a round whose heads led to `s` and collected `ws`: the
/// waiting ids that the rebuild rules read are taken, the writes are applied, and
/// the queued unions after them.
pub open spec fn round_end(s: EgState, rules: Seq<(usize, RuleIr)>, ws: Seq<WriteView>) -> EgState {
    let done = settled(take_all(s, rules), ws);
    if done.native_uf {
        EgState { tables: drained_all(done), ..done }
    } else {
        done
    }
}

/// Whether a round changed anything: a term was made, the writes changed a table, or
/// a leader changed.
pub open spec fn round_changes(
    s: EgState,
    start_id: u32,
    rules: Seq<(usize, RuleIr)>,
    ws: Seq<WriteView>,
) -> bool {
    let taken = take_all(s, rules);
    ||| s.next_id != start_id
    ||| some_table_changes(taken, ws)
    ||| s.native_uf && some_leader_moves(settled(taken, ws))
}

/// Whether the heads over the join's bindings may lead to `mid`.
pub open spec fn joined_leads<F: Fn(ExternalFunctionId, &Vec<u32>) -> Option<u32>>(
    prim: F,
    s: EgState,
    pass: &Pass,
    per_rule: Seq<Vec<(Vec<u32>, i64)>>,
    mid: JobRun,
) -> bool {
    leads(
        job_step(prim),
        JobRun { eg: s, writes: write_views(pass.writes@), err: None },
        joined_jobs(pass, per_rule, pass.atom_rules@.len() as int),
        mid,
    )
}

/// Whether the rebuild rules may lead from `mid` to `last`. Their views are indexed
/// first.
pub open spec fn rebuilt_leads<F: Fn(ExternalFunctionId, &Vec<u32>) -> Option<u32>>(
    prim: F,
    pass: &Pass,
    mid: JobRun,
    last: RoundRun,
) -> bool {
    let rules = rule_views(pass.rebuild_rules@);
    leads(
        rebuild_step(prim, shared_rows(pass.read@)),
        RoundRun { eg: seed_all(mid.eg, rules), writes: mid.writes, err: None },
        rules,
        last,
    )
}

/// Whether the end of a round may lead from `s` to `after` with result `r`.
pub open spec fn finish_leads<F: Fn(ExternalFunctionId, &Vec<u32>) -> Option<u32>>(
    prim: F,
    s: EgState,
    pass: &Pass,
    per_rule: Seq<Vec<(Vec<u32>, i64)>>,
    after: EgState,
    r: Result<bool, RunError>,
) -> bool {
    exists|mid: JobRun| #[trigger]
        joined_leads(prim, s, pass, per_rule, mid) && if mid.err is Some {
            run_failure(r) == head_failure(mid.err) && after == mid.eg
        } else {
            end_leads(prim, pass, mid, after, r)
        }
}

/// Whether the rebuild rules and the writes may lead from `mid` to `after`.
pub open spec fn end_leads<F: Fn(ExternalFunctionId, &Vec<u32>) -> Option<u32>>(
    prim: F,
    pass: &Pass,
    mid: JobRun,
    after: EgState,
    r: Result<bool, RunError>,
) -> bool {
    let rules = rule_views(pass.rebuild_rules@);
    exists|last: RoundRun| #[trigger]
        rebuilt_leads(prim, pass, mid, last) && if last.err is Some {
            run_failure(r) == last.err && after == last.eg
        } else {
            after == round_end(last.eg, rules, last.writes) && r == Ok::<bool, RunError>(
                round_changes(last.eg, pass.start_id, rules, last.writes),
            )
        }
}

impl EGraph {
    /// Ends a round: runs the heads over the bindings that the join circuit gave for
    /// each of its rules, then the rebuild rules, then applies the writes and the
    /// queued unions. Says whether anything changed.
    pub fn finish_iteration<F: Fn(ExternalFunctionId, &Vec<u32>) -> Option<u32>>(
        &mut self,
        pass: Pass,
        per_rule: &Vec<Vec<(Vec<u32>, i64)>>,
        prim: &F,
    ) -> (r: Result<bool, RunError>)
        requires
            old(self).wf(),
            pass.wf(old(self)@),
            bindings_fit(&pass, per_rule@),
            forall|id: ExternalFunctionId, v: Vec<u32>| #[trigger] call_requires(*prim, (id, &v)),
        ensures
            final(self).wf(),
            final(self).runs() == old(self).runs(),
            finish_leads(*prim, old(self)@, &pass, per_rule@, final(self)@, r),
    {
        let ghost s0 = self@;
        let ghost rules = rule_views(pass.rebuild_rules@);
        let mut work = pass;
        let r = run_joined(self, &mut work, per_rule, prim);
        let ghost s1 = self@;
        let ghost mid = JobRun { eg: s1, writes: write_views(work.writes@), err: failure(r) };
        assert(joined_leads(*prim, s0, &pass, per_rule@, mid));
        if let Err(e) = r {
            return Err(RunError::Head(e));
        }
        proof {
            lemma_rules_fit_frame(s0, s1, rules);
            lemma_rules_fit_frame(s0, s1, rule_views(pass.atom_rules@));
        }
        let plans = collect_plans(self, &work.rebuild_rules);
        seed_views(self, &plans, Ghost(rules));
        let ghost s2 = self@;
        proof {
            assert(s2 == seed_all(s1, rules));
            lemma_marks_fit(s1, s2, rules, write_views(work.writes@));
            lemma_marks_fit(
                s1,
                s2,
                rule_views(pass.atom_rules@),
                write_views(work.writes@),
            );
            work.index.lemma_same_rows(s1, s2);
            lemma_plans_same(s1, s2, rules, plans@);
            assert(work.wf(s2)) by {
                assert forall|f: int| 0 <= f < work.read@.len() implies rows_fit(
                    (#[trigger] work.read@[f])@,
                    s2.tables[f].info.arity,
                ) by {
                    assert(rows_fit(pass.read@[f]@, s0.tables[f].info.arity));
                    assert(table_frame(s0.tables[f], s1.tables[f]));
                    assert(s2.tables[f].info == s1.tables[f].info);
                }
            }
        }
        let r2 = run_rebuilds(self, &mut work, &plans, prim);
        let ghost s3 = self@;
        let ghost last = RoundRun {
            eg: s3,
            writes: write_views(work.writes@),
            err: run_failure(r2),
        };
        assert(rebuilt_leads(*prim, &pass, mid, last));
        if let Err(e) = r2 {
            return Err(e);
        }
        proof {
            lemma_plans_same(s2, s3, rules, plans@);
            lemma_rules_fit_frame(s2, s3, rules);
        }
        take_displaced(self, &plans, Ghost(rules));
        let ghost s4 = self@;
        let grew = self.next_id() != work.start_id;
        proof {
            lemma_marks_fit(s3, s4, rules, write_views(work.writes@));
        }
        let wrote = settle(self, &work.writes);
        let ghost s5 = self@;
        let mut changed = grew || wrote;
        if self.native_uf_enabled() {
            let moved: usize = self.native_uf_drain_all();
            if moved > 0 {
                changed = true;
            }
        }
        proof {
            assert(s4 == take_all(s3, rules));
            assert(s5 == settled(s4, write_views(work.writes@)));
            assert(self@ == round_end(s3, rules, last.writes));
            assert(changed == round_changes(s3, pass.start_id, rules, last.writes));
        }
        Ok(changed)
    }
}

proof fn lemma_plans_same(
    a: EgState,
    b: EgState,
    rules: Seq<(usize, RuleIr)>,
    plans: Seq<Result<RebuildPlan, RebuildError>>,
)
    requires
        plans_are(a, rules, plans),
        a.canon == b.canon,
    ensures
        plans_are(b, rules, plans),
{
    assert forall|i: int| 0 <= i < plans.len() implies match rebuild_plan_of(b, rules[i].1) {
        Ok(p) => (#[trigger] plans[i]) matches Ok(plan) && plan.view() == p,
        Err(e) => plans[i] == Err::<RebuildPlan, RebuildError>(e),
    } by {
        lemma_plan_same(a, b, rules[i].1);
    }
}

} // verus!
