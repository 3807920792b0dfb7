//! What a join circuit has to give, and what a round makes of it.
//!
//! A circuit is fed the changes of the rows, and gives for each rule the changes of its matches as
//! bindings with weights. The bindings of positive weight are then the matches that are new, and the
//! heads run on those and no others.
use crate::backend::{ExternalFunctionId, FunctionId};
use crate::collections::weighted_views;
use crate::feldera::egraph::FedState;
use crate::feldera::finish::{bind_env, joined_jobs, new_envs};
use crate::feldera::interpret::{jobs_of, Job};
use crate::feldera::join::{
    atom_holds, picks, solves, step_arg_vals, step_outcome, BindingDelta,
};
use crate::feldera::plan::{atom_bound, atom_views, occurs, step_views, JoinPlan, StepView};
use crate::feldera::round::Pass;
use crate::feldera::row::col;
use vstd::prelude::*;

verus! {

/// What pure primitives answer.
pub type Answers = spec_fn(ExternalFunctionId, Seq<u32>) -> Option<u32>;

/// The rows of each function.
pub type RowsOf = spec_fn(FunctionId) -> Set<Seq<u32>>;

/// The binding row once calls have been made, one after the other; none if one of them dropped it.
pub open spec fn after_steps(steps: Seq<StepView>, answer: Answers, row: Seq<u32>) -> Option<
    Seq<u32>,
>
    decreases steps.len(),
{
    if steps.len() == 0 {
        Some(row)
    } else {
        match after_steps(steps.drop_last(), answer, row) {
            None => None,
            Some(r) => {
                let s = steps.last();
                step_outcome(s.ret, r, answer(s.id, step_arg_vals(s.args, r)))
            },
        }
    }
}

/// Whether a binding is a match of a plan's body: it solves the join, and the calls that follow have
/// filled in their results.
pub open spec fn is_match(plan: &JoinPlan, rows: RowsOf, answer: Answers, b: Seq<u32>) -> bool {
    exists|x: Seq<u32>| #[trigger]
        solves(plan, rows, plan.var_order@.len(), x) && after_steps(
            step_views(plan.steps@),
            answer,
            x,
        ) == Some(b)
}

/// Whether a match is new: it is one on the rows `now`, and was none on the rows `before`.
pub open spec fn is_new_match(
    plan: &JoinPlan,
    before: RowsOf,
    now: RowsOf,
    answer: Answers,
    b: Seq<u32>,
) -> bool {
    is_match(plan, now, answer, b) && !is_match(plan, before, answer, b)
}

/// The weights of a binding, added up.
pub open spec fn weight_sum(changes: Seq<(Seq<u32>, i64)>, b: Seq<u32>) -> int
    decreases changes.len(),
{
    if changes.len() == 0 {
        0
    } else {
        weight_sum(changes.drop_last(), b) + if changes.last().0 == b {
            changes.last().1 as int
        } else {
            0
        }
    }
}

/// One for a match, zero for none.
pub open spec fn one_if(m: bool) -> int {
    if m {
        1
    } else {
        0
    }
}

/// Whether these are the changes that a circuit gives for a rule when the rows go from `before` to
/// `now`: the weights of each binding sum to the change of whether it is a match.
pub open spec fn join_gives(
    plan: &JoinPlan,
    before: RowsOf,
    now: RowsOf,
    answer: Answers,
    changes: Seq<(Seq<u32>, i64)>,
) -> bool {
    forall|b: Seq<u32>| #[trigger]
        weight_sum(changes, b) == one_if(is_match(plan, now, answer, b)) - one_if(
            is_match(plan, before, answer, b),
        )
}

/// Whether each binding stands in the changes at most once.
pub open spec fn consolidated(changes: Seq<(Seq<u32>, i64)>) -> bool {
    forall|i: int, j: int|
        0 <= i < changes.len() && 0 <= j < changes.len() && i != j ==> (#[trigger] changes[i]).0 != (
        #[trigger] changes[j]).0
}

/// Whether a binding has a positive weight.
pub open spec fn rises(changes: Seq<(Seq<u32>, i64)>, b: Seq<u32>) -> bool {
    exists|i: int| 0 <= i < changes.len() && (#[trigger] changes[i]).0 == b && changes[i].1 > 0
}

proof fn lemma_sum_absent(changes: Seq<(Seq<u32>, i64)>, b: Seq<u32>)
    requires
        forall|i: int| 0 <= i < changes.len() ==> (#[trigger] changes[i]).0 != b,
    ensures
        weight_sum(changes, b) == 0,
    decreases changes.len(),
{
    if changes.len() > 0 {
        let less = changes.drop_last();
        assert forall|i: int| 0 <= i < less.len() implies (#[trigger] less[i]).0 != b by {
            assert(less[i] == changes[i]);
        }
        lemma_sum_absent(less, b);
        assert(changes[changes.len() - 1].0 != b);
    }
}

proof fn lemma_sum_at(changes: Seq<(Seq<u32>, i64)>, i: int)
    requires
        consolidated(changes),
        0 <= i < changes.len(),
    ensures
        weight_sum(changes, changes[i].0) == changes[i].1,
    decreases changes.len(),
{
    let less = changes.drop_last();
    let last = changes.len() - 1;
    assert forall|k: int, j: int|
        0 <= k < less.len() && 0 <= j < less.len() && k != j implies (#[trigger] less[k]).0 != (
    #[trigger] less[j]).0 by {
        assert(changes[k].0 != changes[j].0);
    }
    if i == last {
        assert forall|k: int| 0 <= k < less.len() implies (#[trigger] less[k]).0 != changes[i].0 by {
            assert(changes[k].0 != changes[i].0);
        }
        lemma_sum_absent(less, changes[i].0);
    } else {
        assert(changes[last].0 != changes[i].0);
        lemma_sum_at(less, i);
        assert(less[i] == changes[i]);
    }
}

/// The bindings of positive weight are exactly the matches that are new.
pub proof fn rising_bindings_are_new_matches(
    plan: &JoinPlan,
    before: RowsOf,
    now: RowsOf,
    answer: Answers,
    changes: Seq<(Seq<u32>, i64)>,
    b: Seq<u32>,
)
    requires
        join_gives(plan, before, now, answer, changes),
        consolidated(changes),
    ensures
        rises(changes, b) <==> is_new_match(plan, before, now, answer, b),
{
    let sum = weight_sum(changes, b);
    if rises(changes, b) {
        let i = choose|i: int|
            0 <= i < changes.len() && (#[trigger] changes[i]).0 == b && changes[i].1 > 0;
        lemma_sum_at(changes, i);
    }
    if is_new_match(plan, before, now, answer, b) {
        assert(sum == 1);
        if forall|i: int| 0 <= i < changes.len() ==> (#[trigger] changes[i]).0 != b {
            lemma_sum_absent(changes, b);
        }
        let i = choose|i: int| 0 <= i < changes.len() && (#[trigger] changes[i]).0 == b;
        lemma_sum_at(changes, i);
        assert(changes[i].1 > 0);
    }
}

/// A match has a value for each variable of its plan.
pub proof fn matches_are_complete(plan: &JoinPlan, rows: RowsOf, answer: Answers, b: Seq<u32>)
    requires
        is_match(plan, rows, answer, b),
    ensures
        b.len() == plan.var_order@.len(),
{
    let n = plan.var_order@.len();
    let x = choose|x: Seq<u32>| #[trigger]
        solves(plan, rows, n, x) && after_steps(step_views(plan.steps@), answer, x) == Some(b);
    lemma_steps_len(step_views(plan.steps@), answer, x);
}

proof fn lemma_steps_len(steps: Seq<StepView>, answer: Answers, row: Seq<u32>)
    ensures
        after_steps(steps, answer, row) matches Some(r) ==> r.len() == row.len(),
    decreases steps.len(),
{
    if steps.len() > 0 {
        lemma_steps_len(steps.drop_last(), answer, row);
    }
}

/// What a binding gives a variable.
proof fn lemma_bind_at(order: Seq<u32>, b: Seq<u32>, i: int)
    requires
        order.no_duplicates(),
        0 <= i < order.len(),
    ensures
        bind_env(order, b).contains_key(order[i]),
        bind_env(order, b)[order[i]] == b[i],
    decreases order.len(),
{
    let less = order.drop_last();
    if i < less.len() {
        assert(less[i] == order[i]);
        assert(order[order.len() - 1] != order[i]);
        lemma_bind_at(less, b, i);
    }
}

/// Different bindings give different environments.
proof fn lemma_bind_apart(order: Seq<u32>, a: Seq<u32>, b: Seq<u32>)
    requires
        order.no_duplicates(),
        a.len() == order.len(),
        b.len() == order.len(),
        bind_env(order, a) == bind_env(order, b),
    ensures
        a == b,
{
    assert forall|i: int| 0 <= i < a.len() implies a[i] == b[i] by {
        lemma_bind_at(order, a, i);
        lemma_bind_at(order, b, i);
    }
    assert(a =~= b);
}

proof fn lemma_new_envs(order: Seq<u32>, changes: Seq<(Seq<u32>, i64)>, env: Map<u32, u32>)
    ensures
        new_envs(order, changes).contains(env) <==> exists|b: Seq<u32>| #[trigger]
            rises(changes, b) && env == bind_env(order, b),
    decreases changes.len(),
{
    let envs = new_envs(order, changes);
    if changes.len() > 0 {
        let less = changes.drop_last();
        let last = changes.last();
        let front = new_envs(order, less);
        lemma_new_envs(order, less, env);
        assert(changes[changes.len() - 1] == last);
        crate::feldera::expr::lemma_push_contains(front, bind_env(order, last.0));
        assert forall|b: Seq<u32>| #[trigger] rises(changes, b) <==> rises(less, b) || (last.0 == b
            && last.1 > 0) by {
            if rises(less, b) {
                let i = choose|i: int|
                    0 <= i < less.len() && (#[trigger] less[i]).0 == b && less[i].1 > 0;
                assert(changes[i] == less[i]);
            }
            if rises(changes, b) {
                let i = choose|i: int|
                    0 <= i < changes.len() && (#[trigger] changes[i]).0 == b && changes[i].1 > 0;
                if i < less.len() {
                    assert(less[i] == changes[i]);
                }
            }
        }
        if exists|b: Seq<u32>| #[trigger] rises(less, b) && env == bind_env(order, b) {
            let b = choose|b: Seq<u32>| #[trigger] rises(less, b) && env == bind_env(order, b);
            assert(rises(changes, b));
        }
        if last.1 > 0 {
            assert(rises(changes, last.0));
        }
        if exists|b: Seq<u32>| #[trigger] rises(changes, b) && env == bind_env(order, b) {
            let b = choose|b: Seq<u32>| #[trigger] rises(changes, b) && env == bind_env(order, b);
            if !rises(less, b) {
                assert(last.0 == b && last.1 > 0);
            }
        }
    }
}

proof fn lemma_envs_apart(
    plan: &JoinPlan,
    before: RowsOf,
    now: RowsOf,
    answer: Answers,
    all: Seq<(Seq<u32>, i64)>,
    n: int,
)
    requires
        plan.wf(),
        join_gives(plan, before, now, answer, all),
        consolidated(all),
        0 <= n <= all.len(),
    ensures
        new_envs(plan.var_order@, all.take(n)).no_duplicates(),
    decreases n,
{
    let order = plan.var_order@;
    if n > 0 {
        lemma_envs_apart(plan, before, now, answer, all, n - 1);
        let upto = all.take(n);
        let less = all.take(n - 1);
        assert(upto.drop_last() =~= less);
        assert(upto.last() == all[n - 1]);
        let b = all[n - 1].0;
        if all[n - 1].1 > 0 {
            let env = bind_env(order, b);
            if new_envs(order, less).contains(env) {
                lemma_new_envs(order, less, env);
                let a = choose|a: Seq<u32>| #[trigger] rises(less, a) && env == bind_env(order, a);
                let i = choose|i: int|
                    0 <= i < less.len() && (#[trigger] less[i]).0 == a && less[i].1 > 0;
                assert(all[i] == less[i]);
                assert(rises(all, a));
                assert(rises(all, b));
                rising_bindings_are_new_matches(plan, before, now, answer, all, a);
                rising_bindings_are_new_matches(plan, before, now, answer, all, b);
                matches_are_complete(plan, now, answer, a);
                matches_are_complete(plan, now, answer, b);
                lemma_bind_apart(order, a, b);
                assert(all[i].0 != all[n - 1].0);
            }
        }
    }
}

/// A rule's head gets one environment for each match that is new, and no other.
pub proof fn heads_get_the_new_matches(
    plan: &JoinPlan,
    before: RowsOf,
    now: RowsOf,
    answer: Answers,
    changes: Seq<(Seq<u32>, i64)>,
)
    requires
        plan.wf(),
        join_gives(plan, before, now, answer, changes),
        consolidated(changes),
    ensures
        new_envs(plan.var_order@, changes).no_duplicates(),
        forall|env: Map<u32, u32>| #[trigger]
            new_envs(plan.var_order@, changes).contains(env) <==> exists|b: Seq<u32>| #[trigger]
                is_new_match(plan, before, now, answer, b) && env == bind_env(plan.var_order@, b),
{
    let order = plan.var_order@;
    lemma_envs_apart(plan, before, now, answer, changes, changes.len() as int);
    assert(changes.take(changes.len() as int) =~= changes);
    assert forall|env: Map<u32, u32>| #[trigger] new_envs(order, changes).contains(env) <==> exists|
        b: Seq<u32>,
    | #[trigger]
        is_new_match(plan, before, now, answer, b) && env == bind_env(order, b) by {
        lemma_new_envs(order, changes, env);
        if new_envs(order, changes).contains(env) {
            let b = choose|b: Seq<u32>| #[trigger] rises(changes, b) && env == bind_env(order, b);
            rising_bindings_are_new_matches(plan, before, now, answer, changes, b);
        }
        if exists|b: Seq<u32>| #[trigger]
            is_new_match(plan, before, now, answer, b) && env == bind_env(order, b) {
            let b = choose|b: Seq<u32>| #[trigger]
                is_new_match(plan, before, now, answer, b) && env == bind_env(order, b);
            rising_bindings_are_new_matches(plan, before, now, answer, changes, b);
            assert(rises(changes, b));
        }
    }
}

/// The rows that a circuit was fed.
pub open spec fn fed_rows(fed: FedState) -> RowsOf {
    |f: FunctionId| fed.rows(f.rep as int)
}

/// Whether a circuit gives the rules of a round the changes of their matches, from the rows that it was
/// fed before to those that it has been fed now.
pub open spec fn round_gives(
    pass: &Pass,
    plans: Seq<JoinPlan>,
    before: FedState,
    after: FedState,
    answer: Answers,
    per_rule: Seq<Vec<(Vec<u32>, i64)>>,
) -> bool {
    &&& plans.len() == pass.atom_rules@.len()
    &&& forall|i: int|
        0 <= i < plans.len() ==> {
            let changes = weighted_views(per_rule[pass.places@[i] as int]@);
            &&& (#[trigger] plans[i]).wf()
            &&& plans[i].var_order@ == pass.var_orders@[i]@
            &&& consolidated(changes)
            &&& join_gives(&plans[i], fed_rows(before), fed_rows(after), answer, changes)
        }
}

/// Whether a job is the head of rule `i` under a match of its body that is new.
pub open spec fn is_new_job(
    pass: &Pass,
    plans: Seq<JoinPlan>,
    before: FedState,
    after: FedState,
    answer: Answers,
    i: int,
    j: Job,
) -> bool {
    j.head == pass.atom_rules@[i].1.head@ && exists|b: Seq<u32>| #[trigger]
        is_new_match(&plans[i], fed_rows(before), fed_rows(after), answer, b) && j.env == bind_env(
            plans[i].var_order@,
            b,
        )
}

/// A round runs the head of each rule under exactly the matches of its body that are new since the
/// circuit was last fed.
pub proof fn round_runs_the_new_matches(
    pass: &Pass,
    plans: Seq<JoinPlan>,
    before: FedState,
    after: FedState,
    answer: Answers,
    per_rule: Seq<Vec<(Vec<u32>, i64)>>,
    n: int,
    j: Job,
)
    requires
        round_gives(pass, plans, before, after, answer, per_rule),
        0 <= n <= plans.len(),
    ensures
        joined_jobs(pass, per_rule, n).contains(j) <==> exists|i: int|
            0 <= i < n && #[trigger] is_new_job(pass, plans, before, after, answer, i, j),
    decreases n,
{
    if n > 0 {
        round_runs_the_new_matches(pass, plans, before, after, answer, per_rule, n - 1, j);
        let k = n - 1;
        let plan = &plans[k];
        assert(plans[k].wf());
        let changes = weighted_views(per_rule[pass.places@[k] as int]@);
        heads_get_the_new_matches(plan, fed_rows(before), fed_rows(after), answer, changes);
        let head = pass.atom_rules@[k].1.head@;
        let envs = new_envs(pass.var_orders@[k]@, changes);
        let front = joined_jobs(pass, per_rule, n - 1);
        let back = jobs_of(head, envs);
        let all = joined_jobs(pass, per_rule, n);
        assert(all == front + back);
        assert(back.contains(j) <==> is_new_job(pass, plans, before, after, answer, k, j)) by {
            if back.contains(j) {
                let q = choose|q: int| 0 <= q < back.len() && back[q] == j;
                assert(envs[q] == j.env);
                assert(envs.contains(j.env));
            }
            if is_new_job(pass, plans, before, after, answer, k, j) {
                assert(envs.contains(j.env));
                let q = choose|q: int| 0 <= q < envs.len() && envs[q] == j.env;
                assert(back[q] == j);
            }
        }
        assert(all.contains(j) <==> front.contains(j) || back.contains(j)) by {
            if front.contains(j) {
                let q = choose|q: int| 0 <= q < front.len() && front[q] == j;
                assert(all[q] == j);
            }
            if back.contains(j) {
                let q = choose|q: int| 0 <= q < back.len() && back[q] == j;
                assert(all[front.len() + q] == j);
            }
            if all.contains(j) {
                let q = choose|q: int| 0 <= q < all.len() && all[q] == j;
                if q < front.len() {
                    assert(front[q] == j);
                } else {
                    assert(back[q - front.len()] == j);
                }
            }
        }
        if exists|i: int|
            0 <= i < n && #[trigger] is_new_job(pass, plans, before, after, answer, i, j) {
            let i = choose|i: int|
                0 <= i < n && #[trigger] is_new_job(pass, plans, before, after, answer, i, j);
            assert(i < n - 1 || i == k);
        }
    }
}

/// The weights of a binding over several runs of a circuit, added up.
pub open spec fn total_weight(runs: Seq<Seq<(Seq<u32>, i64)>>, b: Seq<u32>) -> int
    decreases runs.len(),
{
    if runs.len() == 0 {
        0
    } else {
        total_weight(runs.drop_last(), b) + weight_sum(runs.last(), b)
    }
}

/// Over several runs no match is lost and none is given twice: the weights of a binding add up to
/// whether it is a match on the rows that the circuit holds then.
pub proof fn runs_add_up(
    plan: &JoinPlan,
    rows: Seq<RowsOf>,
    answer: Answers,
    runs: Seq<Seq<(Seq<u32>, i64)>>,
    b: Seq<u32>,
)
    requires
        plan.wf(),
        rows.len() == runs.len() + 1,
        forall|f: FunctionId| #[trigger] (rows[0])(f) == Set::<Seq<u32>>::empty(),
        forall|k: int|
            0 <= k < runs.len() ==> join_gives(
                plan,
                rows[k],
                rows[k + 1],
                answer,
                #[trigger] runs[k],
            ),
    ensures
        total_weight(runs, b) == one_if(is_match(plan, rows.last(), answer, b)),
    decreases runs.len(),
{
    if runs.len() == 0 {
        if is_match(plan, rows[0], answer, b) {
            let n = plan.var_order@.len();
            let x = choose|x: Seq<u32>| #[trigger]
                solves(plan, rows[0], n, x) && after_steps(
                    step_views(plan.steps@),
                    answer,
                    x,
                ) == Some(b);
            let picked = choose|picked: Seq<Seq<u32>>| #[trigger]
                picks(plan, rows[0], plan.atoms@.len() as int, picked, x);
            assert((rows[0])(plan.atoms@[0].func).contains(picked[0]));
        }
    } else {
        let fewer = runs.drop_last();
        let front = rows.drop_last();
        let m = runs.len() - 1;
        assert forall|k: int| 0 <= k < fewer.len() implies join_gives(
            plan,
            front[k],
            front[k + 1],
            answer,
            #[trigger] fewer[k],
        ) by {
            assert(fewer[k] == runs[k]);
        }
        runs_add_up(plan, front, answer, fewer, b);
        assert(join_gives(plan, rows[m], rows[m + 1], answer, runs[m]));
        assert(front.last() == rows[m]);
        assert(weight_sum(runs[m], b) == one_if(is_match(plan, rows[m + 1], answer, b)) - one_if(
            is_match(plan, rows[m], answer, b),
        ));
    }
}

/// The matches of a plan depend only on the rows of the functions that it reads.
pub proof fn matches_depend_on_read_functions(
    plan: &JoinPlan,
    a: RowsOf,
    b: RowsOf,
    answer: Answers,
    m: Seq<u32>,
)
    requires
        forall|i: int|
            0 <= i < plan.atoms@.len() ==> a((#[trigger] plan.atoms@[i]).func) == b(
                plan.atoms@[i].func,
            ),
    ensures
        is_match(plan, a, answer, m) <==> is_match(plan, b, answer, m),
{
    if is_match(plan, a, answer, m) {
        lemma_matches_within(plan, a, b, answer, m);
    }
    if is_match(plan, b, answer, m) {
        lemma_matches_within(plan, b, a, answer, m);
    }
}

proof fn lemma_matches_within(
    plan: &JoinPlan,
    a: RowsOf,
    b: RowsOf,
    answer: Answers,
    m: Seq<u32>,
)
    requires
        forall|i: int|
            0 <= i < plan.atoms@.len() ==> a((#[trigger] plan.atoms@[i]).func) == b(
                plan.atoms@[i].func,
            ),
        is_match(plan, a, answer, m),
    ensures
        is_match(plan, b, answer, m),
{
    let n = plan.var_order@.len();
    let x = choose|x: Seq<u32>| #[trigger]
        solves(plan, a, n, x) && after_steps(step_views(plan.steps@), answer, x) == Some(m);
    let k = plan.atoms@.len() as int;
    let picked = choose|picked: Seq<Seq<u32>>| #[trigger] picks(plan, a, k, picked, x);
    assert forall|i: int| 0 <= i < k implies b(plan.atoms@[i].func).contains(#[trigger] picked[i])
        && atom_holds(plan.atoms@[i].slots@, picked[i], plan.var_order@, x) by {
        assert(a(plan.atoms@[i].func).contains(picked[i]));
    }
    assert(picks(plan, b, k, picked, x));
    assert(solves(plan, b, n, x));
}

/// A circuit may carry wider rows: what solves the join is the binding in the leading columns.
pub proof fn wider_rows_bind_alike(plan: &JoinPlan, rows: RowsOf, width: nat, x: Seq<u32>)
    requires
        plan.wf(),
        plan.var_order@.len() <= width,
        x.len() == width,
        forall|c: int| plan.var_order@.len() <= c < width ==> x[c] == 0,
    ensures
        solves(plan, rows, width, x) <==> solves(
            plan,
            rows,
            plan.var_order@.len(),
            x.take(plan.var_order@.len() as int),
        ),
{
    let n = plan.var_order@.len();
    let y = x.take(n as int);
    let k = plan.atoms@.len() as int;
    let order = plan.var_order@;
    assert forall|c: int| 0 <= c < n implies #[trigger] col(x, c) == col(y, c) by {}
    assert forall|picked: Seq<Seq<u32>>| #[trigger] picks(plan, rows, k, picked, x) implies picks(
        plan,
        rows,
        k,
        picked,
        y,
    ) by {
        assert forall|i: int| 0 <= i < k implies rows(plan.atoms@[i].func).contains(
            #[trigger] picked[i],
        ) && atom_holds(plan.atoms@[i].slots@, picked[i], order, y) by {
            assert(atom_holds(plan.atoms@[i].slots@, picked[i], order, x));
        }
    }
    assert forall|picked: Seq<Seq<u32>>| #[trigger] picks(plan, rows, k, picked, y) implies picks(
        plan,
        rows,
        k,
        picked,
        x,
    ) by {
        assert forall|i: int| 0 <= i < k implies rows(plan.atoms@[i].func).contains(
            #[trigger] picked[i],
        ) && atom_holds(plan.atoms@[i].slots@, picked[i], order, x) by {
            assert(atom_holds(plan.atoms@[i].slots@, picked[i], order, y));
        }
    }
    assert forall|g: int| 0 <= g < plan.guards@.len() implies (#[trigger] plan.guards@[g]).holds(x)
        == plan.guards@[g].holds(y) by {
        assert forall|c: int| #[trigger] plan.guards@[g].reads(c) implies col(x, c) == col(y, c) by {
            assert(atom_bound(plan, c));
        }
        plan.guards@[g].holds_depends_on_reads(x, y);
    }
    if solves(plan, rows, width, x) {
        assert forall|c: int|
            0 <= c < n && !(c < order.len() && occurs(
                atom_views(plan.atoms@),
                order[c],
            )) implies #[trigger] y[c] == 0 by {
            assert(x[c] == 0);
        }
        assert(solves(plan, rows, n, y));
    }
    if solves(plan, rows, n, y) {
        assert forall|c: int|
            0 <= c < width && !(c < order.len() && occurs(
                atom_views(plan.atoms@),
                order[c],
            )) implies #[trigger] x[c] == 0 by {
            if c < n {
                assert(y[c] == 0);
            }
        }
        assert(solves(plan, rows, width, x));
    }
}

/// Weights that were added up give changes in which each binding stands once, with its weight.
pub proof fn summed_changes_are_consolidated(d: BindingDelta, changes: Seq<(Seq<u32>, i64)>)
    requires
        changes.no_duplicates(),
        forall|k: Seq<u32>, w: i64|
            #![trigger changes.contains((k, w))]
            changes.contains((k, w)) <==> w != 0 && d.weight(k) == w,
        forall|k: Seq<u32>| i64::MIN <= #[trigger] d.weight(k) <= i64::MAX,
    ensures
        consolidated(changes),
        forall|b: Seq<u32>| #[trigger] weight_sum(changes, b) == d.weight(b),
{
    assert forall|i: int, j: int|
        0 <= i < changes.len() && 0 <= j < changes.len() && i != j implies (#[trigger] changes[i]).0
        != (#[trigger] changes[j]).0 by {
        let (a, v) = changes[i];
        let (b, w) = changes[j];
        assert(changes.contains((a, v)));
        assert(changes.contains((b, w)));
    }
    assert forall|b: Seq<u32>| #[trigger] weight_sum(changes, b) == d.weight(b) by {
        if d.weight(b) != 0 {
            let w = d.weight(b) as i64;
            assert(changes.contains((b, w)));
            let i = choose|i: int| 0 <= i < changes.len() && changes[i] == (b, w);
            lemma_sum_at(changes, i);
        } else {
            assert forall|i: int| 0 <= i < changes.len() implies (#[trigger] changes[i]).0 != b by {
                let (a, v) = changes[i];
                assert(changes.contains((a, v)));
            }
            lemma_sum_absent(changes, b);
        }
    }
}

} // verus!
