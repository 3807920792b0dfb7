//! What rules are made of, and what a round does with them.
use crate::backend::{ExternalFunctionId, QueryEntry, RuleId};
use crate::feldera::compile::{slot_val, slots_of_entries, slots_vals, BodyOp, HeadOp, RuleIr, Slot};
use crate::feldera::egraph::{some_leader_moves, EgState};
use crate::feldera::finish::{round_changes, round_end, take_all, take_ids};
use crate::feldera::head::WriteView;
use crate::feldera::head_laws::{all_bound, are_values};
use crate::feldera::interpret::{
    body_chain, body_leads, body_op_leads, body_op_leads_opt, body_reply_ok, body_step, kind_of,
    live_rules, of_kind, RuleKind,
};
use crate::feldera::join::may_answer;
use crate::feldera::rebuild::{canon_cols, rebuild_plan_of};
use crate::feldera::rule_builder::{after_call, after_calls, is_inequality, live_indices, BuilderCall, BuilderView};
use crate::feldera::settle::settled;
use crate::feldera::table::{moved, uf_find};
use crate::feldera::uf::{after_unions, unions_unite};
use crate::text::occurs_in;
use vstd::prelude::*;
use vstd::string::*;

verus! {

// ---------------------------------------------------------------------------
// Rules
// ---------------------------------------------------------------------------

/// A rule holds what the calls have added to it, in their order: a query goes to the end of its body, an
/// action to the end of its head, and neither touches the other.
pub proof fn rules_hold_the_calls_in_order(
    b: BuilderView,
    first: Seq<BuilderCall>,
    then: Seq<BuilderCall>,
    c: BuilderCall,
)
    ensures
        after_calls(b, first + then) == after_calls(after_calls(b, first), then),
        after_calls(b, Seq::empty()) == b,
        c matches BuilderCall::Query(op) ==> after_call(b, c).body == b.body.push(op) && after_call(
            b,
            c,
        ).head == b.head,
        c matches BuilderCall::Action(op) ==> after_call(b, c).head == b.head.push(op) && after_call(
            b,
            c,
        ).body == b.body,
        c is NewVar || c is Refused ==> after_call(b, c).body == b.body && after_call(b, c).head
            == b.head,
        after_call(b, c).name == b.name,
    decreases then.len(),
{
    if then.len() == 0 {
        assert(first + then =~= first);
    } else {
        rules_hold_the_calls_in_order(b, first, then.drop_last(), c);
        assert((first + then).drop_last() =~= first + then.drop_last());
        assert((first + then).last() == then.last());
    }
}

/// The slots of a list of entries are those of the entries at their places: a variable by its id, a
/// constant by its representation. The inequalities are the three by these names.
pub proof fn entries_keep_their_places(entries: Seq<QueryEntry>, i: int, name: Seq<char>)
    requires
        0 <= i < entries.len(),
    ensures
        slots_of_entries(entries).len() == entries.len(),
        entries[i] matches QueryEntry::Var(v) ==> slots_of_entries(entries)[i] == Slot::Var(v.id.rep),
        entries[i] matches QueryEntry::Const { val, ty } ==> slots_of_entries(entries)[i]
            == Slot::Const(val.rep),
        is_inequality(Some(name)) <==> name == "!="@ || name == "bool-!="@ || name == "value-!="@,
        !is_inequality(None),
{
}

/// What a round does with a rule: without the in-core union-find it joins the rules with a body atom and
/// fires the others once. With it the rules that drain changes or probe a view are idle, and rebuild
/// rules, by their names, leave the join.
pub proof fn rounds_sort_rules_by_name_and_body(native_uf: bool, rule: RuleIr)
    ensures
        ({
            let n = rule.name@;
            let idle = native_uf && (occurs_in("uf_change_drain"@, n) || occurs_in(
                "rebuild_dview_probe"@,
                n,
            ));
            let rebuild = native_uf && occurs_in("rebuild_rule"@, n) && !idle;
            let reads = exists|i: int| 0 <= i < rule.body@.len() && (#[trigger] rule.body@[i]) is Atom;
            let k = kind_of(native_uf, rule);
            &&& k == RuleKind::Idle <==> idle
            &&& k == RuleKind::Rebuild <==> rebuild
            &&& k == RuleKind::Joined <==> reads && !rebuild && !idle
            &&& k == RuleKind::Atomless <==> !reads && !rebuild && !idle
        }),
{
}

/// The rules that run are those at the given places that are not freed, in their order; and those of a
/// kind are the ones of that kind among them.
pub proof fn freed_rules_do_not_run(
    s: EgState,
    a: Seq<usize>,
    b: Seq<usize>,
    ids: Seq<RuleId>,
    id: RuleId,
    native_uf: bool,
    kind: RuleKind,
    rules: Seq<(usize, RuleIr)>,
)
    ensures
        live_rules(s, a + b) == live_rules(s, a) + live_rules(s, b),
        a.len() == 1 ==> live_rules(s, a) == if a[0] < s.rules.len() && s.rules[a[0] as int] is Some {
            seq![(a[0], s.rules[a[0] as int]->0)]
        } else {
            Seq::empty()
        },
        live_indices(s, ids.push(id)) == if id.rep < s.rules.len() && s.rules[id.rep as int] is Some {
            live_indices(s, ids).push(id.rep as usize)
        } else {
            live_indices(s, ids)
        },
        live_indices(s, Seq::empty()).len() == 0,
        of_kind(rules, native_uf, kind) == rules.filter(
            |r: (usize, RuleIr)| kind_of(native_uf, r.1) == kind,
        ),
    decreases b.len(),
{
    assert(ids.push(id).drop_last() =~= ids);
    lemma_of_kind(rules, native_uf, kind);
    if a.len() == 1 {
        assert(a.drop_last() =~= Seq::empty());
        assert(live_rules(s, a.drop_last()) =~= Seq::empty());
        assert(a.last() == a[0]);
        assert(live_rules(s, a) =~= if a[0] < s.rules.len() && s.rules[a[0] as int] is Some {
            seq![(a[0], s.rules[a[0] as int]->0)]
        } else {
            Seq::empty()
        });
    }
    if b.len() == 0 {
        assert(a + b =~= a);
        assert(live_rules(s, a) + live_rules(s, b) =~= live_rules(s, a));
    } else {
        freed_rules_do_not_run(s, a, b.drop_last(), ids, id, native_uf, kind, rules);
        assert((a + b).drop_last() =~= a + b.drop_last());
        assert((a + b).last() == b.last());
        assert(live_rules(s, a + b) =~= live_rules(s, a) + live_rules(s, b));
    }
}

proof fn lemma_of_kind(rules: Seq<(usize, RuleIr)>, native_uf: bool, kind: RuleKind)
    ensures
        of_kind(rules, native_uf, kind) == rules.filter(
            |r: (usize, RuleIr)| kind_of(native_uf, r.1) == kind,
        ),
    decreases rules.len(),
{
    reveal(Seq::filter);
    if rules.len() > 0 {
        lemma_of_kind(rules.drop_last(), native_uf, kind);
    }
}

// ---------------------------------------------------------------------------
// Rules without body atoms
// ---------------------------------------------------------------------------

/// The value of a slot under bindings.
pub open spec fn has_value(slot: Slot, env: Map<u32, u32>, v: u32) -> bool {
    match slot {
        Slot::Const(c) => c == v,
        Slot::Var(x) => env.contains_key(x) && env[x] == v,
    }
}

/// Whether a condition of a body without atoms holds under bindings: a canonicalizing primitive gives
/// the leader of its argument, another primitive an answer, and two values differ.
pub open spec fn holds_under<F: Fn(ExternalFunctionId, &Vec<u32>) -> Option<u32>>(
    prim: F,
    s: EgState,
    env: Map<u32, u32>,
    op: BodyOp,
) -> bool {
    match op {
        BodyOp::Atom(_) => false,
        BodyOp::Prim { id, args, ret } => exists|vals: Seq<u32>, v: u32|
            #![trigger are_values(vals, args@, env), has_value(ret, env, v)]
            all_bound(args@, env) && are_values(vals, args@, env) && has_value(ret, env, v) && if
                s.canon.contains_key(id.rep) {
                v == s.find(s.canon[id.rep] as int, vals[0])
            } else {
                may_answer(prim, id, vals, Some(v))
            },
        BodyOp::Differ(l, r) => exists|a: u32, b: u32|
            #![trigger has_value(l, env, a), has_value(r, env, b)]
            has_value(l, env, a) && has_value(r, env, b) && a != b,
    }
}

/// Whether bindings are among others.
pub open spec fn among(a: Map<u32, u32>, b: Map<u32, u32>) -> bool {
    forall|v: u32| #[trigger] a.contains_key(v) ==> b.contains_key(v) && b[v] == a[v]
}

proof fn lemma_body_step<F: Fn(ExternalFunctionId, &Vec<u32>) -> Option<u32>>(
    prim: F,
    s: EgState,
    env: Map<u32, u32>,
    op: BodyOp,
    out: Map<u32, u32>,
    last: Map<u32, u32>,
)
    requires
        body_op_leads(prim, s, env, op, Some(out)),
        among(out, last),
    ensures
        among(env, out),
        holds_under(prim, s, last, op),
{
    let reply = choose|reply: Option<u32>|
        #![trigger body_step(s, env, op, reply)]
        body_reply_ok(prim, s, env, op, reply) && Some(out) == body_step(s, env, op, reply);
    match op {
        BodyOp::Prim { id, args, ret } => {
            crate::feldera::head_laws::lemma_unbound(args@, env);
            let vals = slots_vals(args@, env);
            let v = if s.canon.contains_key(id.rep) {
                s.find(s.canon[id.rep] as int, vals[0])
            } else {
                reply->0
            };
            assert(are_values(vals, args@, env));
            assert(among(env, out));
            assert forall|i: int| 0 <= i < args@.len() implies ((#[trigger] args@[i]) matches Slot::Var(
                x,
            ) ==> last.contains_key(x) && last[x] == env[x]) by {
                if let Slot::Var(x) = args@[i] {
                    assert(env.contains_key(x));
                    assert(out.contains_key(x));
                }
            }
            assert(are_values(vals, args@, last));
            assert(all_bound(args@, last));
            assert(has_value(ret, out, v));
            assert(has_value(ret, last, v)) by {
                if let Slot::Var(x) = ret {
                    assert(out.contains_key(x));
                }
            }
        },
        BodyOp::Differ(l, r) => {
            let a = slot_val(l, env)->0;
            let b = slot_val(r, env)->0;
            assert(has_value(l, last, a)) by {
                if let Slot::Var(x) = l {
                    assert(out.contains_key(x));
                }
            }
            assert(has_value(r, last, b)) by {
                if let Slot::Var(x) = r {
                    assert(out.contains_key(x));
                }
            }
        },
        BodyOp::Atom(_) => {},
    }
}

/// A rule without body atoms fires only under bindings that meet every condition of its body.
pub proof fn atomless_rules_fire_where_their_body_holds<
    F: Fn(ExternalFunctionId, &Vec<u32>) -> Option<u32>,
>(prim: F, s: EgState, body: Seq<BodyOp>, env: Map<u32, u32>, i: int)
    requires
        body_leads(prim, s, body, body.len() as int, Some(env)),
        0 <= i < body.len(),
    ensures
        holds_under(prim, s, env, body[i]),
{
    let n = body.len() as int;
    let envs = choose|envs: Seq<Option<Map<u32, u32>>>| #[trigger]
        body_chain(prim, s, body, n, envs) && envs.last() == Some(env);
    lemma_chain(prim, s, body, envs, env, n, i + 1);
    assert(body_op_leads_opt(prim, s, envs[i], body[i], envs[i + 1]));
    lemma_body_step(prim, s, envs[i]->0, body[i], envs[i + 1]->0, env);
}

proof fn lemma_chain<F: Fn(ExternalFunctionId, &Vec<u32>) -> Option<u32>>(
    prim: F,
    s: EgState,
    body: Seq<BodyOp>,
    envs: Seq<Option<Map<u32, u32>>>,
    env: Map<u32, u32>,
    n: int,
    k: int,
)
    requires
        body_chain(prim, s, body, n, envs),
        n == body.len(),
        envs[n] == Some(env),
        0 <= k <= n,
    ensures
        envs[k] is Some,
        among(envs[k]->0, env),
        k > 0 ==> envs[k - 1] is Some,
    decreases n - k,
{
    if k < n {
        lemma_chain(prim, s, body, envs, env, n, k + 1);
        assert(body_op_leads_opt(prim, s, envs[k], body[k], envs[k + 1]));
        lemma_body_step(prim, s, envs[k]->0, body[k], envs[k + 1]->0, env);
        let a = envs[k]->0;
        let b = envs[k + 1]->0;
        assert forall|v: u32| #[trigger] a.contains_key(v) implies env.contains_key(v) && env[v]
            == a[v] by {
            assert(b.contains_key(v) && b[v] == a[v]);
        }
    }
    if k > 0 {
        assert(body_op_leads_opt(prim, s, envs[k - 1], body[k - 1], envs[k]));
    }
}

// ---------------------------------------------------------------------------
// The end of a round
// ---------------------------------------------------------------------------

proof fn lemma_canon_in_range(s: EgState, var_col: Seq<(u32, usize)>, head: Seq<HeadOp>)
    requires
        s.wf(),
    ensures
        canon_cols(s, var_col, head) matches Ok(cols) ==> forall|i: int|
            0 <= i < cols.len() ==> (#[trigger] cols[i]).1 < s.tables.len(),
    decreases head.len(),
{
    if head.len() > 0 {
        lemma_canon_in_range(s, var_col, head.drop_last());
    }
}

proof fn lemma_take_ids(s: EgState, col_uf: Seq<(usize, usize)>, f: int)
    requires
        0 <= f < s.tables.len(),
        forall|i: int| 0 <= i < col_uf.len() ==> (#[trigger] col_uf[i]).1 < s.tables.len(),
    ensures
        take_ids(s, col_uf).tables.len() == s.tables.len(),
        take_ids(s, col_uf).tables[f].rows == s.tables[f].rows,
        take_ids(s, col_uf).tables[f].uf == s.tables[f].uf,
        take_ids(s, col_uf).tables[f].info == s.tables[f].info,
        take_ids(s, col_uf).native_uf == s.native_uf,
        take_ids(s, col_uf).next_id == s.next_id,
    decreases col_uf.len(),
{
    if col_uf.len() > 0 {
        let less = col_uf.drop_last();
        assert forall|i: int| 0 <= i < less.len() implies (#[trigger] less[i]).1 < s.tables.len() by {
            assert(less[i] == col_uf[i]);
        }
        lemma_take_ids(s, less, f);
        assert(col_uf[col_uf.len() - 1] == col_uf.last());
    }
}

proof fn lemma_take_all(s: EgState, rules: Seq<(usize, RuleIr)>, f: int)
    requires
        s.wf(),
        0 <= f < s.tables.len(),
    ensures
        take_all(s, rules).tables.len() == s.tables.len(),
        take_all(s, rules).tables[f].rows == s.tables[f].rows,
        take_all(s, rules).tables[f].uf == s.tables[f].uf,
        take_all(s, rules).tables[f].info == s.tables[f].info,
        take_all(s, rules).native_uf == s.native_uf,
        take_all(s, rules).next_id == s.next_id,
    decreases rules.len(),
{
    if rules.len() > 0 {
        lemma_take_all(s, rules.drop_last(), f);
        if let Ok(p) = rebuild_plan_of(s, rules.last().1) {
            lemma_canon_in_range(s, p.var_col, rules.last().1.head@);
            lemma_take_ids(take_all(s, rules.drop_last()), p.col_uf, f);
        }
    }
}

/// At the end of a round the writes are applied. Under the in-core union-find the queued unions are then
/// applied too: none is left, the two ids of each have one leader, and an id that lost its leader waits
/// for a rebuild.
pub proof fn rounds_apply_writes_and_unions(
    s: EgState,
    rules: Seq<(usize, RuleIr)>,
    ws: Seq<WriteView>,
    f: int,
    i: int,
    x: i64,
)
    requires
        s.wf(),
        0 <= f < s.tables.len(),
    ensures
        ({
            let end = round_end(s, rules, ws);
            let t = end.tables[f];
            &&& end.tables.len() == s.tables.len()
            &&& t.rows == settled(s, ws).tables[f].rows
            &&& t.info == s.tables[f].info
            &&& !s.native_uf ==> t.uf == s.tables[f].uf
            &&& s.native_uf ==> (s.tables[f].uf matches Some(u) ==> (t.uf matches Some(u2)
                && u2.pending.len() == 0 && (0 <= i < u.pending.len() ==> (u2.find)(u.pending[i].0) == (
            u2.find)(u.pending[i].1)) && ((u2.find)(x) != (u.find)(x) ==> t.displaced.contains(x))))
            &&& s.native_uf ==> (s.tables[f].uf is None ==> t.uf is None)
        }),
{
    lemma_take_all(s, rules, f);
    let taken = take_all(s, rules);
    let done = settled(taken, ws);
    assert(done.tables[f].rows == settled(s, ws).tables[f].rows);
    if s.native_uf {
        if let Some(u) = s.tables[f].uf {
            if 0 <= i < u.pending.len() {
                unions_unite(u.find, u.pending, i);
            }
            assert(done.tables[f].uf == Some(u));
            let t = round_end(s, rules, ws).tables[f];
            assert(t.uf->0.find == after_unions(u.find, u.pending));
            if after_unions(u.find, u.pending)(x) != (u.find)(x) {
                assert(moved(Some(u)).contains(x));
            }
        }
    }
}

/// A round that reports no change has made no term, left the rows of every table as they were, and moved
/// no leader.
pub proof fn quiet_rounds_change_nothing(
    s: EgState,
    start_id: u32,
    rules: Seq<(usize, RuleIr)>,
    ws: Seq<WriteView>,
    f: int,
    x: i64,
)
    requires
        s.wf(),
        0 <= f < s.tables.len(),
        !round_changes(s, start_id, rules, ws),
    ensures
        s.next_id == start_id,
        round_end(s, rules, ws).tables[f].rows == s.tables[f].rows,
        uf_find(round_end(s, rules, ws).tables[f].uf, x) == uf_find(s.tables[f].uf, x),
{
    lemma_take_all(s, rules, f);
    let taken = take_all(s, rules);
    let done = settled(taken, ws);
    crate::feldera::write_laws::changes_are_reported(taken, ws, f, Seq::empty());
    if s.native_uf {
        assert(!some_leader_moves(done));
        assert(!moved(done.tables[f].uf).contains(x));
        assert(done.tables[f].uf == s.tables[f].uf);
    }
}

} // verus!
