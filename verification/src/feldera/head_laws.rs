//! What the actions of a head do, under the bindings of a match.
use crate::backend::ExternalFunctionId;
use crate::feldera::compile::{slots_vals, HeadOp, Slot};
use crate::feldera::finish::bind_env;
use crate::feldera::head::{
    first_unbound, has_key, head_after, head_leads, head_step, replies_ok, reply_ok, HeadErrorView,
    HeadRun, WriteView,
};
use crate::feldera::join::may_answer;
use vstd::prelude::*;

verus! {

/// A match binds each variable of the body to the value in its column, and nothing else.
pub proof fn matches_bind_each_variable_to_its_column(order: Seq<u32>, bind: Seq<u32>)
    requires
        order.no_duplicates(),
    ensures
        forall|i: int|
            0 <= i < order.len() ==> bind_env(order, bind).contains_key(#[trigger] order[i])
                && bind_env(order, bind)[order[i]] == bind[i],
        forall|v: u32| #[trigger]
            bind_env(order, bind).contains_key(v) ==> order.contains(v),
    decreases order.len(),
{
    if order.len() > 0 {
        let less = order.drop_last();
        let n = order.len() - 1;
        matches_bind_each_variable_to_its_column(less, bind);
        assert(order[n] == order.last());
        assert forall|i: int| 0 <= i < order.len() implies bind_env(order, bind).contains_key(
            #[trigger] order[i],
        ) && bind_env(order, bind)[order[i]] == bind[i] by {
            if i < n {
                assert(less[i] == order[i]);
                assert(order[i] != order[n]);
            }
        }
        assert forall|v: u32| #[trigger] bind_env(order, bind).contains_key(v) implies order.contains(
            v,
        ) by {
            if v != order.last() {
                assert(bind_env(less, bind).contains_key(v));
                assert(less.contains(v));
                let i = choose|i: int| 0 <= i < less.len() && less[i] == v;
                assert(order[i] == v);
            }
        }
    }
}

/// Whether the slots are constants, or variables that have a value.
pub open spec fn all_bound(slots: Seq<Slot>, env: Map<u32, u32>) -> bool {
    forall|i: int|
        0 <= i < slots.len() ==> ((#[trigger] slots[i]) matches Slot::Var(v) ==> env.contains_key(v))
}

/// Whether values are those of the slots: a constant is itself, a variable has the value that it is
/// bound to.
pub open spec fn are_values(vals: Seq<u32>, slots: Seq<Slot>, env: Map<u32, u32>) -> bool {
    &&& vals.len() == slots.len()
    &&& forall|i: int|
        0 <= i < slots.len() ==> vals[i] == match #[trigger] slots[i] {
            Slot::Const(c) => c,
            Slot::Var(v) => env[v],
        }
}

pub proof fn lemma_unbound(slots: Seq<Slot>, env: Map<u32, u32>)
    ensures
        first_unbound(slots, env) is None <==> all_bound(slots, env),
        first_unbound(slots, env) matches Some(v) ==> slots.contains(Slot::Var(v))
            && !env.contains_key(v),
        all_bound(slots, env) ==> are_values(slots_vals(slots, env), slots, env),
    decreases slots.len(),
{
    if slots.len() > 0 {
        let less = slots.drop_last();
        let n = slots.len() - 1;
        lemma_unbound(less, env);
        assert(slots[n] == slots.last());
        if all_bound(slots, env) {
            assert forall|i: int| 0 <= i < less.len() implies ((#[trigger] less[i]) matches Slot::Var(v)
                ==> env.contains_key(v)) by {
                assert(less[i] == slots[i]);
            }
        }
        if all_bound(less, env) && first_unbound(slots, env) is None {
            assert forall|i: int| 0 <= i < slots.len() implies ((#[trigger] slots[i]) matches Slot::Var(
                v,
            ) ==> env.contains_key(v)) by {
                if i < n {
                    assert(less[i] == slots[i]);
                }
            }
        }
        if let Some(v) = first_unbound(less, env) {
            let i = choose|i: int| 0 <= i < less.len() && less[i] == Slot::Var(v);
            assert(slots[i] == Slot::Var(v));
        }
    }
}

/// The slots that an action reads.
pub open spec fn slots_of(op: HeadOp) -> Seq<Slot> {
    match op {
        HeadOp::SetRow { func, slots } => slots@,
        HeadOp::Remove { func, slots } => slots@,
        HeadOp::Lookup { func, args, ret } => args@,
        HeadOp::Call { id, args, ret } => args@,
        _ => Seq::empty(),
    }
}

/// Whether only the bindings changed, and a variable got a value.
pub open spec fn binds(run: HeadRun, out: HeadRun, ret: u32, v: u32) -> bool {
    &&& out.env == run.env.insert(ret, v)
    &&& out.writes == run.writes
    &&& out.err is None
}

/// Whether an action, the values of whose slots are `vals`, did what it says.
pub open spec fn did<F: Fn(ExternalFunctionId, &Vec<u32>) -> Option<u32>>(
    prim: F,
    run: HeadRun,
    op: HeadOp,
    vals: Seq<u32>,
    out: HeadRun,
) -> bool {
    match op {
        // Setting a row of a union-find queues a union; setting any other row writes it.
        HeadOp::SetRow { func, slots } => {
            let t = run.eg.tables[func.rep as int];
            &&& out.env == run.env
            &&& out.err is None
            &&& t.uf is None ==> out.eg == run.eg && out.writes == run.writes.push(
                WriteView::Put(func.rep, vals),
            )
            &&& t.uf matches Some(u) ==> out.writes == run.writes && (func.rep
                < run.eg.tables.len() ==> {
                let t2 = out.eg.tables[func.rep as int];
                &&& t2.rows == t.rows
                &&& forall|f: int|
                    0 <= f < run.eg.tables.len() && f != func.rep ==> #[trigger] out.eg.tables[f]
                        == run.eg.tables[f]
                &&& t2.uf matches Some(u2) && u2.find == u.find && u2.pending == u.pending.push(
                    (vals[0] as i64, vals[1] as i64),
                )
            })
        },
        // Removing retracts the rows that begin with the values.
        HeadOp::Remove { func, slots } => out == (HeadRun {
            writes: run.writes.push(WriteView::Drop(func.rep, vals)),
            ..run
        }),
        // A lookup binds an output of the key; where there is none, the key itself or a new id, which is
        // then the output.
        HeadOp::Lookup { func, args, ret } => {
            let rows = run.eg.tables[func.rep as int].rows;
            if exists|v: u32| #[trigger] rows.contains(vals.push(v)) {
                out.eg == run.eg && exists|v: u32| #[trigger]
                    rows.contains(vals.push(v)) && binds(run, out, ret, v)
            } else if run.eg.tables[func.rep as int].info.identity_on_miss {
                out.eg == run.eg && binds(run, out, ret, vals[0])
            } else if run.eg.next_id == u32::MAX {
                out == (HeadRun { err: Some(HeadErrorView::OutOfIds), ..run })
            } else {
                &&& binds(run, out, ret, run.eg.next_id)
                &&& out.eg.next_id == run.eg.next_id + 1
                &&& func.rep < run.eg.tables.len() ==> out.eg.tables[func.rep as int].rows
                    == rows.insert(vals.push(run.eg.next_id)) && forall|f: int|
                    0 <= f < run.eg.tables.len() && f != func.rep ==> #[trigger] out.eg.tables[f]
                        == run.eg.tables[f]
            }
        },
        // A call of a canonicalizing primitive binds the leader of its argument, one of another primitive
        // its answer; without an answer nothing is bound.
        HeadOp::Call { id, args, ret } => if run.eg.canon.contains_key(id.rep) {
            out.eg == run.eg && binds(
                run,
                out,
                ret,
                run.eg.find(run.eg.canon[id.rep] as int, vals[0]),
            )
        } else {
            exists|reply: Option<u32>| #[trigger]
                may_answer(prim, id, vals, reply) && match reply {
                    Some(v) => out.eg == run.eg && binds(run, out, ret, v),
                    None => out == run,
                }
        },
        HeadOp::Panic(m) => out == (HeadRun { err: Some(HeadErrorView::Panic(m@)), ..run }),
        HeadOp::Subsume { func, slots } => out == run,
        HeadOp::Union { l, r } => out == run,
    }
}

/// One action does what it says with the values of its slots. If one of its variables has no value the
/// head fails there, and changes nothing.
pub proof fn actions_do_what_they_say<F: Fn(ExternalFunctionId, &Vec<u32>) -> Option<u32>>(
    prim: F,
    run: HeadRun,
    op: HeadOp,
    out: HeadRun,
)
    requires
        head_leads(prim, run, seq![op], out),
        run.err is None,
    ensures
        all_bound(slots_of(op), run.env) ==> exists|vals: Seq<u32>|
            are_values(vals, slots_of(op), run.env) && #[trigger] did(prim, run, op, vals, out),
        !all_bound(slots_of(op), run.env) ==> exists|v: u32|
            #[trigger] slots_of(op).contains(Slot::Var(v)) && !run.env.contains_key(v) && out == (
            HeadRun { err: Some(HeadErrorView::Unbound(v)), ..run }),
{
    let reply = lemma_one_action(prim, run, op, out);
    let slots = slots_of(op);
    lemma_unbound(slots, run.env);
    if all_bound(slots, run.env) {
        let vals = slots_vals(slots, run.env);
        lemma_did(prim, run, op, reply, vals);
        assert(did(prim, run, op, vals, out));
    } else {
        let v = first_unbound(slots, run.env)->0;
        assert(slots.contains(Slot::Var(v)));
    }
}

proof fn lemma_one_action<F: Fn(ExternalFunctionId, &Vec<u32>) -> Option<u32>>(
    prim: F,
    run: HeadRun,
    op: HeadOp,
    out: HeadRun,
) -> (reply: Option<u32>)
    requires
        head_leads(prim, run, seq![op], out),
        run.err is None,
    ensures
        out == head_step(run, op, reply),
        reply_ok(prim, run, op, reply),
{
    let head = seq![op];
    let replies = choose|replies: Seq<Option<u32>>|
        #![trigger head_after(run, head, replies, head.len() as int)]
        replies_ok(prim, run, head, replies, head.len() as int)
            && out == head_after(run, head, replies, head.len() as int);
    assert(head_after(run, head, replies, 0) == run);
    assert(head_after(run, head, replies, 1) == head_step(run, head[0], replies[0]));
    assert(reply_ok(prim, head_after(run, head, replies, 0), head[0], replies[0]));
    replies[0]
}

#[verifier::rlimit(40)]
proof fn lemma_did<F: Fn(ExternalFunctionId, &Vec<u32>) -> Option<u32>>(
    prim: F,
    run: HeadRun,
    op: HeadOp,
    reply: Option<u32>,
    vals: Seq<u32>,
)
    requires
        reply_ok(prim, run, op, reply),
        run.err is None,
        first_unbound(slots_of(op), run.env) is None,
        vals == slots_vals(slots_of(op), run.env),
    ensures
        did(prim, run, op, vals, head_step(run, op, reply)),
{
    let out = head_step(run, op, reply);
    match op {
        HeadOp::Lookup { func, args, ret } => {
            let rows = run.eg.tables[func.rep as int].rows;
            assert(has_key(run.eg, func, vals) == exists|v: u32| #[trigger]
                rows.contains(vals.push(v)));
            if has_key(run.eg, func, vals) {
                let v = reply->0;
                assert(rows.contains(vals.push(v)));
                assert(binds(run, out, ret, v));
                assert(out.eg == run.eg);
            } else if run.eg.tables[func.rep as int].info.identity_on_miss {
                assert(binds(run, out, ret, vals[0]));
            } else if run.eg.next_id < u32::MAX {
                assert(binds(run, out, ret, run.eg.next_id));
                assert(out.eg.next_id == run.eg.next_id + 1);
                assert(func.rep < run.eg.tables.len() ==> out.eg.tables[func.rep as int].rows
                    == rows.insert(vals.push(run.eg.next_id)));
            }
        },
        HeadOp::Call { id, args, ret } => {
            if !run.eg.canon.contains_key(id.rep) {
                assert(may_answer(prim, id, vals, reply));
            }
        },
        _ => {},
    }
}

proof fn lemma_front<F: Fn(ExternalFunctionId, &Vec<u32>) -> Option<u32>>(
    run: HeadRun,
    a: Seq<HeadOp>,
    b: Seq<HeadOp>,
    ra: Seq<Option<u32>>,
    replies: Seq<Option<u32>>,
    n: int,
)
    requires
        0 <= n <= a.len(),
        forall|i: int| 0 <= i < n ==> ra[i] == replies[i],
    ensures
        head_after(run, a, ra, n) == head_after(run, a + b, replies, n),
    decreases n,
{
    if n > 0 {
        lemma_front::<F>(run, a, b, ra, replies, n - 1);
        assert((a + b)[n - 1] == a[n - 1]);
    }
}

proof fn lemma_back<F: Fn(ExternalFunctionId, &Vec<u32>) -> Option<u32>>(
    run: HeadRun,
    a: Seq<HeadOp>,
    b: Seq<HeadOp>,
    rb: Seq<Option<u32>>,
    replies: Seq<Option<u32>>,
    n: int,
)
    requires
        0 <= n <= b.len(),
        forall|i: int| 0 <= i < n ==> #[trigger] rb[i] == replies[a.len() + i],
    ensures
        head_after(run, a + b, replies, a.len() + n) == head_after(
            head_after(run, a + b, replies, a.len() as int),
            b,
            rb,
            n,
        ),
    decreases n,
{
    if n > 0 {
        lemma_back::<F>(run, a, b, rb, replies, n - 1);
        assert((a + b)[a.len() + n - 1] == b[n - 1]);
        assert(rb[n - 1] == replies[a.len() + (n - 1)]);
    }
}

proof fn lemma_failed(run: HeadRun, head: Seq<HeadOp>, replies: Seq<Option<u32>>, n: int)
    requires
        run.err is Some,
        n >= 0,
    ensures
        head_after(run, head, replies, n) == run,
    decreases n,
{
    if n > 0 {
        lemma_failed(run, head, replies, n - 1);
    }
}

/// A head runs its actions in their order: the first ones, and then the others on what they led to,
/// unless one of the first failed.
pub proof fn heads_run_action_by_action<F: Fn(ExternalFunctionId, &Vec<u32>) -> Option<u32>>(
    prim: F,
    run: HeadRun,
    a: Seq<HeadOp>,
    b: Seq<HeadOp>,
    out: HeadRun,
)
    requires
        run.err is None,
    ensures
        head_leads(prim, run, a + b, out) <==> exists|mid: HeadRun| #[trigger]
            head_leads(prim, run, a, mid) && if mid.err is Some {
                out == mid
            } else {
                head_leads(prim, mid, b, out)
            },
{
    if head_leads(prim, run, a + b, out) {
        lemma_apart(prim, run, a, b, out);
    }
    if exists|mid: HeadRun| #[trigger]
        head_leads(prim, run, a, mid) && if mid.err is Some {
            out == mid
        } else {
            head_leads(prim, mid, b, out)
        } {
        let mid = choose|mid: HeadRun| #[trigger]
            head_leads(prim, run, a, mid) && if mid.err is Some {
                out == mid
            } else {
                head_leads(prim, mid, b, out)
            };
        lemma_together(prim, run, a, mid, b, out);
    }
}

#[verifier::rlimit(40)]
proof fn lemma_apart<F: Fn(ExternalFunctionId, &Vec<u32>) -> Option<u32>>(
    prim: F,
    run: HeadRun,
    a: Seq<HeadOp>,
    b: Seq<HeadOp>,
    out: HeadRun,
) -> (mid: HeadRun)
    requires
        head_leads(prim, run, a + b, out),
    ensures
        head_leads(prim, run, a, mid),
        mid.err is Some ==> out == mid,
        mid.err is None ==> head_leads(prim, mid, b, out),
{
    let all = a + b;
    let n = a.len() as int;
    let replies = choose|replies: Seq<Option<u32>>|
        #![trigger head_after(run, all, replies, all.len() as int)]
        replies_ok(prim, run, all, replies, all.len() as int)
            && out == head_after(run, all, replies, all.len() as int);
    let mid = head_after(run, all, replies, n);
    lemma_front::<F>(run, a, b, replies, replies, n);
    assert forall|i: int|
        0 <= i < n && head_after(run, a, replies, i).err is None implies reply_ok(
        prim,
        head_after(run, a, replies, i),
        a[i],
        #[trigger] replies[i],
    ) by {
        lemma_front::<F>(run, a, b, replies, replies, i);
        assert(all[i] == a[i]);
    }
    assert(replies_ok(prim, run, a, replies, n));
    assert(mid == head_after(run, a, replies, n));
    assert(head_leads(prim, run, a, mid));
    let rb = Seq::new(b.len(), |i: int| replies[n + i]);
    lemma_back::<F>(run, a, b, rb, replies, b.len() as int);
    if mid.err is Some {
        lemma_failed(mid, b, rb, b.len() as int);
    } else {
        assert forall|i: int|
            0 <= i < b.len() && head_after(mid, b, rb, i).err is None implies reply_ok(
            prim,
            head_after(mid, b, rb, i),
            b[i],
            #[trigger] rb[i],
        ) by {
            lemma_back::<F>(run, a, b, rb, replies, i);
            assert(all[n + i] == b[i]);
            assert(rb[i] == replies[n + i]);
        }
        assert(replies_ok(prim, mid, b, rb, b.len() as int));
        assert(out == head_after(mid, b, rb, b.len() as int));
        assert(head_leads(prim, mid, b, out));
    }
    mid
}

#[verifier::rlimit(40)]
proof fn lemma_together<F: Fn(ExternalFunctionId, &Vec<u32>) -> Option<u32>>(
    prim: F,
    run: HeadRun,
    a: Seq<HeadOp>,
    mid: HeadRun,
    b: Seq<HeadOp>,
    out: HeadRun,
)
    requires
        head_leads(prim, run, a, mid),
        mid.err is Some ==> out == mid,
        mid.err is None ==> head_leads(prim, mid, b, out),
    ensures
        head_leads(prim, run, a + b, out),
{
    let all = a + b;
    let n = a.len() as int;
    let ra = choose|replies: Seq<Option<u32>>|
        #![trigger head_after(run, a, replies, a.len() as int)]
        replies_ok(prim, run, a, replies, a.len() as int)
            && mid == head_after(run, a, replies, a.len() as int);
    let rb = if mid.err is Some {
        Seq::empty()
    } else {
        choose|replies: Seq<Option<u32>>|
            #![trigger head_after(mid, b, replies, b.len() as int)]
            replies_ok(prim, mid, b, replies, b.len() as int)
                && out == head_after(mid, b, replies, b.len() as int)
    };
    let replies = Seq::new(
        all.len(),
        |i: int|
            if i < n {
                ra[i]
            } else {
                rb[i - n]
            },
    );
    assert forall|i: int| 0 <= i < n implies #[trigger] replies[i] == ra[i] by {}
    assert forall|j: int| 0 <= j < b.len() implies #[trigger] rb[j] == replies[n + j] by {}
    lemma_front::<F>(run, a, b, ra, replies, n);
    lemma_back::<F>(run, a, b, rb, replies, b.len() as int);
    if mid.err is Some {
        lemma_failed(mid, b, rb, b.len() as int);
    }
    assert(out == head_after(run, all, replies, all.len() as int));
    assert forall|i: int|
        0 <= i < all.len() && head_after(run, all, replies, i).err is None implies reply_ok(
        prim,
        head_after(run, all, replies, i),
        all[i],
        #[trigger] replies[i],
    ) by {
        lemma_reply_at(prim, run, a, mid, b, ra, rb, replies, i);
    }
    assert(replies_ok(prim, run, all, replies, all.len() as int));
}

proof fn lemma_reply_at<F: Fn(ExternalFunctionId, &Vec<u32>) -> Option<u32>>(
    prim: F,
    run: HeadRun,
    a: Seq<HeadOp>,
    mid: HeadRun,
    b: Seq<HeadOp>,
    ra: Seq<Option<u32>>,
    rb: Seq<Option<u32>>,
    replies: Seq<Option<u32>>,
    i: int,
)
    requires
        replies_ok(prim, run, a, ra, a.len() as int),
        mid == head_after(run, a, ra, a.len() as int),
        mid.err is None ==> replies_ok(prim, mid, b, rb, b.len() as int),
        forall|k: int| 0 <= k < a.len() ==> #[trigger] replies[k] == ra[k],
        forall|j: int| 0 <= j < b.len() ==> #[trigger] rb[j] == replies[a.len() + j],
        0 <= i < a.len() + b.len(),
        head_after(run, a + b, replies, i).err is None,
    ensures
        reply_ok(prim, head_after(run, a + b, replies, i), (a + b)[i], replies[i]),
{
    let n = a.len() as int;
    if i < n {
        lemma_front::<F>(run, a, b, ra, replies, i);
        assert(replies[i] == ra[i]);
        assert((a + b)[i] == a[i]);
        assert(reply_ok(prim, head_after(run, a, ra, i), a[i], ra[i]));
    } else {
        let j = i - n;
        lemma_front::<F>(run, a, b, ra, replies, n);
        lemma_back::<F>(run, a, b, rb, replies, j);
        if mid.err is Some {
            lemma_failed(mid, b, rb, j);
        }
        assert((a + b)[i] == b[j]);
        assert(rb[j] == replies[n + j]);
        assert(reply_ok(prim, head_after(mid, b, rb, j), b[j], rb[j]));
    }
}

} // verus!
