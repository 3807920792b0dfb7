//! What a rebuild rule is for: after it no row of its view is stale.
use crate::backend::{ExternalFunctionId, FunctionId};
use crate::feldera::compile::{slots_vals, BodyOp, HeadOp, RuleIr, Slot};
use crate::feldera::egraph::{table_ok, uf_ok, EgState};
use crate::feldera::head::{first_unbound, head_after, head_leads, replies_ok, HeadRun, WriteView};
use crate::feldera::interpret::{chain, job_leads, job_step, jobs_of, leads, Job, JobRun};
use crate::feldera::rebuild::{
    are_envs_of, canon_cols, col_in, first_atom, first_cols, first_set, is_stale, rebuild_plan_of,
    rebuild_rows, row_env, row_envs, stale_rows_wait, waiting_ids_find_every_stale_row, RebuildView,
};
use crate::feldera::settle::{after_drops, drop_len, is_dropped, puts_of, settled};
use crate::feldera::table::rows_fit;
use vstd::prelude::*;

verus! {

// ---------------------------------------------------------------------------
// What is planned
// ---------------------------------------------------------------------------

/// Whether the head's action at place `i` canonicalizes the variable `v` with the union-find of table
/// `uf`.
pub open spec fn canonicalizes(s: EgState, head: Seq<HeadOp>, i: int, v: u32, uf: usize) -> bool {
    &&& 0 <= i < head.len()
    &&& head[i] matches HeadOp::Call { id, args, ret } && {
        &&& s.canon.contains_key(id.rep)
        &&& s.canon[id.rep] == uf
        &&& args@.len() > 0
        &&& args@[0] == Slot::Var(v)
    }
}

/// Whether `v` stands in column `c` of the slots, and in none before.
pub open spec fn first_in_column(slots: Seq<Slot>, v: u32, c: int) -> bool {
    &&& 0 <= c < slots.len()
    &&& slots[c] == Slot::Var(v)
    &&& forall|d: int| 0 <= d < c ==> #[trigger] slots[d] != Slot::Var(v)
}

/// Whether the slots are those of the body's first atom on function `f`.
pub open spec fn reads_view(body: Seq<BodyOp>, f: FunctionId, slots: Seq<Slot>) -> bool {
    exists|j: int|
        0 <= j < body.len() && ((#[trigger] body[j]) matches BodyOp::Atom(a) && a.func == f
            && a.slots@ == slots) && forall|i: int|
            0 <= i < j ==> !((#[trigger] body[i]) matches BodyOp::Atom(x) && x.func == f)
}

/// Whether `f` is the function of the first row that a head writes.
pub open spec fn writes_first(head: Seq<HeadOp>, f: FunctionId) -> bool {
    exists|k: int|
        0 <= k < head.len() && ((#[trigger] head[k]) matches HeadOp::SetRow { func, slots } && func
            == f) && forall|i: int| 0 <= i < k ==> !((#[trigger] head[i]) is SetRow)
}

proof fn lemma_first_set(head: Seq<HeadOp>)
    ensures
        first_set(head) matches Some(f) ==> writes_first(head, f),
        first_set(head) is None ==> forall|i: int| 0 <= i < head.len() ==> !((
        #[trigger] head[i]) is SetRow),
    decreases head.len(),
{
    if head.len() > 0 {
        let less = head.drop_last();
        lemma_first_set(less);
        match first_set(less) {
            Some(f) => {
                let k = choose|k: int|
                    0 <= k < less.len() && ((#[trigger] less[k]) matches HeadOp::SetRow {
                        func,
                        slots,
                    } && func == f) && forall|i: int|
                        0 <= i < k ==> !((#[trigger] less[i]) is SetRow);
                assert(head[k] == less[k]);
                assert forall|i: int| 0 <= i < k implies !((#[trigger] head[i]) is SetRow) by {
                    assert(less[i] == head[i]);
                }
            },
            None => {
                let k = head.len() - 1;
                assert(head[k] == head.last());
                assert forall|i: int| 0 <= i < k implies !((#[trigger] head[i]) is SetRow) by {
                    assert(less[i] == head[i]);
                }
            },
        }
    }
}

proof fn lemma_first_atom(body: Seq<BodyOp>, f: FunctionId)
    ensures
        first_atom(body, f) matches Some(slots) ==> reads_view(body, f, slots),
        first_atom(body, f) is None ==> forall|i: int|
            0 <= i < body.len() ==> !((#[trigger] body[i]) matches BodyOp::Atom(x) && x.func == f),
    decreases body.len(),
{
    if body.len() > 0 {
        let less = body.drop_last();
        lemma_first_atom(less, f);
        match first_atom(less, f) {
            Some(slots) => {
                let k = choose|j: int|
                    0 <= j < less.len() && ((#[trigger] less[j]) matches BodyOp::Atom(a) && a.func
                        == f && a.slots@ == slots) && forall|i: int|
                        0 <= i < j ==> !((#[trigger] less[i]) matches BodyOp::Atom(x) && x.func
                            == f);
                assert(body[k] == less[k]);
                assert forall|i: int| 0 <= i < k implies !((#[trigger] body[i]) matches BodyOp::Atom(
                    x,
                ) && x.func == f) by {
                    assert(less[i] == body[i]);
                }
            },
            None => {
                let k = body.len() - 1;
                assert(body[k] == body.last());
                assert forall|i: int| 0 <= i < k implies !((#[trigger] body[i]) matches BodyOp::Atom(
                    x,
                ) && x.func == f) by {
                    assert(less[i] == body[i]);
                }
            },
        }
    }
}

proof fn lemma_col_in(cols: Seq<(u32, usize)>, v: u32)
    ensures
        col_in(cols, v) matches Some(c) ==> cols.contains((v, c)),
        col_in(cols, v) is None ==> forall|c: usize| !(#[trigger] cols.contains((v, c))),
    decreases cols.len(),
{
    if cols.len() > 0 {
        let less = cols.drop_last();
        lemma_col_in(less, v);
        crate::feldera::expr::lemma_push_contains(less, cols.last());
        assert(less.push(cols.last()) =~= cols);
    }
}

proof fn lemma_first_cols(slots: Seq<Slot>, v: u32, c: usize)
    requires
        slots.len() <= usize::MAX,
    ensures
        first_cols(slots).contains((v, c)) <==> first_in_column(slots, v, c as int),
    decreases slots.len(),
{
    if slots.len() > 0 {
        let less = slots.drop_last();
        let n = slots.len() - 1;
        assert forall|d: int| 0 <= d < n implies #[trigger] less[d] == slots[d] by {}
        lemma_first_cols(less, v, c);
        if first_in_column(less, v, c as int) {
            assert(first_in_column(slots, v, c as int)) by {
                assert(slots[c as int] == less[c as int]);
                assert forall|d: int| 0 <= d < c implies #[trigger] slots[d] != Slot::Var(v) by {
                    assert(less[d] == slots[d]);
                }
            }
        }
        if first_in_column(slots, v, c as int) && c < n {
            assert(less[c as int] == slots[c as int]);
            assert forall|d: int| 0 <= d < c implies #[trigger] less[d] != Slot::Var(v) by {
                assert(less[d] == slots[d]);
            }
            assert(first_in_column(less, v, c as int));
        }
        match slots.last() {
            Slot::Var(x) => {
                let before = first_cols(less);
                lemma_col_in(before, x);
                if col_in(before, x) is None {
                    crate::feldera::expr::lemma_push_contains(before, (x, n as usize));
                    if v == x && c == n {
                        assert forall|d: int| 0 <= d < n implies #[trigger] slots[d] != Slot::Var(
                            x,
                        ) by {
                            if slots[d] == Slot::Var(x) {
                                lemma_first_of(less, x, d);
                                let e = choose|e: int| 0 <= e <= d && first_in_column(less, x, e);
                                lemma_first_cols(less, x, e as usize);
                            }
                        }
                    }
                    if first_in_column(slots, v, c as int) && c == n {
                        assert(slots[n] == Slot::Var(v));
                    }
                } else {
                    let e = col_in(before, x)->0;
                    lemma_first_cols(less, x, e);
                    if first_in_column(slots, v, c as int) && c == n {
                        assert(slots[n] == Slot::Var(v));
                        assert(slots[e as int] == less[e as int]);
                        assert(false);
                    }
                }
            },
            Slot::Const(_) => {
                if first_in_column(slots, v, c as int) && c == n {
                    assert(slots[n] == Slot::Var(v));
                }
            },
        }
    }
}

/// A variable that occurs has a first column.
proof fn lemma_first_of(slots: Seq<Slot>, v: u32, d: int)
    requires
        0 <= d < slots.len(),
        slots[d] == Slot::Var(v),
    ensures
        exists|e: int| 0 <= e <= d && first_in_column(slots, v, e),
    decreases d,
{
    if exists|e: int| 0 <= e < d && #[trigger] slots[e] == Slot::Var(v) {
        let e = choose|e: int| 0 <= e < d && #[trigger] slots[e] == Slot::Var(v);
        lemma_first_of(slots, v, e);
        let x = choose|x: int| 0 <= x <= e && first_in_column(slots, v, x);
        assert(0 <= x <= d && first_in_column(slots, v, x));
    } else {
        assert(first_in_column(slots, v, d));
    }
}

spec fn is_planned(
    s: EgState,
    cols: Seq<(u32, usize)>,
    out: Seq<(usize, usize)>,
    op: HeadOp,
) -> bool {
    match op {
        HeadOp::Call { id, args, ret } => s.canon.contains_key(id.rep) ==> args@.len() > 0
            && args@[0] is Var && exists|c: usize| #[trigger]
            cols.contains((args@[0]->Var_0, c)) && out.contains((c, s.canon[id.rep])),
        _ => true,
    }
}

proof fn lemma_canon_cols(s: EgState, cols: Seq<(u32, usize)>, head: Seq<HeadOp>)
    ensures
        canon_cols(s, cols, head) matches Ok(out) ==> {
            &&& forall|i: int|
                0 <= i < head.len() ==> is_planned(s, cols, out, #[trigger] head[i])
            &&& forall|c: usize, uf: usize| #[trigger]
                out.contains((c, uf)) ==> exists|i: int, v: u32| #[trigger]
                    canonicalizes(s, head, i, v, uf) && cols.contains((v, c))
        },
    decreases head.len(),
{
    if head.len() > 0 && canon_cols(s, cols, head) is Ok {
        let less = head.drop_last();
        lemma_canon_cols(s, cols, less);
        let before = canon_cols(s, cols, less)->Ok_0;
        let out = canon_cols(s, cols, head)->Ok_0;
        let n = head.len() - 1;
        assert(head[n] == head.last());
        assert forall|x: (usize, usize)| before.contains(x) implies out.contains(x) by {
            let k = choose|k: int| 0 <= k < before.len() && before[k] == x;
            assert(out[k] == x);
        }
        assert forall|i: int| 0 <= i < head.len() implies is_planned(
            s,
            cols,
            out,
            #[trigger] head[i],
        ) by {
            if i < n {
                assert(less[i] == head[i]);
                assert(is_planned(s, cols, before, less[i]));
                if let HeadOp::Call { id, args, ret } = head[i] {
                    if s.canon.contains_key(id.rep) {
                        let c = choose|c: usize| #[trigger]
                            cols.contains((args@[0]->Var_0, c)) && before.contains(
                                (c, s.canon[id.rep]),
                            );
                        assert(cols.contains((args@[0]->Var_0, c)) && out.contains(
                            (c, s.canon[id.rep]),
                        ));
                    }
                }
            } else {
                if let HeadOp::Call { id, args, ret } = head[i] {
                    if s.canon.contains_key(id.rep) {
                        lemma_col_in(cols, args@[0]->Var_0);
                        let c = col_in(cols, args@[0]->Var_0)->0;
                        assert(out[before.len() as int] == (c, s.canon[id.rep]));
                        assert(cols.contains((args@[0]->Var_0, c)) && out.contains(
                            (c, s.canon[id.rep]),
                        ));
                    }
                }
            }
        }
        assert forall|c: usize, uf: usize| #[trigger] out.contains((c, uf)) implies exists|
            i: int,
            v: u32,
        | #[trigger]
            canonicalizes(s, head, i, v, uf) && cols.contains((v, c)) by {
            if before.contains((c, uf)) {
                let (i, v) = choose|i: int, v: u32| #[trigger]
                    canonicalizes(s, less, i, v, uf) && cols.contains((v, c));
                assert(less[i] == head[i]);
                assert(canonicalizes(s, head, i, v, uf));
            } else {
                let k = choose|k: int| 0 <= k < out.len() && out[k] == (c, uf);
                if k < before.len() {
                    assert(before[k] == (c, uf));
                }
                let v = match head.last() {
                    HeadOp::Call { id, args, ret } => args@[0]->Var_0,
                    _ => 0,
                };
                lemma_col_in(cols, v);
                assert(canonicalizes(s, head, n, v, uf));
            }
        }
    }
}

/// A rebuild rule's plan covers the rule: it is about the view that the head writes first and the body
/// reads; each of the view's variables has its first column; and the columns to canonicalize are just
/// those of the variables that the head canonicalizes, each with its union-find.
pub proof fn rebuild_plans_cover_the_rule(s: EgState, rule: RuleIr, p: RebuildView)
    requires
        rebuild_plan_of(s, rule) == Ok::<_, crate::feldera::rebuild::RebuildError>(p),
    ensures
        writes_first(rule.head@, p.view_func),
        exists|slots: Seq<Slot>| #[trigger]
            reads_view(rule.body@, p.view_func, slots) && forall|v: u32, c: usize| #[trigger]
                p.var_col.contains((v, c)) <==> first_in_column(slots, v, c as int),
        forall|i: int, v: u32, uf: usize| #[trigger]
            canonicalizes(s, rule.head@, i, v, uf) ==> exists|c: usize| #[trigger]
                p.var_col.contains((v, c)) && p.col_uf.contains((c, uf)),
        forall|c: usize, uf: usize| #[trigger]
            p.col_uf.contains((c, uf)) ==> exists|i: int, v: u32| #[trigger]
                canonicalizes(s, rule.head@, i, v, uf) && p.var_col.contains((v, c)),
{
    let head = rule.head@;
    lemma_first_set(head);
    let f = p.view_func;
    lemma_first_atom(rule.body@, f);
    let slots = first_atom(rule.body@, f)->0;
    let j = choose|j: int|
        0 <= j < rule.body@.len() && ((#[trigger] rule.body@[j]) matches BodyOp::Atom(a) && a.func
            == f && a.slots@ == slots) && forall|i: int|
            0 <= i < j ==> !((#[trigger] rule.body@[i]) matches BodyOp::Atom(x) && x.func == f);
    assert(slots.len() <= usize::MAX) by {
        if let BodyOp::Atom(a) = rule.body@[j] {
            assert(a.slots@.len() == a.slots.len());
        }
    }
    assert forall|v: u32, c: usize| #[trigger] p.var_col.contains((v, c)) <==> first_in_column(
        slots,
        v,
        c as int,
    ) by {
        lemma_first_cols(slots, v, c);
    }
    assert(reads_view(rule.body@, f, slots));
    lemma_canon_cols(s, p.var_col, head);
    assert forall|i: int, v: u32, uf: usize| #[trigger]
        canonicalizes(s, head, i, v, uf) implies exists|c: usize| #[trigger]
        p.var_col.contains((v, c)) && p.col_uf.contains((c, uf)) by {
        assert(is_planned(s, p.var_col, p.col_uf, head[i]));
    }
}

/// A row is stale just if the head canonicalizes the variable of one of its columns, and the column
/// does not hold its leader.
pub proof fn stale_rows_hold_an_id_that_is_no_leader(
    s: EgState,
    rule: RuleIr,
    p: RebuildView,
    row: Seq<u32>,
)
    requires
        rebuild_plan_of(s, rule) == Ok::<_, crate::feldera::rebuild::RebuildError>(p),
    ensures
        is_stale(s, p.col_uf, row) <==> exists|i: int, v: u32, uf: usize, c: usize|
            #![trigger canonicalizes(s, rule.head@, i, v, uf), p.var_col.contains((v, c))]
            canonicalizes(s, rule.head@, i, v, uf) && p.var_col.contains((v, c)) && s.find(
                uf as int,
                row[c as int],
            ) != row[c as int],
{
    let head = rule.head@;
    rebuild_plans_cover_the_rule(s, rule, p);
    if is_stale(s, p.col_uf, row) {
        let k = choose|k: int|
            0 <= k < p.col_uf.len() && s.find(
                (#[trigger] p.col_uf[k]).1 as int,
                row[p.col_uf[k].0 as int],
            ) != row[p.col_uf[k].0 as int];
        let (c, uf) = p.col_uf[k];
        assert(p.col_uf.contains((c, uf)));
        let (i, v) = choose|i: int, v: u32| #[trigger]
            canonicalizes(s, head, i, v, uf) && p.var_col.contains((v, c));
        assert(canonicalizes(s, head, i, v, uf) && p.var_col.contains((v, c)));
    }
    if exists|i: int, v: u32, uf: usize, c: usize|
        #![trigger canonicalizes(s, rule.head@, i, v, uf), p.var_col.contains((v, c))]
        canonicalizes(s, rule.head@, i, v, uf) && p.var_col.contains((v, c)) && s.find(
            uf as int,
            row[c as int],
        ) != row[c as int] {
        let (i, v, uf, c) = choose|i: int, v: u32, uf: usize, c: usize|
            #![trigger canonicalizes(s, rule.head@, i, v, uf), p.var_col.contains((v, c))]
            canonicalizes(s, rule.head@, i, v, uf) && p.var_col.contains((v, c)) && s.find(
                uf as int,
                row[c as int],
            ) != row[c as int];
        let d = choose|d: usize| #[trigger]
            p.var_col.contains((v, d)) && p.col_uf.contains((d, uf));
        let slots = choose|slots: Seq<Slot>| #[trigger]
            reads_view(rule.body@, p.view_func, slots) && forall|v: u32, c: usize| #[trigger]
                p.var_col.contains((v, c)) <==> first_in_column(slots, v, c as int);
        assert(first_in_column(slots, v, c as int) && first_in_column(slots, v, d as int));
        assert(c == d) by {
            if c < d {
                assert(slots[c as int] != Slot::Var(v));
            } else if d < c {
                assert(slots[d as int] != Slot::Var(v));
            }
        }
        let k = choose|k: int| 0 <= k < p.col_uf.len() && p.col_uf[k] == (c, uf);
        assert(p.col_uf[k].1 == uf);
    }
}

// ---------------------------------------------------------------------------
// What a run leaves
// ---------------------------------------------------------------------------

/// The result variable of the head's call at place `i`.
pub open spec fn result_of(head: Seq<HeadOp>, i: int) -> u32 {
    match head[i] {
        HeadOp::Call { id, args, ret } => ret,
        _ => 0,
    }
}

/// The variable that the head's call at place `i` is about.
pub open spec fn subject_of(head: Seq<HeadOp>, i: int) -> Slot {
    match head[i] {
        HeadOp::Call { id, args, ret } => args@[0],
        _ => Slot::Const(0),
    }
}

/// The table of the union-find that the head's call at place `i` asks.
pub open spec fn union_find_of(s: EgState, head: Seq<HeadOp>, i: int) -> usize {
    match head[i] {
        HeadOp::Call { id, args, ret } => s.canon[id.rep],
        _ => 0,
    }
}

/// Whether a rule writes the rows of its view back canonically: its first `k` actions canonicalize
/// variables of the view into variables of their own; then it retracts the row, and writes it with
/// each of these variables replaced by its canonical id.
pub open spec fn writes_back(s: EgState, rule: RuleIr, p: RebuildView, slots: Seq<Slot>, k: int) -> bool {
    let head = rule.head@;
    &&& 0 <= k
    &&& head.len() == k + 2
    &&& first_atom(rule.body@, p.view_func) == Some(slots)
    &&& forall|c: int| 0 <= c < slots.len() ==> (#[trigger] slots[c]) is Var
    &&& slots.no_duplicates()
    &&& forall|i: int|
        0 <= i < k ==> ((#[trigger] head[i]) matches HeadOp::Call { id, args, ret }
            && s.canon.contains_key(id.rep) && args@.len() == 1 && slots.contains(args@[0])
            && !slots.contains(Slot::Var(ret)))
    &&& forall|i: int, j: int|
        0 <= i < k && 0 <= j < k && i != j ==> result_of(head, i) != result_of(head, j)
    &&& forall|i: int, j: int|
        0 <= i < k && 0 <= j < k && subject_of(head, i) == subject_of(head, j) ==> union_find_of(
            s,
            head,
            i,
        ) == union_find_of(s, head, j)
    &&& head[k] matches HeadOp::Remove { func, slots: keys } && func == p.view_func && keys@ == slots
    &&& head[k + 1] matches HeadOp::SetRow { func, slots: out } && func == p.view_func && out@.len()
        == slots.len() && forall|c: int|
        0 <= c < slots.len() ==> is_written_back(head, slots, k, c, #[trigger] out@[c])
}

/// Whether `out` is what is written for column `c`: the result of a call on its variable, or the
/// variable itself where no call is about it.
pub open spec fn is_written_back(
    head: Seq<HeadOp>,
    slots: Seq<Slot>,
    k: int,
    c: int,
    out: Slot,
) -> bool {
    if exists|i: int| 0 <= i < k && #[trigger] subject_of(head, i) == slots[c] {
        exists|i: int|
            0 <= i < k && #[trigger] subject_of(head, i) == slots[c] && out == Slot::Var(
                result_of(head, i),
            )
    } else {
        out == slots[c]
    }
}

/// Whether `new` is `row` with the id in each column that the head canonicalizes replaced by its
/// leader.
pub open spec fn is_canonical_row(
    s: EgState,
    head: Seq<HeadOp>,
    slots: Seq<Slot>,
    k: int,
    row: Seq<u32>,
    new: Seq<u32>,
) -> bool {
    &&& new.len() == row.len()
    &&& forall|i: int, c: int|
        #![trigger subject_of(head, i), slots[c]]
        0 <= i < k && 0 <= c < row.len() && subject_of(head, i) == slots[c] ==> new[c] == s.find(
            union_find_of(s, head, i) as int,
            row[c],
        )
    &&& forall|c: int|
        0 <= c < row.len() && (forall|i: int|
            0 <= i < k ==> #[trigger] subject_of(head, i) != slots[c]) ==> #[trigger] new[c]
            == row[c]
}

/// What a row gives the view's variables.
proof fn lemma_row_env(slots: Seq<Slot>, row: Seq<u32>, c: int)
    requires
        slots.len() <= usize::MAX,
        slots.no_duplicates(),
        row.len() == slots.len(),
        0 <= c < slots.len(),
        slots[c] is Var,
    ensures
        row_env(first_cols(slots), row).contains_key(slots[c]->Var_0),
        row_env(first_cols(slots), row)[slots[c]->Var_0] == row[c],
{
    let v = slots[c]->Var_0;
    assert(first_in_column(slots, v, c)) by {
        assert forall|d: int| 0 <= d < c implies #[trigger] slots[d] != Slot::Var(v) by {}
    }
    lemma_first_cols(slots, v, c as usize);
    let cols = first_cols(slots);
    let k = choose|k: int| 0 <= k < cols.len() && cols[k] == (v, c as usize);
    assert forall|j: int| 0 <= j < cols.len() && #[trigger] cols[j].0 == v implies cols[j].1
        == c by {
        assert(cols.contains(cols[j]));
        assert(cols.contains((v, cols[j].1)));
        lemma_first_cols(slots, v, cols[j].1);
        assert(slots[cols[j].1 as int] == slots[c]);
    }
    lemma_env_at(cols, row, v, c as usize, k);
}

proof fn lemma_env_at(cols: Seq<(u32, usize)>, row: Seq<u32>, v: u32, c: usize, k: int)
    requires
        0 <= k < cols.len(),
        cols[k] == (v, c),
        forall|j: int| 0 <= j < cols.len() && #[trigger] cols[j].0 == v ==> cols[j].1 == c,
    ensures
        row_env(cols, row).contains_key(v),
        row_env(cols, row)[v] == row[c as int],
    decreases cols.len(),
{
    let less = cols.drop_last();
    let n = cols.len() - 1;
    if cols[n].0 == v {
        assert(cols.last() == cols[n]);
    } else {
        assert(k < n);
        assert(less[k] == cols[k]);
        assert forall|j: int| 0 <= j < less.len() && #[trigger] less[j].0 == v implies less[j].1
            == c by {
            assert(cols[j].0 == v);
        }
        lemma_env_at(less, row, v, c, k);
        assert(cols.last() == cols[n]);
    }
}

proof fn lemma_all_bound(slots: Seq<Slot>, env: Map<u32, u32>)
    requires
        forall|c: int|
            0 <= c < slots.len() ==> ((#[trigger] slots[c]) matches Slot::Var(v) ==> env.contains_key(
                v,
            )),
    ensures
        first_unbound(slots, env) is None,
    decreases slots.len(),
{
    if slots.len() > 0 {
        let less = slots.drop_last();
        assert forall|c: int| 0 <= c < less.len() implies ((#[trigger] less[c]) matches Slot::Var(v)
            ==> env.contains_key(v)) by {
            assert(slots[c] == less[c]);
        }
        lemma_all_bound(less, env);
        assert(slots[slots.len() - 1] == slots.last());
    }
}

/// The bindings after the first `n` calls.
proof fn lemma_calls(
    s: EgState,
    rule: RuleIr,
    p: RebuildView,
    slots: Seq<Slot>,
    k: int,
    row: Seq<u32>,
    start: HeadRun,
    replies: Seq<Option<u32>>,
    n: int,
)
    requires
        writes_back(s, rule, p, slots, k),
        slots.len() <= usize::MAX,
        row.len() == slots.len(),
        start.eg == s,
        start.err is None,
        start.env == row_env(first_cols(slots), row),
        0 <= n <= k,
    ensures
        ({
            let run = head_after(start, rule.head@, replies, n);
            &&& run.eg == s
            &&& run.err is None
            &&& run.writes == start.writes
            &&& forall|c: int|
                0 <= c < slots.len() ==> run.env.contains_key((#[trigger] slots[c])->Var_0)
                    && run.env[slots[c]->Var_0] == row[c]
            &&& forall|i: int, c: int|
                #![trigger subject_of(rule.head@, i), slots[c]]
                0 <= i < n && 0 <= c < slots.len() && subject_of(rule.head@, i) == slots[c]
                    ==> run.env.contains_key(result_of(rule.head@, i)) && run.env[result_of(
                    rule.head@,
                    i,
                )] == s.find(union_find_of(s, rule.head@, i) as int, row[c])
        }),
    decreases n,
{
    let head = rule.head@;
    if n == 0 {
        assert forall|c: int| 0 <= c < slots.len() implies start.env.contains_key(
            (#[trigger] slots[c])->Var_0,
        ) && start.env[slots[c]->Var_0] == row[c] by {
            lemma_row_env(slots, row, c);
        }
    } else {
        lemma_calls(s, rule, p, slots, k, row, start, replies, n - 1);
        let before = head_after(start, head, replies, n - 1);
        let run = head_after(start, head, replies, n);
        let op = head[n - 1];
        if let HeadOp::Call { id, args, ret } = op {
            let d = choose|d: int| 0 <= d < slots.len() && slots[d] == args@[0];
            assert(args@[0] is Var);
            assert forall|c: int| 0 <= c < args@.len() implies ((#[trigger] args@[c]) matches Slot::Var(
                v,
            ) ==> before.env.contains_key(v)) by {
                assert(slots[d] == args@[c]);
            }
            lemma_all_bound(args@, before.env);
            let argv = slots_vals(args@, before.env);
            assert(argv[0] == before.env[args@[0]->Var_0]);
            assert(before.env[slots[d]->Var_0] == row[d]);
            assert(run.env == before.env.insert(ret, s.find(s.canon[id.rep] as int, row[d])));
            assert(ret == result_of(head, n - 1));
            assert forall|c: int| 0 <= c < slots.len() implies run.env.contains_key(
                (#[trigger] slots[c])->Var_0,
            ) && run.env[slots[c]->Var_0] == row[c] by {
                assert(slots.contains(slots[c]));
                assert(slots[c] != Slot::Var(ret));
            }
            assert forall|i: int, c: int|
                #![trigger subject_of(head, i), slots[c]]
                0 <= i < n && 0 <= c < slots.len() && subject_of(head, i) == slots[c] implies run.env.contains_key(
                result_of(head, i),
            ) && run.env[result_of(head, i)] == s.find(
                union_find_of(s, head, i) as int,
                row[c],
            ) by {
                if i == n - 1 {
                    assert(slots[c] == slots[d]);
                    assert(c == d);
                } else {
                    assert(result_of(head, i) != result_of(head, n - 1));
                }
            }
        }
    }
}

/// What the head does under the bindings of a row: it retracts the row and writes its canonical form.
proof fn lemma_rewrites(
    s: EgState,
    rule: RuleIr,
    p: RebuildView,
    slots: Seq<Slot>,
    k: int,
    row: Seq<u32>,
    start: HeadRun,
    replies: Seq<Option<u32>>,
) -> (new: Seq<u32>)
    requires
        writes_back(s, rule, p, slots, k),
        slots.len() <= usize::MAX,
        row.len() == slots.len(),
        p.view_func.rep < s.tables.len(),
        s.tables[p.view_func.rep as int].uf is None,
        start.eg == s,
        start.err is None,
        start.env == row_env(first_cols(slots), row),
    ensures
        is_canonical_row(s, rule.head@, slots, k, row, new),
        ({
            let run = head_after(start, rule.head@, replies, k + 2);
            &&& run.eg == s
            &&& run.err is None
            &&& run.writes == start.writes.push(WriteView::Drop(p.view_func.rep, row)).push(
                WriteView::Put(p.view_func.rep, new),
            )
        }),
{
    let head = rule.head@;
    lemma_calls(s, rule, p, slots, k, row, start, replies, k);
    let r0 = head_after(start, head, replies, k);
    let r1 = head_after(start, head, replies, k + 1);
    let r2 = head_after(start, head, replies, k + 2);
    let out = match head[k + 1] {
        HeadOp::SetRow { func, slots: out } => out@,
        _ => Seq::empty(),
    };
    assert forall|c: int| 0 <= c < slots.len() implies ((#[trigger] slots[c]) matches Slot::Var(v)
        ==> r0.env.contains_key(v)) by {}
    lemma_all_bound(slots, r0.env);
    assert(slots_vals(slots, r0.env) =~= row) by {
        assert forall|c: int| 0 <= c < slots.len() implies slots_vals(slots, r0.env)[c]
            == row[c] by {
            assert(slots[c] is Var);
        }
    }
    assert(r1.writes == r0.writes.push(WriteView::Drop(p.view_func.rep, row)));
    assert(r1.env == r0.env);
    let new = slots_vals(out, r1.env);
    assert forall|c: int| 0 <= c < out.len() implies ((#[trigger] out[c]) matches Slot::Var(v)
        ==> r1.env.contains_key(v)) by {
        assert(is_written_back(head, slots, k, c, out[c]));
        if exists|i: int| 0 <= i < k && #[trigger] subject_of(head, i) == slots[c] {
            let i = choose|i: int|
                0 <= i < k && #[trigger] subject_of(head, i) == slots[c] && out[c] == Slot::Var(
                    result_of(head, i),
                );
        }
    }
    lemma_all_bound(out, r1.env);
    assert forall|i: int, c: int|
        #![trigger subject_of(head, i), slots[c]]
        0 <= i < k && 0 <= c < row.len() && subject_of(head, i) == slots[c] implies new[c] == s.find(
        union_find_of(s, head, i) as int,
        row[c],
    ) by {
        assert(is_written_back(head, slots, k, c, out[c]));
        let j = choose|j: int|
            0 <= j < k && #[trigger] subject_of(head, j) == slots[c] && out[c] == Slot::Var(
                result_of(head, j),
            );
        assert(subject_of(head, i) == subject_of(head, j));
        assert(union_find_of(s, head, i) == union_find_of(s, head, j));
    }
    assert forall|c: int|
        0 <= c < row.len() && (forall|i: int|
            0 <= i < k ==> #[trigger] subject_of(head, i) != slots[c]) implies #[trigger] new[c]
        == row[c] by {
        assert(is_written_back(head, slots, k, c, out[c]));
        assert(slots[c] is Var);
    }
    new
}

/// Whether writes retract rows and write others, pair by pair.
pub open spec fn replaces(
    ws: Seq<WriteView>,
    f: u32,
    old_rows: Seq<Seq<u32>>,
    new_rows: Seq<Seq<u32>>,
) -> bool {
    &&& new_rows.len() == old_rows.len()
    &&& ws.len() == 2 * old_rows.len()
    &&& forall|i: int|
        0 <= i < old_rows.len() ==> ws[2 * i] == WriteView::Drop(f, #[trigger] old_rows[i]) && ws[2 * i
            + 1] == WriteView::Put(f, new_rows[i])
}

/// Running the head on the bindings of a row replaces it by its canonical form.
#[verifier::rlimit(30)]
proof fn lemma_job<F: Fn(ExternalFunctionId, &Vec<u32>) -> Option<u32>>(
    prim: F,
    s: EgState,
    rule: RuleIr,
    p: RebuildView,
    slots: Seq<Slot>,
    k: int,
    row: Seq<u32>,
    a: JobRun,
    job: Job,
    b: JobRun,
) -> (new_row: Seq<u32>)
    requires
        writes_back(s, rule, p, slots, k),
        slots.len() <= usize::MAX,
        p.var_col == first_cols(slots),
        row.len() == slots.len(),
        p.view_func.rep < s.tables.len(),
        s.tables[p.view_func.rep as int].uf is None,
        a.eg == s,
        a.err is None,
        job == (Job { head: rule.head@, env: row_env(p.var_col, row) }),
        job_leads(prim, a, job, b),
    ensures
        b.eg == s,
        b.err is None,
        b.writes == a.writes.push(WriteView::Drop(p.view_func.rep, row)).push(
            WriteView::Put(p.view_func.rep, new_row),
        ),
        is_canonical_row(s, rule.head@, slots, k, row, new_row),
{
    let start = HeadRun { eg: s, writes: a.writes, env: job.env, err: None };
    let run = choose|run: HeadRun| #[trigger]
        head_leads(prim, start, job.head, run) && b == (JobRun {
            eg: run.eg,
            writes: run.writes,
            err: run.err,
        });
    let replies = choose|replies: Seq<Option<u32>>|
        #![trigger head_after(start, job.head, replies, job.head.len() as int)]
        replies_ok(prim, start, job.head, replies, job.head.len() as int) && run == head_after(
            start,
            job.head,
            replies,
            job.head.len() as int,
        );
    lemma_rewrites(s, rule, p, slots, k, row, start, replies)
}

/// Running the head on the bindings of rows replaces each of them by its canonical form.
#[verifier::rlimit(30)]
proof fn lemma_jobs<F: Fn(ExternalFunctionId, &Vec<u32>) -> Option<u32>>(
    prim: F,
    s: EgState,
    rule: RuleIr,
    p: RebuildView,
    slots: Seq<Slot>,
    k: int,
    list: Seq<Seq<u32>>,
    states: Seq<JobRun>,
    n: int,
) -> (new: Seq<Seq<u32>>)
    requires
        writes_back(s, rule, p, slots, k),
        slots.len() <= usize::MAX,
        p.var_col == first_cols(slots),
        forall|i: int| 0 <= i < list.len() ==> (#[trigger] list[i]).len() == slots.len(),
        p.view_func.rep < s.tables.len(),
        s.tables[p.view_func.rep as int].uf is None,
        chain(job_step(prim), jobs_of(rule.head@, row_envs(p, list)), states),
        states[0] == (JobRun { eg: s, writes: Seq::empty(), err: None }),
        0 <= n <= list.len(),
    ensures
        states[n].eg == s,
        states[n].err is None,
        replaces(states[n].writes, p.view_func.rep, list.take(n), new),
        forall|i: int|
            0 <= i < n ==> is_canonical_row(
                s,
                rule.head@,
                slots,
                k,
                list[i],
                #[trigger] new[i],
            ),
    decreases n,
{
    if n == 0 {
        Seq::empty()
    } else {
        let less = lemma_jobs(prim, s, rule, p, slots, k, list, states, n - 1);
        let jobs = jobs_of(rule.head@, row_envs(p, list));
        let job = jobs[n - 1];
        let row = list[n - 1];
        assert(job_leads(prim, states[n - 1], job, states[n - 1 + 1]));
        assert(job.env == row_env(p.var_col, row));
        let new_row = lemma_job(prim, s, rule, p, slots, k, row, states[n - 1], job, states[n]);
        let new = less.push(new_row);
        let f = p.view_func.rep;
        let ws = states[n].writes;
        let before = states[n - 1].writes;
        let old_rows = list.take(n);
        assert(ws == before.push(WriteView::Drop(f, row)).push(WriteView::Put(f, new_row)));
        assert forall|i: int| 0 <= i < old_rows.len() implies ws[2 * i] == WriteView::Drop(
            f,
            #[trigger] old_rows[i],
        ) && ws[2 * i + 1] == WriteView::Put(f, new[i]) by {
            if i < n - 1 {
                assert(list.take(n - 1)[i] == old_rows[i]);
                assert(before[2 * i] == WriteView::Drop(f, list.take(n - 1)[i]));
            }
        }
        new
    }
}

/// A leader leads itself.
proof fn lemma_find_twice(s: EgState, f: int, x: u32)
    requires
        s.wf(),
    ensures
        s.find(f, s.find(f, x)) == s.find(f, x),
{
    if 0 <= f < s.tables.len() {
        assert(table_ok(s.tables[f]));
        if let Some(u) = s.tables[f].uf {
            assert(uf_ok(u));
            let y = x as i64;
            assert(0 <= (u.find)(y) && (u.find)(y) <= y && (u.find)((u.find)(y)) == (u.find)(y));
            assert(((u.find)(y) as u32) as i64 == (u.find)(y));
        }
    }
}

proof fn lemma_drop_len(ws: Seq<WriteView>, f: int, n: nat)
    requires
        forall|i: int|
            0 <= i < ws.len() ==> ((#[trigger] ws[i]) matches WriteView::Drop(g, key) ==> (g == f
                ==> key.len() == n)),
    ensures
        drop_len(ws, f) matches Some(m) ==> m == n,
        drop_len(ws, f) is None ==> forall|i: int|
            0 <= i < ws.len() ==> !((#[trigger] ws[i]) matches WriteView::Drop(g, key) && g == f),
    decreases ws.len(),
{
    if ws.len() > 0 {
        let less = ws.drop_last();
        assert forall|i: int| 0 <= i < less.len() implies ((#[trigger] less[i]) matches WriteView::Drop(
            g,
            key,
        ) ==> (g == f ==> key.len() == n)) by {
            assert(ws[i] == less[i]);
        }
        lemma_drop_len(less, f, n);
        let last = ws.len() - 1;
        assert(ws[last] == ws.last());
        if drop_len(ws, f) is None {
            assert forall|i: int| 0 <= i < ws.len() implies !((#[trigger] ws[i]) matches WriteView::Drop(
                g,
                key,
            ) && g == f) by {
                if i < last {
                    assert(less[i] == ws[i]);
                }
            }
        }
    }
}

/// Rows that are replaced go, and others come, and no other row comes.
proof fn lemma_settled(
    s: EgState,
    ws: Seq<WriteView>,
    f: u32,
    old_rows: Seq<Seq<u32>>,
    new_rows: Seq<Seq<u32>>,
    r: Seq<u32>,
)
    requires
        f < s.tables.len(),
        rows_fit(s.tables[f as int].rows, s.tables[f as int].info.arity),
        forall|i: int|
            0 <= i < old_rows.len() ==> (#[trigger] old_rows[i]).len()
                == s.tables[f as int].info.arity,
        replaces(ws, f, old_rows, new_rows),
        settled(s, ws).tables[f as int].rows.contains(r),
    ensures
        new_rows.contains(r) || (s.tables[f as int].rows.contains(r) && !old_rows.contains(r)),
{
    let t = s.tables[f as int];
    let kept = after_drops(t.rows, ws, f as int);
    let puts = puts_of(ws, f as int);
    assert(kept.contains(r) || puts.contains(r));
    if puts.contains(r) {
        crate::feldera::settle::lemma_puts_of(ws, f as int, r);
        let i = choose|i: int|
            0 <= i < ws.len() && ((#[trigger] ws[i]) matches WriteView::Put(g, x) && g == f as int
                && x == r);
        let j = i / 2;
        assert(0 <= j < old_rows.len());
        assert(ws[2 * j] == WriteView::Drop(f, old_rows[j]) && ws[2 * j + 1] == WriteView::Put(
            f,
            new_rows[j],
        ));
        assert(i == 2 * j || i == 2 * j + 1);
        assert(new_rows[j] == r);
    } else if old_rows.contains(r) {
        let j = choose|j: int| 0 <= j < old_rows.len() && old_rows[j] == r;
        assert forall|i: int| 0 <= i < ws.len() implies ((#[trigger] ws[i]) matches WriteView::Drop(
            g,
            key,
        ) ==> (g == f as int ==> key.len() == t.info.arity)) by {
            let m = i / 2;
            assert(ws[2 * m] == WriteView::Drop(f, old_rows[m]) && ws[2 * m + 1] == WriteView::Put(
                f,
                new_rows[m],
            ));
            assert(i == 2 * m || i == 2 * m + 1);
        }
        lemma_drop_len(ws, f as int, t.info.arity);
        assert(ws[2 * j] == WriteView::Drop(f, old_rows[j]));
        assert(drop_len(ws, f as int) == Some(t.info.arity));
        assert(r.take(t.info.arity as int) =~= r);
        assert(is_dropped(ws, f as int, r));
    }
}

/// A canonical row is not stale.
proof fn lemma_not_stale(
    s: EgState,
    rule: RuleIr,
    p: RebuildView,
    slots: Seq<Slot>,
    k: int,
    row: Seq<u32>,
    new: Seq<u32>,
)
    requires
        s.wf(),
        writes_back(s, rule, p, slots, k),
        rebuild_plan_of(s, rule) == Ok::<_, crate::feldera::rebuild::RebuildError>(p),
        slots.len() <= usize::MAX,
        row.len() == slots.len(),
        is_canonical_row(s, rule.head@, slots, k, row, new),
    ensures
        !is_stale(s, p.col_uf, new),
{
    let head = rule.head@;
    stale_rows_hold_an_id_that_is_no_leader(s, rule, p, new);
    assert forall|i: int, v: u32, uf: usize, c: usize|
        #![trigger canonicalizes(s, head, i, v, uf), p.var_col.contains((v, c))]
        canonicalizes(s, head, i, v, uf) && p.var_col.contains((v, c)) implies s.find(
        uf as int,
        new[c as int],
    ) == new[c as int] by {
        assert(i < k) by {
            if i == k {
                assert(head[k] is Remove);
            } else if i == k + 1 {
                assert(head[k + 1] is SetRow);
            }
        }
        assert(p.var_col == first_cols(slots));
        lemma_first_cols(slots, v, c);
        assert(subject_of(head, i) == slots[c as int]);
        assert(new[c as int] == s.find(union_find_of(s, head, i) as int, row[c as int]));
        lemma_find_twice(s, uf as int, row[c as int]);
    }
}

/// After a rebuild no row of the view holds, in a column that the head canonicalizes, an id other than
/// its leader. The rule writes the rows of its view back; it was run on the rows that a rebuild finds,
/// where each stale row holds a waiting id; and its writes were applied.
pub proof fn rebuilds_leave_no_stale_row<F: Fn(ExternalFunctionId, &Vec<u32>) -> Option<u32>>(
    prim: F,
    s: EgState,
    rule: RuleIr,
    p: RebuildView,
    slots: Seq<Slot>,
    k: int,
    envs: Seq<Map<u32, u32>>,
    out: JobRun,
    r: Seq<u32>,
)
    requires
        s.wf(),
        rebuild_plan_of(s, rule) == Ok::<_, crate::feldera::rebuild::RebuildError>(p),
        crate::feldera::rebuild::plan_fits(s, p),
        writes_back(s, rule, p, slots, k),
        slots.len() == s.tables[p.view_func.rep as int].info.arity,
        s.tables[p.view_func.rep as int].uf is None,
        stale_rows_wait(s, p),
        are_envs_of(p, rebuild_rows(s, p, s.tables[p.view_func.rep as int].rows), envs),
        leads(
            job_step(prim),
            JobRun { eg: s, writes: Seq::empty(), err: None },
            jobs_of(rule.head@, envs),
            out,
        ),
        settled(s, out.writes).tables[p.view_func.rep as int].rows.contains(r),
    ensures
        out.err is None,
        out.eg == s,
        !is_stale(s, p.col_uf, r),
        forall|i: int, v: u32, uf: usize, c: usize|
            #![trigger canonicalizes(s, rule.head@, i, v, uf), first_in_column(slots, v, c as int)]
            canonicalizes(s, rule.head@, i, v, uf) && first_in_column(slots, v, c as int) ==> s.find(
                uf as int,
                r[c as int],
            ) == r[c as int],
{
    let f = p.view_func.rep;
    let t = s.tables[f as int];
    let head = rule.head@;
    assert(table_ok(t));
    assert(slots.len() <= usize::MAX) by {
        lemma_first_atom(rule.body@, p.view_func);
        let j = choose|j: int|
            0 <= j < rule.body@.len() && ((#[trigger] rule.body@[j]) matches BodyOp::Atom(a)
                && a.func == p.view_func && a.slots@ == slots) && forall|i: int|
                0 <= i < j ==> !((#[trigger] rule.body@[i]) matches BodyOp::Atom(x) && x.func
                    == p.view_func);
        if let BodyOp::Atom(a) = rule.body@[j] {
            assert(a.slots@.len() == a.slots.len());
        }
    }
    waiting_ids_find_every_stale_row(s, p, t.rows);
    let found = rebuild_rows(s, p, t.rows);
    let list = choose|list: Seq<Seq<u32>>|
        list.no_duplicates() && list.to_set() == found && envs == #[trigger] row_envs(p, list);
    assert forall|i: int| 0 <= i < list.len() implies (#[trigger] list[i]).len() == slots.len() by {
        assert(list.to_set().contains(list[i]));
        assert(t.rows.contains(list[i]));
    }
    let states = choose|states: Seq<JobRun>| #[trigger]
        chain(job_step(prim), jobs_of(head, envs), states) && states[0] == (JobRun {
            eg: s,
            writes: Seq::empty(),
            err: None,
        }) && states.last() == out;
    let n = list.len() as int;
    let new = lemma_jobs(prim, s, rule, p, slots, k, list, states, n);
    assert(jobs_of(head, envs).len() == n);
    assert(states.last() == states[n]);
    assert(list.take(n) =~= list);
    lemma_settled(s, out.writes, f, list, new, r);
    if new.contains(r) {
        let i = choose|i: int| 0 <= i < new.len() && new[i] == r;
        lemma_not_stale(s, rule, p, slots, k, list[i], new[i]);
    } else if is_stale(s, p.col_uf, r) {
        assert(found.contains(r));
        assert(list.to_set().contains(r));
    }
    stale_rows_hold_an_id_that_is_no_leader(s, rule, p, r);
    assert forall|i: int, v: u32, uf: usize, c: usize|
        #![trigger canonicalizes(s, head, i, v, uf), first_in_column(slots, v, c as int)]
        canonicalizes(s, head, i, v, uf) && first_in_column(slots, v, c as int) implies s.find(
        uf as int,
        r[c as int],
    ) == r[c as int] by {
        lemma_first_cols(slots, v, c);
        assert(p.var_col.contains((v, c)));
    }
}

} // verus!
