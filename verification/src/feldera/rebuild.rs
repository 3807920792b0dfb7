//! Rebuild rules on the host: which rows of a view are no longer canonical.
//!
//! A rebuild rule writes a view's rows back with some columns replaced by their
//! leaders. Instead of joining the view with the union-find, the rows are found
//! from the ids that lost their leader.
use crate::backend::FunctionId;
use crate::collections::{row_views, Env, RowSet};
use crate::feldera::compile::{BodyAtom, BodyOp, HeadOp, Row, RuleIr, Slot};
use crate::feldera::egraph::{drained_all, EGraph, EgState};
use crate::feldera::expr::lemma_push_contains;
use crate::feldera::table::{holds_in, moved, rows_fit};
use vstd::prelude::*;

verus! {

/// Why a rule is no rebuild rule.
#[derive(Clone, Copy, Debug, PartialEq, Eq, Structural)]
pub enum RebuildError {
    /// The head writes no row.
    NoViewSet,
    /// The body does not read the function that the head writes.
    NoViewAtom,
    /// A canonicalization does not name a variable.
    CanonWithoutVar,
    /// A canonicalization names a variable that is no column of the view.
    CanonNotAColumn,
}

/// A rebuild rule: the view it writes, the columns of the view's variables, and
/// the columns it canonicalizes with the table of the union-find for each.
#[derive(Debug)]
pub struct RebuildPlan {
    pub view_func: FunctionId,
    pub var_col: Vec<(u32, usize)>,
    pub col_uf: Vec<(usize, usize)>,
}

/// A rebuild rule, as a value.
#[verifier::ext_equal]
pub struct RebuildView {
    pub view_func: FunctionId,
    pub var_col: Seq<(u32, usize)>,
    pub col_uf: Seq<(usize, usize)>,
}

impl RebuildPlan {
    pub open spec fn view(&self) -> RebuildView {
        RebuildView {
            view_func: self.view_func,
            var_col: self.var_col@,
            col_uf: self.col_uf@,
        }
    }
}

/// The function of the first row that a head writes.
pub open spec fn first_set(head: Seq<HeadOp>) -> Option<FunctionId>
    decreases head.len(),
{
    if head.len() == 0 {
        None
    } else {
        match first_set(head.drop_last()) {
            Some(f) => Some(f),
            None => match head.last() {
                HeadOp::SetRow { func, slots } => Some(func),
                _ => None,
            },
        }
    }
}

/// The slots of the first atom of a body on function `f`.
pub open spec fn first_atom(body: Seq<BodyOp>, f: FunctionId) -> Option<Seq<Slot>>
    decreases body.len(),
{
    if body.len() == 0 {
        None
    } else {
        match first_atom(body.drop_last(), f) {
            Some(s) => Some(s),
            None => match body.last() {
                BodyOp::Atom(a) => if a.func == f {
                    Some(a.slots@)
                } else {
                    None
                },
                _ => None,
            },
        }
    }
}

/// The column of a variable in a list of columns, if any.
pub open spec fn col_in(var_col: Seq<(u32, usize)>, v: u32) -> Option<usize>
    decreases var_col.len(),
{
    if var_col.len() == 0 {
        None
    } else {
        match col_in(var_col.drop_last(), v) {
            Some(c) => Some(c),
            None => if var_col.last().0 == v {
                Some(var_col.last().1)
            } else {
                None
            },
        }
    }
}

/// The variables of slots with the column of their first occurrence.
pub open spec fn first_cols(slots: Seq<Slot>) -> Seq<(u32, usize)>
    decreases slots.len(),
{
    if slots.len() == 0 {
        Seq::empty()
    } else {
        let before = first_cols(slots.drop_last());
        match slots.last() {
            Slot::Var(v) => if col_in(before, v) is Some {
                before
            } else {
                before.push((v, (slots.len() - 1) as usize))
            },
            Slot::Const(_) => before,
        }
    }
}

/// The columns that a head canonicalizes, with the table of the union-find.
pub open spec fn canon_cols(
    s: EgState,
    var_col: Seq<(u32, usize)>,
    head: Seq<HeadOp>,
) -> Result<Seq<(usize, usize)>, RebuildError>
    decreases head.len(),
{
    if head.len() == 0 {
        Ok(Seq::empty())
    } else {
        match canon_cols(s, var_col, head.drop_last()) {
            Err(e) => Err(e),
            Ok(cols) => match head.last() {
                HeadOp::Call { id, args, ret } => if s.canon.contains_key(id.rep) {
                    if args@.len() > 0 && args@[0] is Var {
                        match col_in(var_col, args@[0]->Var_0) {
                            Some(c) => Ok(cols.push((c, s.canon[id.rep]))),
                            None => Err(RebuildError::CanonNotAColumn),
                        }
                    } else {
                        Err(RebuildError::CanonWithoutVar)
                    }
                } else {
                    Ok(cols)
                },
                _ => Ok(cols),
            },
        }
    }
}

/// What a rebuild rule does, or why it is none.
pub open spec fn rebuild_plan_of(s: EgState, rule: RuleIr) -> Result<RebuildView, RebuildError> {
    match first_set(rule.head@) {
        None => Err(RebuildError::NoViewSet),
        Some(f) => match first_atom(rule.body@, f) {
            None => Err(RebuildError::NoViewAtom),
            Some(slots) => match canon_cols(s, first_cols(slots), rule.head@) {
                Err(e) => Err(e),
                Ok(col_uf) => Ok(
                    RebuildView { view_func: f, var_col: first_cols(slots), col_uf },
                ),
            },
        },
    }
}

proof fn lemma_first_set(head: Seq<HeadOp>, n: int)
    requires
        0 <= n <= head.len(),
        first_set(head.take(n)) is Some,
    ensures
        first_set(head) == first_set(head.take(n)),
    decreases head.len() - n,
{
    if n == head.len() {
        assert(head.take(n) =~= head);
    } else {
        assert(head.take(n + 1).drop_last() =~= head.take(n));
        lemma_first_set(head, n + 1);
    }
}

proof fn lemma_first_atom(body: Seq<BodyOp>, f: FunctionId, n: int)
    requires
        0 <= n <= body.len(),
        first_atom(body.take(n), f) is Some,
    ensures
        first_atom(body, f) == first_atom(body.take(n), f),
    decreases body.len() - n,
{
    if n == body.len() {
        assert(body.take(n) =~= body);
    } else {
        assert(body.take(n + 1).drop_last() =~= body.take(n));
        lemma_first_atom(body, f, n + 1);
    }
}

proof fn lemma_canon_cols(s: EgState, var_col: Seq<(u32, usize)>, head: Seq<HeadOp>, n: int)
    requires
        0 <= n <= head.len(),
        canon_cols(s, var_col, head.take(n)) is Err,
    ensures
        canon_cols(s, var_col, head) == canon_cols(s, var_col, head.take(n)),
    decreases head.len() - n,
{
    if n == head.len() {
        assert(head.take(n) =~= head);
    } else {
        assert(head.take(n + 1).drop_last() =~= head.take(n));
        lemma_canon_cols(s, var_col, head, n + 1);
    }
}

proof fn lemma_col_in_prefix(var_col: Seq<(u32, usize)>, v: u32, n: int)
    requires
        0 <= n <= var_col.len(),
        col_in(var_col.take(n), v) is Some,
    ensures
        col_in(var_col, v) == col_in(var_col.take(n), v),
    decreases var_col.len() - n,
{
    if n == var_col.len() {
        assert(var_col.take(n) =~= var_col);
    } else {
        assert(var_col.take(n + 1).drop_last() =~= var_col.take(n));
        lemma_col_in_prefix(var_col, v, n + 1);
    }
}

/// The column of a variable in a list of columns.
fn find_col(var_col: &Vec<(u32, usize)>, v: u32) -> (c: Option<usize>)
    ensures
        c == col_in(var_col@, v),
{
    assert(var_col@.take(0) =~= Seq::empty());
    for i in 0..var_col.len()
        invariant
            col_in(var_col@.take(i as int), v) is None,
    {
        assert(var_col@.take(i + 1).drop_last() =~= var_col@.take(i as int));
        assert(var_col@.take(i + 1).last() == var_col@[i as int]);
        if var_col[i].0 == v {
            proof {
                lemma_col_in_prefix(var_col@, v, i + 1);
            }
            return Some(var_col[i].1);
        }
    }
    assert(var_col@.take(var_col@.len() as int) =~= var_col@);
    None
}

/// The function of the first row that a head writes.
fn find_first_set(head: &Vec<HeadOp>) -> (f: Option<FunctionId>)
    ensures
        f == first_set(head@),
{
    assert(head@.take(0) =~= Seq::empty());
    for i in 0..head.len()
        invariant
            first_set(head@.take(i as int)) is None,
    {
        assert(head@.take(i + 1).drop_last() =~= head@.take(i as int));
        assert(head@.take(i + 1).last() == head@[i as int]);
        if let HeadOp::SetRow { func, slots: _ } = &head[i] {
            proof {
                lemma_first_set(head@, i + 1);
            }
            return Some(*func);
        }
    }
    assert(head@.take(head@.len() as int) =~= head@);
    None
}

/// The first atom of a body on function `f`.
fn find_first_atom(body: &Vec<BodyOp>, f: FunctionId) -> (a: Option<&BodyAtom>)
    ensures
        match first_atom(body@, f) {
            Some(slots) => a matches Some(x) && x.slots@ == slots,
            None => a is None,
        },
{
    assert(body@.take(0) =~= Seq::empty());
    for i in 0..body.len()
        invariant
            first_atom(body@.take(i as int), f) is None,
    {
        assert(body@.take(i + 1).drop_last() =~= body@.take(i as int));
        assert(body@.take(i + 1).last() == body@[i as int]);
        if let BodyOp::Atom(a) = &body[i] {
            if a.func == f {
                proof {
                    lemma_first_atom(body@, f, i + 1);
                }
                return Some(a);
            }
        }
    }
    assert(body@.take(body@.len() as int) =~= body@);
    None
}

/// Recognizes a rebuild rule.
pub fn rebuild_rule_plan(eg: &EGraph, rule: &RuleIr) -> (r: Result<RebuildPlan, RebuildError>)
    ensures
        match rebuild_plan_of(eg@, *rule) {
            Ok(p) => r matches Ok(plan) && plan.view() == p,
            Err(e) => r == Err::<RebuildPlan, RebuildError>(e),
        },
{
    let view_func = match find_first_set(&rule.head) {
        Some(f) => f,
        None => {
            return Err(RebuildError::NoViewSet);
        },
    };
    let atom = match find_first_atom(&rule.body, view_func) {
        Some(a) => a,
        None => {
            return Err(RebuildError::NoViewAtom);
        },
    };
    let slots = &atom.slots;
    let mut var_col: Vec<(u32, usize)> = Vec::new();
    assert(slots@.take(0) =~= Seq::empty());
    for i in 0..slots.len()
        invariant
            var_col@ == first_cols(slots@.take(i as int)),
    {
        assert(slots@.take(i + 1).drop_last() =~= slots@.take(i as int));
        assert(slots@.take(i + 1).last() == slots@[i as int]);
        if let Slot::Var(v) = slots[i] {
            if find_col(&var_col, v).is_none() {
                var_col.push((v, i));
            }
        }
    }
    assert(slots@.take(slots@.len() as int) =~= slots@);
    let ghost vc = first_cols(slots@);
    let ghost head = rule.head@;
    let mut col_uf: Vec<(usize, usize)> = Vec::new();
    assert(head.take(0) =~= Seq::empty());
    for i in 0..rule.head.len()
        invariant
            head == rule.head@,
            var_col@ == vc,
            first_set(head) == Some(view_func),
            first_atom(rule.body@, view_func) == Some(slots@),
            vc == first_cols(slots@),
            canon_cols(eg@, vc, head.take(i as int)) == Ok::<Seq<(usize, usize)>, RebuildError>(
                col_uf@,
            ),
    {
        assert(head.take(i + 1).drop_last() =~= head.take(i as int));
        assert(head.take(i + 1).last() == head[i as int]);
        if let HeadOp::Call { id, args, ret: _ } = &rule.head[i] {
            if let Some(uf) = eg.canon_table(*id) {
                if args.len() == 0 {
                    proof {
                        lemma_canon_cols(eg@, vc, head, i + 1);
                    }
                    return Err(RebuildError::CanonWithoutVar);
                }
                match args[0] {
                    Slot::Const(_) => {
                        proof {
                            lemma_canon_cols(eg@, vc, head, i + 1);
                        }
                        return Err(RebuildError::CanonWithoutVar);
                    },
                    Slot::Var(av) => match find_col(&var_col, av) {
                        Some(c) => {
                            col_uf.push((c, uf));
                        },
                        None => {
                            proof {
                                lemma_canon_cols(eg@, vc, head, i + 1);
                            }
                            return Err(RebuildError::CanonNotAColumn);
                        },
                    },
                }
            }
        }
    }
    assert(head.take(rule.head@.len() as int) =~= head);
    Ok(RebuildPlan { view_func, var_col, col_uf })
}

/// Whether a column of a row does not hold its leader.
pub open spec fn is_stale(s: EgState, col_uf: Seq<(usize, usize)>, row: Seq<u32>) -> bool {
    exists|i: int|
        0 <= i < col_uf.len() && s.find((#[trigger] col_uf[i]).1 as int, row[col_uf[i].0 as int])
            != row[col_uf[i].0 as int]
}

/// The values that a row gives the view's variables.
pub open spec fn row_env(var_col: Seq<(u32, usize)>, row: Seq<u32>) -> Map<u32, u32>
    decreases var_col.len(),
{
    if var_col.len() == 0 {
        Map::empty()
    } else {
        row_env(var_col.drop_last(), row).insert(
            var_col.last().0,
            row[var_col.last().1 as int],
        )
    }
}

/// Whether the columns of a plan are columns of rows of `n` values.
pub open spec fn cols_within(p: RebuildView, n: nat) -> bool {
    &&& forall|i: int| 0 <= i < p.var_col.len() ==> (#[trigger] p.var_col[i]).1 < n
    &&& forall|i: int| 0 <= i < p.col_uf.len() ==> (#[trigger] p.col_uf[i]).0 < n
}

/// The bindings of a view row that is not canonical; none for one that is.
pub fn rebuild_env_for_row(eg: &EGraph, row: &Row, plan: &RebuildPlan) -> (e: Option<Env>)
    requires
        eg.wf(),
        cols_within(plan.view(), row@.len()),
        forall|i: int|
            0 <= i < plan.col_uf@.len() ==> (#[trigger] plan.col_uf@[i]).1 <= u32::MAX,
    ensures
        e is Some <==> is_stale(eg@, plan.col_uf@, row@),
        e matches Some(env) ==> env@ == row_env(plan.var_col@, row@),
{
    let mut changed = false;
    for i in 0..plan.col_uf.len()
        invariant
            eg.wf(),
            cols_within(plan.view(), row@.len()),
            forall|i: int|
                0 <= i < plan.col_uf@.len() ==> (#[trigger] plan.col_uf@[i]).1 <= u32::MAX,
            changed <==> is_stale(eg@, plan.col_uf@.take(i as int), row@),
    {
        let (c, uf) = plan.col_uf[i];
        let ghost less = plan.col_uf@.take(i as int);
        let ghost upto = plan.col_uf@.take(i + 1);
        assert(plan.view().col_uf[i as int].0 < row@.len());
        let cur: u32 = row[c];
        let l: u32 = eg.native_uf_find(FunctionId::new(uf as u32), cur);
        if l != cur {
            changed = true;
            assert(upto[i as int] == (c, uf));
        }
        proof {
            if is_stale(eg@, less, row@) {
                let k = choose|k: int|
                    0 <= k < less.len() && eg@.find(
                        (#[trigger] less[k]).1 as int,
                        row@[less[k].0 as int],
                    ) != row@[less[k].0 as int];
                assert(upto[k] == less[k]);
            }
            if is_stale(eg@, upto, row@) {
                let k = choose|k: int|
                    0 <= k < upto.len() && eg@.find(
                        (#[trigger] upto[k]).1 as int,
                        row@[upto[k].0 as int],
                    ) != row@[upto[k].0 as int];
                if k < i {
                    assert(less[k] == upto[k]);
                }
            }
        }
    }
    assert(plan.col_uf@.take(plan.col_uf@.len() as int) =~= plan.col_uf@);
    if !changed {
        return None;
    }
    let mut env = Env::new();
    assert(plan.var_col@.take(0) =~= Seq::empty());
    for i in 0..plan.var_col.len()
        invariant
            cols_within(plan.view(), row@.len()),
            env@ == row_env(plan.var_col@.take(i as int), row@),
    {
        assert(plan.var_col@.take(i + 1).drop_last() =~= plan.var_col@.take(i as int));
        assert(plan.var_col@.take(i + 1).last() == plan.var_col@[i as int]);
        let (v, c) = plan.var_col[i];
        assert(plan.view().var_col[i as int].1 < row@.len());
        env.insert(v, row[c]);
    }
    assert(plan.var_col@.take(plan.var_col@.len() as int) =~= plan.var_col@);
    Some(env)
}

/// Whether a new view row differs from its canonical form. A row that is made
/// canonical never does.
pub fn probe_delta_view_row(eg: &EGraph, row: &Row, plan: &RebuildPlan) -> (b: bool)
    requires
        eg.wf(),
        cols_within(plan.view(), row@.len()),
        forall|i: int|
            0 <= i < plan.col_uf@.len() ==> (#[trigger] plan.col_uf@[i]).1 <= u32::MAX,
    ensures
        b == is_stale(eg@, plan.col_uf@, row@),
{
    rebuild_env_for_row(eg, row, plan).is_some()
}

/// Whether a row holds, in a view column, an id that waits for a rebuild in one of
/// the union-finds of a plan.
pub open spec fn touches_displaced(
    s: EgState,
    p: RebuildView,
    cols: Seq<usize>,
    row: Seq<u32>,
) -> bool {
    exists|i: int, d: i64|
        #![trigger p.col_uf[i], s.tables[p.col_uf[i].1 as int].displaced.contains(d)]
        0 <= i < p.col_uf.len() && s.tables[p.col_uf[i].1 as int].displaced.contains(d) && 0 <= d
            <= u32::MAX && holds_in(cols, row, d as u32)
}

/// The rows of a view that a rebuild rule binds: those that are not canonical. In
/// a view that is indexed they are found from the ids that wait for a rebuild.
pub open spec fn rebuild_rows(s: EgState, p: RebuildView, read: Set<Seq<u32>>) -> Set<Seq<u32>> {
    let t = s.tables[p.view_func.rep as int];
    Set::new(
        |r: Seq<u32>|
            read.contains(r) && is_stale(s, p.col_uf, r) && (match t.view_cols {
                Some(cols) => t.rows.contains(r) && touches_displaced(s, p, cols, r),
                None => true,
            }),
    )
}

/// Whether each row of a plan's view that is not canonical holds an id that waits
/// for a rebuild.
pub open spec fn stale_rows_wait(s: EgState, p: RebuildView) -> bool {
    let t = s.tables[p.view_func.rep as int];
    forall|r: Seq<u32>| #[trigger]
        t.rows.contains(r) && is_stale(s, p.col_uf, r) ==> touches_displaced(
            s,
            p,
            t.view_cols->0,
            r,
        )
}

/// Looking only at the rows that hold a waiting id finds the same rows as looking
/// at all of them, as long as each row that is not canonical holds such an id.
pub proof fn waiting_ids_find_every_stale_row(s: EgState, p: RebuildView, read: Set<Seq<u32>>)
    requires
        plan_fits(s, p),
        stale_rows_wait(s, p),
        read.subset_of(s.tables[p.view_func.rep as int].rows),
    ensures
        rebuild_rows(s, p, read) == read.filter(|r: Seq<u32>| is_stale(s, p.col_uf, r)),
{
    let t = s.tables[p.view_func.rep as int];
    assert forall|r: Seq<u32>| read.contains(r) implies t.rows.contains(r) by {}
    assert(rebuild_rows(s, p, read) =~= read.filter(|r: Seq<u32>| is_stale(s, p.col_uf, r)));
}

/// Applying the queued unions keeps it so that each row that is not canonical
/// holds a waiting id: a row becomes stale only when an id in it loses its leader.
pub proof fn draining_keeps_stale_rows_waiting(s: EgState, p: RebuildView)
    requires
        s.native_uf,
        plan_fits(s, p),
        rows_fit(
            s.tables[p.view_func.rep as int].rows,
            s.tables[p.view_func.rep as int].info.arity,
        ),
        s.tables[p.view_func.rep as int].view_cols matches Some(cols) && forall|i: int|
            0 <= i < p.col_uf.len() ==> cols.contains((#[trigger] p.col_uf[i]).0),
        stale_rows_wait(s, p),
    ensures
        stale_rows_wait(EgState { tables: drained_all(s), ..s }, p),
{
    let after = EgState { tables: drained_all(s), ..s };
    let f = p.view_func.rep as int;
    let t = s.tables[f];
    let cols = t.view_cols->0;
    assert forall|r: Seq<u32>| #[trigger]
        after.tables[f].rows.contains(r) && is_stale(
            after,
            p.col_uf,
            r,
        ) implies touches_displaced(after, p, cols, r) by {
        assert(t.rows.contains(r));
        if is_stale(s, p.col_uf, r) {
            assert(touches_displaced(s, p, cols, r));
            let (i, d) = choose|i: int, d: i64|
                #![trigger p.col_uf[i], s.tables[p.col_uf[i].1 as int].displaced.contains(d)]
                0 <= i < p.col_uf.len() && s.tables[p.col_uf[i].1 as int].displaced.contains(d)
                    && 0 <= d <= u32::MAX && holds_in(cols, r, d as u32);
            assert(p.col_uf[i].1 < s.tables.len());
            assert(after.tables[p.col_uf[i].1 as int].displaced.contains(d));
        } else {
            let i = choose|i: int|
                0 <= i < p.col_uf.len() && after.find(
                    (#[trigger] p.col_uf[i]).1 as int,
                    r[p.col_uf[i].0 as int],
                ) != r[p.col_uf[i].0 as int];
            let (c, uf) = p.col_uf[i];
            let x = r[c as int];
            assert(uf < s.tables.len());
            assert(s.find(uf as int, x) == x);
            assert(moved(s.tables[uf as int].uf).contains(x as i64));
            let d = x as i64;
            assert(after.tables[uf as int].displaced.contains(d));
            let k = choose|k: int| 0 <= k < cols.len() && cols[k] == c;
            assert(cols.contains(c));
            assert(cols[k] < r.len());
            assert(d as u32 == x);
            assert(holds_in(cols, r, d as u32));
        }
    }
}

/// The bindings of a list of rows.
pub open spec fn row_envs(p: RebuildView, rows: Seq<Seq<u32>>) -> Seq<Map<u32, u32>> {
    rows.map_values(|r: Seq<u32>| row_env(p.var_col, r))
}

/// Bindings, as values.
pub open spec fn env_views(envs: Seq<Env>) -> Seq<Map<u32, u32>> {
    envs.map_values(|e: Env| e@)
}

/// Whether bindings are those of a set of rows, each row once.
pub open spec fn are_envs_of(p: RebuildView, rows: Set<Seq<u32>>, envs: Seq<Map<u32, u32>>) -> bool {
    exists|list: Seq<Seq<u32>>|
        list.no_duplicates() && list.to_set() == rows && envs == #[trigger] row_envs(p, list)
}

/// Whether a plan fits the e-graph.
pub open spec fn plan_fits(s: EgState, p: RebuildView) -> bool {
    &&& p.view_func.rep < s.tables.len()
    &&& cols_within(p, s.tables[p.view_func.rep as int].info.arity)
    &&& forall|i: int| 0 <= i < p.col_uf.len() ==> (#[trigger] p.col_uf[i]).1 < s.tables.len()
}

/// The bindings that a rebuild rule gets, one for each row of the view that it
/// has to write again. `read` holds the view's rows when the round began.
pub fn native_uf_rebuild_envs(eg: &EGraph, read: &RowSet, plan: &RebuildPlan) -> (envs: Vec<Env>)
    requires
        eg.wf(),
        plan_fits(eg@, plan.view()),
        forall|r: Seq<u32>| #[trigger]
            read@.contains(r) ==> r.len() == eg@.tables[plan.view_func.rep as int].info.arity,
    ensures
        are_envs_of(plan.view(), rebuild_rows(eg@, plan.view(), read@), env_views(envs@)),
{
    let f: usize = plan.view_func.rep as usize;
    let ghost p = plan.view();
    let ghost s = eg@;
    let ghost want = rebuild_rows(s, p, read@);
    proof {
        eg.lemma_wf();
        assert(forall|i: int|
            0 <= i < plan.col_uf@.len() ==> (#[trigger] plan.col_uf@[i]).1 <= u32::MAX) by {
            assert forall|i: int| 0 <= i < plan.col_uf@.len() implies (
            #[trigger] plan.col_uf@[i]).1 <= u32::MAX by {
                assert(p.col_uf[i].1 < s.tables.len());
            }
        }
    }
    let t = eg.table(f);
    let mut envs: Vec<Env> = Vec::new();
    let ghost mut list: Seq<Seq<u32>> = Seq::empty();
    if t.is_view() {
        let mut seen = RowSet::new();
        let ghost cols = s.tables[f as int].view_cols->0;
        for i in 0..plan.col_uf.len()
            invariant
                p == plan.view(),
                s == eg@,
                eg.wf(),
                s.wf(),
                plan_fits(s, p),
                f == plan.view_func.rep,
                t.wf(),
                t.state() == s.tables[f as int],
                t.state().view_cols == Some(cols),
                want == rebuild_rows(s, p, read@),
                forall|r: Seq<u32>| #[trigger]
                    read@.contains(r) ==> r.len() == s.tables[f as int].info.arity,
                forall|i: int|
                    0 <= i < plan.col_uf@.len() ==> (#[trigger] plan.col_uf@[i]).1 <= u32::MAX,
                env_views(envs@) == row_envs(p, list),
                list.no_duplicates(),
                forall|r: Seq<u32>| #[trigger]
                    list.contains(r) <==> seen@.contains(r) && is_stale(s, p.col_uf, r),
                forall|r: Seq<u32>| #[trigger]
                    seen@.contains(r) <==> read@.contains(r) && t.state().rows.contains(r)
                        && seen_upto(s, p, cols, r, i as int),
        {
            let (c, uf) = plan.col_uf[i];
            assert(p.col_uf[i as int] == (c, uf));
            let ids = eg.table(uf).displaced();
            let ghost dis = s.tables[uf as int].displaced;
            let ghost seen_i = seen@;
            for j in 0..ids.len()
                invariant
                    p == plan.view(),
                    s == eg@,
                    eg.wf(),
                    s.wf(),
                    plan_fits(s, p),
                    f == plan.view_func.rep,
                    t.wf(),
                    t.state() == s.tables[f as int],
                    t.state().view_cols == Some(cols),
                    forall|r: Seq<u32>| #[trigger]
                        read@.contains(r) ==> r.len() == s.tables[f as int].info.arity,
                    forall|i: int|
                        0 <= i < plan.col_uf@.len() ==> (#[trigger] plan.col_uf@[i]).1 <= u32::MAX,
                    ids@.to_set() == dis,
                    env_views(envs@) == row_envs(p, list),
                    list.no_duplicates(),
                    forall|r: Seq<u32>| #[trigger]
                        list.contains(r) <==> seen@.contains(r) && is_stale(s, p.col_uf, r),
                    forall|r: Seq<u32>| #[trigger]
                        seen@.contains(r) <==> seen_i.contains(r) || (read@.contains(r)
                            && t.state().rows.contains(r) && holds_some(cols, r, ids@, j as int)),
            {
                let d: i64 = ids[j];
                let ghost seen_j = seen@;
                if d >= 0 && d <= u32::MAX as i64 {
                    let rows = t.rows_holding(d as u32);
                    let ghost rv = row_views(rows@);
                    for k in 0..rows.len()
                        invariant
                            p == plan.view(),
                            s == eg@,
                            eg.wf(),
                            plan_fits(s, p),
                            f == plan.view_func.rep,
                            rv == row_views(rows@),
                            forall|r: Seq<u32>| #[trigger]
                                read@.contains(r) ==> r.len() == s.tables[f as int].info.arity,
                            forall|i: int|
                                0 <= i < plan.col_uf@.len() ==> (#[trigger] plan.col_uf@[i]).1
                                    <= u32::MAX,
                            env_views(envs@) == row_envs(p, list),
                            list.no_duplicates(),
                            forall|r: Seq<u32>| #[trigger]
                                list.contains(r) <==> seen@.contains(r) && is_stale(
                                    s,
                                    p.col_uf,
                                    r,
                                ),
                            forall|r: Seq<u32>| #[trigger]
                                seen@.contains(r) <==> seen_j.contains(r) || (read@.contains(r)
                                    && rv.take(k as int).contains(r)),
                    {
                        let row = &rows[k];
                        let ghost before = seen@;
                        let ghost list0 = list;
                        assert(rv[k as int] == row@);
                        assert(rv.take(k + 1) =~= rv.take(k as int).push(row@));
                        proof {
                            lemma_push_contains(rv.take(k as int), row@);
                        }
                        if read.contains(row) {
                            if !seen.contains(row) {
                                assert(!list0.contains(row@));
                                seen.insert(clone_row(row));
                                assert(read@.contains(row@));
                                match rebuild_env_for_row(eg, row, plan) {
                                    Some(env) => {
                                        let ghost envs0 = envs@;
                                        envs.push(env);
                                        proof {
                                            list = list0.push(row@);
                                            lemma_push_contains(list0, row@);
                                            assert(env_views(envs@) =~= env_views(envs0).push(
                                                env@,
                                            ));
                                            assert(row_envs(p, list) =~= row_envs(p, list0).push(
                                                row_env(p.var_col, row@),
                                            ));
                                        }
                                    },
                                    None => {},
                                }
                            }
                        }
                    }
                    proof {
                        assert(rv.take(rows@.len() as int) =~= rv);
                    }
                }
                proof {
                    assert forall|r: Seq<u32>| #[trigger] seen@.contains(r) <==> seen_i.contains(r)
                        || (read@.contains(r) && t.state().rows.contains(r) && holds_some(
                        cols,
                        r,
                        ids@,
                        j + 1,
                    )) by {
                        assert(seen_j.contains(r) <==> seen_i.contains(r) || (read@.contains(r)
                            && t.state().rows.contains(r) && holds_some(cols, r, ids@, j as int)));
                        lemma_holds_some_step(cols, r, ids@, j as int);
                    }
                }
            }
            proof {
                assert forall|r: Seq<u32>| #[trigger] seen@.contains(r) <==> read@.contains(r)
                    && t.state().rows.contains(r) && seen_upto(s, p, cols, r, i + 1) by {
                    lemma_seen_upto_step(s, p, cols, r, i as int, ids@);
                    assert(seen_i.contains(r) <==> read@.contains(r) && t.state().rows.contains(r)
                        && seen_upto(s, p, cols, r, i as int));
                }
            }
        }
        proof {
            assert forall|r: Seq<u32>| list.to_set().contains(r) <==> want.contains(r) by {
                assert(list.contains(r) <==> seen@.contains(r) && is_stale(s, p.col_uf, r));
                lemma_seen_upto_all(s, p, cols, r);
            }
            assert(list.to_set() =~= want);
        }
    } else {
        let rows = read.rows();
        let ghost rv = row_views(rows@);
        for k in 0..rows.len()
            invariant
                p == plan.view(),
                s == eg@,
                eg.wf(),
                plan_fits(s, p),
                f == plan.view_func.rep,
                rv == row_views(rows@),
                rv.no_duplicates(),
                rv.to_set() == read@,
                forall|r: Seq<u32>| #[trigger]
                    read@.contains(r) ==> r.len() == s.tables[f as int].info.arity,
                forall|i: int|
                    0 <= i < plan.col_uf@.len() ==> (#[trigger] plan.col_uf@[i]).1 <= u32::MAX,
                env_views(envs@) == row_envs(p, list),
                list.no_duplicates(),
                forall|r: Seq<u32>| #[trigger]
                    list.contains(r) <==> rv.take(k as int).contains(r) && is_stale(
                        s,
                        p.col_uf,
                        r,
                    ),
        {
            let row = &rows[k];
            let ghost list0 = list;
            assert(rv[k as int] == row@);
            assert(rv.to_set().contains(rv[k as int]));
            assert(rv.take(k + 1) =~= rv.take(k as int).push(row@));
            proof {
                lemma_push_contains(rv.take(k as int), row@);
                assert(!rv.take(k as int).contains(row@)) by {
                    if rv.take(k as int).contains(row@) {
                        let q = choose|q: int|
                            0 <= q < rv.take(k as int).len() && rv.take(k as int)[q] == row@;
                        assert(rv[q] == rv[k as int]);
                    }
                }
            }
            assert(!list0.contains(row@));
            match rebuild_env_for_row(eg, row, plan) {
                Some(env) => {
                    let ghost envs0 = envs@;
                    envs.push(env);
                    proof {
                        list = list0.push(row@);
                        lemma_push_contains(list0, row@);
                        assert(env_views(envs@) =~= env_views(envs0).push(env@));
                        assert(row_envs(p, list) =~= row_envs(p, list0).push(
                            row_env(p.var_col, row@),
                        ));
                    }
                },
                None => {},
            }
        }
        proof {
            assert(rv.take(rows@.len() as int) =~= rv);
            assert forall|r: Seq<u32>| list.to_set().contains(r) <==> want.contains(r) by {
                assert(list.contains(r) <==> rv.contains(r) && is_stale(s, p.col_uf, r));
                assert(rv.to_set().contains(r) <==> rv.contains(r));
            }
            assert(list.to_set() =~= want);
        }
    }
    proof {
        assert(are_envs_of(p, want, env_views(envs@))) by {
            assert(env_views(envs@) == row_envs(p, list));
        }
    }
    envs
}

/// A copy of a row.
pub fn clone_row(row: &Row) -> (r: Row)
    ensures
        r@ == row@,
{
    let r = crate::feldera::table::clone_prefix(row, row.len());
    assert(row@.take(row@.len() as int) =~= row@);
    r
}

/// Whether a row holds one of the first `n` ids.
spec fn holds_some(cols: Seq<usize>, r: Seq<u32>, ids: Seq<i64>, n: int) -> bool {
    exists|j: int|
        0 <= j < n && 0 <= (#[trigger] ids[j]) <= u32::MAX && holds_in(cols, r, ids[j] as u32)
}

proof fn lemma_holds_some_step(cols: Seq<usize>, r: Seq<u32>, ids: Seq<i64>, n: int)
    requires
        0 <= n < ids.len(),
    ensures
        holds_some(cols, r, ids, n + 1) <==> holds_some(cols, r, ids, n) || (0 <= ids[n]
            <= u32::MAX && holds_in(cols, r, ids[n] as u32)),
{
    if holds_some(cols, r, ids, n) {
        let j = choose|j: int|
            0 <= j < n && 0 <= (#[trigger] ids[j]) <= u32::MAX && holds_in(
                cols,
                r,
                ids[j] as u32,
            );
        assert(0 <= ids[j] <= u32::MAX);
    }
    if holds_some(cols, r, ids, n + 1) {
        let j = choose|j: int|
            0 <= j < n + 1 && 0 <= (#[trigger] ids[j]) <= u32::MAX && holds_in(
                cols,
                r,
                ids[j] as u32,
            );
        if j < n {
            assert(0 <= ids[j] <= u32::MAX);
        }
    }
}

/// Whether a row holds an id that waits in one of the first `n` union-finds.
spec fn seen_upto(s: EgState, p: RebuildView, cols: Seq<usize>, r: Seq<u32>, n: int) -> bool {
    exists|i: int, d: i64|
        #![trigger p.col_uf[i], s.tables[p.col_uf[i].1 as int].displaced.contains(d)]
        0 <= i < n && s.tables[p.col_uf[i].1 as int].displaced.contains(d) && 0 <= d <= u32::MAX
            && holds_in(cols, r, d as u32)
}

proof fn lemma_seen_upto_all(s: EgState, p: RebuildView, cols: Seq<usize>, r: Seq<u32>)
    ensures
        seen_upto(s, p, cols, r, p.col_uf.len() as int) <==> touches_displaced(s, p, cols, r),
{
}

proof fn lemma_seen_upto_step(
    s: EgState,
    p: RebuildView,
    cols: Seq<usize>,
    r: Seq<u32>,
    n: int,
    ids: Seq<i64>,
)
    requires
        0 <= n < p.col_uf.len(),
        ids.to_set() == s.tables[p.col_uf[n].1 as int].displaced,
    ensures
        seen_upto(s, p, cols, r, n + 1) <==> seen_upto(s, p, cols, r, n) || holds_some(
            cols,
            r,
            ids,
            ids.len() as int,
        ),
{
    let dis = s.tables[p.col_uf[n].1 as int].displaced;
    if holds_some(cols, r, ids, ids.len() as int) {
        let j = choose|j: int|
            0 <= j < ids.len() && 0 <= (#[trigger] ids[j]) <= u32::MAX && holds_in(
                cols,
                r,
                ids[j] as u32,
            );
        assert(ids.to_set().contains(ids[j]));
        assert(s.tables[p.col_uf[n].1 as int].displaced.contains(ids[j]));
        assert(seen_upto(s, p, cols, r, n + 1));
    }
    if seen_upto(s, p, cols, r, n) {
        let (i, d) = choose|i: int, d: i64|
            #![trigger p.col_uf[i], s.tables[p.col_uf[i].1 as int].displaced.contains(d)]
            0 <= i < n && s.tables[p.col_uf[i].1 as int].displaced.contains(d) && 0 <= d
                <= u32::MAX && holds_in(cols, r, d as u32);
        assert(s.tables[p.col_uf[i].1 as int].displaced.contains(d));
        assert(seen_upto(s, p, cols, r, n + 1));
    }
    if seen_upto(s, p, cols, r, n + 1) {
        let (i, d) = choose|i: int, d: i64|
            #![trigger p.col_uf[i], s.tables[p.col_uf[i].1 as int].displaced.contains(d)]
            0 <= i < n + 1 && s.tables[p.col_uf[i].1 as int].displaced.contains(d) && 0 <= d
                <= u32::MAX && holds_in(cols, r, d as u32);
        if i < n {
            assert(s.tables[p.col_uf[i].1 as int].displaced.contains(d));
            assert(seen_upto(s, p, cols, r, n));
        } else {
            assert(ids.to_set().contains(d));
            let j = choose|j: int| 0 <= j < ids.len() && ids[j] == d;
            assert(0 <= ids[j] <= u32::MAX && holds_in(cols, r, ids[j] as u32));
        }
    }
}

} // verus!
