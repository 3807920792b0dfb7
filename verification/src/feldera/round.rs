//! The calls that make up one round of rules.
use crate::backend::{ExternalFunctionId, FunctionId};
use crate::collections::{row_views, weighted_views, RowSet};
use crate::feldera::compile::{BodyOp, Row, RuleIr};
use crate::feldera::egraph::{
    capped, fed_ok, rows_at, shared_rows, table_ok, EGraph, EgState, FedState, FedView,
};
use crate::feldera::expr::lemma_push_contains;
use crate::feldera::head::{
    failure, frame, lemma_frame_refl, lemma_frame_trans, lemma_head_fits_frame, op_fits,
    table_frame, write_fits, write_views, writes_fit, HeadError, LookupIndex, Write, WriteView,
};
use crate::feldera::interpret::{
    atomless_step, fire_atomless, lemma_leads_more, lemma_leads_none, lemma_leads_stop, leads,
    live_rules, of_kind, rule_fits, rule_kind, rule_views, rules_fit, with_fired, JobRun, RuleKind,
};
use crate::feldera::join::contains_func;
use crate::feldera::plan::{plan_is, plan_join, plan_of, Ineligible, JoinPlan};
use crate::feldera::rebuild::clone_row;
use crate::feldera::table::{rows_fit, TableState};
use crate::text::{contains_str, occurs_in};
use std::rc::Rc;
use vstd::prelude::*;

verus! {

/// A round under way.
#[derive(Debug)]
pub struct Pass {
    /// The rules to join.
    pub atom_rules: Vec<(usize, Rc<RuleIr>)>,
    /// The rules that rebuild views.
    pub rebuild_rules: Vec<(usize, Rc<RuleIr>)>,
    /// The rows of each table when the round began.
    pub read: Vec<Rc<RowSet>>,
    /// The next id when the round began.
    pub start_id: u32,
    pub writes: Vec<Write>,
    pub index: LookupIndex,
    /// For each rule to join, its place among the rules of the circuit.
    pub places: Vec<usize>,
    /// For each rule to join, the variables of its binding row.
    pub var_orders: Vec<Vec<u32>>,
}

impl Pass {
    /// What holds of a round under way in state `s`.
    pub open spec fn wf(&self, s: EgState) -> bool {
        &&& self.index.ok(s)
        &&& writes_fit(s, write_views(self.writes@))
        &&& rules_fit(s, rule_views(self.atom_rules@))
        &&& rules_fit(s, rule_views(self.rebuild_rules@))
        &&& self.read@.len() == s.tables.len()
        &&& forall|f: int|
            0 <= f < self.read@.len() ==> rows_fit(
                (#[trigger] self.read@[f])@,
                s.tables[f].info.arity,
            )
    }
}

/// The rows of every table.
pub open spec fn table_rows(s: EgState) -> Seq<Set<Seq<u32>>> {
    s.tables.map_values(|t: TableState| t.rows)
}

/// A rule that fits keeps fitting once a frame has passed.
pub proof fn lemma_rule_fits_frame(a: EgState, b: EgState, rule: RuleIr)
    requires
        frame(a, b),
        rule_fits(a, rule),
    ensures
        rule_fits(b, rule),
{
    lemma_head_fits_frame(a, b, rule.head@);
    assert forall|i: int| 0 <= i < rule.body@.len() implies match #[trigger] rule.body@[i] {
        BodyOp::Atom(x) => x.func.rep < b.tables.len() && x.slots@.len()
            <= b.tables[x.func.rep as int].info.arity,
        BodyOp::Prim { id, args, ret } => b.canon.contains_key(id.rep) ==> args@.len() > 0,
        BodyOp::Differ(_, _) => true,
    } by {
        if let BodyOp::Atom(x) = rule.body@[i] {
            assert(table_frame(a.tables[x.func.rep as int], b.tables[x.func.rep as int]));
        }
    }
}

/// Rules that fit keep fitting once a frame has passed.
pub proof fn lemma_rules_fit_frame(a: EgState, b: EgState, rules: Seq<(usize, RuleIr)>)
    requires
        frame(a, b),
        rules_fit(a, rules),
    ensures
        rules_fit(b, rules),
{
    assert forall|i: int| 0 <= i < rules.len() implies rule_fits(b, (#[trigger] rules[i]).1) by {
        lemma_rule_fits_frame(a, b, rules[i].1);
    }
}

proof fn lemma_rules_fit_fired(a: EgState, fired: Set<usize>, rules: Seq<(usize, RuleIr)>)
    requires
        rules_fit(a, rules),
    ensures
        rules_fit(with_fired(a, fired), rules),
{
    let b = with_fired(a, fired);
    assert forall|i: int| 0 <= i < rules.len() implies rule_fits(b, (#[trigger] rules[i]).1) by {
        let rule = rules[i].1;
        assert(rule_fits(a, rule));
        assert forall|k: int| 0 <= k < rule.head@.len() implies op_fits(
            b,
            #[trigger] rule.head@[k],
        ) by {
            assert(op_fits(a, rule.head@[k]));
        }
        assert forall|k: int| 0 <= k < rule.body@.len() implies match #[trigger] rule.body@[k] {
            BodyOp::Atom(x) => x.func.rep < b.tables.len() && x.slots@.len()
                <= b.tables[x.func.rep as int].info.arity,
            BodyOp::Prim { id, args, ret } => b.canon.contains_key(id.rep) ==> args@.len() > 0,
        BodyOp::Differ(_, _) => true,
        } by {}
    }
}

proof fn lemma_of_kind_fits(
    s: EgState,
    rules: Seq<(usize, RuleIr)>,
    native_uf: bool,
    kind: RuleKind,
)
    requires
        rules_fit(s, rules),
    ensures
        rules_fit(s, of_kind(rules, native_uf, kind)),
    decreases rules.len(),
{
    if rules.len() > 0 {
        let less = rules.drop_last();
        assert forall|i: int| 0 <= i < less.len() implies rule_fits(s, (#[trigger] less[i]).1) by {
            assert(less[i] == rules[i]);
        }
        lemma_of_kind_fits(s, less, native_uf, kind);
        let before = of_kind(less, native_uf, kind);
        let after = of_kind(rules, native_uf, kind);
        assert(rule_fits(s, rules[rules.len() - 1].1));
        assert forall|i: int| 0 <= i < after.len() implies rule_fits(s, (#[trigger] after[i]).1) by {
            if i < before.len() {
                assert(after[i] == before[i]);
            }
        }
    }
}

impl EGraph {
    /// Begins a round of the rules at the given indices. The rows are recorded as
    /// they are, the rules are sorted out, and those without body atoms that have
    /// not fired yet are fired, up to the first failure.
    pub fn begin_iteration<F: Fn(ExternalFunctionId, &Vec<u32>) -> Option<u32>>(
        &mut self,
        idxs: &Vec<usize>,
        prim: &F,
    ) -> (r: Result<Pass, HeadError>)
        requires
            old(self).wf(),
            rules_fit(old(self)@, live_rules(old(self)@, idxs@)),
            forall|id: ExternalFunctionId, v: Vec<u32>| #[trigger] call_requires(*prim, (id, &v)),
        ensures
            final(self).wf(),
            final(self).runs() == old(self).runs(),
            frame(with_fired(old(self)@, final(self)@.fired), final(self)@),
            r matches Err(e) ==> exists|ws: Seq<WriteView>|
                leads(
                    atomless_step(*prim),
                    JobRun { eg: old(self)@, writes: Seq::empty(), err: None },
                    of_kind(
                        live_rules(old(self)@, idxs@),
                        old(self)@.native_uf,
                        RuleKind::Atomless,
                    ),
                    #[trigger] stopped(final(self)@, ws, e),
                ),
            r matches Ok(pass) ==> {
                let live = live_rules(old(self)@, idxs@);
                &&& pass.wf(final(self)@)
                &&& rule_views(pass.atom_rules@) == of_kind(
                    live,
                    old(self)@.native_uf,
                    RuleKind::Joined,
                )
                &&& rule_views(pass.rebuild_rules@) == of_kind(
                    live,
                    old(self)@.native_uf,
                    RuleKind::Rebuild,
                )
                &&& shared_rows(pass.read@) == table_rows(old(self)@)
                &&& pass.start_id == old(self)@.next_id
                &&& pass.places@.len() == 0
                &&& leads(
                    atomless_step(*prim),
                    JobRun { eg: old(self)@, writes: Seq::empty(), err: None },
                    of_kind(live, old(self)@.native_uf, RuleKind::Atomless),
                    JobRun { eg: final(self)@, writes: write_views(pass.writes@), err: None },
                )
            },
    {
        let ghost s0 = self@;
        let ghost live = live_rules(s0, idxs@);
        let native = self.native_uf_enabled();
        let read = self.snapshot();
        let mut atom_rules: Vec<(usize, Rc<RuleIr>)> = Vec::new();
        let mut rebuild_rules: Vec<(usize, Rc<RuleIr>)> = Vec::new();
        let mut atomless: Vec<(usize, Rc<RuleIr>)> = Vec::new();
        assert(idxs@.take(0) =~= Seq::empty());
        assert(rule_views(atom_rules@) =~= Seq::empty());
        for i in 0..idxs.len()
            invariant
                *self == *old(self),
                s0 == self@,
                native == s0.native_uf,
                rule_views(atom_rules@) =~= of_kind(
                    live_rules(s0, idxs@.take(i as int)),
                    native,
                    RuleKind::Joined,
                ),
                rule_views(rebuild_rules@) =~= of_kind(
                    live_rules(s0, idxs@.take(i as int)),
                    native,
                    RuleKind::Rebuild,
                ),
                rule_views(atomless@) =~= of_kind(
                    live_rules(s0, idxs@.take(i as int)),
                    native,
                    RuleKind::Atomless,
                ),
        {
            let ghost upto = idxs@.take(i + 1);
            let ghost before = live_rules(s0, idxs@.take(i as int));
            assert(upto.drop_last() =~= idxs@.take(i as int));
            assert(upto.last() == idxs@[i as int]);
            let idx: usize = idxs[i];
            match self.rule(idx) {
                None => {},
                Some(rule) => {
                    let ghost more = live_rules(s0, upto);
                    assert(more =~= before.push((idx, *rule)));
                    assert(more.drop_last() =~= before);
                    assert(more.last() == (idx, *rule));
                    match rule_kind(native, &rule) {
                        RuleKind::Idle => {},
                        RuleKind::Rebuild => {
                            rebuild_rules.push((idx, rule));
                        },
                        RuleKind::Joined => {
                            atom_rules.push((idx, rule));
                        },
                        RuleKind::Atomless => {
                            atomless.push((idx, rule));
                        },
                    }
                },
            }
        }
        assert(idxs@.take(idxs@.len() as int) =~= idxs@);
        proof {
            lemma_of_kind_fits(s0, live, native, RuleKind::Joined);
            lemma_of_kind_fits(s0, live, native, RuleKind::Rebuild);
            lemma_of_kind_fits(s0, live, native, RuleKind::Atomless);
        }
        let start_id: u32 = self.next_id();
        let mut writes: Vec<Write> = Vec::new();
        let mut index = LookupIndex::new(self);
        assert(write_views(writes@) =~= Seq::empty());
        let r = fire_all(self, &atomless, &mut writes, &mut index, prim);
        if let Err(e) = r {
            assert(stopped(self@, write_views(writes@), e) == (JobRun {
                eg: self@,
                writes: write_views(writes@),
                err: failure(r),
            }));
            return Err(e);
        }
        let pass = Pass {
            atom_rules,
            rebuild_rules,
            read,
            start_id,
            writes,
            index,
            places: Vec::new(),
            var_orders: Vec::new(),
        };
        proof {
            let s1 = self@;
            let sf = with_fired(s0, s1.fired);
            lemma_rules_fit_fired(s0, s1.fired, rule_views(pass.atom_rules@));
            lemma_rules_fit_frame(sf, s1, rule_views(pass.atom_rules@));
            lemma_rules_fit_fired(s0, s1.fired, rule_views(pass.rebuild_rules@));
            lemma_rules_fit_frame(sf, s1, rule_views(pass.rebuild_rules@));
            assert(pass.read@.len() == shared_rows(pass.read@).len());
            assert(table_rows(s0).len() == s0.tables.len());
            assert forall|f: int| 0 <= f < pass.read@.len() implies rows_fit(
                (#[trigger] pass.read@[f])@,
                s1.tables[f].info.arity,
            ) by {
                assert(shared_rows(pass.read@)[f] == table_rows(s0)[f]);
                assert(table_ok(s0.tables[f]));
                assert(table_frame(sf.tables[f], s1.tables[f]));
            }
        }
        Ok(pass)
    }

    /// The rows of every table as they are.
    fn snapshot(&self) -> (read: Vec<Rc<RowSet>>)
        requires
            self.wf(),
        ensures
            shared_rows(read@) == table_rows(self@),
            self@.wf(),
    {
        proof {
            self.lemma_wf();
        }
        let n: usize = self.table_count();
        let mut read: Vec<Rc<RowSet>> = Vec::with_capacity(n);
        for f in 0..n
            invariant
                self.wf(),
                n == self@.tables.len(),
                shared_rows(read@) =~= table_rows(self@).take(f as int),
        {
            let ghost before = read@;
            read.push(self.table(f).snapshot());
            assert(shared_rows(read@) =~= shared_rows(before).push(self@.tables[f as int].rows));
        }
        assert(table_rows(self@).take(n as int) =~= table_rows(self@));
        read
    }
}

/// Fires rules without body atoms, in order, up to the first failure.
fn fire_all<F: Fn(ExternalFunctionId, &Vec<u32>) -> Option<u32>>(
    eg: &mut EGraph,
    rules: &Vec<(usize, Rc<RuleIr>)>,
    writes: &mut Vec<Write>,
    index: &mut LookupIndex,
    prim: &F,
) -> (r: Result<(), HeadError>)
    requires
        old(eg).wf(),
        old(index).ok(old(eg)@),
        rules_fit(old(eg)@, rule_views(rules@)),
        writes_fit(old(eg)@, write_views(old(writes)@)),
        forall|id: ExternalFunctionId, v: Vec<u32>| #[trigger] call_requires(*prim, (id, &v)),
    ensures
        final(eg).wf(),
        final(eg).runs() == old(eg).runs(),
        final(index).ok(final(eg)@),
        frame(with_fired(old(eg)@, final(eg)@.fired), final(eg)@),
        writes_fit(final(eg)@, write_views(final(writes)@)),
        leads(
            atomless_step(*prim),
            JobRun { eg: old(eg)@, writes: write_views(old(writes)@), err: None },
            rule_views(rules@),
            JobRun { eg: final(eg)@, writes: write_views(final(writes)@), err: failure(r) },
        ),
{
    let ghost s0 = eg@;
    let ghost todo = rule_views(rules@);
    let ghost start = JobRun { eg: s0, writes: write_views(writes@), err: None };
    let ghost step = atomless_step(*prim);
    proof {
        lemma_leads_none(step, start);
        assert(todo.take(0) =~= Seq::<(usize, RuleIr)>::empty());
        lemma_frame_refl(s0);
        assert(with_fired(s0, s0.fired) =~= s0);
    }
    for k in 0..rules.len()
        invariant
            s0 == old(eg)@,
            start == (JobRun { eg: s0, writes: write_views(old(writes)@), err: None }),
            step == atomless_step(*prim),
            todo == rule_views(rules@),
            rules_fit(s0, todo),
            eg.wf(),
            eg.runs() == old(eg).runs(),
            index.ok(eg@),
            writes_fit(eg@, write_views(writes@)),
            frame(with_fired(s0, eg@.fired), eg@),
            forall|id: ExternalFunctionId, v: Vec<u32>| #[trigger] call_requires(*prim, (id, &v)),
            leads(
                step,
                start,
                todo.take(k as int),
                JobRun { eg: eg@, writes: write_views(writes@), err: None },
            ),
    {
        let ghost mid = JobRun { eg: eg@, writes: write_views(writes@), err: None };
        let ghost item = todo[k as int];
        let ghost s1 = eg@;
        proof {
            assert(item == (rules@[k as int].0, *rules@[k as int].1));
            lemma_rules_fit_fired(s0, s1.fired, todo);
            lemma_rules_fit_frame(with_fired(s0, s1.fired), s1, todo);
            assert(rule_fits(s1, todo[k as int].1));
        }
        let r = fire_atomless(eg, rules[k].0, &rules[k].1, writes, index, prim);
        let ghost out = JobRun { eg: eg@, writes: write_views(writes@), err: failure(r) };
        proof {
            assert(step(mid, item, out));
            lemma_leads_more(step, start, todo.take(k as int), mid, item, out);
            assert(todo.take(k + 1) =~= todo.take(k as int).push(item));
            lemma_frame_fired(s0, s1, eg@);
        }
        if let Err(e) = r {
            proof {
                assert forall|t: (usize, RuleIr)| #[trigger] step(out, t, out) by {}
                lemma_leads_stop(step, start, todo, k + 1, out);
            }
            return Err(e);
        }
    }
    assert(todo.take(rules@.len() as int) =~= todo);
    Ok(())
}

/// A round that a failure stopped.
pub open spec fn stopped(s: EgState, ws: Seq<WriteView>, e: HeadError) -> JobRun {
    JobRun { eg: s, writes: ws, err: Some(e.view()) }
}

proof fn lemma_frame_fired(a: EgState, b: EgState, c: EgState)
    requires
        frame(with_fired(a, b.fired), b),
        frame(with_fired(b, c.fired), c),
    ensures
        frame(with_fired(a, c.fired), c),
{
    let x = with_fired(a, c.fired);
    let y = with_fired(b, c.fired);
    assert(frame(x, y)) by {
        assert forall|f: int| 0 <= f < x.tables.len() implies table_frame(
            x.tables[f],
            #[trigger] y.tables[f],
        ) by {
            assert(table_frame(with_fired(a, b.fired).tables[f], b.tables[f]));
        }
        assert(y =~= EgState { tables: y.tables, next_id: y.next_id, ..x });
    }
    lemma_frame_trans(x, y, c);
}

// ---------------------------------------------------------------------------
// What a circuit is fed
// ---------------------------------------------------------------------------

/// Whether `d` is the change from one set of rows to another: each new row once
/// with weight one, each lost row once with weight minus one.
pub open spec fn is_delta(d: Seq<(Seq<u32>, i64)>, from: Set<Seq<u32>>, to: Set<Seq<u32>>) -> bool {
    &&& d.no_duplicates()
    &&& forall|e: (Seq<u32>, i64)| #[trigger]
        d.contains(e) <==> (e.1 == 1 && to.contains(e.0) && !from.contains(e.0)) || (e.1 == -1
            && from.contains(e.0) && !to.contains(e.0))
}

/// Adding a change to the rows it starts from gives the rows it leads to, and no
/// row is both added and taken away.
pub proof fn delta_leads(
    d: Seq<(Seq<u32>, i64)>,
    from: Set<Seq<u32>>,
    to: Set<Seq<u32>>,
    r: Seq<u32>,
)
    requires
        is_delta(d, from, to),
    ensures
        to.contains(r) <==> (from.contains(r) && !d.contains((r, -1i64))) || d.contains(
            (r, 1i64),
        ),
        !(d.contains((r, 1i64)) && d.contains((r, -1i64))),
{
}

/// The change from one set of rows to another.
pub fn row_delta(from: &RowSet, to: &RowSet) -> (d: Vec<(Row, i64)>)
    ensures
        is_delta(weighted_views(d@), from@, to@),
        d@.len() == 0 <==> from@ == to@,
{
    let mut d: Vec<(Row, i64)> = Vec::new();
    let added = to.rows();
    let ghost av = row_views(added@);
    assert(weighted_views(d@) =~= Seq::empty());
    assert(av.take(0) =~= Seq::empty());
    for k in 0..added.len()
        invariant
            av == row_views(added@),
            av.no_duplicates(),
            weighted_views(d@).no_duplicates(),
            forall|e: (Seq<u32>, i64)| #[trigger]
                weighted_views(d@).contains(e) <==> e.1 == 1 && av.take(k as int).contains(e.0)
                    && !from@.contains(e.0),
    {
        let row = &added[k];
        let ghost d0 = weighted_views(d@);
        assert(av[k as int] == row@);
        assert(av.take(k + 1) =~= av.take(k as int).push(row@));
        proof {
            lemma_push_contains(av.take(k as int), row@);
            lemma_not_before(av, k as int);
        }
        if !from.contains(row) {
            let ghost e = (row@, 1i64);
            assert(!d0.contains(e));
            d.push((clone_row(row), 1));
            proof {
                assert(weighted_views(d@) =~= d0.push(e));
                lemma_push_contains(d0, e);
            }
        }
    }
    assert(av.take(added@.len() as int) =~= av);
    assert forall|r: Seq<u32>| #[trigger] av.contains(r) <==> to@.contains(r) by {
        assert(av.to_set().contains(r) <==> av.contains(r));
    }
    let gone = from.rows();
    let ghost gv = row_views(gone@);
    assert(gv.take(0) =~= Seq::empty());
    for k in 0..gone.len()
        invariant
            gv == row_views(gone@),
            gv.no_duplicates(),
            weighted_views(d@).no_duplicates(),
            forall|e: (Seq<u32>, i64)| #[trigger]
                weighted_views(d@).contains(e) <==> (e.1 == 1 && to@.contains(e.0)
                    && !from@.contains(e.0)) || (e.1 == -1 && gv.take(k as int).contains(e.0)
                    && !to@.contains(e.0)),
    {
        let row = &gone[k];
        let ghost d0 = weighted_views(d@);
        assert(gv[k as int] == row@);
        assert(gv.take(k + 1) =~= gv.take(k as int).push(row@));
        proof {
            lemma_push_contains(gv.take(k as int), row@);
            lemma_not_before(gv, k as int);
        }
        if !to.contains(row) {
            let ghost e = (row@, -1i64);
            assert(!d0.contains(e));
            d.push((clone_row(row), -1));
            proof {
                assert(weighted_views(d@) =~= d0.push(e));
                lemma_push_contains(d0, e);
            }
        }
    }
    assert(gv.take(gone@.len() as int) =~= gv);
    proof {
        assert forall|r: Seq<u32>| #[trigger] gv.contains(r) <==> from@.contains(r) by {
            assert(gv.to_set().contains(r) <==> gv.contains(r));
        }
        let dv = weighted_views(d@);
        assert(is_delta(dv, from@, to@));
        if d@.len() == 0 {
            assert forall|r: Seq<u32>| from@.contains(r) <==> to@.contains(r) by {
                assert(!dv.contains((r, 1i64)));
                assert(!dv.contains((r, -1i64)));
            }
            assert(from@ =~= to@);
        } else {
            assert(dv.contains(dv[0]));
        }
    }
    d
}

proof fn lemma_not_before(s: Seq<Seq<u32>>, k: int)
    requires
        s.no_duplicates(),
        0 <= k < s.len(),
    ensures
        !s.take(k).contains(s[k]),
{
    if s.take(k).contains(s[k]) {
        let q = choose|q: int| 0 <= q < s.take(k).len() && s.take(k)[q] == s[k];
        assert(s[q] == s[k]);
    }
}

/// The functions with that of one more operation at the end, unless it is there.
pub open spec fn add_func(funcs: Seq<FunctionId>, op: BodyOp) -> Seq<FunctionId> {
    match op {
        BodyOp::Atom(a) => if funcs.contains(a.func) {
            funcs
        } else {
            funcs.push(a.func)
        },
        _ => funcs,
    }
}

/// The functions with those of a body at the end, unless they are there.
pub open spec fn add_body(funcs: Seq<FunctionId>, body: Seq<BodyOp>) -> Seq<FunctionId>
    decreases body.len(),
{
    if body.len() == 0 {
        funcs
    } else {
        add_func(add_body(funcs, body.drop_last()), body.last())
    }
}

/// The functions that the bodies of some rules read, each once, in order.
pub open spec fn body_funcs(rules: Seq<(usize, RuleIr)>) -> Seq<FunctionId>
    decreases rules.len(),
{
    if rules.len() == 0 {
        Seq::empty()
    } else {
        add_body(body_funcs(rules.drop_last()), rules.last().1.body@)
    }
}

proof fn lemma_add_body(funcs: Seq<FunctionId>, body: Seq<BodyOp>, s: EgState, rule: RuleIr)
    requires
        funcs.no_duplicates(),
        forall|i: int| 0 <= i < funcs.len() ==> (#[trigger] funcs[i]).rep < s.tables.len(),
        rule_fits(s, rule),
        body.len() <= rule.body@.len(),
        body == rule.body@.take(body.len() as int),
    ensures
        add_body(funcs, body).no_duplicates(),
        forall|i: int|
            0 <= i < add_body(funcs, body).len() ==> (#[trigger] add_body(funcs, body)[i]).rep
                < s.tables.len(),
    decreases body.len(),
{
    if body.len() > 0 {
        let less = body.drop_last();
        assert(less =~= rule.body@.take(less.len() as int));
        lemma_add_body(funcs, less, s, rule);
        assert(body.last() == rule.body@[body.len() - 1]);
    }
}

proof fn lemma_body_funcs(s: EgState, rules: Seq<(usize, RuleIr)>)
    requires
        rules_fit(s, rules),
    ensures
        body_funcs(rules).no_duplicates(),
        forall|i: int|
            0 <= i < body_funcs(rules).len() ==> (#[trigger] body_funcs(rules)[i]).rep
                < s.tables.len(),
    decreases rules.len(),
{
    if rules.len() > 0 {
        let less = rules.drop_last();
        assert forall|i: int| 0 <= i < less.len() implies rule_fits(s, (#[trigger] less[i]).1) by {
            assert(less[i] == rules[i]);
        }
        lemma_body_funcs(s, less);
        let rule = rules[rules.len() - 1].1;
        assert(rule_fits(s, rule));
        assert(rule.body@ =~= rule.body@.take(rule.body@.len() as int));
        lemma_add_body(body_funcs(less), rule.body@, s, rule);
    }
}

/// The functions that the bodies of some rules read, each once, in order.
fn collect_body_funcs(rules: &Vec<(usize, Rc<RuleIr>)>) -> (funcs: Vec<FunctionId>)
    ensures
        funcs@ == body_funcs(rule_views(rules@)),
{
    let ghost rv = rule_views(rules@);
    let mut funcs: Vec<FunctionId> = Vec::new();
    assert(rv.take(0) =~= Seq::empty());
    for i in 0..rules.len()
        invariant
            rv == rule_views(rules@),
            funcs@ == body_funcs(rv.take(i as int)),
    {
        assert(rv.take(i + 1).drop_last() =~= rv.take(i as int));
        assert(rv.take(i + 1).last() == rv[i as int]);
        let body = &rules[i].1.body;
        let ghost f0 = funcs@;
        assert(body@.take(0) =~= Seq::empty());
        for j in 0..body.len()
            invariant
                funcs@ == add_body(f0, body@.take(j as int)),
        {
            assert(body@.take(j + 1).drop_last() =~= body@.take(j as int));
            assert(body@.take(j + 1).last() == body@[j as int]);
            if let BodyOp::Atom(a) = &body[j] {
                if !contains_func(&funcs, a.func) {
                    funcs.push(a.func);
                }
            }
        }
        assert(body@.take(body@.len() as int) =~= body@);
    }
    assert(rv.take(rules@.len() as int) =~= rv);
    funcs
}

/// The indices of some rules.
pub open spec fn rule_indices(rules: Seq<(usize, RuleIr)>) -> Seq<usize> {
    rules.map_values(|r: (usize, RuleIr)| r.0)
}

/// Whether a list of indices is in ascending order.
pub open spec fn ascending(v: Seq<usize>) -> bool {
    forall|i: int, j: int| 0 <= i <= j < v.len() ==> #[trigger] v[i] <= #[trigger] v[j]
}

/// Whether `key` holds the indices of some rules in ascending order.
pub open spec fn is_key(key: Seq<usize>, rules: Seq<(usize, RuleIr)>) -> bool {
    &&& ascending(key)
    &&& key.to_multiset() == rule_indices(rules).to_multiset()
}

/// The indices of some rules in ascending order.
fn circuit_key(rules: &Vec<(usize, Rc<RuleIr>)>) -> (key: Vec<usize>)
    ensures
        is_key(key@, rule_views(rules@)),
{
    let ghost ri = rule_indices(rule_views(rules@));
    let mut key: Vec<usize> = Vec::with_capacity(rules.len());
    assert(key@ =~= ri.take(0));
    for i in 0..rules.len()
        invariant
            ri == rule_indices(rule_views(rules@)),
            key@.len() == i,
            ascending(key@),
            key@.to_multiset() == ri.take(i as int).to_multiset(),
    {
        let x: usize = rules[i].0;
        assert(ri[i as int] == x);
        let ghost before = key@;
        let mut p: usize = 0;
        while p < key.len() && key[p] <= x
            invariant
                p <= key@.len(),
                key@ == before,
                forall|q: int| 0 <= q < p ==> #[trigger] key@[q] <= x,
            decreases key@.len() - p,
        {
            p = p + 1;
        }
        key.insert(p, x);
        proof {
            vstd::seq_lib::to_multiset_insert(before, p as int, x);
            assert(ri.take(i + 1) =~= ri.take(i as int).push(x));
            vstd::seq_lib::to_multiset_build(ri.take(i as int), x);
            assert forall|a: int, b: int| 0 <= a <= b < key@.len() implies #[trigger] key@[a]
                <= #[trigger] key@[b] by {
                let oa = if a < p { a } else { a - 1 };
                let ob = if b < p { b } else { b - 1 };
                if a != p && b != p {
                    assert(before[oa] <= before[ob]);
                } else if a == p && b != p {
                    assert(before[p as int] <= before[ob]);
                }
            }
        }
    }
    assert(ri.take(rules@.len() as int) =~= ri);
    key
}

/// What a circuit for some rules is fed, and how it is built where there is none.
#[derive(Debug)]
pub struct JoinRequest {
    /// The rules, in ascending order: what the circuit is known by.
    pub key: Vec<usize>,
    /// The plans of the rules where no circuit is known for them yet.
    pub plans: Option<Vec<(usize, JoinPlan)>>,
    /// The union-find index functions that rebuild rules read.
    pub transient: Vec<FunctionId>,
    /// Whether a rebuild is driven from changes of the union-find alone.
    pub delta_rebuild: bool,
    /// The changes of the rows since the circuit was last fed.
    pub deltas: Vec<(FunctionId, Vec<(Row, i64)>)>,
}

/// The first rule without a plan, if any.
pub open spec fn first_ineligible(
    s: EgState,
    rules: Seq<(usize, RuleIr)>,
) -> Option<(usize, Ineligible)>
    decreases rules.len(),
{
    if rules.len() == 0 {
        None
    } else {
        match first_ineligible(s, rules.drop_last()) {
            Some(e) => Some(e),
            None => match plan_of(s, rules.last().1) {
                Ok(_) => None,
                Err(e) => Some((rules.last().0, e)),
            },
        }
    }
}

proof fn lemma_first_ineligible(s: EgState, rules: Seq<(usize, RuleIr)>, n: int)
    requires
        0 <= n <= rules.len(),
        first_ineligible(s, rules.take(n)) is Some,
    ensures
        first_ineligible(s, rules) == first_ineligible(s, rules.take(n)),
    decreases rules.len() - n,
{
    if n == rules.len() {
        assert(rules.take(n) =~= rules);
    } else {
        assert(rules.take(n + 1).drop_last() =~= rules.take(n));
        lemma_first_ineligible(s, rules, n + 1);
    }
}

/// Whether plans are those of some rules, in their order.
pub open spec fn are_plans_of(
    s: EgState,
    rules: Seq<(usize, RuleIr)>,
    plans: Seq<(usize, JoinPlan)>,
) -> bool {
    &&& plans.len() == rules.len()
    &&& forall|i: int|
        0 <= i < plans.len() ==> {
            &&& (#[trigger] plans[i]).0 == rules[i].0
            &&& plans[i].1.wf()
            &&& plan_of(s, rules[i].1) is Ok
            &&& plan_is(&plans[i].1, plan_of(s, rules[i].1)->Ok_0)
        }
}

/// The plans of some rules, or the first rule without one.
fn plan_rules(eg: &EGraph, rules: &Vec<(usize, Rc<RuleIr>)>) -> (r: Result<
    Vec<(usize, JoinPlan)>,
    (usize, Ineligible),
>)
    requires
        eg.wf(),
    ensures
        match first_ineligible(eg@, rule_views(rules@)) {
            Some(e) => r == Err::<Vec<(usize, JoinPlan)>, (usize, Ineligible)>(e),
            None => r matches Ok(plans) && are_plans_of(eg@, rule_views(rules@), plans@),
        },
{
    let ghost rv = rule_views(rules@);
    let mut plans: Vec<(usize, JoinPlan)> = Vec::with_capacity(rules.len());
    assert(rv.take(0) =~= Seq::empty());
    for i in 0..rules.len()
        invariant
            eg.wf(),
            rv == rule_views(rules@),
            first_ineligible(eg@, rv.take(i as int)) is None,
            are_plans_of(eg@, rv.take(i as int), plans@),
    {
        let ghost upto = rv.take(i + 1);
        assert(upto.drop_last() =~= rv.take(i as int));
        assert(upto.last() == rv[i as int]);
        assert(rv[i as int] == (rules@[i as int].0, *rules@[i as int].1));
        let ghost plans0 = plans@;
        match plan_join(eg, &rules[i].1) {
            Ok(p) => {
                plans.push((rules[i].0, p));
                assert forall|k: int| 0 <= k < plans@.len() implies {
                    &&& (#[trigger] plans@[k]).0 == upto[k].0
                    &&& plans@[k].1.wf()
                    &&& plan_of(eg@, upto[k].1) is Ok
                    &&& plan_is(&plans@[k].1, plan_of(eg@, upto[k].1)->Ok_0)
                } by {
                    if k < i {
                        assert(plans@[k] == plans0[k]);
                        assert(upto[k] == rv.take(i as int)[k]);
                    }
                }
            },
            Err(e) => {
                proof {
                    lemma_first_ineligible(eg@, rv, i + 1);
                }
                return Err((rules[i].0, e));
            },
        }
    }
    assert(rv.take(rules@.len() as int) =~= rv);
    Ok(plans)
}

/// Whether a function is a union-find index that a rebuild rule among `rules` reads.
pub open spec fn is_transient(s: EgState, rules: Seq<(usize, RuleIr)>, f: FunctionId) -> bool {
    exists|i: int, j: int|
        0 <= i < rules.len() && 0 <= j < rules[i].1.body@.len() && occurs_in(
            "rebuild_rule"@,
            rules[i].1.name@,
        ) && ((#[trigger] rules[i].1.body@[j]) matches BodyOp::Atom(a) && a.func == f)
            && s.tables[f.rep as int].info.identity_on_miss
}

/// The union-find index functions that rebuild rules read.
fn collect_transient(eg: &EGraph, rules: &Vec<(usize, Rc<RuleIr>)>) -> (funcs: Vec<FunctionId>)
    requires
        eg.wf(),
        rules_fit(eg@, rule_views(rules@)),
    ensures
        funcs@.no_duplicates(),
        forall|f: FunctionId| #[trigger]
            funcs@.contains(f) <==> is_transient(eg@, rule_views(rules@), f),
{
    let ghost rv = rule_views(rules@);
    let mut funcs: Vec<FunctionId> = Vec::new();
    for i in 0..rules.len()
        invariant
            rv == rule_views(rules@),
            rules_fit(eg@, rv),
            funcs@.no_duplicates(),
            forall|f: FunctionId| #[trigger]
                funcs@.contains(f) <==> transient_upto(eg@, rv, f, i as int, 0),
    {
        assert(rv[i as int] == (rules@[i as int].0, *rules@[i as int].1));
        assert(rule_fits(eg@, rv[i as int].1));
        let body = &rules[i].1.body;
        if contains_str(rules[i].1.name.as_str(), "rebuild_rule") {
            for j in 0..body.len()
                invariant
                    rv == rule_views(rules@),
                    i < rv.len(),
                    body@ == rv[i as int].1.body@,
                    rule_fits(eg@, rv[i as int].1),
                    occurs_in("rebuild_rule"@, rv[i as int].1.name@),
                    funcs@.no_duplicates(),
                    forall|f: FunctionId| #[trigger]
                        funcs@.contains(f) <==> transient_upto(eg@, rv, f, i as int, j as int),
            {
                let ghost f0 = funcs@;
                if let BodyOp::Atom(a) = &body[j] {
                    assert(a.func.rep < eg@.tables.len());
                    if eg.info(a.func).identity_on_miss {
                        if !contains_func(&funcs, a.func) {
                            funcs.push(a.func);
                            proof {
                                lemma_push_contains(f0, a.func);
                            }
                        }
                    }
                }
                assert forall|f: FunctionId| #[trigger] funcs@.contains(f) <==> transient_upto(
                    eg@,
                    rv,
                    f,
                    i as int,
                    j + 1,
                ) by {
                    lemma_transient_step(eg@, rv, f, i as int, j as int);
                    assert(f0.contains(f) <==> transient_upto(eg@, rv, f, i as int, j as int));
                }
            }
        }
        assert forall|f: FunctionId| #[trigger] funcs@.contains(f) <==> transient_upto(
            eg@,
            rv,
            f,
            i + 1,
            0,
        ) by {
            lemma_transient_rule(eg@, rv, f, i as int);
        }
    }
    assert forall|f: FunctionId| #[trigger] funcs@.contains(f) <==> is_transient(eg@, rv, f) by {
        assert(transient_upto(eg@, rv, f, rv.len() as int, 0) <==> is_transient(eg@, rv, f)) by {
            if is_transient(eg@, rv, f) {
                let (i, j) = choose|i: int, j: int|
                    0 <= i < rv.len() && 0 <= j < rv[i].1.body@.len() && occurs_in(
                        "rebuild_rule"@,
                        rv[i].1.name@,
                    ) && ((#[trigger] rv[i].1.body@[j]) matches BodyOp::Atom(a) && a.func == f)
                        && eg@.tables[f.rep as int].info.identity_on_miss;
                assert(rv[i].1.body@[j] matches BodyOp::Atom(a) && a.func == f);
            }
        }
    }
    funcs
}

/// What is found in the first `i` rules and the first `j` operations of the next.
spec fn transient_upto(
    s: EgState,
    rules: Seq<(usize, RuleIr)>,
    f: FunctionId,
    i: int,
    j: int,
) -> bool {
    exists|p: int, q: int|
        0 <= p < rules.len() && 0 <= q < rules[p].1.body@.len() && (p < i || (p == i && q < j))
            && occurs_in("rebuild_rule"@, rules[p].1.name@) && ((
        #[trigger] rules[p].1.body@[q]) matches BodyOp::Atom(a) && a.func == f)
            && s.tables[f.rep as int].info.identity_on_miss
}

proof fn lemma_transient_step(
    s: EgState,
    rules: Seq<(usize, RuleIr)>,
    f: FunctionId,
    i: int,
    j: int,
)
    requires
        0 <= i < rules.len(),
        0 <= j < rules[i].1.body@.len(),
        occurs_in("rebuild_rule"@, rules[i].1.name@),
    ensures
        transient_upto(s, rules, f, i, j + 1) <==> transient_upto(s, rules, f, i, j) || ((
        rules[i].1.body@[j] matches BodyOp::Atom(a) && a.func == f)
            && s.tables[f.rep as int].info.identity_on_miss),
{
    if transient_upto(s, rules, f, i, j) {
        let (p, q) = choose|p: int, q: int|
            0 <= p < rules.len() && 0 <= q < rules[p].1.body@.len() && (p < i || (p == i && q < j))
                && occurs_in("rebuild_rule"@, rules[p].1.name@) && ((
            #[trigger] rules[p].1.body@[q]) matches BodyOp::Atom(a) && a.func == f)
                && s.tables[f.rep as int].info.identity_on_miss;
        assert(rules[p].1.body@[q] matches BodyOp::Atom(a) && a.func == f);
    }
    if transient_upto(s, rules, f, i, j + 1) {
        let (p, q) = choose|p: int, q: int|
            0 <= p < rules.len() && 0 <= q < rules[p].1.body@.len() && (p < i || (p == i && q < j
                + 1)) && occurs_in("rebuild_rule"@, rules[p].1.name@) && ((
            #[trigger] rules[p].1.body@[q]) matches BodyOp::Atom(a) && a.func == f)
                && s.tables[f.rep as int].info.identity_on_miss;
        assert(rules[p].1.body@[q] matches BodyOp::Atom(a) && a.func == f);
    }
}

proof fn lemma_transient_rule(s: EgState, rules: Seq<(usize, RuleIr)>, f: FunctionId, i: int)
    requires
        0 <= i < rules.len(),
    ensures
        occurs_in("rebuild_rule"@, rules[i].1.name@) ==> (transient_upto(s, rules, f, i + 1, 0)
            <==> transient_upto(s, rules, f, i, rules[i].1.body@.len() as int)),
        !occurs_in("rebuild_rule"@, rules[i].1.name@) ==> (transient_upto(s, rules, f, i + 1, 0)
            <==> transient_upto(s, rules, f, i, 0)),
{
    if transient_upto(s, rules, f, i + 1, 0) {
        let (p, q) = choose|p: int, q: int|
            0 <= p < rules.len() && 0 <= q < rules[p].1.body@.len() && (p < i + 1 || (p == i + 1
                && q < 0)) && occurs_in("rebuild_rule"@, rules[p].1.name@) && ((
            #[trigger] rules[p].1.body@[q]) matches BodyOp::Atom(a) && a.func == f)
                && s.tables[f.rep as int].info.identity_on_miss;
        assert(rules[p].1.body@[q] matches BodyOp::Atom(a) && a.func == f);
    }
    if transient_upto(s, rules, f, i, rules[i].1.body@.len() as int) {
        let (p, q) = choose|p: int, q: int|
            0 <= p < rules.len() && 0 <= q < rules[p].1.body@.len() && (p < i || (p == i && q
                < rules[i].1.body@.len())) && occurs_in("rebuild_rule"@, rules[p].1.name@) && ((
            #[trigger] rules[p].1.body@[q]) matches BodyOp::Atom(a) && a.func == f)
                && s.tables[f.rep as int].info.identity_on_miss;
        assert(rules[p].1.body@[q] matches BodyOp::Atom(a) && a.func == f);
    }
    if transient_upto(s, rules, f, i, 0) {
        let (p, q) = choose|p: int, q: int|
            0 <= p < rules.len() && 0 <= q < rules[p].1.body@.len() && (p < i || (p == i && q < 0))
                && occurs_in("rebuild_rule"@, rules[p].1.name@) && ((
            #[trigger] rules[p].1.body@[q]) matches BodyOp::Atom(a) && a.func == f)
                && s.tables[f.rep as int].info.identity_on_miss;
        assert(rules[p].1.body@[q] matches BodyOp::Atom(a) && a.func == f);
    }
}

/// Whether changes are those from the rows that were fed to the rows that are read,
/// for each of some functions whose rows differ, each function once.
pub open spec fn are_deltas(
    deltas: Seq<(FunctionId, Vec<(Row, i64)>)>,
    funcs: Seq<FunctionId>,
    read: Seq<Set<Seq<u32>>>,
    fed: FedState,
) -> bool {
    &&& forall|k: int|
        0 <= k < deltas.len() ==> {
            let f = (#[trigger] deltas[k]).0;
            &&& funcs.contains(f)
            &&& rows_at(read, f.rep as int) != fed.rows(f.rep as int)
            &&& is_delta(
                weighted_views(deltas[k].1@),
                fed.rows(f.rep as int),
                rows_at(read, f.rep as int),
            )
        }
    &&& forall|i: int|
        0 <= i < funcs.len() && rows_at(read, (#[trigger] funcs[i]).rep as int) != fed.rows(
            funcs[i].rep as int,
        ) ==> exists|k: int| 0 <= k < deltas.len() && (#[trigger] deltas[k]).0 == funcs[i]
    &&& forall|k: int, l: int|
        0 <= k < l < deltas.len() ==> (#[trigger] deltas[k]).0 != (#[trigger] deltas[l]).0
}

/// The rows that a circuit was fed once it has been fed the rows of some functions.
pub open spec fn fed_after(
    before: FedState,
    after: FedState,
    funcs: Seq<FunctionId>,
    read: Seq<Set<Seq<u32>>>,
) -> bool {
    &&& after.key == before.key
    &&& after.order == before.order
    &&& after.var_orders == before.var_orders
    &&& forall|g: u32| #[trigger]
        after.rows(g as int) == (if funcs.contains(FunctionId { rep: g }) {
            rows_at(read, g as int)
        } else {
            before.rows(g as int)
        })
}

/// Whether some circuit is known for a key.
pub open spec fn knows(s: EgState, key: Seq<usize>) -> bool {
    exists|i: int| 0 <= i < s.fed.len() && (#[trigger] s.fed[i]).key == key
}

/// The changes of the rows since a circuit was last fed. The rows are then recorded
/// as fed.
fn feed(
    eg: &mut EGraph,
    p: usize,
    funcs: &Vec<FunctionId>,
    read: &Vec<Rc<RowSet>>,
) -> (deltas: Vec<(FunctionId, Vec<(Row, i64)>)>)
    requires
        old(eg).wf(),
        p < old(eg)@.fed.len(),
        funcs@.no_duplicates(),
        forall|i: int| 0 <= i < funcs@.len() ==> (#[trigger] funcs@[i]).rep < read@.len(),
    ensures
        final(eg).wf(),
        final(eg).runs() == old(eg).runs(),
        final(eg)@ == (EgState {
            fed: old(eg)@.fed.update(p as int, final(eg)@.fed[p as int]),
            ..old(eg)@
        }),
        fed_after(
            old(eg)@.fed[p as int],
            final(eg)@.fed[p as int],
            funcs@,
            shared_rows(read@),
        ),
        are_deltas(deltas@, funcs@, shared_rows(read@), old(eg)@.fed[p as int]),
{
    let ghost s0 = eg@;
    let ghost fed0 = s0.fed[p as int];
    let ghost rd = shared_rows(read@);
    let mut deltas: Vec<(FunctionId, Vec<(Row, i64)>)> = Vec::new();
    proof {
        assert(s0.fed.update(p as int, s0.fed[p as int]) =~= s0.fed);
        assert(funcs@.take(0) =~= Seq::empty());
    }
    for i in 0..funcs.len()
        invariant
            s0 == old(eg)@,
            p < s0.fed.len(),
            fed0 == s0.fed[p as int],
            rd == shared_rows(read@),
            rd.len() == read@.len(),
            funcs@.no_duplicates(),
            forall|i: int| 0 <= i < funcs@.len() ==> (#[trigger] funcs@[i]).rep < read@.len(),
            eg.wf(),
            eg.runs() == old(eg).runs(),
            eg@.fed.len() == s0.fed.len(),
            eg@ == (EgState { fed: s0.fed.update(p as int, eg@.fed[p as int]), ..s0 }),
            fed_after(fed0, eg@.fed[p as int], funcs@.take(i as int), rd),
            are_deltas(deltas@, funcs@.take(i as int), rd, fed0),
    {
        let f = funcs[i];
        let fi: usize = f.rep as usize;
        let ghost less = funcs@.take(i as int);
        let ghost upto = funcs@.take(i + 1);
        let ghost s1 = eg@;
        let ghost d0 = deltas@;
        proof {
            assert(upto =~= less.push(f));
            lemma_push_contains(less, f);
            assert(!less.contains(f)) by {
                if less.contains(f) {
                    let q = choose|q: int| 0 <= q < less.len() && less[q] == f;
                    assert(funcs@[q] == funcs@[i as int]);
                }
            }
            assert(s1.fed[p as int].rows(f.rep as int) == fed0.rows(f.rep as int)) by {
                assert(f == FunctionId { rep: f.rep });
            }
            assert(rd[fi as int] == read@[fi as int]@);
        }
        let d = {
            let v = eg.fed_view(p);
            if fi < v.fed.len() {
                assert(v.state().fed[fi as int] == v.fed@[fi as int]@);
                row_delta(&v.fed[fi], &read[fi])
            } else {
                row_delta(&RowSet::new(), &read[fi])
            }
        };
        let ghost dv = weighted_views(d@);
        assert(is_delta(dv, fed0.rows(f.rep as int), rows_at(rd, f.rep as int)));
        assert(d@.len() == 0 <==> fed0.rows(f.rep as int) == rows_at(rd, f.rep as int));
        let n: usize = read.len();
        assert(fi < n);
        eg.set_fed_rows(p, fi, read[fi].clone());
        if d.len() > 0 {
            deltas.push((f, d));
        }
        proof {
            assert(eg@.fed =~= s0.fed.update(p as int, eg@.fed[p as int]));
            assert(eg@ =~= EgState { fed: s0.fed.update(p as int, eg@.fed[p as int]), ..s0 });
            assert forall|g: u32| #[trigger] eg@.fed[p as int].rows(g as int) == (
            if upto.contains(FunctionId { rep: g }) {
                rows_at(rd, g as int)
            } else {
                fed0.rows(g as int)
            }) by {
                assert(s1.fed[p as int].rows(g as int) == (if less.contains(
                    FunctionId { rep: g },
                ) {
                    rows_at(rd, g as int)
                } else {
                    fed0.rows(g as int)
                }));
                if g == f.rep {
                    assert(f == FunctionId { rep: g });
                }
            }
            if dv.len() > 0 {
                assert(deltas@.drop_last() =~= d0);
            }
            lemma_deltas_more(d0, deltas@, less, f, rd, fed0);
        }
    }
    assert(funcs@.take(funcs@.len() as int) =~= funcs@);
    deltas
}

proof fn lemma_deltas_more(
    d0: Seq<(FunctionId, Vec<(Row, i64)>)>,
    d1: Seq<(FunctionId, Vec<(Row, i64)>)>,
    funcs: Seq<FunctionId>,
    f: FunctionId,
    read: Seq<Set<Seq<u32>>>,
    fed: FedState,
)
    requires
        are_deltas(d0, funcs, read, fed),
        !funcs.contains(f),
        if rows_at(read, f.rep as int) == fed.rows(f.rep as int) {
            d1 == d0
        } else {
            d1.len() == d0.len() + 1 && d1.drop_last() == d0 && d1.last().0 == f && is_delta(
                weighted_views(d1.last().1@),
                fed.rows(f.rep as int),
                rows_at(read, f.rep as int),
            )
        },
    ensures
        are_deltas(d1, funcs.push(f), read, fed),
{
    let more = funcs.push(f);
    lemma_push_contains(funcs, f);
    assert forall|k: int| 0 <= k < d1.len() implies {
        let g = (#[trigger] d1[k]).0;
        &&& more.contains(g)
        &&& rows_at(read, g.rep as int) != fed.rows(g.rep as int)
        &&& is_delta(weighted_views(d1[k].1@), fed.rows(g.rep as int), rows_at(read, g.rep as int))
    } by {
        if k < d0.len() {
            assert(d1[k] == d0[k]) by {
                if d1 != d0 {
                    assert(d1.drop_last()[k] == d1[k]);
                }
            }
            assert(funcs.contains(d0[k].0));
        }
    }
    assert forall|i: int|
        0 <= i < more.len() && rows_at(read, (#[trigger] more[i]).rep as int) != fed.rows(
            more[i].rep as int,
        ) implies exists|k: int| 0 <= k < d1.len() && (#[trigger] d1[k]).0 == more[i] by {
        if i < funcs.len() {
            assert(funcs[i] == more[i]);
            let k = choose|k: int| 0 <= k < d0.len() && (#[trigger] d0[k]).0 == funcs[i];
            assert(d1[k] == d0[k]) by {
                if d1 != d0 {
                    assert(d1.drop_last()[k] == d1[k]);
                }
            }
            assert(d1[k].0 == more[i]);
        } else {
            assert(d1[d1.len() - 1].0 == more[i]);
        }
    }
    assert forall|k: int, l: int| 0 <= k < l < d1.len() implies (#[trigger] d1[k]).0 != (
    #[trigger] d1[l]).0 by {
        if l < d0.len() {
            assert(d1[k] == d0[k] && d1[l] == d0[l]) by {
                if d1 != d0 {
                    assert(d1.drop_last()[k] == d1[k]);
                    assert(d1.drop_last()[l] == d1[l]);
                }
            }
        } else {
            assert(d1[k] == d0[k]) by {
                assert(d1.drop_last()[k] == d1[k]);
            }
            assert(funcs.contains(d0[k].0));
        }
    }
}

/// Whether each rule has a place among the rules of a circuit, with the variables
/// of its binding row there.
pub open spec fn are_places(
    rules: Seq<(usize, RuleIr)>,
    fed: FedState,
    places: Seq<usize>,
    var_orders: Seq<Seq<u32>>,
) -> bool {
    &&& places.len() == rules.len()
    &&& var_orders.len() == rules.len()
    &&& forall|i: int|
        0 <= i < rules.len() ==> {
            &&& (#[trigger] places[i]) < fed.order.len()
            &&& fed.order[places[i] as int] == rules[i].0
            &&& var_orders[i] == fed.var_orders[places[i] as int]
        }
}

/// The place of each rule among the rules of a circuit.
fn find_places(
    rules: &Vec<(usize, Rc<RuleIr>)>,
    key: &Vec<usize>,
    v: &FedView,
) -> (r: (Vec<usize>, Vec<Vec<u32>>))
    requires
        is_key(key@, rule_views(rules@)),
        v.state().key == key@,
        fed_ok(v.state()),
    ensures
        are_places(rule_views(rules@), v.state(), r.0@, row_views(r.1@)),
{
    let ghost rv = rule_views(rules@);
    let ghost fed = v.state();
    let mut places: Vec<usize> = Vec::with_capacity(rules.len());
    let mut var_orders: Vec<Vec<u32>> = Vec::with_capacity(rules.len());
    for i in 0..rules.len()
        invariant
            rv == rule_views(rules@),
            fed == v.state(),
            is_key(key@, rv),
            fed.key == key@,
            fed_ok(fed),
            places@.len() == i,
            var_orders@.len() == i,
            forall|k: int|
                0 <= k < i ==> {
                    &&& (#[trigger] places@[k]) < fed.order.len()
                    &&& fed.order[places@[k] as int] == rv[k].0
                    &&& row_views(var_orders@)[k] == fed.var_orders[places@[k] as int]
                },
    {
        let idx: usize = rules[i].0;
        proof {
            assert(rv[i as int].0 == idx);
            assert(rule_indices(rv)[i as int] == idx);
            assert(rule_indices(rv).contains(idx));
            vstd::seq_lib::to_multiset_contains(rule_indices(rv), idx);
            vstd::seq_lib::to_multiset_contains(fed.order, idx);
            assert(fed.order.contains(idx));
        }
        let mut q: usize = 0;
        while q < v.order.len() && v.order[q] != idx
            invariant
                q <= v.order@.len(),
                forall|k: int| 0 <= k < q ==> v.order@[k] != idx,
            decreases v.order@.len() - q,
        {
            q = q + 1;
        }
        proof {
            if q == v.order@.len() {
                let k = choose|k: int| 0 <= k < fed.order.len() && fed.order[k] == idx;
                assert(v.order@[k] == idx);
            }
        }
        let ghost vo0 = var_orders@;
        assert(v.var_orders@.len() == fed.var_orders.len());
        let vo = clone_row(&v.var_orders[q]);
        places.push(q);
        var_orders.push(vo);
        proof {
            assert(row_views(v.var_orders@)[q as int] == v.var_orders@[q as int]@);
            assert forall|k: int| 0 <= k < i + 1 implies {
                &&& (#[trigger] places@[k]) < fed.order.len()
                &&& fed.order[places@[k] as int] == rv[k].0
                &&& row_views(var_orders@)[k] == fed.var_orders[places@[k] as int]
            } by {
                if k < i {
                    assert(row_views(vo0)[k] == row_views(var_orders@)[k]);
                } else {
                    assert(row_views(var_orders@)[k] == vo@);
                }
            }
        }
    }
    (places, var_orders)
}

/// The variables of the binding rows of some plans.
pub open spec fn plan_orders(plans: Seq<(usize, JoinPlan)>) -> Seq<Seq<u32>> {
    plans.map_values(|p: (usize, JoinPlan)| p.1.var_order@)
}

impl EGraph {
    /// What the circuit of a round's rules is to be fed; nothing if there are none.
    /// Each of the rules counts as one run on a circuit.
    /// Where no circuit is known for the rules it is planned, and the first rule
    /// without a plan is an error.
    pub fn join_request(&mut self, pass: &mut Pass) -> (r: Result<
        Option<JoinRequest>,
        (usize, Ineligible),
    >)
        requires
            old(self).wf(),
            old(pass).wf(old(self)@),
        ensures
            final(self).wf(),
            final(pass).wf(final(self)@),
            *final(pass) == (Pass {
                places: final(pass).places,
                var_orders: final(pass).var_orders,
                ..*old(pass)
            }),
            old(pass).atom_rules@.len() == 0 ==> r == Ok::<
                Option<JoinRequest>,
                (usize, Ineligible),
            >(None) && final(self)@ == old(self)@ && *final(pass) == *old(pass),
            r is Err ==> final(self)@ == old(self)@,
            r matches Err(e) ==> first_ineligible(
                old(self)@,
                rule_views(old(pass).atom_rules@),
            ) == Some(e) && forall|key: Seq<usize>|
                is_key(key, rule_views(old(pass).atom_rules@)) ==> !(#[trigger] knows(
                    old(self)@,
                    key,
                )),
            old(pass).atom_rules@.len() > 0 && r is Ok ==> r->Ok_0 is Some,
            final(self).runs() == (if r matches Ok(Some(_)) {
                (
                    capped(old(self).runs().0 + old(pass).atom_rules@.len()),
                    old(self).runs().1,
                    old(self).runs().2,
                )
            } else {
                old(self).runs()
            }),
            r matches Ok(Some(req)) ==> {
                let rules = rule_views(old(pass).atom_rules@);
                &&& is_key(req.key@, rules)
                &&& (req.plans is Some <==> !knows(old(self)@, req.key@))
                &&& (req.plans matches Some(plans) ==> are_plans_of(old(self)@, rules, plans@))
                &&& req.transient@.no_duplicates()
                &&& forall|f: FunctionId| #[trigger]
                    req.transient@.contains(f) <==> is_transient(old(self)@, rules, f)
                &&& req.delta_rebuild == old(self)@.fast_rebuild
                &&& exists|p: int, before: FedState|
                    #![trigger circuit_at(old(self)@, final(self)@, req, rules, p, before)]
                    circuit_at(old(self)@, final(self)@, req, rules, p, before) && fed_after(
                        before,
                        final(self)@.fed[p],
                        body_funcs(rules),
                        shared_rows(old(pass).read@),
                    ) && are_deltas(
                        req.deltas@,
                        body_funcs(rules),
                        shared_rows(old(pass).read@),
                        before,
                    ) && are_places(
                        rules,
                        final(self)@.fed[p],
                        final(pass).places@,
                        row_views(final(pass).var_orders@),
                    )
            },
    {
        let ghost s0 = self@;
        let ghost rules = rule_views(pass.atom_rules@);
        if pass.atom_rules.len() == 0 {
            return Ok(None);
        }
        let key = circuit_key(&pass.atom_rules);
        let known = self.find_fed(&key);
        let mut plans: Option<Vec<(usize, JoinPlan)>> = None;
        let p: usize = match known {
            Some(p) => {
                assert(s0.fed[p as int].key == key@);
                assert(knows(s0, key@));
                p
            },
            None => {
                let ps = match plan_rules(self, &pass.atom_rules) {
                    Ok(ps) => ps,
                    Err(e) => {
                        proof {
                            assert forall|k: Seq<usize>| is_key(k, rules) implies !(
                            #[trigger] knows(s0, k)) by {
                                lemma_key_unique(k, key@, rules);
                            }
                        }
                        return Err(e);
                    },
                };
                let (order, vars) = plan_shape(&ps);
                let p: usize = self.fed_count();
                proof {
                    assert(order@ =~= rule_indices(rules));
                }
                self.push_fed(clone_usizes(&key), order, vars);
                plans = Some(ps);
                p
            },
        };
        let ghost s1 = self@;
        let ghost before = s1.fed[p as int];
        let funcs = collect_body_funcs(&pass.atom_rules);
        let transient = collect_transient_at(self, &pass.atom_rules, Ghost(s0));
        proof {
            self.lemma_wf();
            lemma_body_funcs(s0, rules);
            assert(pass.read@.len() == s0.tables.len());
            assert(fed_ok(before));
        }
        let deltas = feed(self, p, &funcs, &pass.read);
        self.count_dbsp_runs(pass.atom_rules.len());
        proof {
            self.lemma_wf();
            assert(fed_ok(self@.fed[p as int]));
        }
        let (places, var_orders) = find_places(&pass.atom_rules, &key, self.fed_view(p));
        pass.places = places;
        pass.var_orders = var_orders;
        let req = JoinRequest {
            key,
            plans,
            transient,
            delta_rebuild: self.fast_rebuild_enabled(),
            deltas,
        };
        proof {
            pass.index.lemma_same_rows(s0, self@);
            lemma_pass_wf_fed(old(pass), pass, s0, self@);
            if req.plans is None {
                assert(self@ =~= EgState { fed: s0.fed.update(p as int, self@.fed[p as int]), ..s0 });
            } else {
                assert(s1.fed.update(p as int, self@.fed[p as int]) =~= s0.fed.push(
                    self@.fed[p as int],
                ));
                assert(self@ =~= EgState { fed: s0.fed.push(self@.fed[p as int]), ..s0 });
            }
            assert(circuit_at(s0, self@, req, rules, p as int, before));
        }
        Ok(Some(req))
    }
}

/// Whether the circuit of a request is at place `p`, where `before` is what it was
/// fed before the request.
pub open spec fn circuit_at(
    s0: EgState,
    s1: EgState,
    req: JoinRequest,
    rules: Seq<(usize, RuleIr)>,
    p: int,
    before: FedState,
) -> bool {
    &&& 0 <= p < s1.fed.len()
    &&& match req.plans {
        None => {
            &&& p < s0.fed.len()
            &&& before == s0.fed[p]
            &&& before.key == req.key@
            &&& s1 == (EgState { fed: s0.fed.update(p, s1.fed[p]), ..s0 })
        },
        Some(plans) => {
            &&& p == s0.fed.len()
            &&& before == (FedState {
                key: req.key@,
                order: rule_indices(rules),
                var_orders: plan_orders(plans@),
                fed: Seq::empty(),
            })
            &&& s1 == (EgState { fed: s0.fed.push(s1.fed[p]), ..s0 })
        },
    }
}

/// Two keys of the same rules are the same.
proof fn lemma_key_unique(a: Seq<usize>, b: Seq<usize>, rules: Seq<(usize, RuleIr)>)
    requires
        is_key(a, rules),
        is_key(b, rules),
    ensures
        a == b,
{
    let leq = |x: usize, y: usize| x <= y;
    assert(vstd::relations::sorted_by(a, leq)) by {
        assert forall|i: int, j: int| 0 <= i < j < a.len() implies #[trigger] leq(a[i], a[j]) by {
            assert(a[i] <= a[j]);
        }
    }
    assert(vstd::relations::sorted_by(b, leq)) by {
        assert forall|i: int, j: int| 0 <= i < j < b.len() implies #[trigger] leq(b[i], b[j]) by {
            assert(b[i] <= b[j]);
        }
    }
    vstd::seq_lib::lemma_sorted_unique(a, b, leq);
}

/// A copy of a list of indices.
fn clone_usizes(v: &Vec<usize>) -> (r: Vec<usize>)
    ensures
        r@ == v@,
{
    crate::feldera::table::clone_cols(v)
}

/// The rules of some plans and the variables of their binding rows.
fn plan_shape(plans: &Vec<(usize, JoinPlan)>) -> (r: (Vec<usize>, Vec<Vec<u32>>))
    ensures
        r.0@ == plans@.map_values(|p: (usize, JoinPlan)| p.0),
        row_views(r.1@) == plan_orders(plans@),
        r.1@.len() == r.0@.len(),
{
    let ghost po = plan_orders(plans@);
    let ghost pi = plans@.map_values(|p: (usize, JoinPlan)| p.0);
    let mut order: Vec<usize> = Vec::with_capacity(plans.len());
    let mut vars: Vec<Vec<u32>> = Vec::with_capacity(plans.len());
    for i in 0..plans.len()
        invariant
            po == plan_orders(plans@),
            pi == plans@.map_values(|p: (usize, JoinPlan)| p.0),
            vars@.len() == i,
            order@ =~= pi.take(i as int),
            row_views(vars@) =~= po.take(i as int),
    {
        let ghost v0 = vars@;
        order.push(plans[i].0);
        vars.push(clone_row(&plans[i].1.var_order));
        assert(row_views(vars@) =~= row_views(v0).push(po[i as int]));
    }
    assert(pi.take(plans@.len() as int) =~= pi);
    assert(po.take(plans@.len() as int) =~= po);
    (order, vars)
}

/// The union-find index functions that rebuild rules read, in a state that differs
/// from `s0` in its circuits only.
fn collect_transient_at(
    eg: &EGraph,
    rules: &Vec<(usize, Rc<RuleIr>)>,
    Ghost(s0): Ghost<EgState>,
) -> (funcs: Vec<FunctionId>)
    requires
        eg.wf(),
        rules_fit(s0, rule_views(rules@)),
        eg@ == (EgState { fed: eg@.fed, ..s0 }),
    ensures
        funcs@.no_duplicates(),
        forall|f: FunctionId| #[trigger]
            funcs@.contains(f) <==> is_transient(s0, rule_views(rules@), f),
{
    let ghost rv = rule_views(rules@);
    proof {
        lemma_rules_fit_fed(s0, eg@, rv);
    }
    let funcs = collect_transient(eg, rules);
    assert forall|f: FunctionId| #[trigger] funcs@.contains(f) <==> is_transient(s0, rv, f) by {
        assert(is_transient(s0, rv, f) <==> is_transient(eg@, rv, f)) by {
            assert(s0.tables == eg@.tables);
        }
    }
    funcs
}

proof fn lemma_rules_fit_fed(a: EgState, b: EgState, rules: Seq<(usize, RuleIr)>)
    requires
        b == (EgState { fed: b.fed, ..a }),
        rules_fit(a, rules),
    ensures
        rules_fit(b, rules),
{
    assert forall|i: int| 0 <= i < rules.len() implies rule_fits(b, (#[trigger] rules[i]).1) by {
        let rule = rules[i].1;
        assert(rule_fits(a, rule));
        assert forall|k: int| 0 <= k < rule.head@.len() implies op_fits(
            b,
            #[trigger] rule.head@[k],
        ) by {
            assert(op_fits(a, rule.head@[k]));
        }
        assert forall|k: int| 0 <= k < rule.body@.len() implies match #[trigger] rule.body@[k] {
            BodyOp::Atom(x) => x.func.rep < b.tables.len() && x.slots@.len()
                <= b.tables[x.func.rep as int].info.arity,
            BodyOp::Prim { id, args, ret } => b.canon.contains_key(id.rep) ==> args@.len() > 0,
        BodyOp::Differ(_, _) => true,
        } by {}
    }
}

proof fn lemma_pass_wf_fed(a: &Pass, b: &Pass, s0: EgState, s1: EgState)
    requires
        a.wf(s0),
        *b == (Pass { places: b.places, var_orders: b.var_orders, ..*a }),
        s1 == (EgState { fed: s1.fed, ..s0 }),
        b.index.ok(s1),
    ensures
        b.wf(s1),
{
    lemma_rules_fit_fed(s0, s1, rule_views(a.atom_rules@));
    lemma_rules_fit_fed(s0, s1, rule_views(a.rebuild_rules@));
    let ws = write_views(a.writes@);
    assert forall|i: int| 0 <= i < ws.len() implies write_fits(s1, #[trigger] ws[i]) by {
        assert(write_fits(s0, ws[i]));
    }
}

} // verus!
