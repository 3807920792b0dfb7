//! Driving iterations: which statement or pass comes next.
//!
//! An [`Iteration`] first hands the union-finds what is new, then settles how gated variants run,
//! then runs its rules one statement at a time; the passes over the views follow. Whoever holds
//! the connection asks what is due, runs it and reports what came of it.
use crate::duckdb::egraph::{EGraph, EgView};
use crate::duckdb::iterate::{
    adaptive_id_space, as_size, changed_statements, chosen_mode, count_sum, has_gated, looked_at,
    moved_in, moved_total, planned, row_total, synced, Selection, UnionRow,
};
use crate::duckdb::names::stem;
use crate::duckdb::runner::{
    after_action, capped, capped_sum, forward, rendering, rule_fresh,
    with_time, wrapped, CompiledRule, GateMode, ProgressView, Request, RequestView, RuleRun, Step,
};
use crate::text::texts;
use vstd::prelude::*;

verus! {

/// What an iteration waits for.
#[derive(Clone, Copy, Debug, PartialEq, Eq, Structural)]
pub enum Stage {
    /// The unions that are new.
    Sync,
    /// How many rows full scans read, and how many changed ids are few compared to that.
    Decide,
    /// Statements of rules.
    Rules,
}

/// One iteration over the rules of a selection.
#[derive(Debug)]
pub struct Iteration {
    pub selection: Selection,
    pub stage: Stage,
    /// Whether a rule with a gated variant is selected.
    pub gated: bool,
    pub mode: GateMode,
    /// How many changes of leader the sync has brought.
    pub displaced: usize,
    /// The rules that run, each with the time at which it last ran.
    pub plan: Vec<(usize, i64)>,
    pub pos: usize,
    /// The rule that is under way.
    pub run: Option<RuleRun>,
    /// How many rows and ids the iteration has changed.
    pub total: u64,
}

/// Where an iteration stands among its rules.
#[verifier::ext_equal]
pub struct Place {
    pub pos: int,
    pub run: Option<RuleRun>,
    pub total: u64,
}

/// A rule at its start.
pub open spec fn started(last: i64, cur: i64, mode: GateMode) -> RuleRun {
    RuleRun { last, cur, mode, variant: 0, step: Step::Enter, total: 0, mat_ns: 0, act_ns: 0 }
}

/// The e-graph once a rule has run in the current iteration.
pub open spec fn rule_ended(g: EgView, rule: int) -> EgView {
    EgView { last_run_at: g.last_run_at.insert(g.rules[rule].name@, g.next_ts), ..g }
}

/// The e-graph and the place once the iteration stands before its next statement, or behind its
/// last rule. A rule whose tables have no news is passed over; it counts as run all the same.
pub open spec fn advanced(g: EgView, plan: Seq<(usize, i64)>, mode: GateMode, p: Place) -> (
    EgView,
    Place,
)
    decreases
            plan.len() - p.pos,
            (if p.run is None {
                1int
            } else {
                0int
            }),
{
    if p.pos < 0 || p.pos >= plan.len() {
        (g, p)
    } else {
        let i = plan[p.pos].0 as int;
        let r = g.rules[i];
        match p.run {
            None => if rule_fresh(r, g.progress.watermarks, plan[p.pos].1) {
                advanced(
                    g,
                    plan,
                    mode,
                    Place { run: Some(started(plan[p.pos].1, g.next_ts, mode)), ..p },
                )
            } else {
                advanced(
                    rule_ended(
                        EgView {
                            progress: ProgressView {
                                skipped: wrapped(g.progress.skipped, 1),
                                ..g.progress
                            },
                            ..g
                        },
                        i,
                    ),
                    plan,
                    mode,
                    Place { pos: p.pos + 1, ..p },
                )
            },
            Some(run) => {
                let to = forward(
                    r,
                    g.progress.watermarks,
                    run.last,
                    run.mode,
                    run.variant as int,
                    run.step,
                );
                if to.0 < r.variants@.len() {
                    (
                        g,
                        Place {
                            run: Some(RuleRun { variant: to.0 as usize, step: to.1, ..run }),
                            ..p
                        },
                    )
                } else {
                    advanced(
                        rule_ended(
                            EgView {
                                progress: with_time(g.progress, r.name@, run.mat_ns, run.act_ns),
                                ..g
                            },
                            i,
                        ),
                        plan,
                        mode,
                        Place { pos: p.pos + 1, run: None, total: capped(p.total, run.total) },
                    )
                }
            },
        }
    }
}

/// Going to the next statement goes only forward, and changes nothing but accounts and the times at
/// which rules last ran.
pub proof fn advancing_goes_on(g: EgView, plan: Seq<(usize, i64)>, mode: GateMode, p: Place)
    requires
        0 <= p.pos <= plan.len(),
    ensures
        ({
            let (g2, p2) = advanced(g, plan, mode, p);
            &&& p.pos <= p2.pos <= plan.len()
            &&& g2 == (EgView {
                progress: ProgressView {
                    skipped: g2.progress.skipped,
                    perf: g2.progress.perf,
                    perf_order: g2.progress.perf_order,
                    ..g.progress
                },
                last_run_at: g2.last_run_at,
                ..g
            })
        }),
    decreases
            plan.len() - p.pos,
            (if p.run is None {
                1int
            } else {
                0int
            }),
{
    if p.pos < plan.len() {
        let i = plan[p.pos].0 as int;
        let r = g.rules[i];
        match p.run {
            None => {
                if rule_fresh(r, g.progress.watermarks, plan[p.pos].1) {
                    advancing_goes_on(
                        g,
                        plan,
                        mode,
                        Place { run: Some(started(plan[p.pos].1, g.next_ts, mode)), ..p },
                    );
                } else {
                    advancing_goes_on(
                        rule_ended(
                            EgView {
                                progress: ProgressView {
                                    skipped: wrapped(g.progress.skipped, 1),
                                    ..g.progress
                                },
                                ..g
                            },
                            i,
                        ),
                        plan,
                        mode,
                        Place { pos: p.pos + 1, ..p },
                    );
                }
            },
            Some(run) => {
                let to = forward(
                    r,
                    g.progress.watermarks,
                    run.last,
                    run.mode,
                    run.variant as int,
                    run.step,
                );
                if to.0 >= r.variants@.len() {
                    advancing_goes_on(
                        rule_ended(
                            EgView {
                                progress: with_time(g.progress, r.name@, run.mat_ns, run.act_ns),
                                ..g
                            },
                            i,
                        ),
                        plan,
                        mode,
                        Place { pos: p.pos + 1, run: None, total: capped(p.total, run.total) },
                    );
                }
            },
        }
    }
}

/// The statement that is due.
pub open spec fn statement_due(g: EgView, plan: Seq<(usize, i64)>, p: Place) -> RequestView {
    match p.run {
        None => RequestView::Done,
        Some(run) => run.due(g.rules[plan[p.pos].0 as int]),
    }
}

impl Iteration {
    /// Where the iteration stands among its rules.
    pub open spec fn place(self) -> Place {
        Place { pos: self.pos as int, run: self.run, total: self.total }
    }

    /// The plan speaks of rules of the e-graph, and the rule under way stands at one of its
    /// statements.
    pub open spec fn wf(self, g: EgView) -> bool {
        &&& forall|k: int| 0 <= k < self.plan@.len() ==> (#[trigger] self.plan@[k]).0 < g.rules.len()
        &&& self.pos <= self.plan@.len()
        &&& self.run matches Some(run) ==> (self.pos < self.plan@.len() && run.stands(
            g.rules[self.plan@[self.pos as int].0 as int],
        ))
    }

    /// The rule under way.
    pub open spec fn rule(self, g: EgView) -> CompiledRule {
        g.rules[self.plan@[self.pos as int].0 as int]
    }

    /// An iteration that waits for the unions that are new.
    fn begin(selection: Selection) -> (it: Iteration)
        ensures
            it == (Iteration {
                selection,
                stage: Stage::Sync,
                gated: false,
                mode: GateMode::FullScan,
                displaced: 0,
                plan: it.plan,
                pos: 0,
                run: None,
                total: 0,
            }),
            it.plan@.len() == 0,
    {
        Iteration {
            selection,
            stage: Stage::Sync,
            gated: false,
            mode: GateMode::FullScan,
            displaced: 0,
            plan: Vec::new(),
            pos: 0,
            run: None,
            total: 0,
        }
    }
}

/// Whether an iteration is at its start.
pub open spec fn at_start(it: Iteration) -> bool {
    &&& it.stage is Sync
    &&& !it.gated
    &&& it.mode is FullScan
    &&& it.displaced == 0
    &&& it.plan@.len() == 0
    &&& it.pos == 0
    &&& it.run is None
    &&& it.total == 0
}

/// The rules that run once an iteration has begun, and where it stands.
pub open spec fn has_begun(old_it: Iteration, it: Iteration, g: EgView, g2: EgView) -> bool {
    &&& it.selection == old_it.selection
    &&& it.stage is Rules
    &&& it.gated == old_it.gated
    &&& it.displaced == old_it.displaced
    &&& it.plan@ == planned(g, it.selection, looked_at(g, it.selection))
    &&& it.pos == 0
    &&& it.run is None
    &&& it.total == old_it.displaced
    &&& g2 == (EgView {
        next_ts: (g.next_ts + 1) as i64,
        progress: ProgressView {
            affected: wrapped(g.progress.affected, old_it.displaced as u64),
            ..g.progress
        },
        ..g
    })
}

/// The rules of a plan are rules of the e-graph.
proof fn lemma_planned_in_range(g: EgView, s: Selection, at: Seq<usize>, k: int)
    requires
        0 <= k < planned(g, s, at).len(),
    ensures
        planned(g, s, at)[k].0 < g.rules.len(),
    decreases at.len(),
{
    if at.len() > 0 && k < planned(g, s, at.drop_last()).len() {
        lemma_planned_in_range(g, s, at.drop_last(), k);
    }
}

impl EGraph {
    /// An iteration over the rules of a ruleset, or over all of them.
    pub fn run_iteration_in(&self, ruleset: Option<&str>) -> (it: Iteration)
        ensures
            at_start(it),
            it.selection matches Selection::Ruleset(r) && (r is Some <==> ruleset is Some) && (r
                is Some ==> r->0@ == ruleset->0@),
    {
        Iteration::begin(
            Selection::Ruleset(
                match ruleset {
                    Some(r) => Some(r.to_owned()),
                    None => None,
                },
            ),
        )
    }

    /// An iteration over all rules.
    pub fn run_iteration(&self) -> (it: Iteration)
        ensures
            at_start(it),
            it.selection matches Selection::Ruleset(None),
    {
        self.run_iteration_in(None)
    }

    /// An iteration over the rules of some rulesets; over all, where none is named.
    pub fn run_iteration_in_set(&self, allowed: Vec<String>) -> (it: Iteration)
        ensures
            at_start(it),
            it.selection == Selection::Any(allowed),
    {
        Iteration::begin(Selection::Any(allowed))
    }

    /// An iteration over the rules at the given positions.
    pub fn run_iteration_for_indices(&self, indices: Vec<usize>) -> (it: Iteration)
        ensures
            at_start(it),
            it.selection == Selection::Indices(indices),
    {
        Iteration::begin(Selection::Indices(indices))
    }
}

impl Iteration {
    /// Lets the rules begin.
    fn begin_rules(&mut self, eg: &mut EGraph)
        requires
            old(eg).wf(),
            old(eg)@.next_ts < i64::MAX,
        ensures
            final(eg).wf(),
            has_begun(*old(self), *final(self), old(eg)@, final(eg)@),
            final(self).mode == old(self).mode,
            final(self).wf(final(eg)@),
    {
        let plan = eg.begin_iteration(&self.selection, self.displaced);
        self.plan = plan;
        self.pos = 0;
        self.run = None;
        self.total = self.displaced as u64;
        self.stage = Stage::Rules;
        proof {
            let at = looked_at(old(eg)@, self.selection);
            assert forall|k: int| 0 <= k < self.plan@.len() implies (#[trigger] self.plan@[k]).0
                < eg@.rules.len() by {
                lemma_planned_in_range(old(eg)@, self.selection, at, k);
            }
        }
    }

    /// Hands the union-finds the unions that were read for them. With the in-core union-find on
    /// and a gated variant selected, the mode is decided next; else the rules begin, and gated
    /// variants scan all rows.
    pub fn synced(&mut self, eg: &mut EGraph, rows: &Vec<Option<Vec<UnionRow>>>)
        requires
            old(self).stage is Sync,
            at_start(*old(self)),
            old(eg).wf(),
            old(eg)@.next_ts < i64::MAX,
            rows@.len() == old(eg)@.ufs.len(),
        ensures
            final(eg).wf(),
            final(self).gated == has_gated(old(eg)@, old(self).selection),
            exists|mid: EgView, n: usize| #[trigger]
                has_synced(old(eg)@, rows@, mid, n) && final(self).displaced == n && if old(
                    eg,
                )@.native_uf && final(self).gated {
                    &&& final(eg)@ == mid
                    &&& *final(self) == (Iteration {
                        stage: Stage::Decide,
                        gated: true,
                        displaced: n,
                        ..*old(self)
                    })
                } else {
                    &&& has_begun(
                        Iteration { gated: final(self).gated, displaced: n, ..*old(self) },
                        *final(self),
                        mid,
                        final(eg)@,
                    )
                    &&& final(self).mode is FullScan
                    &&& final(self).wf(final(eg)@)
                },
    {
        let n: usize = eg.sync_native_ufs(rows);
        let ghost mid = eg@;
        self.displaced = n;
        self.gated = eg.selection_gated(&self.selection);
        proof {
            lemma_gated_same(old(eg)@, mid, self.selection);
            assert(has_synced(old(eg)@, rows@, mid, n));
        }
        if eg.native_uf_enabled && self.gated {
            self.stage = Stage::Decide;
        } else {
            self.begin_rules(eg);
        }
    }

    /// How many rows full scans read, given how many rows the scanned tables have.
    pub fn id_space(&self, counts: &Vec<i64>) -> (n: usize)
        ensures
            n == as_size(count_sum(counts@)),
    {
        adaptive_id_space(counts)
    }

    /// Decides how gated variants run, and lets the rules begin. Gives the statements that make
    /// the table of changed ids, where it is needed.
    pub fn decide(&mut self, eg: &mut EGraph, id_space: usize, threshold: usize) -> (stmts: Vec<
        String,
    >)
        requires
            old(self).stage is Decide,
            old(eg).wf(),
            old(eg)@.next_ts < i64::MAX,
        ensures
            final(eg).wf(),
            has_begun(*old(self), *final(self), old(eg)@, final(eg)@),
            final(self).mode == chosen_mode(old(eg)@, id_space, threshold),
            final(self).wf(final(eg)@),
            texts(stmts@) == if final(self).mode is Delta {
                changed_statements(old(eg)@.changed)
            } else {
                Seq::empty()
            },
    {
        self.mode = eg.adaptive_gate_mode(id_space, threshold);
        let stmts = match self.mode {
            GateMode::Delta => eg.materialize_uf_changed(),
            GateMode::FullScan => {
                let none: Vec<String> = Vec::new();
                assert(texts(none@) =~= Seq::empty());
                none
            },
        };
        self.begin_rules(eg);
        stmts
    }

    /// Goes to the next statement of the rules, and gives it.
    pub fn next(&mut self, eg: &mut EGraph) -> (q: Request)
        requires
            old(self).stage is Rules,
            old(eg).wf(),
            old(self).wf(old(eg)@),
        ensures
            final(eg).wf(),
            final(self).wf(final(eg)@),
            (final(eg)@, final(self).place()) == advanced(
                old(eg)@,
                old(self).plan@,
                old(self).mode,
                old(self).place(),
            ),
            *final(self) == (Iteration {
                pos: final(self).pos,
                run: final(self).run,
                total: final(self).total,
                ..*old(self)
            }),
            q@ == statement_due(final(eg)@, final(self).plan@, final(self).place()),
            (q is Done) == (final(self).pos == final(self).plan@.len()),
            q is Done ==> final(self).run is None,
            !(q is Done) ==> final(self).run is Some,
            q is Materialize ==> final(self).run->0.step is Enter,
            q is Count ==> final(self).run->0.step is Count,
            q is Act ==> final(self).run->0.step is Act,
    {
        let n: usize = self.plan.len();
        let ghost goal = advanced(eg@, self.plan@, self.mode, self.place());
        while self.pos < n
            invariant
                n == self.plan@.len(),
                self.plan == old(self).plan,
                self.mode == old(self).mode,
                self.selection == old(self).selection,
                self.stage == old(self).stage,
                self.gated == old(self).gated,
                self.displaced == old(self).displaced,
                eg.wf(),
                self.wf(eg@),
                goal == advanced(old(eg)@, old(self).plan@, old(self).mode, old(self).place()),
                goal == advanced(eg@, self.plan@, self.mode, self.place()),
            decreases
                    n - self.pos,
                    (if self.run is None {
                        1int
                    } else {
                        0int
                    }),
        {
            let (at, last) = self.plan[self.pos];
            assert(self.plan@[self.pos as int].0 < eg@.rules.len());
            let ghost g0 = eg@;
            let ghost p0 = self.place();
            let mut taken: Option<RuleRun> = None;
            std::mem::swap(&mut self.run, &mut taken);
            match taken {
                None => {
                    let cur: i64 = eg.next_ts;
                    match RuleRun::start(&eg.rules[at], &mut eg.progress, last, cur, self.mode) {
                        Some(run) => {
                            self.run = Some(run);
                        },
                        None => {
                            eg.end_rule(at);
                            self.pos = self.pos + 1;
                        },
                    }
                },
                Some(run0) => {
                    let mut run = run0;
                    let q = run.next(&eg.rules[at], &eg.progress);
                    match q {
                        Request::Done => {
                            let rows: u64 = run.finish(&eg.rules[at], &mut eg.progress);
                            eg.end_rule(at);
                            self.total = capped_sum(self.total, rows);
                            self.pos = self.pos + 1;
                        },
                        _ => {
                            self.run = Some(run);
                            return q;
                        },
                    }
                },
            }
        }
        Request::Done
    }
}

/// What a sync does to an e-graph.
pub open spec fn has_synced(
    g: EgView,
    rows: Seq<Option<Vec<UnionRow>>>,
    g2: EgView,
    total: usize,
) -> bool {
    &&& g2 == (EgView {
        ufs: g2.ufs,
        unions_synced: ((g.unions_synced + row_total(rows)) % 0x1_0000_0000_0000_0000) as u64,
        changed: g2.changed,
        recent: if g.native_uf && rows.len() > 0 {
            total
        } else {
            g.recent
        },
        ..g
    })
    &&& g2.ufs.len() == g.ufs.len()
    &&& forall|i: int|
        0 <= i < rows.len() ==> match #[trigger] rows[i] {
            Some(r) => synced(g.ufs[i], r@, g2.ufs[i]),
            None => g2.ufs[i] == g.ufs[i],
        }
    &&& forall|x: i64| #[trigger]
        g2.changed.contains(x) <==> g.changed.contains(x) || (g.native_uf && moved_in(
            g.ufs,
            g2.ufs,
            x,
        ))
    &&& total == vstd::math::min(
        moved_total(g.ufs, g2.ufs, g.ufs.len()) as int,
        usize::MAX as int,
    )
    &&& total == 0 <==> forall|x: i64| !#[trigger] moved_in(g.ufs, g2.ufs, x)
}

/// A sync changes nothing that a selection looks at.
proof fn lemma_gated_same(g: EgView, g2: EgView, s: Selection)
    requires
        g.rules == g2.rules,
        g.native_uf == g2.native_uf,
    ensures
        has_gated(g, s) == has_gated(g2, s),
{
    match s {
        Selection::Indices(v) => {},
        _ => {
            assert forall|k: int| 0 <= k < g.rules.len() implies crate::duckdb::iterate::takes(
                g,
                s,
                #[trigger] g.rules[k],
            ) == crate::duckdb::iterate::takes(g2, s, g2.rules[k]) by {}
            if has_gated(g, s) {
                let k = choose|k: int|
                    0 <= k < g.rules.len() && crate::duckdb::iterate::takes(
                        g,
                        s,
                        #[trigger] g.rules[k],
                    ) && crate::duckdb::iterate::gated(g.rules[k]);
                assert(crate::duckdb::iterate::takes(g2, s, g2.rules[k]));
            }
            if has_gated(g2, s) {
                let k = choose|k: int|
                    0 <= k < g2.rules.len() && crate::duckdb::iterate::takes(
                        g2,
                        s,
                        #[trigger] g2.rules[k],
                    ) && crate::duckdb::iterate::gated(g2.rules[k]);
                assert(crate::duckdb::iterate::takes(g, s, g.rules[k]));
            }
        },
    }
}

impl Iteration {
    /// The rule's matches are materialized, in `ns` nanoseconds.
    pub fn materialized(&mut self, eg: &mut EGraph, ns: u64)
        requires
            old(eg).wf(),
            old(self).wf(old(eg)@),
            old(self).run matches Some(run) && run.step is Enter && run.variant < old(self).rule(
                old(eg)@,
            ).variants@.len(),
        ensures
            final(eg).wf(),
            final(self).wf(final(eg)@),
            final(eg)@ == (EgView {
                progress: ProgressView {
                    times: (
                        wrapped(old(eg)@.progress.times.0, ns),
                        old(eg)@.progress.times.1,
                        old(eg)@.progress.times.2,
                    ),
                    ..old(eg)@.progress
                },
                ..old(eg)@
            }),
            *final(self) == (Iteration {
                run: Some(
                    RuleRun {
                        step: if rendering(
                            old(self).rule(old(eg)@).variants@[old(self).run->0.variant as int],
                            old(self).run->0.mode,
                        ).temp is Some {
                            Step::Count
                        } else {
                            Step::Act(0)
                        },
                        mat_ns: wrapped(old(self).run->0.mat_ns, ns),
                        ..old(self).run->0
                    },
                ),
                ..*old(self)
            }),
    {
        let at: usize = self.plan[self.pos].0;
        let mut taken: Option<RuleRun> = None;
        std::mem::swap(&mut self.run, &mut taken);
        match taken {
            Some(r) => {
                let mut run = r;
                run.materialized(&eg.rules[at], &mut eg.progress, ns);
                self.run = Some(run);
            },
            None => {},
        }
    }

    /// The materialized matches are counted.
    pub fn counted(&mut self, eg: &EGraph, n: i64)
        requires
            old(self).wf(eg@),
            old(self).run matches Some(run) && run.step is Count && run.variant < old(self).rule(
                eg@,
            ).variants@.len(),
        ensures
            final(self).wf(eg@),
            *final(self) == (Iteration {
                run: Some(
                    if n == 0 {
                        RuleRun {
                            variant: (old(self).run->0.variant + 1) as usize,
                            step: Step::Enter,
                            ..old(self).run->0
                        }
                    } else {
                        RuleRun { step: Step::Act(0), ..old(self).run->0 }
                    },
                ),
                ..*old(self)
            }),
    {
        let at: usize = self.plan[self.pos].0;
        let mut taken: Option<RuleRun> = None;
        std::mem::swap(&mut self.run, &mut taken);
        match taken {
            Some(r) => {
                let mut run = r;
                run.counted(&eg.rules[at], n);
                self.run = Some(run);
            },
            None => {},
        }
    }

    /// An action has affected `n` rows, in `ns` nanoseconds.
    pub fn acted(&mut self, eg: &mut EGraph, n: u64, ns: u64)
        requires
            old(eg).wf(),
            old(self).wf(old(eg)@),
            old(self).run matches Some(run) && run.step is Act && run.variant < old(self).rule(
                old(eg)@,
            ).variants@.len() && (run.step->Act_0) < rendering(
                old(self).rule(old(eg)@).variants@[run.variant as int],
                run.mode,
            ).actions.len(),
        ensures
            final(eg).wf(),
            final(self).wf(final(eg)@),
            final(eg)@ == (EgView {
                progress: after_action(
                    old(eg)@.progress,
                    rendering(
                        old(self).rule(old(eg)@).variants@[old(self).run->0.variant as int],
                        old(self).run->0.mode,
                    ),
                    old(self).run->0.step->Act_0 as int,
                    old(self).run->0.cur,
                    n,
                    ns,
                ),
                ..old(eg)@
            }),
            *final(self) == (Iteration {
                run: Some(
                    RuleRun {
                        step: Step::Act((old(self).run->0.step->Act_0 + 1) as usize),
                        total: capped(old(self).run->0.total, n),
                        act_ns: wrapped(old(self).run->0.act_ns, ns),
                        ..old(self).run->0
                    },
                ),
                ..*old(self)
            }),
    {
        let at: usize = self.plan[self.pos].0;
        let mut taken: Option<RuleRun> = None;
        std::mem::swap(&mut self.run, &mut taken);
        match taken {
            Some(r) => {
                let mut run = r;
                run.acted(&eg.rules[at], &mut eg.progress, n, ns);
                self.run = Some(run);
            },
            None => {},
        }
    }

    /// Whether the views whose merge builds terms are merged behind the rules: after the rules at
    /// given positions, and after those of a program or of the rebuild.
    pub fn merges_follow(&self, eg: &EGraph) -> (b: bool)
        ensures
            b == merge_pass(eg@, self.selection),
    {
        match &self.selection {
            Selection::Indices(_) => eg.native_uf_enabled,
            Selection::Ruleset(rs) => eg.passes_follow(
                match rs {
                    Some(r) => Some(r.as_str()),
                    None => None,
                },
            ),
            Selection::Any(_) => false,
        }
    }

    /// Whether the inline congruence pass follows the merges.
    pub fn inline_follows(&self, eg: &EGraph) -> (b: bool)
        ensures
            b == (merge_pass(eg@, self.selection) && self.selection is Ruleset),
    {
        match &self.selection {
            Selection::Ruleset(_) => self.merges_follow(eg),
            _ => false,
        }
    }

    /// Whether the native congruence pass follows the merges.
    pub fn native_follows(&self, eg: &EGraph) -> (b: bool)
        ensures
            b == (merge_pass(eg@, self.selection) && self.selection is Indices),
    {
        match &self.selection {
            Selection::Indices(_) => self.merges_follow(eg),
            _ => false,
        }
    }

    /// Adds what a pass has changed.
    pub fn passed(&mut self, n: u64)
        ensures
            *final(self) == (Iteration { total: capped(old(self).total, n), ..*old(self) }),
    {
        self.total = capped_sum(self.total, n);
    }

    /// Whether all rows were scanned by gated variants, so that the changed ids may be forgotten.
    pub fn scanned_all(&self) -> (b: bool)
        ensures
            b == (self.gated && self.mode is FullScan),
    {
        self.gated && self.mode == GateMode::FullScan
    }
}

/// Whether the views whose merge builds terms are merged behind the rules of a selection.
pub open spec fn merge_pass(g: EgView, s: Selection) -> bool {
    g.native_uf && match s {
        Selection::Indices(_) => true,
        Selection::Ruleset(rs) => rs is None || stem(rs->0@) == "rebuilding"@,
        Selection::Any(_) => false,
    }
}

/// Iterations over a ruleset until one changes nothing.
#[derive(Debug)]
pub struct Saturation {
    pub ruleset: Option<String>,
    /// How many iterations there were.
    pub iters: u64,
}

impl Saturation {
    /// The next iteration.
    pub fn iteration(&mut self, eg: &EGraph) -> (it: Iteration)
        ensures
            at_start(it),
            it.selection matches Selection::Ruleset(r) && crate::duckdb::schema::opt_text(r)
                == crate::duckdb::schema::opt_text(old(self).ruleset),
            *final(self) == (Saturation { iters: capped(old(self).iters, 1), ..*old(self) }),
    {
        self.iters = capped_sum(self.iters, 1);
        match &self.ruleset {
            Some(r) => eg.run_iteration_in(Some(r.as_str())),
            None => eg.run_iteration_in(None),
        }
    }

    /// How many iterations there were and the time of the last one, where it changed nothing.
    pub fn ended(&self, eg: &EGraph, total: u64) -> (r: Option<(u64, i64)>)
        ensures
            r == if total == 0 {
                Some((self.iters, eg@.next_ts))
            } else {
                None
            },
    {
        if total == 0 {
            Some((self.iters, eg.next_ts))
        } else {
            None
        }
    }
}

impl EGraph {
    /// Iterations over a ruleset, or over all rules, until one changes nothing.
    pub fn run_to_saturation_in(&self, ruleset: Option<&str>) -> (s: Saturation)
        ensures
            s.iters == 0,
            s.ruleset is Some <==> ruleset is Some,
            s.ruleset is Some ==> s.ruleset->0@ == ruleset->0@,
    {
        Saturation {
            ruleset: match ruleset {
                Some(r) => Some(r.to_owned()),
                None => None,
            },
            iters: 0,
        }
    }

    /// Iterations over all rules until one changes nothing.
    pub fn run_to_saturation(&self) -> (s: Saturation)
        ensures
            s.iters == 0,
            s.ruleset is None,
    {
        self.run_to_saturation_in(None)
    }
}

} // verus!
