//! Running a compiled rule, one statement at a time.
//!
//! A [`RuleRun`] says which statement is due; whoever holds the connection runs it and hands back
//! how many rows it affected.
use crate::duckdb::schema::opt_text;
use crate::duckdb::sql::{bind, bound, count_rows, count_rows_sql};
use crate::duckdb::strmap::{value_or, StrMap};
use crate::text::texts;
use vstd::prelude::*;

verus! {

/// One action of a rule, and the table it writes to.
#[derive(Debug)]
pub struct CompiledAction {
    pub sql: String,
    pub target: Option<String>,
}

/// A variant's statements when its scan is restricted to the changed ids.
#[derive(Debug)]
pub struct DeltaVariant {
    pub materialize: Option<String>,
    pub temp_table: Option<String>,
    /// The actions; none where they are the variant's own.
    pub actions: Vec<CompiledAction>,
}

/// One seminaive variant of a rule.
#[derive(Debug)]
pub struct CompiledVariant {
    /// The statement that materializes the matches.
    pub materialize: Option<String>,
    /// The table that it makes.
    pub temp_table: Option<String>,
    /// The actions, in order.
    pub actions: Vec<CompiledAction>,
    /// The table without whose news the variant has nothing to do.
    pub gate_table: Option<String>,
    /// The restricted form.
    pub delta: Option<DeltaVariant>,
}

/// A compiled rule.
#[derive(Debug)]
pub struct CompiledRule {
    pub name: String,
    pub ruleset: String,
    pub variants: Vec<CompiledVariant>,
    /// The tables of the body, without whose news the rule has nothing to do.
    pub body_tables: Vec<String>,
}

/// How gated variants are run in an iteration.
#[derive(Clone, Copy, Debug, PartialEq, Eq, Structural)]
pub enum GateMode {
    /// Over all rows.
    FullScan,
    /// Over the rows with a changed id, where the variant has that form.
    Delta,
}

/// How far the run has come: the newest row of each table, and counters.
#[derive(Debug)]
pub struct Progress {
    /// The time of the newest row of each table.
    pub watermarks: StrMap<i64>,
    /// How many rows all the actions have affected.
    pub rules_affected: u64,
    /// How many times a rule had nothing to do.
    pub rules_skipped: u64,
    /// Nanoseconds spent materializing, acting on materialized matches, and acting directly.
    pub time_mat_ns: u64,
    pub time_mat_act_ns: u64,
    pub time_act_ns: u64,
    /// Nanoseconds spent materializing and acting, by rule.
    pub rule_perf_ns: StrMap<(u64, u64)>,
}

/// What a progress holds.
#[verifier::ext_equal]
pub struct ProgressView {
    pub watermarks: Map<Seq<char>, i64>,
    pub affected: u64,
    pub skipped: u64,
    pub times: (u64, u64, u64),
    pub perf: Map<Seq<char>, (u64, u64)>,
    pub perf_order: Seq<Seq<char>>,
}

impl View for Progress {
    type V = ProgressView;

    open spec fn view(&self) -> ProgressView {
        ProgressView {
            watermarks: self.watermarks@,
            affected: self.rules_affected,
            skipped: self.rules_skipped,
            times: (self.time_mat_ns, self.time_mat_act_ns, self.time_act_ns),
            perf: self.rule_perf_ns@,
            perf_order: self.rule_perf_ns.order(),
        }
    }
}

/// The sum, modulo 2^64.
pub open spec fn wrapped(a: u64, b: u64) -> u64 {
    ((a + b) % 0x1_0000_0000_0000_0000) as u64
}

/// The sum, modulo 2^64.
pub fn wrapping(a: u64, b: u64) -> (r: u64)
    ensures
        r == wrapped(a, b),
{
    a.wrapping_add(b)
}

/// The sum, or the largest count where it does not fit.
pub open spec fn capped(a: u64, b: u64) -> u64 {
    if a + b > u64::MAX {
        u64::MAX
    } else {
        (a + b) as u64
    }
}

/// The sum, or the largest count where it does not fit.
pub fn capped_sum(a: u64, b: u64) -> (r: u64)
    ensures
        r == capped(a, b),
{
    if a > u64::MAX - b {
        u64::MAX
    } else {
        a + b
    }
}

/// The watermarks once a row came to a table at `ts`.
pub open spec fn bumped(w: Map<Seq<char>, i64>, table: Seq<char>, ts: i64) -> Map<Seq<char>, i64> {
    let now = value_or(w, table, 0);
    w.insert(
        table,
        if ts > now {
            ts
        } else {
            now
        },
    )
}

impl Progress {
    pub open spec fn wf(self) -> bool {
        self.watermarks.wf() && self.rule_perf_ns.wf()
    }

    /// Nothing has run.
    pub fn new() -> (p: Progress)
        ensures
            p.wf(),
            p@ == (ProgressView {
                watermarks: Map::empty(),
                affected: 0,
                skipped: 0,
                times: (0, 0, 0),
                perf: Map::empty(),
                perf_order: Seq::empty(),
            }),
    {
        Progress {
            watermarks: StrMap::new(),
            rules_affected: 0,
            rules_skipped: 0,
            time_mat_ns: 0,
            time_mat_act_ns: 0,
            time_act_ns: 0,
            rule_perf_ns: StrMap::new(),
        }
    }

    /// Notes that a row came to a table at `ts`.
    pub fn bump_watermark(&mut self, table: &str, ts: i64)
        requires
            old(self).wf(),
        ensures
            final(self).wf(),
            final(self)@ == (ProgressView {
                watermarks: bumped(old(self)@.watermarks, table@, ts),
                ..old(self)@
            }),
    {
        let now: i64 = self.watermarks.get_or(table, 0);
        let next: i64 = if ts > now {
            ts
        } else {
            now
        };
        self.watermarks.insert(table.to_owned(), next);
    }

    /// Counts affected rows.
    pub fn count_affected(&mut self, n: u64)
        requires
            old(self).wf(),
        ensures
            final(self).wf(),
            final(self)@ == (ProgressView {
                affected: wrapped(old(self)@.affected, n),
                ..old(self)@
            }),
    {
        self.rules_affected = wrapping(self.rules_affected, n);
    }
}

/// A watermark never goes back.
pub proof fn watermarks_never_fall(
    w: Map<Seq<char>, i64>,
    table: Seq<char>,
    ts: i64,
    other: Seq<char>,
)
    ensures
        value_or(bumped(w, table, ts), other, 0) >= value_or(w, other, 0),
        other != table ==> value_or(bumped(w, table, ts), other, 0) == value_or(w, other, 0),
        value_or(bumped(w, table, ts), table, 0) >= ts,
{
}

/// A variant's statements in a mode.
pub struct Rendering {
    pub materialize: Option<Seq<char>>,
    pub temp: Option<Seq<char>>,
    pub actions: Seq<CompiledAction>,
}

/// The statements that a variant runs: those of its restricted form, where the mode asks for it
/// and there is one; its own actions, where that form has none.
pub open spec fn rendering(v: CompiledVariant, mode: GateMode) -> Rendering {
    if mode is Delta && v.delta is Some {
        let d = v.delta->0;
        Rendering {
            materialize: opt_text(d.materialize),
            temp: opt_text(d.temp_table),
            actions: if d.actions@.len() == 0 {
                v.actions@
            } else {
                d.actions@
            },
        }
    } else {
        Rendering {
            materialize: opt_text(v.materialize),
            temp: opt_text(v.temp_table),
            actions: v.actions@,
        }
    }
}

/// Whether a variant's gate table has had a row since the rule last ran.
pub open spec fn gate_open(v: CompiledVariant, w: Map<Seq<char>, i64>, last: i64) -> bool {
    v.gate_table is None || value_or(w, v.gate_table->0@, 0) >= last
}

/// Whether one of the tables has had a row since the rule last ran.
pub open spec fn any_fresh(tables: Seq<Seq<char>>, w: Map<Seq<char>, i64>, last: i64) -> bool {
    exists|i: int| 0 <= i < tables.len() && value_or(w, #[trigger] tables[i], 0) >= last
}

/// Whether a rule has anything to look at: it has no body tables, or one of them is fresh.
pub open spec fn rule_fresh(r: CompiledRule, w: Map<Seq<char>, i64>, last: i64) -> bool {
    r.body_tables@.len() == 0 || any_fresh(texts(r.body_tables@), w, last)
}

/// Where a run stands within a variant.
#[derive(Clone, Copy, Debug, PartialEq, Eq, Structural)]
pub enum Step {
    /// Before the variant's first statement.
    Enter,
    /// Before the count of the materialized matches.
    Count,
    /// Before an action.
    Act(usize),
}

/// A rule being run.
#[derive(Debug)]
pub struct RuleRun {
    pub last: i64,
    pub cur: i64,
    pub mode: GateMode,
    pub variant: usize,
    pub step: Step,
    /// How many rows the actions have affected.
    pub total: u64,
    pub mat_ns: u64,
    pub act_ns: u64,
}

/// What a run needs next.
#[derive(Debug)]
pub enum Request {
    /// Run the statement that materializes the matches.
    Materialize(String),
    /// Count the materialized matches.
    Count(String),
    /// Run an action.
    Act(String),
    /// Nothing.
    Done,
}

/// What a request holds.
pub enum RequestView {
    Materialize(Seq<char>),
    Count(Seq<char>),
    Act(Seq<char>),
    Done,
}

impl View for Request {
    type V = RequestView;

    open spec fn view(&self) -> RequestView {
        match *self {
            Request::Materialize(s) => RequestView::Materialize(s@),
            Request::Count(s) => RequestView::Count(s@),
            Request::Act(s) => RequestView::Act(s@),
            Request::Done => RequestView::Done,
        }
    }
}

/// The place at which the next statement of a rule stands, from a place on: variants with a closed
/// gate are passed over, and so is what is left of a variant behind its last action.
pub open spec fn forward(
    r: CompiledRule,
    w: Map<Seq<char>, i64>,
    last: i64,
    mode: GateMode,
    variant: int,
    step: Step,
) -> (int, Step)
    decreases
            r.variants@.len() - variant,
            (if step is Enter {
                1int
            } else {
                0int
            }),
{
    if variant >= r.variants@.len() || variant < 0 {
        (r.variants@.len() as int, Step::Enter)
    } else {
        let v = r.variants@[variant];
        match step {
            Step::Enter => if !gate_open(v, w, last) {
                forward(r, w, last, mode, variant + 1, Step::Enter)
            } else if rendering(v, mode).materialize is Some {
                (variant, Step::Enter)
            } else {
                forward(r, w, last, mode, variant, Step::Act(0))
            },
            Step::Count => (variant, Step::Count),
            Step::Act(k) => if k < rendering(v, mode).actions.len() {
                (variant, Step::Act(k))
            } else {
                forward(r, w, last, mode, variant + 1, Step::Enter)
            },
        }
    }
}

/// The statement at a place of a rule.
pub open spec fn due(
    r: CompiledRule,
    last: i64,
    cur: i64,
    mode: GateMode,
    variant: int,
    step: Step,
) -> RequestView {
    if variant >= r.variants@.len() || variant < 0 {
        RequestView::Done
    } else {
        let e = rendering(r.variants@[variant], mode);
        match step {
            Step::Enter => RequestView::Materialize(
                bound(e.materialize->0, last as int, cur as int),
            ),
            Step::Count => RequestView::Count(count_rows(e.temp->0)),
            Step::Act(k) => RequestView::Act(
                bound(e.actions[k as int].sql@, last as int, cur as int),
            ),
        }
    }
}

/// The statement that materializes a variant's matches.
fn materialize_of(v: &CompiledVariant, mode: GateMode) -> (r: Option<&String>)
    ensures
        r is Some <==> rendering(*v, mode).materialize is Some,
        r is Some ==> rendering(*v, mode).materialize == Some(r->0@),
{
    match (mode, &v.delta) {
        (GateMode::Delta, Some(d)) => d.materialize.as_ref(),
        _ => v.materialize.as_ref(),
    }
}

/// The table of a variant's materialized matches.
fn temp_of(v: &CompiledVariant, mode: GateMode) -> (r: Option<&String>)
    ensures
        r is Some <==> rendering(*v, mode).temp is Some,
        r is Some ==> rendering(*v, mode).temp == Some(r->0@),
{
    match (mode, &v.delta) {
        (GateMode::Delta, Some(d)) => d.temp_table.as_ref(),
        _ => v.temp_table.as_ref(),
    }
}

/// A variant's actions.
fn actions_of(v: &CompiledVariant, mode: GateMode) -> (r: &Vec<CompiledAction>)
    ensures
        r@ == rendering(*v, mode).actions,
{
    match (mode, &v.delta) {
        (GateMode::Delta, Some(d)) => if d.actions.len() == 0 {
            &v.actions
        } else {
            &d.actions
        },
        _ => &v.actions,
    }
}

impl RuleRun {
    /// The run stands before a statement of the rule, or at its end.
    pub open spec fn stands(self, r: CompiledRule) -> bool {
        self.variant < r.variants@.len() ==> {
            let e = rendering(r.variants@[self.variant as int], self.mode);
            match self.step {
                Step::Enter => true,
                Step::Count => e.temp is Some,
                Step::Act(k) => k <= e.actions.len(),
            }
        }
    }

    /// The run's statement.
    pub open spec fn due(self, r: CompiledRule) -> RequestView {
        due(r, self.last, self.cur, self.mode, self.variant as int, self.step)
    }

    /// Goes to the next statement, and gives it.
    pub fn next(&mut self, rule: &CompiledRule, progress: &Progress) -> (q: Request)
        requires
            progress.wf(),
            old(self).stands(*rule),
        ensures
            final(self).stands(*rule),
            ({
                let to = forward(
                    *rule,
                    progress@.watermarks,
                    old(self).last,
                    old(self).mode,
                    old(self).variant as int,
                    old(self).step,
                );
                *final(self) == (RuleRun {
                    variant: final(self).variant,
                    step: to.1,
                    ..*old(self)
                }) && final(self).variant == to.0
            }),
            q@ == final(self).due(*rule),
            (q is Done) == (final(self).variant == rule.variants@.len()),
            q is Materialize ==> final(self).step is Enter,
            q is Count ==> final(self).step is Count,
            q is Act ==> final(self).step is Act,
    {
        let n: usize = rule.variants.len();
        let ghost w = progress@.watermarks;
        let ghost to = forward(*rule, w, self.last, self.mode, self.variant as int, self.step);
        if self.variant >= n {
            self.variant = n;
            self.step = Step::Enter;
            return Request::Done;
        }
        while self.variant < n
            invariant
                n == rule.variants@.len(),
                progress.wf(),
                w == progress@.watermarks,
                self.variant <= n,
                self.stands(*rule),
                self.last == old(self).last,
                self.cur == old(self).cur,
                self.mode == old(self).mode,
                self.total == old(self).total,
                self.mat_ns == old(self).mat_ns,
                self.act_ns == old(self).act_ns,
                to == forward(
                    *rule,
                    w,
                    old(self).last,
                    old(self).mode,
                    old(self).variant as int,
                    old(self).step,
                ),
                to == forward(*rule, w, self.last, self.mode, self.variant as int, self.step),
                self.variant == n ==> self.step is Enter,
            decreases
                    n - self.variant,
                    (if self.step is Enter {
                        1int
                    } else {
                        0int
                    }),
        {
            let v = &rule.variants[self.variant];
            match self.step {
                Step::Enter => {
                    let open = match &v.gate_table {
                        Some(t) => progress.watermarks.get_or(t.as_str(), 0) >= self.last,
                        None => true,
                    };
                    if !open {
                        self.variant = self.variant + 1;
                    } else {
                        match materialize_of(v, self.mode) {
                            Some(sql) => {
                                return Request::Materialize(
                                    bind(sql.as_str(), self.last, self.cur),
                                );
                            },
                            None => {
                                self.step = Step::Act(0);
                            },
                        }
                    }
                },
                Step::Count => {
                    match temp_of(v, self.mode) {
                        Some(t) => {
                            return Request::Count(count_rows_sql(t.as_str()));
                        },
                        None => {
                            assert(false);
                        },
                    }
                    self.step = Step::Act(0);
                },
                Step::Act(k) => {
                    let acts = actions_of(v, self.mode);
                    if k < acts.len() {
                        return Request::Act(bind(acts[k].sql.as_str(), self.last, self.cur));
                    }
                    self.variant = self.variant + 1;
                    self.step = Step::Enter;
                },
            }
        }
        Request::Done
    }

    /// The matches are materialized: they are counted next, where they have a table.
    pub fn materialized(&mut self, rule: &CompiledRule, progress: &mut Progress, ns: u64)
        requires
            old(progress).wf(),
            old(self).stands(*rule),
            old(self).variant < rule.variants@.len(),
            old(self).step is Enter,
        ensures
            final(progress).wf(),
            final(self).stands(*rule),
            *final(self) == (RuleRun {
                step: if rendering(
                    rule.variants@[old(self).variant as int],
                    old(self).mode,
                ).temp is Some {
                    Step::Count
                } else {
                    Step::Act(0)
                },
                mat_ns: wrapped(old(self).mat_ns, ns),
                ..*old(self)
            }),
            final(progress)@ == (ProgressView {
                times: (
                    wrapped(old(progress)@.times.0, ns),
                    old(progress)@.times.1,
                    old(progress)@.times.2,
                ),
                ..old(progress)@
            }),
    {
        progress.time_mat_ns = wrapping(progress.time_mat_ns, ns);
        self.mat_ns = wrapping(self.mat_ns, ns);
        if temp_of(&rule.variants[self.variant], self.mode).is_some() {
            self.step = Step::Count;
        } else {
            self.step = Step::Act(0);
        }
    }

    /// The materialized matches are counted: without any, the variant is done.
    pub fn counted(&mut self, rule: &CompiledRule, n: i64)
        requires
            old(self).stands(*rule),
            old(self).variant < rule.variants@.len(),
            old(self).step is Count,
        ensures
            final(self).stands(*rule),
            *final(self) == if n == 0 {
                RuleRun {
                    variant: (old(self).variant + 1) as usize,
                    step: Step::Enter,
                    ..*old(self)
                }
            } else {
                RuleRun { step: Step::Act(0), ..*old(self) }
            },
    {
        let variants: usize = rule.variants.len();
        if n == 0 {
            assert(self.variant < variants);
            self.variant = self.variant + 1;
            self.step = Step::Enter;
        } else {
            self.step = Step::Act(0);
        }
    }

    /// An action has affected `n` rows: the counters go up, and the table it wrote to is fresh.
    pub fn acted(&mut self, rule: &CompiledRule, progress: &mut Progress, n: u64, ns: u64)
        requires
            old(progress).wf(),
            old(self).stands(*rule),
            old(self).variant < rule.variants@.len(),
            old(self).step is Act,
            (old(self).step->Act_0) < rendering(
                rule.variants@[old(self).variant as int],
                old(self).mode,
            ).actions.len(),
        ensures
            final(progress).wf(),
            final(self).stands(*rule),
            *final(self) == (RuleRun {
                step: Step::Act((old(self).step->Act_0 + 1) as usize),
                total: capped(old(self).total, n),
                act_ns: wrapped(old(self).act_ns, ns),
                ..*old(self)
            }),
            final(progress)@ == after_action(
                old(progress)@,
                rendering(rule.variants@[old(self).variant as int], old(self).mode),
                old(self).step->Act_0 as int,
                old(self).cur,
                n,
                ns,
            ),
    {
        let v = &rule.variants[self.variant];
        let acts = actions_of(v, self.mode);
        match self.step {
            Step::Act(k) => {
                if materialize_of(v, self.mode).is_some() {
                    progress.time_mat_act_ns = wrapping(progress.time_mat_act_ns, ns);
                } else {
                    progress.time_act_ns = wrapping(progress.time_act_ns, ns);
                }
                self.act_ns = wrapping(self.act_ns, ns);
                progress.rules_affected = wrapping(progress.rules_affected, n);
                self.total = capped_sum(self.total, n);
                if n > 0 {
                    match &acts[k].target {
                        Some(t) => {
                            progress.bump_watermark(t.as_str(), self.cur);
                        },
                        None => {},
                    }
                }
                let m: usize = acts.len();
                assert(k < m);
                self.step = Step::Act(k + 1);
            },
            _ => {},
        }
    }

    /// Starts a rule, unless none of its tables has had a row since it last ran.
    pub fn start(
        rule: &CompiledRule,
        progress: &mut Progress,
        last: i64,
        cur: i64,
        mode: GateMode,
    ) -> (r: Option<RuleRun>)
        requires
            old(progress).wf(),
        ensures
            final(progress).wf(),
            r is Some <==> rule_fresh(*rule, old(progress)@.watermarks, last),
            r is Some ==> r->0 == (RuleRun {
                last,
                cur,
                mode,
                variant: 0,
                step: Step::Enter,
                total: 0,
                mat_ns: 0,
                act_ns: 0,
            }) && r->0.stands(*rule),
            final(progress)@ == if r is Some {
                old(progress)@
            } else {
                ProgressView { skipped: wrapped(old(progress)@.skipped, 1), ..old(progress)@ }
            },
    {
        let n: usize = rule.body_tables.len();
        let mut fresh = n == 0;
        for i in 0..n
            invariant
                n == rule.body_tables@.len(),
                *progress == *old(progress),
                progress.wf(),
                n == 0 ==> fresh,
                n > 0 ==> fresh == any_fresh(
                    texts(rule.body_tables@).take(i as int),
                    progress@.watermarks,
                    last,
                ),
        {
            let ghost t = texts(rule.body_tables@);
            let ghost w = progress@.watermarks;
            let now: i64 = progress.watermarks.get_or(rule.body_tables[i].as_str(), 0);
            proof {
                if any_fresh(t.take(i as int), w, last) {
                    let k = choose|k: int|
                        0 <= k < i && value_or(w, #[trigger] t.take(i as int)[k], 0) >= last;
                    assert(t.take(i + 1)[k] == t.take(i as int)[k]);
                }
                if now >= last {
                    assert(value_or(w, t.take(i + 1)[i as int], 0) >= last);
                }
                if any_fresh(t.take(i + 1), w, last) {
                    let k = choose|k: int|
                        0 <= k < i + 1 && value_or(w, #[trigger] t.take(i + 1)[k], 0) >= last;
                    if k < i {
                        assert(t.take(i as int)[k] == t.take(i + 1)[k]);
                    }
                }
            }
            if now >= last {
                fresh = true;
            }
        }
        assert(texts(rule.body_tables@).take(n as int) =~= texts(rule.body_tables@));
        if !fresh {
            progress.rules_skipped = wrapping(progress.rules_skipped, 1);
            return None;
        }
        Some(
            RuleRun {
                last,
                cur,
                mode,
                variant: 0,
                step: Step::Enter,
                total: 0,
                mat_ns: 0,
                act_ns: 0,
            },
        )
    }

    /// Ends a rule: the time it took is added to its account.
    pub fn finish(self, rule: &CompiledRule, progress: &mut Progress) -> (total: u64)
        requires
            old(progress).wf(),
        ensures
            final(progress).wf(),
            total == self.total,
            final(progress)@ == with_time(
                old(progress)@,
                rule.name@,
                self.mat_ns,
                self.act_ns,
            ),
    {
        if self.mat_ns != 0 || self.act_ns != 0 {
            let was = match progress.rule_perf_ns.get(rule.name.as_str()) {
                Some(t) => *t,
                None => (0u64, 0u64),
            };
            progress.rule_perf_ns.insert(
                rule.name.clone(),
                (wrapping(was.0, self.mat_ns), wrapping(was.1, self.act_ns)),
            );
        }
        self.total
    }
}

/// The progress once an action has affected `n` rows at time `cur`.
pub open spec fn after_action(
    p: ProgressView,
    e: Rendering,
    k: int,
    cur: i64,
    n: u64,
    ns: u64,
) -> ProgressView {
    ProgressView {
        affected: wrapped(p.affected, n),
        times: if e.materialize is Some {
            (p.times.0, wrapped(p.times.1, ns), p.times.2)
        } else {
            (p.times.0, p.times.1, wrapped(p.times.2, ns))
        },
        watermarks: if n > 0 && e.actions[k].target is Some {
            bumped(p.watermarks, e.actions[k].target->0@, cur)
        } else {
            p.watermarks
        },
        ..p
    }
}

/// The progress once a rule's time is added to its account.
pub open spec fn with_time(p: ProgressView, rule: Seq<char>, mat: u64, act: u64) -> ProgressView {
    if mat == 0 && act == 0 {
        p
    } else {
        let was = if p.perf.contains_key(rule) {
            p.perf[rule]
        } else {
            (0u64, 0u64)
        };
        ProgressView {
            perf: p.perf.insert(rule, (wrapped(was.0, mat), wrapped(was.1, act))),
            perf_order: if p.perf.contains_key(rule) {
                p.perf_order
            } else {
                p.perf_order.push(rule)
            },
            ..p
        }
    }
}

/// How many statements a rule can still run from a place on.
pub open spec fn statements_left(
    r: CompiledRule,
    mode: GateMode,
    variant: int,
    step: Step,
) -> int
    decreases r.variants@.len() - variant,
{
    if variant >= r.variants@.len() || variant < 0 {
        0
    } else {
        let actions = rendering(r.variants@[variant], mode).actions.len() as int;
        let rest = statements_left(r, mode, variant + 1, Step::Enter);
        match step {
            Step::Enter => 2 + actions + rest,
            Step::Count => 1 + actions + rest,
            Step::Act(k) => if k <= actions {
                actions - k + rest
            } else {
                rest
            },
        }
    }
}

proof fn lemma_left_positive(r: CompiledRule, mode: GateMode, variant: int, step: Step)
    ensures
        statements_left(r, mode, variant, step) >= 0,
    decreases r.variants@.len() - variant,
{
    if 0 <= variant < r.variants@.len() {
        lemma_left_positive(r, mode, variant + 1, Step::Enter);
    }
}

/// Going to the next statement leaves no more of them, and goes only forward.
pub proof fn forward_goes_on(
    r: CompiledRule,
    w: Map<Seq<char>, i64>,
    last: i64,
    mode: GateMode,
    variant: int,
    step: Step,
)
    requires
        0 <= variant <= r.variants@.len(),
    ensures
        ({
            let to = forward(r, w, last, mode, variant, step);
            &&& variant <= to.0 <= r.variants@.len()
            &&& 0 <= statements_left(r, mode, to.0, to.1) <= statements_left(
                r,
                mode,
                variant,
                step,
            )
        }),
    decreases
            r.variants@.len() - variant,
            (if step is Enter {
                1int
            } else {
                0int
            }),
{
    lemma_left_positive(r, mode, variant, step);
    if variant < r.variants@.len() {
        lemma_left_positive(r, mode, variant + 1, Step::Enter);
        match step {
            Step::Enter => {
                if !gate_open(r.variants@[variant], w, last) {
                    forward_goes_on(r, w, last, mode, variant + 1, Step::Enter);
                } else if rendering(r.variants@[variant], mode).materialize is None {
                    forward_goes_on(r, w, last, mode, variant, Step::Act(0));
                }
            },
            Step::Count => {},
            Step::Act(k) => {
                if k >= rendering(r.variants@[variant], mode).actions.len() {
                    forward_goes_on(r, w, last, mode, variant + 1, Step::Enter);
                }
            },
        }
    }
}

/// Every answer uses up a statement, so a rule ends after as many of them as it has at its start.
pub proof fn answers_use_up_statements(r: CompiledRule, mode: GateMode, variant: int, k: usize)
    requires
        0 <= variant < r.variants@.len(),
        k < rendering(r.variants@[variant], mode).actions.len(),
        k < usize::MAX,
    ensures
        statements_left(r, mode, variant, Step::Count) < statements_left(
            r,
            mode,
            variant,
            Step::Enter,
        ),
        statements_left(r, mode, variant, Step::Act(0)) < statements_left(
            r,
            mode,
            variant,
            Step::Count,
        ),
        statements_left(r, mode, variant + 1, Step::Enter) < statements_left(
            r,
            mode,
            variant,
            Step::Count,
        ),
        statements_left(r, mode, variant, Step::Act((k + 1) as usize)) < statements_left(
            r,
            mode,
            variant,
            Step::Act(k),
        ),
{
}

/// A variant that is entered has an open gate.
pub proof fn entered_gates_are_open(
    r: CompiledRule,
    w: Map<Seq<char>, i64>,
    last: i64,
    mode: GateMode,
    variant: int,
    step: Step,
)
    requires
        0 <= variant <= r.variants@.len(),
    ensures
        ({
            let to = forward(r, w, last, mode, variant, step);
            to.0 < r.variants@.len() && (to.0 > variant || step is Enter) ==> gate_open(
                r.variants@[to.0],
                w,
                last,
            )
        }),
    decreases
            r.variants@.len() - variant,
            (if step is Enter {
                1int
            } else {
                0int
            }),
{
    forward_goes_on(r, w, last, mode, variant, step);
    if variant < r.variants@.len() {
        match step {
            Step::Enter => {
                if !gate_open(r.variants@[variant], w, last) {
                    entered_gates_are_open(r, w, last, mode, variant + 1, Step::Enter);
                    forward_goes_on(r, w, last, mode, variant + 1, Step::Enter);
                } else if rendering(r.variants@[variant], mode).materialize is None {
                    entered_gates_are_open(r, w, last, mode, variant, Step::Act(0));
                    forward_goes_on(r, w, last, mode, variant, Step::Act(0));
                }
            },
            Step::Count => {},
            Step::Act(k) => {
                if k >= rendering(r.variants@[variant], mode).actions.len() {
                    entered_gates_are_open(r, w, last, mode, variant + 1, Step::Enter);
                    forward_goes_on(r, w, last, mode, variant + 1, Step::Enter);
                }
            },
        }
    }
}

/// A rule that is skipped has no new row to look at: where no row is newer than its table's
/// watermark, no body table has a row of the window that begins when the rule last ran.
pub proof fn skipped_rules_have_no_news(
    r: CompiledRule,
    w: Map<Seq<char>, i64>,
    last: i64,
    times: Map<Seq<char>, Set<i64>>,
    table: Seq<char>,
    ts: i64,
)
    requires
        !rule_fresh(r, w, last),
        texts(r.body_tables@).contains(table),
        forall|t: Seq<char>, x: i64|
            #![trigger times[t].contains(x)]
            times[t].contains(x) ==> x <= value_or(w, t, 0),
        times[table].contains(ts),
    ensures
        ts < last,
{
    let i = texts(r.body_tables@).index_of(table);
    assert(texts(r.body_tables@)[i] == table);
}

} // verus!
