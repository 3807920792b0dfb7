//! Where the time goes: accounts by rule and by phase.
use crate::duckdb::egraph::{EGraph, EgView};
use crate::duckdb::names::{classify_rule, phase_of, Phase};
use crate::duckdb::runner::{capped, capped_sum, wrapped, wrapping, CompiledRule};
use crate::duckdb::sql::{bind, bound};
use crate::text::{chars_of, find_chars, first_at, slice_chars, str_eq, string_of};
use vstd::prelude::*;
use vstd::string::*;

verus! {

/// The account of a rule.
#[derive(Debug)]
pub struct RulePerf {
    pub name: String,
    pub ruleset: String,
    /// Nanoseconds spent materializing.
    pub mat_ns: u64,
    /// Nanoseconds spent acting.
    pub act_ns: u64,
}

/// What a rule's account holds.
#[verifier::ext_equal]
pub struct RulePerfView {
    pub name: Seq<char>,
    pub ruleset: Seq<char>,
    pub mat: u64,
    pub act: u64,
}

impl View for RulePerf {
    type V = RulePerfView;

    open spec fn view(&self) -> RulePerfView {
        RulePerfView {
            name: self.name@,
            ruleset: self.ruleset@,
            mat: self.mat_ns,
            act: self.act_ns,
        }
    }
}

impl RulePerfView {
    /// All the time of the rule.
    pub open spec fn total(self) -> u64 {
        capped(self.mat, self.act)
    }
}

/// What accounts hold.
pub open spec fn perf_views(rows: Seq<RulePerf>) -> Seq<RulePerfView> {
    rows.map_values(|r: RulePerf| r@)
}

/// The accounts with one more, behind all that took no less time.
pub open spec fn placed(s: Seq<RulePerfView>, x: RulePerfView) -> Seq<RulePerfView>
    decreases s.len(),
{
    if s.len() == 0 || s.last().total() >= x.total() {
        s.push(x)
    } else {
        placed(s.drop_last(), x).push(s.last())
    }
}

/// The accounts, the longest first; those that took equally long in their order.
pub open spec fn by_time(s: Seq<RulePerfView>) -> Seq<RulePerfView>
    decreases s.len(),
{
    if s.len() == 0 {
        s
    } else {
        placed(by_time(s.drop_last()), s.last())
    }
}

/// The ruleset of a rule; empty where it is not known.
pub open spec fn ruleset_of(g: EgView, rule: Seq<char>) -> Seq<char> {
    if g.rulesets.contains_key(rule) {
        g.rulesets[rule]
    } else {
        Seq::empty()
    }
}

/// The accounts of rules.
pub open spec fn accounts(g: EgView, order: Seq<Seq<char>>) -> Seq<RulePerfView> {
    order.map_values(
        |n: Seq<char>|
            RulePerfView {
                name: n,
                ruleset: ruleset_of(g, n),
                mat: g.progress.perf[n].0,
                act: g.progress.perf[n].1,
            },
    )
}

proof fn lemma_placed(s: Seq<RulePerfView>, x: RulePerfView)
    requires
        forall|i: int, j: int| 0 <= i <= j < s.len() ==> s[i].total() >= s[j].total(),
    ensures
        forall|i: int, j: int|
            0 <= i <= j < placed(s, x).len() ==> placed(s, x)[i].total() >= placed(
                s,
                x,
            )[j].total(),
        placed(s, x).to_multiset() == s.to_multiset().insert(x),
        placed(s, x).len() == s.len() + 1,
    decreases s.len(),
{
    broadcast use vstd::seq_lib::group_to_multiset_ensures;

    if s.len() == 0 || s.last().total() >= x.total() {
        s.to_multiset_ensures();
    } else {
        let front = s.drop_last();
        lemma_placed(front, x);
        let p = placed(front, x);
        p.to_multiset_ensures();
        front.to_multiset_ensures();
        assert(front.push(s.last()) =~= s);
        assert(s.to_multiset() =~= front.to_multiset().insert(s.last()));
        assert(p.push(s.last()).to_multiset() =~= p.to_multiset().insert(s.last()));
        assert(p.to_multiset().insert(s.last()) =~= s.to_multiset().insert(x));
        assert forall|i: int| 0 <= i < p.len() implies p[i].total() >= s.last().total() by {
            assert(p.to_multiset().count(p[i]) > 0) by {
                assert(p.contains(p[i]));
            }
            if p[i] != x {
                assert(front.to_multiset().count(p[i]) > 0);
                assert(front.contains(p[i]));
                let k = choose|k: int| 0 <= k < front.len() && front[k] == p[i];
                assert(s[k].total() >= s[s.len() - 1].total());
            }
        }
    }
}

/// The accounts come with the longest first, and none is lost.
pub proof fn accounts_are_sorted(s: Seq<RulePerfView>)
    ensures
        forall|i: int, j: int|
            0 <= i <= j < by_time(s).len() ==> by_time(s)[i].total() >= by_time(s)[j].total(),
        by_time(s).to_multiset() == s.to_multiset(),
        by_time(s).len() == s.len(),
    decreases s.len(),
{
    if s.len() > 0 {
        let front = s.drop_last();
        accounts_are_sorted(front);
        lemma_placed(by_time(front), s.last());
        front.to_multiset_ensures();
        assert(front.push(s.last()) =~= s);
        assert(s.to_multiset() =~= front.to_multiset().insert(s.last()));
    }
}

/// Puts an account behind all that took no less time.
fn place(rows: &mut Vec<RulePerf>, x: RulePerf)
    ensures
        perf_views(final(rows)@) == placed(perf_views(old(rows)@), x@),
{
    let mut k: usize = rows.len();
    let t: u64 = capped_sum(x.mat_ns, x.act_ns);
    let ghost s = perf_views(rows@);
    let ghost tail = Seq::<RulePerfView>::empty();
    assert(s.take(k as int) =~= s);
    assert(placed(s, x@) =~= placed(s.take(k as int), x@) + s.skip(k as int));
    while k > 0 && capped_sum(rows[k - 1].mat_ns, rows[k - 1].act_ns) < t
        invariant
            *rows == *old(rows),
            s == perf_views(rows@),
            k <= rows@.len(),
            t == x@.total(),
            placed(s, x@) == placed(s.take(k as int), x@) + s.skip(k as int),
        decreases k,
    {
        proof {
            let f = s.take(k as int);
            assert(f.last() == s[k - 1]);
            assert(f.drop_last() =~= s.take(k - 1));
            assert(placed(f, x@) == placed(s.take(k - 1), x@).push(s[k - 1]));
            assert(placed(s, x@) =~= placed(s.take(k - 1), x@) + s.skip(k - 1));
        }
        k = k - 1;
    }
    proof {
        let f = s.take(k as int);
        if k > 0 {
            assert(f.last() == s[k - 1]);
        }
        assert(placed(f, x@) == f.push(x@));
    }
    rows.insert(k, x);
    assert(perf_views(rows@) =~= s.take(k as int).push(x@) + s.skip(k as int));
}

/// The accounts of a phase: the sums, modulo 2^64, and how many rules there are.
pub open spec fn phase_sum(g: EgView, order: Seq<Seq<char>>, p: Phase) -> (u64, u64, int)
    decreases order.len(),
{
    if order.len() == 0 {
        (0, 0, 0)
    } else {
        let front = phase_sum(g, order.drop_last(), p);
        let n = order.last();
        if phase_of(n, ruleset_of(g, n)) == p {
            (
                wrapped(front.0, g.progress.perf[n].0),
                wrapped(front.1, g.progress.perf[n].1),
                front.2 + 1,
            )
        } else {
            front
        }
    }
}

/// The account of a phase.
#[derive(Clone, Copy, Debug, PartialEq, Eq, Structural)]
pub struct PhasePerf {
    pub phase: Phase,
    pub mat_ns: u64,
    pub act_ns: u64,
    pub rules: usize,
}

impl PhasePerf {
    /// All the time of the phase.
    pub open spec fn total(self) -> u64 {
        capped(self.mat_ns, self.act_ns)
    }
}

/// The accounts with one more, behind all that took no less time; a phase without rules has none.
pub open spec fn phase_placed(s: Seq<PhasePerf>, x: PhasePerf) -> Seq<PhasePerf>
    decreases s.len(),
{
    if s.len() == 0 || s.last().total() >= x.total() {
        s.push(x)
    } else {
        phase_placed(s.drop_last(), x).push(s.last())
    }
}

/// The accounts of phases that have rules, the longest first.
pub open spec fn phases_by_time(g: EgView, phases: Seq<Phase>) -> Seq<PhasePerf>
    decreases phases.len(),
{
    if phases.len() == 0 {
        Seq::empty()
    } else {
        let front = phases_by_time(g, phases.drop_last());
        let p = phases.last();
        let t = phase_sum(g, g.progress.perf_order, p);
        if t.2 == 0 {
            front
        } else {
            phase_placed(
                front,
                PhasePerf { phase: p, mat_ns: t.0, act_ns: t.1, rules: t.2 as usize },
            )
        }
    }
}

/// All the phases.
pub open spec fn all_phases() -> Seq<Phase> {
    seq![Phase::Rebuild, Phase::Congruence, Phase::Maintenance, Phase::Cleanup, Phase::User]
}

fn place_phase(rows: &mut Vec<PhasePerf>, x: PhasePerf)
    ensures
        final(rows)@ == phase_placed(old(rows)@, x),
{
    let mut k: usize = rows.len();
    let t: u64 = capped_sum(x.mat_ns, x.act_ns);
    let ghost s = rows@;
    assert(s.take(k as int) =~= s);
    assert(phase_placed(s, x) =~= phase_placed(s.take(k as int), x) + s.skip(k as int));
    while k > 0 && capped_sum(rows[k - 1].mat_ns, rows[k - 1].act_ns) < t
        invariant
            *rows == *old(rows),
            s == rows@,
            k <= rows@.len(),
            t == x.total(),
            phase_placed(s, x) == phase_placed(s.take(k as int), x) + s.skip(k as int),
        decreases k,
    {
        proof {
            let f = s.take(k as int);
            assert(f.last() == s[k - 1]);
            assert(f.drop_last() =~= s.take(k - 1));
            assert(phase_placed(f, x) == phase_placed(s.take(k - 1), x).push(s[k - 1]));
            assert(phase_placed(s, x) =~= phase_placed(s.take(k - 1), x) + s.skip(k - 1));
        }
        k = k - 1;
    }
    proof {
        let f = s.take(k as int);
        if k > 0 {
            assert(f.last() == s[k - 1]);
        }
        assert(phase_placed(f, x) == f.push(x));
    }
    rows.insert(k, x);
    assert(rows@ =~= s.take(k as int).push(x) + s.skip(k as int));
}

/// What can be explained of a variant.
#[derive(Debug)]
pub enum Explained {
    /// It materializes nothing.
    NoMaterialize,
    /// Its statement is not of the known form.
    UnexpectedShape,
    /// The query that explains it.
    Query(String),
}

/// What is explained of a variant, as a value.
pub enum ExplainedView {
    NoMaterialize,
    UnexpectedShape,
    Query(Seq<char>),
}

impl View for Explained {
    type V = ExplainedView;

    open spec fn view(&self) -> ExplainedView {
        match *self {
            Explained::NoMaterialize => ExplainedView::NoMaterialize,
            Explained::UnexpectedShape => ExplainedView::UnexpectedShape,
            Explained::Query(s) => ExplainedView::Query(s@),
        }
    }
}

/// What can be explained of a statement that materializes matches: its query, over all the rows up
/// to `cur`.
pub open spec fn explanation(mat: Option<Seq<char>>, cur: int) -> ExplainedView {
    match mat {
        None => ExplainedView::NoMaterialize,
        Some(s) => match first_at(s, " AS SELECT "@, 0) {
            None => ExplainedView::UnexpectedShape,
            Some(i) => ExplainedView::Query("EXPLAIN ANALYZE "@ + bound(s.skip(i + 4), 0, cur)),
        },
    }
}

/// Explains a statement that materializes matches.
fn explain(mat: &Option<String>, cur: i64) -> (r: Explained)
    ensures
        r@ == explanation(crate::duckdb::schema::opt_text(*mat), cur as int),
{
    let s = match mat {
        None => return Explained::NoMaterialize,
        Some(s) => s,
    };
    let cs = chars_of(s.as_str());
    let mark = chars_of(" AS SELECT ");
    match find_chars(&cs, &mark) {
        None => Explained::UnexpectedShape,
        Some(i) => {
            proof {
                reveal_strlit(" AS SELECT ");
            }
            let inner = string_of(&slice_chars(&cs, i + 4, cs.len()));
            assert(inner@ =~= s@.skip(i + 4));
            let mut q = "EXPLAIN ANALYZE ".to_owned();
            q.append(bind(inner.as_str(), 0, cur).as_str());
            Explained::Query(q)
        },
    }
}

/// What is explained of a rule.
#[derive(Debug)]
pub struct ExplainedRule {
    pub name: String,
    pub ruleset: String,
    pub total_ns: u64,
    /// One for each variant.
    pub variants: Vec<Explained>,
}

/// The first rule with a name.
pub open spec fn rule_named(rules: Seq<CompiledRule>, name: Seq<char>, from: int) -> Option<int>
    decreases rules.len() - from,
{
    if from < 0 || from >= rules.len() {
        None
    } else if rules[from].name@ == name {
        Some(from)
    } else {
        rule_named(rules, name, from + 1)
    }
}

/// Whether `e` explains a rule.
pub open spec fn explains(e: ExplainedRule, g: EgView, p: RulePerfView, i: int) -> bool {
    let r = g.rules[i];
    &&& e.name@ == p.name
    &&& e.ruleset@ == r.ruleset@
    &&& e.total_ns == p.total()
    &&& e.variants@.len() == r.variants@.len()
    &&& forall|k: int|
        0 <= k < e.variants@.len() ==> (#[trigger] e.variants@[k])@ == explanation(
            crate::duckdb::schema::opt_text(r.variants@[k].materialize),
            g.next_ts + 1,
        )
}

/// The accounts among the first `top` whose rule is known.
pub open spec fn known_rules(g: EgView, rows: Seq<RulePerfView>) -> Seq<RulePerfView>
    decreases rows.len(),
{
    if rows.len() == 0 {
        rows
    } else if rule_named(g.rules, rows.last().name, 0) is Some {
        known_rules(g, rows.drop_last()).push(rows.last())
    } else {
        known_rules(g, rows.drop_last())
    }
}

/// The first accounts.
pub open spec fn first_rows(rows: Seq<RulePerfView>, top: nat) -> Seq<RulePerfView> {
    if top < rows.len() {
        rows.take(top as int)
    } else {
        rows
    }
}

impl EGraph {
    /// The accounts of the rules, the longest first.
    pub fn perf_per_rule(&self) -> (rows: Vec<RulePerf>)
        requires
            self.wf(),
        ensures
            perf_views(rows@) == by_time(accounts(self@, self@.progress.perf_order)),
    {
        let mut rows: Vec<RulePerf> = Vec::new();
        let perf = &self.progress.rule_perf_ns;
        let n: usize = perf.len();
        let ghost order = perf.order();
        let ghost all = accounts(self@, order);
        assert(perf_views(rows@) =~= Seq::empty());
        for i in 0..n
            invariant
                n == order.len(),
                self.wf(),
                *perf == self.progress.rule_perf_ns,
                order == perf.order(),
                all == accounts(self@, order),
                perf_views(rows@) == by_time(all.take(i as int)),
        {
            assert(all.take(i + 1).drop_last() =~= all.take(i as int));
            assert(all.take(i + 1).last() == all[i as int]);
            let name = perf.name_at(i);
            let t = *perf.val_at(i);
            let ruleset = match self.rule_to_ruleset.get(name.as_str()) {
                Some(r) => r.clone(),
                None => String::new(),
            };
            let row = RulePerf { name: name.clone(), ruleset, mat_ns: t.0, act_ns: t.1 };
            assert(row@ =~= all[i as int]);
            place(&mut rows, row);
        }
        assert(all.take(n as int) =~= all);
        rows
    }

    /// The account of a phase.
    fn sum_phase(&self, p: Phase) -> (t: (u64, u64, usize))
        requires
            self.wf(),
        ensures
            (t.0, t.1, t.2 as int) == phase_sum(self@, self@.progress.perf_order, p),
    {
        let perf = &self.progress.rule_perf_ns;
        let n: usize = perf.len();
        let ghost order = perf.order();
        let mut mat: u64 = 0;
        let mut act: u64 = 0;
        let mut rules: usize = 0;
        assert(order.take(0) =~= Seq::empty());
        for i in 0..n
            invariant
                n == order.len(),
                self.wf(),
                *perf == self.progress.rule_perf_ns,
                order == perf.order(),
                rules <= i,
                (mat, act, rules as int) == phase_sum(self@, order.take(i as int), p),
        {
            assert(order.take(i + 1).drop_last() =~= order.take(i as int));
            assert(order.take(i + 1).last() == order[i as int]);
            let name = perf.name_at(i);
            let t = *perf.val_at(i);
            let ruleset = match self.rule_to_ruleset.get(name.as_str()) {
                Some(r) => r.clone(),
                None => String::new(),
            };
            assert(ruleset@ =~= ruleset_of(self@, name@));
            if classify_rule(name.as_str(), ruleset.as_str()) == p {
                mat = wrapping(mat, t.0);
                act = wrapping(act, t.1);
                rules = rules + 1;
            }
        }
        assert(order.take(n as int) =~= order);
        (mat, act, rules)
    }

    /// The accounts of the phases that have rules, the longest first.
    pub fn perf_per_ruleset(&self) -> (rows: Vec<PhasePerf>)
        requires
            self.wf(),
        ensures
            rows@ == phases_by_time(self@, all_phases()),
    {
        let mut phases: Vec<Phase> = Vec::new();
        phases.push(Phase::Rebuild);
        phases.push(Phase::Congruence);
        phases.push(Phase::Maintenance);
        phases.push(Phase::Cleanup);
        phases.push(Phase::User);
        let ghost all = all_phases();
        assert(phases@ =~= all);
        let mut rows: Vec<PhasePerf> = Vec::new();
        for i in 0..5usize
            invariant
                self.wf(),
                phases@ == all,
                all.len() == 5,
                rows@ == phases_by_time(self@, all.take(i as int)),
        {
            assert(all.take(i + 1).drop_last() =~= all.take(i as int));
            assert(all.take(i + 1).last() == all[i as int]);
            let p = phases[i];
            let t = self.sum_phase(p);
            if t.2 != 0 {
                place_phase(
                    &mut rows,
                    PhasePerf { phase: p, mat_ns: t.0, act_ns: t.1, rules: t.2 },
                );
            }
        }
        assert(all.take(5) =~= all);
        rows
    }

    /// The position of the first rule with a name.
    fn find_rule(&self, name: &str) -> (r: Option<usize>)
        ensures
            r is Some <==> rule_named(self@.rules, name@, 0) is Some,
            r is Some ==> rule_named(self@.rules, name@, 0) == Some(r->0 as int) && r->0
                < self@.rules.len(),
    {
        let n: usize = self.rules.len();
        let mut i: usize = 0;
        while i < n
            invariant
                n == self.rules@.len(),
                i <= n,
                rule_named(self.rules@, name@, 0) == rule_named(self.rules@, name@, i as int),
            decreases n - i,
        {
            if str_eq(self.rules[i].name.as_str(), name) {
                return Some(i);
            }
            i = i + 1;
        }
        None
    }

    /// What there is to explain of the `top` rules that took longest.
    pub fn explain_top_rules(&self, top: usize) -> (r: Vec<ExplainedRule>)
        requires
            self.wf(),
            self@.next_ts < i64::MAX,
        ensures
            ({
                let rows = known_rules(
                    self@,
                    first_rows(
                        by_time(accounts(self@, self@.progress.perf_order)),
                        top as nat,
                    ),
                );
                &&& r@.len() == rows.len()
                &&& forall|i: int|
                    0 <= i < r@.len() ==> explains(
                        #[trigger] r@[i],
                        self@,
                        rows[i],
                        rule_named(self@.rules, rows[i].name, 0)->0,
                    )
            }),
    {
        let rows = self.perf_per_rule();
        let cur: i64 = self.next_ts + 1;
        let mut r: Vec<ExplainedRule> = Vec::new();
        let n: usize = if top < rows.len() {
            top
        } else {
            rows.len()
        };
        let ghost all = perf_views(rows@);
        for i in 0..n
            invariant
                n <= rows@.len(),
                self.wf(),
                cur == self@.next_ts + 1,
                all == perf_views(rows@),
                r@.len() == known_rules(self@, all.take(i as int)).len(),
                forall|k: int|
                    0 <= k < r@.len() ==> explains(
                        #[trigger] r@[k],
                        self@,
                        known_rules(self@, all.take(i as int))[k],
                        rule_named(
                            self@.rules,
                            known_rules(self@, all.take(i as int))[k].name,
                            0,
                        )->0,
                    ),
        {
            assert(all.take(i + 1).drop_last() =~= all.take(i as int));
            assert(all.take(i + 1).last() == all[i as int]);
            match self.find_rule(rows[i].name.as_str()) {
                None => {},
                Some(at) => {
                    let rule = &self.rules[at];
                    let m: usize = rule.variants.len();
                    let mut variants: Vec<Explained> = Vec::new();
                    for j in 0..m
                        invariant
                            m == rule.variants@.len(),
                            variants@.len() == j,
                            forall|k: int|
                                0 <= k < j ==> (#[trigger] variants@[k])@ == explanation(
                                    crate::duckdb::schema::opt_text(
                                        rule.variants@[k].materialize,
                                    ),
                                    cur as int,
                                ),
                    {
                        variants.push(explain(&rule.variants[j].materialize, cur));
                    }
                    r.push(
                        ExplainedRule {
                            name: rows[i].name.clone(),
                            ruleset: rule.ruleset.clone(),
                            total_ns: capped_sum(rows[i].mat_ns, rows[i].act_ns),
                            variants,
                        },
                    );
                },
            }
        }
        assert(all.take(n as int) =~= first_rows(all, top as nat));
        r
    }
}

} // verus!
