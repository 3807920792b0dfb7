//! Rounds of rules, with the join circuit stood in for by nested loops over the library's steps.
use egglog_backends::backend::{
    ColumnTy, DefaultVal, ExternalFunctionId, FunctionConfig, FunctionId, MergeFn, QueryEntry,
    RuleId, Value,
};
use egglog_backends::feldera::compile::{BodyAtom, BodyOp, HeadOp, RuleIr, Slot};
use egglog_backends::feldera::egraph::{EGraph, UfError};
use egglog_backends::feldera::finish::RunError;
use egglog_backends::feldera::head::HeadError;
use egglog_backends::feldera::join::{
    apply_step, bind_atom, join_stages, late_deltas, late_plans, merge_atom_into, read_binding,
    BindingDelta,
};
use egglog_backends::feldera::plan::{plan_join, Ineligible, JoinPlan, PrimOp};
use egglog_backends::feldera::rebuild::{rebuild_rule_plan, RebuildError};
use egglog_backends::feldera::row::{Row, Row32};
use egglog_backends::feldera::rule_builder::{FelderaRuleBuilder, RunPlan};
use std::collections::{BTreeMap, BTreeSet, HashMap};

type Bindings = BTreeMap<Vec<u32>, i64>;

/// A circuit for one set of rules: its plans, the rows it was fed, the bindings it gave.
struct Circuit {
    plans: Vec<JoinPlan>,
    rows: HashMap<u32, BTreeMap<Vec<u32>, i64>>,
    given: Vec<Bindings>,
}

/// All bindings of a plan over the rows.
fn evaluate<F: Fn(ExternalFunctionId, &Vec<u32>) -> Option<u32>>(
    plan: &JoinPlan,
    rows: &HashMap<u32, BTreeMap<Vec<u32>, i64>>,
    prim: &F,
) -> Bindings {
    let stages = join_stages(plan);
    let mut bindings: Vec<Row32> = Vec::new();
    for (i, atom) in plan.atoms.iter().enumerate() {
        let table: Vec<Row32> = rows
            .get(&atom.func.rep())
            .map(|t| t.keys().map(|r| Row32::pack(r)).collect())
            .unwrap_or_default();
        let mut next: Vec<Row32> = Vec::new();
        if i == 0 {
            for r in &table {
                if let Some(b) = bind_atom(r, &atom.slots, &plan.var_order, &plan.var_col) {
                    next.push(b);
                }
            }
        } else {
            for b in &bindings {
                for r in &table {
                    let merged = merge_atom_into(
                        b,
                        r,
                        &atom.slots,
                        &plan.var_order,
                        &plan.var_col,
                        &stages[i].bound,
                    );
                    if let Some(m) = merged {
                        next.push(m);
                    }
                }
            }
        }
        next.retain(|b| stages[i].guards.iter().all(|g| plan.guards[*g].eval(b)));
        bindings = next;
    }
    for step in &plan.steps {
        bindings = bindings.iter().filter_map(|b| apply_step(step, b, prim)).collect();
    }
    let mut out = Bindings::new();
    for b in &bindings {
        *out.entry(read_binding(b, plan.n_vars())).or_insert(0) += 1;
    }
    out
}

impl Circuit {
    fn new(plans: Vec<JoinPlan>) -> Circuit {
        let given = plans.iter().map(|_| Bindings::new()).collect();
        Circuit { plans, rows: HashMap::new(), given }
    }

    /// Takes changes of rows, and gives the changes of the bindings, rule by rule.
    fn step<F: Fn(ExternalFunctionId, &Vec<u32>) -> Option<u32>>(
        &mut self,
        deltas: &[(FunctionId, Vec<(Vec<u32>, i64)>)],
        prim: &F,
    ) -> Vec<Vec<(Vec<u32>, i64)>> {
        for (f, rows) in deltas {
            let table = self.rows.entry(f.rep()).or_default();
            for (r, w) in rows {
                let n = table.entry(r.clone()).or_insert(0);
                *n += w;
                if *n == 0 {
                    table.remove(r);
                }
            }
        }
        let mut out = Vec::new();
        for (i, plan) in self.plans.iter().enumerate() {
            let now = evaluate(plan, &self.rows, prim);
            let mut change = BindingDelta::new();
            for (b, w) in &now {
                assert!(change.add_weight(b.clone(), *w));
            }
            for (b, w) in &self.given[i] {
                assert!(change.add_weight(b.clone(), -*w));
            }
            self.given[i] = now;
            out.push(change.into_changes());
        }
        out
    }
}

/// An e-graph with the circuits of its rules.
struct Machine {
    eg: EGraph,
    circuits: HashMap<Vec<usize>, Circuit>,
    /// What the primitives answer, by id.
    prims: Vec<fn(&[u32]) -> Option<u32>>,
}

impl Machine {
    fn new() -> Machine {
        Machine { eg: EGraph::new(), circuits: HashMap::new(), prims: Vec::new() }
    }

    fn prim(&mut self, f: fn(&[u32]) -> Option<u32>) -> ExternalFunctionId {
        let id = self.eg.register_external_func();
        self.prims.push(f);
        assert_eq!(id.rep() as usize + 1, self.prims.len());
        id
    }

    fn table(&mut self, name: &str, arity: usize, merge: MergeFn) -> FunctionId {
        self.eg.add_table(FunctionConfig {
            schema: vec![ColumnTy::Id; arity],
            default: DefaultVal::Const(Value::new(0)),
            merge,
            name: name.to_string(),
            can_subsume: false,
        })
    }

    /// Runs the rules once, and says whether anything changed.
    fn run(&mut self, rules: &[RuleId]) -> bool {
        self.try_run(rules).unwrap()
    }

    fn try_run(&mut self, rules: &[RuleId]) -> Result<bool, RunError> {
        assert!(self.eg.rules_are_fit());
        let idxs = match self.eg.run_rules(&rules.to_vec()) {
            RunPlan::Nothing => return Ok(false),
            RunPlan::Rebuild(_) => unreachable!(),
            RunPlan::Round(idxs) => idxs,
        };
        let prims = self.prims.clone();
        let answer = move |id: ExternalFunctionId, args: &Vec<u32>| prims[id.rep() as usize](args);
        let mut pass = self.eg.begin_iteration(&idxs, &answer).map_err(RunError::Head)?;
        let per_rule = match self.eg.join_request(&mut pass).unwrap() {
            None => Vec::new(),
            Some(req) => {
                if let Some(plans) = req.plans {
                    let plans = plans.into_iter().map(|(_, p)| p).collect();
                    self.circuits.insert(req.key.clone(), Circuit::new(plans));
                }
                let deltas = req.deltas;
                self.circuits.get_mut(&req.key).unwrap().step(&deltas, &answer)
            }
        };
        self.eg.finish_iteration(pass, &per_rule, &answer)
    }

    fn pairs(&self, f: FunctionId) -> BTreeSet<(u32, u32)> {
        self.eg.for_each(f).iter().map(|row| (row[0].rep(), row[1].rep())).collect()
    }
}

fn constant(v: u32) -> QueryEntry {
    QueryEntry::Const { val: Value::new(v), ty: ColumnTy::Id }
}

fn add_relations(m: &mut Machine) -> (FunctionId, FunctionId) {
    (m.table("edge", 3, MergeFn::AssertEq), m.table("path", 3, MergeFn::AssertEq))
}

fn seed(m: &mut Machine, edge: FunctionId, path: FunctionId, pairs: &[(u32, u32)]) {
    let rows: Vec<Vec<Value>> = pairs
        .iter()
        .map(|(x, y)| vec![Value::new(*x), Value::new(*y), Value::new(0)])
        .collect();
    m.eg.insert_rows(edge, &rows);
    m.eg.insert_rows(path, &rows);
    assert!(!m.eg.flush_updates());
}

/// `path(x, z) :- path(x, y), edge(y, z)`.
fn add_join_rule(m: &mut Machine, edge: FunctionId, path: FunctionId) -> RuleId {
    let mut rb = FelderaRuleBuilder::new("transitive_step");
    let x = rb.new_var_named(ColumnTy::Id, "x");
    let y = rb.new_var_named(ColumnTy::Id, "y");
    let z = rb.new_var_named(ColumnTy::Id, "z");
    rb.query_table(path, &[x.clone(), y.clone(), constant(0)], None).unwrap();
    rb.query_table(edge, &[y.clone(), z.clone(), constant(0)], None).unwrap();
    rb.set(path, &[x, z, constant(0)]);
    rb.build(&mut m.eg).unwrap()
}

fn run_program(n: usize) -> BTreeSet<(u32, u32)> {
    let mut m = Machine::new();
    let (edge, path) = add_relations(&mut m);
    seed(&mut m, edge, path, &[(1, 2), (2, 3), (3, 4)]);
    let rule = add_join_rule(&mut m, edge, path);
    for _ in 0..n {
        m.run(&[rule]);
        m.eg.flush_updates();
    }
    m.pairs(path)
}

/// The pairs that are at most `n + 1` hops apart on the chain 1 -> 2 -> 3 -> 4.
fn expected(n: usize) -> BTreeSet<(u32, u32)> {
    let mut set = BTreeSet::new();
    let max_hop = n + 1;
    for x in 1u32..=4 {
        for y in (x + 1)..=4 {
            if (y - x) as usize <= max_hop {
                set.insert((x, y));
            }
        }
    }
    set
}

#[test]
fn run1_vs_run3_bounded_and_matches_reference() {
    let run1 = run_program(1);
    let run3 = run_program(3);
    assert_ne!(run1, run3, "run(1) and run(3) must differ (bounded extension, not saturation)");
    assert_eq!(run1, expected(1), "run(1) bounded result");
    assert_eq!(run3, expected(3), "run(3) result (full closure here)");
    assert!(!run1.contains(&(1, 4)), "run(1) must NOT reach 3-hop pair");
    assert!(run3.contains(&(1, 4)), "run(3) must reach 3-hop pair");
}

#[test]
fn transitive_closure_join_runs_on_dbsp() {
    let mut m = Machine::new();
    let (edge, path) = add_relations(&mut m);
    seed(&mut m, edge, path, &[(1, 2), (2, 3), (3, 4)]);
    let rule = add_join_rule(&mut m, edge, path);
    for _ in 0..3 {
        m.run(&[rule]);
        m.eg.flush_updates();
    }
    let (dbsp_runs, host_runs) = m.eg.dbsp_join_stats();
    assert_eq!(host_runs, 0, "the 2-atom join must NOT fall back to the host interpreter");
    assert!(dbsp_runs >= 3, "expected the join to fire on DBSP each round (got {dbsp_runs})");
}

#[test]
fn saturated_rules_change_nothing() {
    let mut m = Machine::new();
    let (edge, path) = add_relations(&mut m);
    seed(&mut m, edge, path, &[(1, 2), (2, 3), (3, 4)]);
    let rule = add_join_rule(&mut m, edge, path);
    assert!(m.run(&[rule]));
    assert!(m.run(&[rule]));
    assert!(!m.run(&[rule]));
    assert!(!m.run(&[]));
    m.eg.free_rule(rule);
    assert!(!m.run(&[rule]));
}

/// The rules of a rebuild over a parent relation and an index function.
struct Rebuild {
    m: Machine,
    uf: FunctionId,
    uff: FunctionId,
    uf_index: RuleId,
    path_compress: RuleId,
    single_parent: RuleId,
}

fn rebuild_program() -> Rebuild {
    let mut m = Machine::new();
    let uf = m.table("@uf", 3, MergeFn::Old);
    let min = m.prim(|args| Some(args[0].min(args[1])));
    let uff = m.table("@uff", 2, MergeFn::Primitive(min, vec![MergeFn::Old, MergeFn::New]));
    let neq = m.prim(|args| if args.len() == 2 && args[0] != args[1] { Some(args[0]) } else { None });
    m.eg.set_external_func_name(neq, "!=".to_string());
    m.eg.set_pure_prim_name(neq, "!=".to_string());

    let mut rb = FelderaRuleBuilder::new("uf_index");
    let a = rb.new_var_named(ColumnTy::Id, "a");
    let b = rb.new_var_named(ColumnTy::Id, "b");
    let w = rb.new_var_named(ColumnTy::Id, "w");
    rb.query_table(uf, &[a.clone(), b.clone(), w], None).unwrap();
    rb.set(uff, &[a, b]);
    let uf_index = rb.build(&mut m.eg).unwrap();

    let mut rb = FelderaRuleBuilder::new("path_compress");
    let a = rb.new_var_named(ColumnTy::Id, "a");
    let b = rb.new_var_named(ColumnTy::Id, "b");
    let c = rb.new_var_named(ColumnTy::Id, "c");
    let w1 = rb.new_var_named(ColumnTy::Id, "w1");
    let w2 = rb.new_var_named(ColumnTy::Id, "w2");
    rb.query_table(uf, &[a.clone(), b.clone(), w1], None).unwrap();
    rb.query_table(uf, &[b.clone(), c.clone(), w2], None).unwrap();
    let ret = rb.new_var_named(ColumnTy::Id, "ne_ret");
    rb.query_prim(&m.eg, neq, &[b.clone(), c.clone(), ret], ColumnTy::Id).unwrap();
    rb.remove(uf, &[a.clone(), b]);
    rb.set(uf, &[a, c, constant(0)]);
    let path_compress = rb.build(&mut m.eg).unwrap();

    let mut rb = FelderaRuleBuilder::new("single_parent");
    let a = rb.new_var_named(ColumnTy::Id, "a");
    let b = rb.new_var_named(ColumnTy::Id, "b");
    let c = rb.new_var_named(ColumnTy::Id, "c");
    let w = rb.new_var_named(ColumnTy::Id, "w");
    rb.query_table(uf, &[a.clone(), b.clone(), w], None).unwrap();
    rb.query_table(uff, &[a.clone(), c.clone()], None).unwrap();
    let ret = rb.new_var_named(ColumnTy::Id, "ne_ret");
    rb.query_prim(&m.eg, neq, &[b.clone(), c.clone(), ret], ColumnTy::Id).unwrap();
    rb.remove(uf, &[a, b.clone()]);
    rb.set(uf, &[b.clone(), c.clone(), constant(0)]);
    rb.set(uff, &[b, c]);
    let single_parent = rb.build(&mut m.eg).unwrap();
    Rebuild { m, uf, uff, uf_index, path_compress, single_parent }
}

fn saturate(m: &mut Machine, rule: RuleId) -> bool {
    let mut any = false;
    while m.run(&[rule]) {
        m.eg.flush_updates();
        any = true;
    }
    any
}

/// The same rules run by hand, each round over the rows at its start.
struct Reference {
    uf: BTreeSet<(u32, u32)>,
    uff: BTreeMap<u32, u32>,
}

impl Reference {
    fn index(&mut self, a: u32, b: u32) {
        let e = self.uff.entry(a).or_insert(b);
        *e = (*e).min(b);
    }

    fn uf_index(&mut self) -> bool {
        let before = self.uff.clone();
        for (a, b) in self.uf.clone() {
            self.index(a, b);
        }
        before != self.uff
    }

    fn path_compress(&mut self) -> bool {
        let before = self.uf.clone();
        let mut puts = Vec::new();
        for &(a, b) in &before {
            for &(b2, c) in &before {
                if b == b2 && b != c {
                    self.uf.remove(&(a, b));
                    puts.push((a, c));
                }
            }
        }
        self.uf.extend(puts);
        before != self.uf
    }

    fn single_parent(&mut self) -> bool {
        let before = (self.uf.clone(), self.uff.clone());
        let mut puts = Vec::new();
        for &(a, b) in &before.0 {
            if let Some(&c) = before.1.get(&a) {
                if b != c {
                    self.uf.remove(&(a, b));
                    puts.push((b, c));
                }
            }
        }
        for (b, c) in puts {
            self.uf.insert((b, c));
            self.index(b, c);
        }
        before != (self.uf.clone(), self.uff.clone())
    }

    fn run(edges: &[(u32, u32)]) -> Reference {
        let mut r = Reference { uf: edges.iter().copied().collect(), uff: BTreeMap::new() };
        while r.uf_index() {}
        loop {
            let mut changed = false;
            while r.single_parent() {
                changed = true;
            }
            while r.path_compress() {
                changed = true;
            }
            while r.uf_index() {
                changed = true;
            }
            if !changed {
                return r;
            }
        }
    }
}

fn assert_rebuild_matches(label: &str, edges: &[(u32, u32)]) {
    let mut p = rebuild_program();
    let rows: Vec<Vec<Value>> = edges
        .iter()
        .map(|(c, q)| vec![Value::new(*c), Value::new(*q), Value::new(0)])
        .collect();
    p.m.eg.insert_rows(p.uf, &rows);
    saturate(&mut p.m, p.uf_index);
    loop {
        let mut changed = false;
        changed |= saturate(&mut p.m, p.single_parent);
        changed |= saturate(&mut p.m, p.path_compress);
        changed |= saturate(&mut p.m, p.uf_index);
        if !changed {
            break;
        }
    }
    let uf = p.m.pairs(p.uf);
    let uff = p.m.pairs(p.uff);
    let reference = Reference::run(edges);
    let ref_uff: BTreeSet<(u32, u32)> = reference.uff.into_iter().collect();
    assert_eq!(uf.len(), reference.uf.len(), "[{label}] @uf tuple count must match reference");
    assert_eq!(uff.len(), ref_uff.len(), "[{label}] @uff tuple count must match reference");
    assert_eq!(uf, reference.uf, "[{label}] @uf contents must match reference");
    assert_eq!(uff, ref_uff, "[{label}] @uff contents must match reference");
    for (child, leader) in &uff {
        if *child != 1 {
            assert_eq!(*leader, 1, "[{label}] child {child} must resolve to leader 1");
        }
    }
}

#[test]
fn rebuild_matches_reference_tuple_counts() {
    assert_rebuild_matches("single-union", &[(2, 1)]);
    assert_rebuild_matches("2-chain", &[(2, 1), (3, 2)]);
    assert_rebuild_matches("3-chain", &[(2, 1), (3, 2), (4, 3)]);
    assert_rebuild_matches("diamond", &[(3, 1), (3, 2), (2, 1)]);
    assert_rebuild_matches("star+chain", &[(5, 1), (4, 1), (3, 2), (2, 1)]);
}

#[test]
fn persistent_join_is_incremental() {
    let mut m = Machine::new();
    let f = m.table("R", 2, MergeFn::Old);
    let mut rb = FelderaRuleBuilder::new("hop");
    let x = rb.new_var(ColumnTy::Id);
    let y = rb.new_var(ColumnTy::Id);
    let z = rb.new_var(ColumnTy::Id);
    rb.query_table(f, &[x.clone(), y.clone()], None).unwrap();
    rb.query_table(f, &[y, z.clone()], None).unwrap();
    rb.set(f, &[x, z]);
    let rule = rb.build(&mut m.eg).unwrap();
    let ir = m.eg.rule(rule.rep() as usize).unwrap();
    let plan = plan_join(&m.eg, &ir).unwrap();
    let mut circuit = Circuit::new(vec![plan]);
    let none = |_: ExternalFunctionId, _: &Vec<u32>| None;

    let out1 = circuit.step(&[(f, vec![(vec![1, 2], 1), (vec![2, 3], 1)])], &none);
    assert_eq!(out1[0], vec![(vec![1, 2, 3], 1)], "first hop");

    let out2 = circuit.step(&[(f, vec![(vec![3, 4], 1)])], &none);
    assert_eq!(out2[0], vec![(vec![2, 3, 4], 1)], "only the new hop");

    let mut out3 = circuit.step(&[(f, vec![(vec![2, 3], -1)])], &none);
    out3[0].sort();
    assert_eq!(
        out3[0],
        vec![(vec![1, 2, 3], -1), (vec![2, 3, 4], -1)],
        "retraction propagates"
    );
}

#[test]
fn rules_refuse_what_they_cannot_hold() {
    let mut m = Machine::new();
    let f = m.table("R", 2, MergeFn::Old);
    let odd = m.prim(|_| None);
    let neq = m.prim(|_| None);
    m.eg.set_external_func_name(neq, "bool-!=".to_string());

    let mut rb = FelderaRuleBuilder::new("r");
    let x = rb.new_var(ColumnTy::Id);
    assert!(rb.query_table(f, &[x.clone(), x.clone()], Some(true)).is_err());
    assert!(rb.query_prim(&m.eg, odd, &[x.clone(), x.clone()], ColumnTy::Id).is_err());
    assert!(rb.query_prim(&m.eg, neq, &[x.clone()], ColumnTy::Id).is_err());
    assert!(rb.query_prim(&m.eg, neq, &[x.clone(), x.clone()], ColumnTy::Id).is_ok());
    assert!(rb.subsume(f).is_err());
    rb.union(&x, &x);
    rb.panic("no".to_string());
    assert!(format!("{:?}", rb.build(&mut m.eg)).contains("HeadUnion"));

    let mut rb = FelderaRuleBuilder::new("r");
    rb.lookup(f);
    assert!(format!("{:?}", rb.build(&mut m.eg)).contains("HeadLookup"));
    let mut rb = FelderaRuleBuilder::new("r");
    rb.call_external_func(odd, ColumnTy::Id);
    assert!(format!("{:?}", rb.build(&mut m.eg)).contains("HeadCall"));
    let mut rb = FelderaRuleBuilder::new("r");
    rb.panic("stop".to_string());
    assert!(format!("{:?}", rb.build(&mut m.eg)).contains("stop"));
    assert_eq!(m.eg.rule_count(), 0);
}

#[test]
fn refused_calls_are_reported_by_the_first() {
    let mut m = Machine::new();
    let f = m.table("R", 2, MergeFn::Old);
    let kept = FelderaRuleBuilder::new("kept").build(&mut m.eg).unwrap();
    assert_eq!(kept.rep(), 0);
    let mut rb = FelderaRuleBuilder::new("r");
    let x = rb.new_var(ColumnTy::Id);
    rb.query_table(f, &[x.clone(), x.clone()], None).unwrap();
    rb.panic("first".to_string());
    rb.set(f, &[x.clone(), x.clone()]);
    rb.union(&x, &x);
    rb.lookup(f);
    assert!(format!("{:?}", rb.build(&mut m.eg)).contains("HeadPanic(\"first\")"));
    assert_eq!(m.eg.rule_count(), 1);
    let next = FelderaRuleBuilder::new("next").build(&mut m.eg).unwrap();
    assert_eq!(next.rep(), 1);
    assert_eq!(m.eg.rule_count(), 2);
}

#[test]
fn inequalities_guard_alike() {
    for name in ["!=", "bool-!=", "value-!="] {
        let mut m = Machine::new();
        let f = m.table("R", 2, MergeFn::Old);
        let out = m.table("Out", 2, MergeFn::Old);
        let neq = m.prim(|_| None);
        m.eg.set_external_func_name(neq, name.to_string());
        m.eg.insert_rows(f, &vec![row(&[1, 1]), row(&[2, 3]), row(&[4, 4])]);
        let mut rb = FelderaRuleBuilder::new("apart");
        let x = rb.new_var(ColumnTy::Id);
        let y = rb.new_var(ColumnTy::Id);
        rb.query_table(f, &[x.clone(), y.clone()], None).unwrap();
        rb.query_prim(&m.eg, neq, &[x.clone(), y.clone()], ColumnTy::Id).unwrap();
        rb.set(out, &[x, y]);
        let rule = rb.build(&mut m.eg).unwrap();
        assert!(m.run(&[rule]));
        assert_eq!(m.pairs(out), BTreeSet::from([(2, 3)]));
        assert_eq!(m.eg.dbsp_join_stats(), (1, 0));
    }
}

#[test]
fn guards_without_atoms() {
    let mut m = Machine::new();
    let f = m.table("R", 2, MergeFn::Old);
    let head = |v: u32| vec![HeadOp::SetRow {
        func: f,
        slots: vec![Slot::Const(v), Slot::Const(0)],
    }];
    let differ = |a: u32, b: u32| vec![BodyOp::Differ(Slot::Const(a), Slot::Const(b))];
    let a = m.eg.add_rule(ir("a", differ(1, 2), head(1)));
    let b = m.eg.add_rule(ir("b", differ(2, 2), head(2)));
    let c = m.eg.add_rule(ir("c", vec![BodyOp::Differ(Slot::Var(0), Slot::Const(2))], head(3)));
    assert!(m.run(&[a, b, c]));
    assert_eq!(m.pairs(f), BTreeSet::from([(1, 0)]));
}

#[test]
fn runs_are_counted_once() {
    let mut m = Machine::new();
    let (edge, path) = add_relations(&mut m);
    seed(&mut m, edge, path, &[(1, 2), (2, 3)]);
    let rule = add_join_rule(&mut m, edge, path);
    for n in 1..=3 {
        m.run(&[rule]);
        assert_eq!(m.eg.dbsp_join_stats(), (n, 0));
    }
}

#[test]
fn functions_that_drive_a_rebuild() {
    let mut m = Machine::new();
    let (edge, path) = add_relations(&mut m);
    let rule = add_join_rule(&mut m, edge, path);
    let body = m.eg.rule(rule.rep() as usize).unwrap();
    let plans = vec![(0, plan_join(&m.eg, &body).unwrap())];
    let other = m.table("Other", 1, MergeFn::Old);
    assert_eq!(late_plans(&plans, &vec![other]), vec![false]);
    assert_eq!(late_plans(&plans, &vec![other, edge]), vec![true]);
    let deltas = vec![(edge, vec![(vec![1, 2, 0], 1)]), (path, vec![])];
    assert_eq!(late_deltas(&deltas, &vec![path]), vec![false, true]);
}

fn atom(func: FunctionId, slots: &[Slot]) -> BodyOp {
    BodyOp::Atom(BodyAtom { func, slots: slots.to_vec() })
}

fn ir(name: &str, body: Vec<BodyOp>, head: Vec<HeadOp>) -> RuleIr {
    RuleIr { name: name.to_string(), body, head }
}

fn row(v: &[u32]) -> Vec<Value> {
    v.iter().map(|x| Value::new(*x)).collect()
}

#[test]
fn heads_that_fail() {
    let mut m = Machine::new();
    let f = m.table("R", 1, MergeFn::Old);
    m.eg.insert_rows(f, &vec![row(&[4])]);
    let panic = m.eg.add_rule(ir(
        "p",
        vec![atom(f, &[Slot::Var(0)])],
        vec![HeadOp::Panic("stop".to_string())],
    ));
    assert!(matches!(
        m.try_run(&[panic]),
        Err(RunError::Head(HeadError::Panic(ref s))) if s == "stop"
    ));
    let unbound = m.eg.add_rule(ir(
        "u",
        vec![atom(f, &[Slot::Var(0)])],
        vec![HeadOp::SetRow { func: f, slots: vec![Slot::Var(9)] }],
    ));
    assert!(m.eg.rules_are_fit());
    assert!(m.try_run(&[unbound]).is_err());
    let first = m.eg.add_rule(ir("now", vec![], vec![HeadOp::Panic("first".to_string())]));
    assert!(matches!(
        m.try_run(&[first]),
        Err(RunError::Head(HeadError::Panic(ref s))) if s == "first"
    ));
    m.eg.add_rule(ir("wide", vec![], vec![HeadOp::SetRow { func: f, slots: vec![] }]));
    assert!(!m.eg.rules_are_fit());
}

#[test]
fn rules_without_atoms_fire_once() {
    let mut m = Machine::new();
    let f = m.table("R", 2, MergeFn::Old);
    let r = m.eg.add_rule(ir(
        "seed",
        vec![],
        vec![HeadOp::SetRow { func: f, slots: vec![Slot::Const(1), Slot::Const(2)] }],
    ));
    assert!(m.run(&[r]));
    m.eg.clear_table(f);
    assert!(!m.run(&[r]));
    assert_eq!(m.eg.table_size(f), 0);
}

#[test]
fn lookups_mint_a_term_once() {
    let mut m = Machine::new();
    let r = m.table("R", 1, MergeFn::UnionId);
    let c = m.table("C", 2, MergeFn::UnionId);
    let out = m.table("Out", 2, MergeFn::Old);
    m.eg.insert_rows(r, &vec![row(&[40]), row(&[41])]);
    let before = m.eg.next_id();
    let rule = m.eg.add_rule(ir(
        "mint",
        vec![atom(r, &[Slot::Var(0)])],
        vec![
            HeadOp::Lookup { func: c, args: vec![Slot::Var(0)], ret: 1 },
            HeadOp::Lookup { func: c, args: vec![Slot::Var(0)], ret: 2 },
            HeadOp::SetRow { func: out, slots: vec![Slot::Var(1), Slot::Var(2)] },
        ],
    ));
    assert!(m.run(&[rule]));
    assert_eq!(m.eg.table_size(c), 2);
    assert_eq!(m.eg.next_id(), before + 2);
    for (a, b) in m.pairs(out) {
        assert_eq!(a, b);
    }
    assert!(!m.run(&[rule]));
    let id = m.eg.lookup_id(c, &row(&[40])).unwrap();
    assert!(m.pairs(out).contains(&(id.rep(), id.rep())));
    assert_eq!(m.eg.lookup_id(c, &row(&[99])), None);
    assert!(m.eg.lookup_constructor_rows(c, &vec![row(&[40]), row(&[50])]));
    assert_eq!(m.eg.table_size(c), 3);
    let t = m.eg.add_term(c, &row(&[60]));
    assert_eq!(m.eg.lookup_id(c, &row(&[60])), Some(t));
    let (ids, size) = (m.eg.next_id(), m.eg.table_size(c));
    let again = vec![row(&[70]), row(&[40]), row(&[70])];
    assert!(m.eg.lookup_constructor_rows(c, &again));
    assert_eq!((m.eg.next_id(), m.eg.table_size(c)), (ids + 1, size + 1));
    assert!(m.eg.lookup_constructor_rows(c, &again));
    assert_eq!((m.eg.next_id(), m.eg.table_size(c)), (ids + 1, size + 1));
    assert_eq!(m.eg.lookup_id(c, &row(&[70])), Some(Value::new(ids)));
    m.eg.enable_native_uf();
    m.prims.push(|_| None);
    let (uf, _) = m.eg.add_uf_function("@UF".to_string(), None, None).unwrap();
    assert!(m.eg.lookup_constructor_rows(uf, &vec![row(&[7])]));
    assert_eq!(m.eg.next_id(), ids + 1);
}

#[test]
fn merges_keep_one_output() {
    for (mode, first, second) in [
        (MergeFn::Old, 5, 9),
        (MergeFn::AssertEq, 5, 9),
        (MergeFn::New, 3, 4),
        (MergeFn::UnionId, 3, 4),
    ] {
        let mut m = Machine::new();
        let f = m.table("F", 2, mode);
        m.eg.insert_rows(f, &vec![row(&[1, 5]), row(&[3, 8])]);
        let put = |k: u32, v: u32| HeadOp::SetRow {
            func: f,
            slots: vec![Slot::Const(k), Slot::Const(v)],
        };
        let r = m.eg.add_rule(ir("put", vec![], vec![put(1, 3), put(2, 9), put(2, 4)]));
        assert!(m.run(&[r]));
        assert_eq!(m.pairs(f), BTreeSet::from([(1, first), (2, second), (3, 8)]));
        let id = m.eg.lookup_id(f, &row(&[1])).map(|v| v.rep());
        assert_eq!(id, Some(first));
    }
    for (mode, want) in [(MergeFn::Old, 6), (MergeFn::New, 7), (MergeFn::UnionId, 6)] {
        let mut m = Machine::new();
        let f = m.table("F", 2, mode);
        m.eg.insert_rows(f, &vec![row(&[1, 6])]);
        let slots = vec![Slot::Const(1), Slot::Const(7)];
        let head = vec![HeadOp::SetRow { func: f, slots }];
        let r = m.eg.add_rule(ir("put", vec![], head));
        m.run(&[r]);
        assert_eq!(m.pairs(f), BTreeSet::from([(1, want)]));
    }
}

#[test]
fn written_rows_outlive_retractions() {
    let mut m = Machine::new();
    let src = m.table("S", 2, MergeFn::Old);
    let f = m.table("F", 2, MergeFn::Old);
    m.eg.insert_rows(f, &vec![row(&[1, 4]), row(&[2, 5])]);
    m.eg.insert_rows(src, &vec![row(&[1, 9])]);
    let r = m.eg.add_rule(ir(
        "replace",
        vec![atom(src, &[Slot::Var(0), Slot::Var(1)])],
        vec![
            HeadOp::SetRow { func: f, slots: vec![Slot::Var(0), Slot::Var(1)] },
            HeadOp::Remove { func: f, slots: vec![Slot::Var(0)] },
        ],
    ));
    assert!(m.run(&[r]));
    assert_eq!(m.pairs(f), BTreeSet::from([(1, 9), (2, 5)]));
}

#[test]
fn views_follow_the_union_find() {
    let mut m = Machine::new();
    assert_eq!(
        m.eg.add_uf_function("@UF".to_string(), None, None),
        Err(UfError::NativeUfDisabled)
    );
    m.eg.enable_native_uf();
    m.prims.push(|_| None);
    let (uf, canon) = m.eg.add_uf_function("@UF".to_string(), None, None).unwrap();
    let view = m.table("@View", 3, MergeFn::Old);
    m.eg.insert_rows(view, &vec![row(&[5, 10, 20]), row(&[6, 10, 21]), row(&[7, 11, 22])]);
    let src = m.table("Same", 2, MergeFn::Old);
    let unite = m.eg.add_rule(ir(
        "unite",
        vec![atom(src, &[Slot::Var(0), Slot::Var(1)])],
        vec![HeadOp::SetRow { func: uf, slots: vec![Slot::Var(0), Slot::Var(1)] }],
    ));
    let call =
        |x: u32, ret: u32| HeadOp::Call { id: canon, args: vec![Slot::Var(x)], ret };
    let rebuild = m.eg.add_rule(ir(
        "@rebuild_rule1",
        vec![atom(view, &[Slot::Var(0), Slot::Var(1), Slot::Var(2)])],
        vec![
            call(0, 3),
            call(1, 4),
            call(2, 5),
            HeadOp::Remove { func: view, slots: vec![Slot::Var(0), Slot::Var(1), Slot::Var(2)] },
            HeadOp::SetRow { func: view, slots: vec![Slot::Var(3), Slot::Var(4), Slot::Var(5)] },
        ],
    ));
    m.run(&[rebuild]);
    m.eg.insert_rows(src, &vec![row(&[6, 5])]);
    assert!(m.run(&[unite]));
    assert_eq!(m.eg.native_uf_find(uf, 6), 5);
    assert_eq!(m.eg.native_uf_find(uf, 7), 7);
    assert!(m.run(&[rebuild]));
    let rows: BTreeSet<Vec<u32>> = m
        .eg
        .for_each(view)
        .iter()
        .map(|r| r.iter().map(|v| v.rep()).collect())
        .collect();
    assert!(rows.contains(&vec![7, 11, 22]));
    assert!(rows.iter().all(|r| r[0] != 6));
    assert!(!m.run(&[rebuild]));
    let broken = ir("@rebuild_rule2", vec![], vec![]);
    assert_eq!(rebuild_rule_plan(&m.eg, &broken).unwrap_err(), RebuildError::NoViewSet);
}

#[test]
fn rules_that_cannot_be_joined() {
    let mut m = Machine::new();
    let f = m.table("R", 2, MergeFn::Old);
    let odd = m.prim(|_| None);
    let ne = m.prim(|_| None);
    m.eg.set_external_func_name(ne, "!=".to_string());
    let two = || atom(f, &[Slot::Var(0), Slot::Var(1)]);
    let prim = |id, args: &[Slot]| BodyOp::Prim { id, args: args.to_vec(), ret: Slot::Const(0) };
    let fails = |m: &Machine, body: Vec<BodyOp>| {
        plan_join(&m.eg, &ir("r", body, vec![])).map(|_| ()).unwrap_err()
    };
    assert_eq!(fails(&m, vec![]), Ineligible::NoAtoms);
    assert_eq!(
        fails(&m, vec![two(), prim(odd, &[Slot::Var(0)])]),
        Ineligible::ImpurePrim(odd)
    );
    assert_eq!(
        fails(&m, vec![two(), prim(ne, &[Slot::Var(0)])]),
        Ineligible::BadArity(PrimOp::Ne, 1)
    );
    let plan = plan_join(
        &m.eg,
        &ir("r", vec![two(), prim(ne, &[Slot::Var(0), Slot::Var(1)])], vec![]),
    )
    .unwrap();
    assert_eq!(plan.guards.len(), 1);
    assert!(plan.steps.is_empty());
    m.eg.set_pure_prim_name(odd, "odd".to_string());
    let plan =
        plan_join(&m.eg, &ir("r", vec![two(), prim(odd, &[Slot::Var(0)])], vec![])).unwrap();
    assert_eq!(plan.steps.len(), 1);
}
