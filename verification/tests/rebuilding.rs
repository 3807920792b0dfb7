//! The rebuild circuit, stood in for by relations made with the library's steps.
use egglog_backends::backend::{
    ColumnTy, DefaultVal, FunctionConfig, FunctionId, MergeFn, RuleId, Value,
};
use egglog_backends::feldera::circuit_rebuild::{roles_are_fit, RebuildCache, RebuildRoles, NO_ARG};
use egglog_backends::feldera::compile::{BodyAtom, BodyOp, HeadOp, RuleIr, Slot};
use egglog_backends::feldera::egraph::EGraph;
use egglog_backends::feldera::rebuild_circuit::{
    both_ways, congruence_pair, dominated_pair, is_pair, self_pairs, with_first, with_output,
    with_second, ViewRow,
};
use egglog_backends::feldera::rule_builder::RunPlan;
use egglog_backends::feldera::uf::UfTable;
use std::collections::{BTreeMap, BTreeSet};

#[derive(Default)]
struct Circuit {
    views: BTreeSet<ViewRow>,
    edges: BTreeSet<(u64, u64)>,
}

impl Circuit {
    fn leaders(&self) -> BTreeMap<u64, u64> {
        let mut next: BTreeMap<u64, BTreeSet<u64>> = BTreeMap::new();
        for &(a, b) in &self.edges {
            for (x, y) in both_ways(a, b) {
                next.entry(x).or_default().insert(y);
            }
        }
        let mut ids: BTreeSet<u64> = next.keys().copied().collect();
        for v in &self.views {
            ids.extend(self_pairs(*v).into_iter().map(|p| p.0));
        }
        let mut out = BTreeMap::new();
        for &x in &ids {
            let mut reach = BTreeSet::from([x]);
            let mut work = vec![x];
            while let Some(y) = work.pop() {
                for &z in next.get(&y).into_iter().flatten() {
                    if reach.insert(z) {
                        work.push(z);
                    }
                }
            }
            let left: Vec<u64> = reach
                .iter()
                .copied()
                .filter(|y| !reach.iter().any(|z| is_pair(dominated_pair(x, *y, *z).0)))
                .collect();
            assert_eq!(left.len(), 1);
            out.insert(x, left[0]);
        }
        out
    }

    fn canon(&self, leaders: &BTreeMap<u64, u64>) -> BTreeSet<ViewRow> {
        self.views
            .iter()
            .map(|v| {
                let v = with_first(*v, leaders[&v.1]);
                let v = with_second(v, leaders[&v.2]);
                with_output(v, leaders[&v.3])
            })
            .collect()
    }

    fn congruences(&self, canon: &BTreeSet<ViewRow>) -> Vec<((u64, u64), i64)> {
        let mut out = BTreeSet::new();
        for a in canon {
            for b in canon {
                if (a.0, a.1, a.2) == (b.0, b.1, b.2) {
                    let p = congruence_pair(a.3, b.3);
                    if is_pair(p.0) {
                        out.insert(p);
                    }
                }
            }
        }
        out.into_iter().map(|p| (p, 1)).collect()
    }
}

struct Program {
    eg: EGraph,
    uf: FunctionId,
    uff: FunctionId,
    view: FunctionId,
    rules: Vec<RuleId>,
}

fn program() -> Program {
    let mut eg = EGraph::new();
    eg.enable_circuit_rebuild();
    let mut table = |name: &str, arity: usize| {
        eg.add_table(FunctionConfig {
            schema: vec![ColumnTy::Id; arity],
            default: DefaultVal::Fail,
            merge: MergeFn::Old,
            name: name.to_string(),
            can_subsume: false,
        })
    };
    let uf = table("@uf", 3);
    let uff = table("@uff", 2);
    let view = table("@View", 3);
    let atom = |func, n: u32| {
        BodyOp::Atom(BodyAtom { func, slots: (0..n).map(Slot::Var).collect() })
    };
    let set = |func, n: u32| HeadOp::SetRow { func, slots: (0..n).map(Slot::Var).collect() };
    let rules = vec![
        eg.add_rule(RuleIr {
            name: "@uf_function_index1".to_string(),
            body: vec![atom(uf, 3)],
            head: vec![set(uff, 2)],
        }),
        eg.add_rule(RuleIr {
            name: "@congruence_rule2".to_string(),
            body: vec![atom(view, 3)],
            head: vec![set(uf, 3)],
        }),
    ];
    Program { eg, uf, uff, view, rules }
}

fn rebuild(p: &mut Program, cache: &mut RebuildCache, circuit: &mut Circuit) -> bool {
    assert!(p.eg.rules_are_fit());
    let roles: RebuildRoles = match p.eg.run_rules(&p.rules) {
        RunPlan::Rebuild(roles) => roles,
        _ => unreachable!(),
    };
    assert!(roles_are_fit(&p.eg, &roles));
    p.eg.count_circuit_rebuild();
    let input = cache.rebuild_input(&p.eg, &roles);
    for (row, w) in input.views {
        if w > 0 {
            circuit.views.insert(row);
        } else {
            circuit.views.remove(&row);
        }
    }
    circuit.edges.extend(input.unions);
    loop {
        let leaders = circuit.leaders();
        let canon = circuit.canon(&leaders);
        let edges = cache.next_edges(&circuit.congruences(&canon)).unwrap();
        if edges.is_empty() {
            let leaders: Vec<(u64, u64)> =
                leaders.into_iter().filter(|l| l.0 != NO_ARG).collect();
            let canon: Vec<ViewRow> = canon.into_iter().collect();
            return cache.fold_results(&mut p.eg, &roles, &leaders, &canon);
        }
        circuit.edges.extend(edges);
    }
}

fn rows(eg: &EGraph, f: FunctionId) -> BTreeSet<Vec<u32>> {
    eg.for_each(f).iter().map(|r| r.iter().map(|v| v.rep()).collect()).collect()
}

fn insert(eg: &mut EGraph, f: FunctionId, row: &[u32]) {
    let r: Vec<Value> = row.iter().map(|x| Value::new(*x)).collect();
    eg.insert_rows(f, &vec![r]);
}

#[test]
fn congruence_runs_to_the_end() {
    let mut p = program();
    let mut cache = RebuildCache::new();
    let mut circuit = Circuit::default();
    // f(1, 2) = 10, f(3, 2) = 11, f(10, 4) = 20, f(11, 4) = 21: uniting 1 and 3 unites 10 and 11,
    // which unites 20 and 21.
    for r in [[1, 2, 10], [3, 2, 11], [10, 4, 20], [11, 4, 21]] {
        insert(&mut p.eg, p.view, &r);
    }
    insert(&mut p.eg, p.uf, &[3, 1, 0]);
    assert!(rebuild(&mut p, &mut cache, &mut circuit));
    assert_eq!(rows(&p.eg, p.view), BTreeSet::from([vec![1, 2, 10], vec![10, 4, 20]]));
    assert_eq!(
        rows(&p.eg, p.uf),
        BTreeSet::from([vec![3, 1, 0], vec![11, 10, 0], vec![21, 20, 0]])
    );
    assert!(rows(&p.eg, p.uff).contains(&vec![21, 20]));
    assert!(!rebuild(&mut p, &mut cache, &mut circuit));
    assert_eq!(p.eg.circuit_rebuild_runs(), 2);
}

#[test]
fn tables_with_two_roles_settle() {
    let mut eg = EGraph::new();
    eg.enable_circuit_rebuild();
    let t = eg.add_table(FunctionConfig {
        schema: vec![ColumnTy::Id; 3],
        default: DefaultVal::Fail,
        merge: MergeFn::Old,
        name: "@both".to_string(),
        can_subsume: false,
    });
    let slots: Vec<Slot> = (0..3).map(Slot::Var).collect();
    let rule = eg.add_rule(RuleIr {
        name: "@congruence_rule1".to_string(),
        body: vec![BodyOp::Atom(BodyAtom { func: t, slots: slots.clone() })],
        head: vec![HeadOp::SetRow { func: t, slots }],
    });
    let mut p = Program { eg, uf: t, uff: t, view: t, rules: vec![rule] };
    for r in [[3, 1, 10], [1, 3, 11], [5, 4, 11]] {
        insert(&mut p.eg, t, &r);
    }
    let mut cache = RebuildCache::new();
    let mut circuit = Circuit::default();
    assert!(rebuild(&mut p, &mut cache, &mut circuit));
    assert_eq!(rows(&p.eg, t), BTreeSet::from([vec![1, 1, 10], vec![4, 4, 10]]));
    assert!(!rebuild(&mut p, &mut cache, &mut circuit));
}

#[test]
fn classes_are_the_smallest_congruence() {
    let mut p = program();
    let mut cache = RebuildCache::new();
    let mut circuit = Circuit::default();
    for r in [[1, 2, 10], [3, 2, 11], [5, 2, 12]] {
        insert(&mut p.eg, p.view, &r);
    }
    insert(&mut p.eg, p.uf, &[3, 1, 0]);
    assert!(rebuild(&mut p, &mut cache, &mut circuit));
    // 10 and 11 are forced together, 12 is not.
    assert_eq!(rows(&p.eg, p.view), BTreeSet::from([vec![1, 2, 10], vec![5, 2, 12]]));
    assert_eq!(rows(&p.eg, p.uf), BTreeSet::from([vec![3, 1, 0], vec![11, 10, 0]]));
}

#[test]
fn leaders_agree_with_the_union_find() {
    let mut circuit = Circuit::default();
    let mut uf = UfTable::new();
    let mut x: u64 = 7;
    for _ in 0..60 {
        x = (x * 1103 + 12345) % 97;
        let a = x % 40 + 1;
        x = (x * 1103 + 12345) % 97;
        let b = x % 40 + 1;
        circuit.edges.insert((a, b));
        uf.enqueue_union(a as i64, b as i64);
        uf.drain_pending();
        for (id, leader) in circuit.leaders() {
            assert_eq!(uf.find_ro(id as i64), leader as i64);
        }
    }
}

#[test]
fn other_rules_are_not_rebuilt_by_the_circuit() {
    let mut p = program();
    let user = p.eg.add_rule(RuleIr {
        name: "commute".to_string(),
        body: vec![BodyOp::Atom(BodyAtom {
            func: p.view,
            slots: vec![Slot::Var(0), Slot::Var(1), Slot::Var(2)],
        })],
        head: vec![HeadOp::SetRow {
            func: p.view,
            slots: vec![Slot::Var(1), Slot::Var(0), Slot::Var(2)],
        }],
    });
    let all = vec![p.rules[0], user];
    assert!(matches!(p.eg.run_rules(&all), RunPlan::Round(ref v) if v.len() == 2));
    assert!(matches!(p.eg.run_rules(&vec![]), RunPlan::Nothing));
    assert!(matches!(p.eg.run_rules(&vec![RuleId::new(99)]), RunPlan::Nothing));
}
