use egglog_backends::duckdb::drive::{Iteration, Stage};
use egglog_backends::duckdb::egraph::EGraph;
use egglog_backends::duckdb::iterate::{adaptive_id_space, Selection};
use egglog_backends::duckdb::names::Phase;
use egglog_backends::duckdb::perf::Explained;
use egglog_backends::duckdb::rules::{Action, Atom, Rule, Term};
use egglog_backends::duckdb::runner::{
    CompiledAction, CompiledRule, CompiledVariant, DeltaVariant, GateMode, Progress, Request,
    RuleRun,
};
use egglog_backends::duckdb::schema::{ColumnTy, MergeMode};

fn action(sql: &str, target: Option<&str>) -> CompiledAction {
    CompiledAction { sql: sql.to_string(), target: target.map(|t| t.to_string()) }
}

fn variant(mat: Option<&str>, actions: Vec<CompiledAction>) -> CompiledVariant {
    CompiledVariant {
        materialize: mat.map(|m| m.to_string()),
        temp_table: mat.map(|_| "tmp".to_string()),
        actions,
        gate_table: None,
        delta: None,
    }
}

fn rule(variants: Vec<CompiledVariant>, tables: &[&str]) -> CompiledRule {
    CompiledRule {
        name: "r".to_string(),
        ruleset: String::new(),
        variants,
        body_tables: tables.iter().map(|t| t.to_string()).collect(),
    }
}

/// Runs a rule; `answer` says how many rows a statement affects or counts.
fn run(
    r: &CompiledRule,
    p: &mut Progress,
    last: i64,
    cur: i64,
    mode: GateMode,
    answer: fn(&str) -> u64,
) -> Option<(Vec<String>, u64)> {
    let mut run = RuleRun::start(r, p, last, cur, mode)?;
    let mut trace = Vec::new();
    loop {
        match run.next(r, p) {
            Request::Materialize(s) => {
                trace.push(s);
                run.materialized(r, p, 10);
            }
            Request::Count(s) => {
                let n = answer(&s) as i64;
                trace.push(s);
                run.counted(r, n);
            }
            Request::Act(s) => {
                let n = answer(&s);
                trace.push(s);
                run.acted(r, p, n, 5);
            }
            Request::Done => return Some((trace, run.finish(r, p))),
        }
    }
}

#[test]
fn variants_run_in_order() {
    let r = rule(
        vec![
            variant(Some("CREATE tmp ?1 ?2"), vec![action("INSERT a ?2", Some("t"))]),
            variant(None, vec![action("INSERT b", None), action("INSERT c", Some("u"))]),
        ],
        &["t"],
    );
    let mut p = Progress::new();
    let (trace, total) = run(&r, &mut p, 0, 3, GateMode::FullScan, |_| 2).unwrap();
    assert_eq!(
        trace,
        vec![
            "CREATE tmp 0 3",
            "SELECT COUNT(*) FROM \"tmp\"",
            "INSERT a 3",
            "INSERT b",
            "INSERT c"
        ]
    );
    assert_eq!(total, 6);
    assert_eq!(p.rules_affected, 6);
    assert_eq!(p.watermarks.get_or("t", 0), 3);
    assert_eq!(p.watermarks.get_or("u", 0), 3);
    assert_eq!((p.time_mat_ns, p.time_mat_act_ns, p.time_act_ns), (10, 5, 10));
    assert_eq!(p.rule_perf_ns.get("r"), Some(&(10, 15)));
}

#[test]
fn empty_matches_end_a_variant() {
    let r = rule(
        vec![variant(Some("M"), vec![action("A", Some("t"))]), variant(None, vec![action("B", None)])],
        &[],
    );
    let mut p = Progress::new();
    let answer = |s: &str| if s.starts_with("SELECT") { 0 } else { 1 };
    let (trace, total) = run(&r, &mut p, 5, 6, GateMode::FullScan, answer).unwrap();
    assert_eq!(trace, vec!["M", "SELECT COUNT(*) FROM \"tmp\"", "B"]);
    assert_eq!(total, 1);
    assert_eq!(p.watermarks.get_or("t", 0), 0);
}

#[test]
fn rules_without_news_are_skipped() {
    let r = rule(vec![variant(None, vec![action("A", None)])], &["t", "u"]);
    let mut p = Progress::new();
    assert!(run(&r, &mut p, 1, 2, GateMode::FullScan, |_| 1).is_none());
    assert_eq!(p.rules_skipped, 1);
    p.bump_watermark("u", 4);
    p.bump_watermark("u", 2);
    assert_eq!(p.watermarks.get_or("u", 0), 4);
    assert!(run(&r, &mut p, 4, 5, GateMode::FullScan, |_| 0).is_some());
    assert!(run(&r, &mut p, 5, 6, GateMode::FullScan, |_| 0).is_none());
    assert_eq!(p.rules_skipped, 2);
}

#[test]
fn gates_open_with_news() {
    let mut gated = variant(Some("FULL"), vec![action("A", Some("t"))]);
    gated.gate_table = Some("uf".to_string());
    gated.delta = Some(DeltaVariant {
        materialize: Some("DELTA".to_string()),
        temp_table: None,
        actions: Vec::new(),
    });
    let r = rule(vec![variant(None, vec![action("W", Some("uf"))]), gated], &[]);
    let mut p = Progress::new();
    let (trace, _) = run(&r, &mut p, 3, 4, GateMode::FullScan, |_| 0).unwrap();
    assert_eq!(trace, vec!["W"]);
    // The first variant's own write opens the second one.
    let (trace, _) = run(&r, &mut p, 3, 4, GateMode::FullScan, |_| 1).unwrap();
    assert_eq!(trace, vec!["W", "FULL", "SELECT COUNT(*) FROM \"tmp\"", "A"]);
    let (trace, _) = run(&r, &mut p, 3, 4, GateMode::Delta, |_| 1).unwrap();
    assert_eq!(trace, vec!["W", "DELTA", "A"]);
}

fn simple(name: &str, ruleset: &str, table: &str) -> Rule {
    Rule {
        name: name.to_string(),
        ruleset: ruleset.to_string(),
        body: vec![Atom::Func { name: table.to_string(), args: vec![Term::var("x".to_string())] }],
        actions: vec![Action::Insert {
            name: table.to_string(),
            args: vec![Term::var("x".to_string())],
        }],
    }
}

fn add(g: &mut EGraph, r: Rule, gate: Option<&str>) {
    let p = g.prepare_rule(r).unwrap();
    let mut v = variant(Some("CREATE OR REPLACE TEMP TABLE x AS SELECT ?1, ?2"), vec![]);
    v.gate_table = gate.map(|s| s.to_string());
    g.add_rule(p, vec![v]);
}

#[test]
fn selections_take_rules() {
    let mut g = EGraph::new();
    add(&mut g, simple("a", "", "t"), None);
    add(&mut g, simple("b", "rs", "t"), Some("uf"));
    add(&mut g, simple("@congruence_rule1", "rs", "t"), None);
    add(&mut g, simple("c", "@parent3", "u"), None);
    let all = |p: Vec<(usize, i64)>| p.into_iter().map(|x| x.0).collect::<Vec<_>>();
    assert_eq!(all(g.begin_iteration(&Selection::Ruleset(None), 0)), vec![0, 1, 2, 3]);
    g.enable_native_uf();
    assert_eq!(all(g.begin_iteration(&Selection::Ruleset(None), 0)), vec![0, 1]);
    assert_eq!(all(g.begin_iteration(&Selection::Ruleset(Some("rs".into())), 0)), vec![1]);
    assert_eq!(all(g.begin_iteration(&Selection::Any(vec![]), 0)), vec![0, 1, 2]);
    assert_eq!(all(g.begin_iteration(&Selection::Any(vec!["rs".into()]), 0)), vec![1, 2]);
    assert_eq!(all(g.begin_iteration(&Selection::Indices(vec![2, 9, 0, 3]), 7)), vec![2, 0]);
    assert_eq!(g.rules_affected_total(), 7);
    assert_eq!(g.next_ts, 6);
    assert!(g.selection_gated(&Selection::Ruleset(None)));
    assert!(!g.selection_gated(&Selection::Ruleset(Some("".into()))));
    assert!(g.selection_gated(&Selection::Indices(vec![1])));
    assert!(!g.rules_have_gated(&vec![0, 7]));
    assert_eq!(g.scanned_tables(), vec!["t"]);
    g.end_rule(1);
    let plan = g.begin_iteration(&Selection::Indices(vec![1]), 0);
    assert_eq!(plan, vec![(1, 6)]);
    assert!(g.passes_follow(None) && g.passes_follow(Some("@rebuilding1")));
    assert!(!g.passes_follow(Some("rs")));
}

#[test]
fn rules_of_the_union_find_are_left_out() {
    let mut g = EGraph::new();
    assert!(g.prepare_rule(simple("a", "@parent3", "t")).is_some());
    g.enable_native_uf();
    assert!(g.prepare_rule(simple("a", "@parent3", "t")).is_none());
    assert!(g.prepare_rule(simple("@uf_change_drain_rule2", "", "t")).is_none());
    g.enable_fast_rebuild();
    g.enable_proofs();
    let p = g.prepare_rule(simple("a", "", "t")).unwrap();
    assert!(p.drop_delta_view && !p.delta_rebuild && p.proofs);
}

#[test]
fn rebuild_rules_scan_their_view() {
    let mut g = EGraph::new();
    g.enable_native_uf();
    g.register_native_uf_function("@UF_Sf").unwrap();
    let id = g.external_funcs.add_func();
    g.bind_canon(id, "duck_uf_UF__Sf_find".to_string());
    g.set_external_func_name(id, "@canon_S".to_string());
    g.add_change_relation("@UFChange_S");
    let v = |s: &str| Term::var(s.to_string());
    let canon = |t: Term| Term::prim("@canon_S".to_string(), vec![t]);
    let r = Rule {
        name: "@rebuild_rule4#1".to_string(),
        ruleset: String::new(),
        body: vec![
            Atom::Func { name: "@UFChange_S".to_string(), args: vec![v("disp"), v("lead")] },
            Atom::Func { name: "@View".to_string(), args: vec![v("c0"), v("lead")] },
            Atom::Filter(Term::prim("=".to_string(), vec![v("c0"), v("disp")])),
            Atom::Filter(Term::prim("bool-!=".to_string(), vec![v("c0"), canon(v("c0"))])),
            Atom::Bind { var: "disp".to_string(), expr: v("c0") },
            Atom::Bind { var: "k".to_string(), expr: canon(v("lead")) },
        ],
        actions: vec![Action::LetExpr { var: "y".to_string(), expr: canon(v("k")) }],
    };
    let p = g.prepare_rule(r).unwrap();
    assert_eq!(p.gate_tables, vec!["@UF_Sf"]);
    assert_eq!(p.rule.body.len(), 3);
    assert!(matches!(&p.rule.body[0], Atom::Func { name, .. } if name == "@View"));
    let body = format!("{:?}", p.rule.body);
    assert!(body.contains("__duck_uf_find:duck_uf_UF__Sf_find"));
    assert!(!body.contains("@canon_S") && !body.contains("disp"));
    assert!(format!("{:?}", p.rule.actions).contains("__duck_uf_find:duck_uf_UF__Sf_find"));
    g.add_rule(p, vec![]);
    assert_eq!(g.rules[0].body_tables, vec!["@View", "@UF_Sf"]);
}

#[test]
fn union_finds_stand_in_for_their_tables() {
    let mut g = EGraph::new();
    g.enable_native_uf();
    g.add_relation("@UF_S", &vec![ColumnTy::I64, ColumnTy::I64]).unwrap();
    g.add_function("@UF_Sf", &vec![ColumnTy::I64], ColumnTy::I64, MergeMode::Min).unwrap();
    add(&mut g, simple("r", "", "@UF_Sf"), None);
    assert_eq!(g.rules[0].body_tables, vec!["@UF_S"]);
    assert_eq!(g.uf_sync_scans(), vec![Some("SELECT c0, c1, ts FROM \"@_u_f___s\" WHERE ts > -1".to_string())]);
    g.progress.bump_watermark("@UF_S", 2);
    let total = g.sync_native_ufs(&vec![Some(vec![(5, 3, 1), (9, 5, 2)])]);
    assert_eq!(total, 2);
    assert_eq!(g.native_uf_unions_synced(), 2);
    assert_eq!(g.native_ufs[0].table.find_ro(9), 3);
    let mut ids = g.adaptive_changed_ids.ids().clone();
    ids.sort();
    assert_eq!(ids, vec![5, 9]);
    assert_eq!(g.adaptive_recent_displaced, 2);
    assert_eq!(g.uf_sync_scans(), vec![None]);
    assert_eq!(g.sync_native_ufs(&vec![None]), 0);
    assert_eq!(g.adaptive_recent_displaced, 0);
    assert_eq!(g.adaptive_gate_mode(100, 1), GateMode::FullScan);
    assert_eq!(g.adaptive_gate_mode(100, 2), GateMode::Delta);
    assert_eq!(g.adaptive_gate_mode(0, 2), GateMode::FullScan);
    let stmts = g.materialize_uf_changed();
    assert_eq!(stmts[0], "CREATE OR REPLACE TEMP TABLE __UF_CHANGED__ (id BIGINT)");
    assert_eq!(stmts[1], "INSERT INTO __UF_CHANGED__ (id) VALUES (5), (9)");
    g.adaptive_reset_changed();
    assert_eq!(g.materialize_uf_changed().len(), 1);
    assert_eq!(adaptive_id_space(&vec![3, 4]), 7);
    assert_eq!(adaptive_id_space(&vec![3, -4]), 0);
}

#[test]
fn time_is_accounted_for() {
    let mut g = EGraph::new();
    for (name, ruleset) in [("a", ""), ("@rebuild_rule1", ""), ("b", "rs")] {
        add(&mut g, simple(name, ruleset, "t"), None);
    }
    for (i, ns) in [(0usize, 5u64), (1, 30), (2, 10)] {
        let mut run = RuleRun::start(&g.rules[i], &mut g.progress, 0, 1, GateMode::FullScan).unwrap();
        run.next(&g.rules[i], &g.progress);
        run.materialized(&g.rules[i], &mut g.progress, ns);
        run.finish(&g.rules[i], &mut g.progress);
    }
    let rows: Vec<(String, u64)> =
        g.perf_per_rule().into_iter().map(|r| (r.name, r.mat_ns)).collect();
    assert_eq!(
        rows,
        vec![("@rebuild_rule1".to_string(), 30), ("b".to_string(), 10), ("a".to_string(), 5)]
    );
    let phases = g.perf_per_ruleset();
    assert_eq!(phases.len(), 2);
    assert_eq!((phases[0].phase, phases[0].mat_ns, phases[0].rules), (Phase::Rebuild, 30, 1));
    assert_eq!((phases[1].phase, phases[1].mat_ns, phases[1].rules), (Phase::User, 15, 2));
    assert_eq!(g.perf_timings_ns(), (45, 0, 0));
    let top = g.explain_top_rules(1);
    assert_eq!(top.len(), 1);
    assert_eq!((top[0].name.as_str(), top[0].total_ns), ("@rebuild_rule1", 30));
    assert!(matches!(&top[0].variants[0], Explained::Query(s) if s == "EXPLAIN ANALYZE SELECT 0, 1"));
    assert_eq!(g.explain_top_rules(9).len(), 3);
    g.rules[1].variants[0].materialize = Some("VACUUM".to_string());
    assert!(matches!(&g.explain_top_rules(1)[0].variants[0], Explained::UnexpectedShape));
    g.rules[1].variants[0].materialize = None;
    assert!(matches!(&g.explain_top_rules(1)[0].variants[0], Explained::NoMaterialize));
}

/// Drives an iteration; `answer` says how many rows a statement affects or counts.
fn drive(g: &mut EGraph, mut it: Iteration, answer: fn(&str) -> u64) -> (Vec<String>, u64) {
    let mut trace = Vec::new();
    assert_eq!(it.stage, Stage::Sync);
    let rows = g.uf_sync_scans().iter().map(|s| s.as_ref().map(|_| vec![(8, 7, 1)])).collect();
    it.synced(g, &rows);
    if it.stage == Stage::Decide {
        let n = it.id_space(&vec![50]);
        trace.extend(it.decide(g, n, 5));
    }
    loop {
        match it.next(g) {
            Request::Materialize(s) => {
                trace.push(s);
                it.materialized(g, 1);
            }
            Request::Count(s) => {
                let n = answer(&s) as i64;
                trace.push(s);
                it.counted(g, n);
            }
            Request::Act(s) => {
                let n = answer(&s);
                trace.push(s);
                it.acted(g, n, 1);
            }
            Request::Done => break,
        }
    }
    (trace, it.total)
}

#[test]
fn iterations_run_to_their_end() {
    let mut g = EGraph::new();
    for (name, table) in [("a", "t"), ("b", "u"), ("c", "t")] {
        let p = g.prepare_rule(simple(name, "", table)).unwrap();
        g.add_rule(p, vec![variant(None, vec![action(name, Some("t"))])]);
    }
    let it = g.run_iteration();
    let (trace, total) = drive(&mut g, it, |s| if s == "a" { 2 } else { 0 });
    assert_eq!(trace, vec!["a", "b", "c"]);
    assert_eq!(total, 2);
    // Only the rules that read `t` have news.
    let it = g.run_iteration();
    let (trace, total) = drive(&mut g, it, |_| 0);
    assert_eq!(trace, vec!["a", "c"]);
    assert_eq!(total, 0);
    assert_eq!(g.rules_skipped(), 1);
    let it = g.run_iteration_for_indices(vec![1]);
    assert_eq!(drive(&mut g, it, |_| 0), (vec![], 0));
    assert_eq!(g.last_run_at.get_or("b", 0), 3);
    let mut s = g.run_to_saturation();
    let it = s.iteration(&g);
    let (_, total) = drive(&mut g, it, |_| 0);
    assert_eq!(s.ended(&g, 4), None);
    assert_eq!(s.ended(&g, total), Some((1, 4)));
}

#[test]
fn changed_ids_restrict_the_scan() {
    let mut g = EGraph::new();
    g.enable_native_uf();
    g.register_native_uf_function("@UF_Sf").unwrap();
    g.progress.bump_watermark("@UF_Sf", 1);
    let p = g.prepare_rule(simple("@rebuild_rule1", "@rebuilding1", "t")).unwrap();
    let mut v = variant(Some("FULL"), vec![action("A", None)]);
    v.gate_table = Some("@UF_Sf".to_string());
    v.delta = Some(DeltaVariant {
        materialize: Some("DELTA".to_string()),
        temp_table: None,
        actions: Vec::new(),
    });
    g.add_rule(p, vec![v]);
    let it = g.run_iteration_in(Some("@rebuilding1"));
    let (trace, total) = drive(&mut g, it, |_| 1);
    assert_eq!(
        trace,
        vec![
            "CREATE OR REPLACE TEMP TABLE __UF_CHANGED__ (id BIGINT)",
            "INSERT INTO __UF_CHANGED__ (id) VALUES (8)",
            "DELTA",
            "A"
        ]
    );
    assert_eq!(total, 2);
    assert_eq!(g.native_ufs[0].table.find_ro(8), 7);
    let it = g.run_iteration_in_set(vec!["@rebuilding1".to_string()]);
    assert!(!it.merges_follow(&g));
    let it = g.run_iteration_in(Some("@rebuilding1"));
    assert!(it.merges_follow(&g) && it.inline_follows(&g) && !it.native_follows(&g));
    let mut it = g.run_iteration_for_indices(vec![0]);
    assert!(it.merges_follow(&g) && !it.inline_follows(&g) && it.native_follows(&g));
    it.passed(3);
    assert_eq!(it.total, 3);
    assert!(!it.scanned_all());
}
