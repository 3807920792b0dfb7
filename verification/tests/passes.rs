use egglog_backends::backend::{ExternalFunctionId, FunctionId, MergeFn, Value};
use egglog_backends::duckdb::egraph::EGraph;
use egglog_backends::duckdb::iterate::Selection;
use egglog_backends::duckdb::schema::ColumnTy;
use egglog_backends::duckdb::term_build::BuildError;

/// Renders `max` as SQL's `GREATEST`, and nothing else.
fn render(op: &String, args: &Vec<String>) -> Option<String> {
    if op == "max" {
        Some(format!("GREATEST({})", args.join(", ")))
    } else {
        None
    }
}

/// A view `@FView`, a union-find `@UF_Sf`, a constructor `C` and its view `@CView`.
fn program(tree: MergeFn) -> EGraph {
    let mut g = EGraph::new();
    g.enable_native_uf();
    let id = vec![ColumnTy::I64];
    g.add_term_build_view_function("@FView", &id, ColumnTy::I64, tree).unwrap();
    g.register_native_uf_function("@UF_Sf").unwrap();
    g.add_eq_sort_constructor("C", &vec![ColumnTy::I64, ColumnTy::I64], None).unwrap();
    g.add_relation("@CView", &vec![ColumnTy::I64, ColumnTy::I64, ColumnTy::I64]).unwrap();
    for n in ["@FView", "@UF_Sf", "C", "@CView", "missing"] {
        g.add_function_name(n.to_string());
    }
    let max = g.external_funcs.add_func();
    g.set_external_func_name(max, "max".to_string());
    let odd = g.external_funcs.add_func();
    g.set_external_func_name(odd, "odd".to_string());
    g
}

const UF: FunctionId = FunctionId { rep: 1 };
const C: FunctionId = FunctionId { rep: 2 };
const CVIEW: FunctionId = FunctionId { rep: 3 };

fn canon(x: MergeFn) -> MergeFn {
    MergeFn::Function(UF, vec![x])
}

fn construct() -> MergeFn {
    MergeFn::Construct(C, vec![MergeFn::Old, MergeFn::New], vec![])
}

#[test]
fn merges_build_terms() {
    let tree = MergeFn::IfEq {
        a: Box::new(canon(MergeFn::Old)),
        b: Box::new(canon(MergeFn::New)),
        then: Box::new(MergeFn::Old),
        els: Box::new(MergeFn::Sequence(vec![
            MergeFn::TableInsert(CVIEW, vec![MergeFn::Old, MergeFn::New, construct()]),
            construct(),
        ])),
    };
    let mut g = program(tree);
    g.begin_iteration(&Selection::Ruleset(None), 0);
    assert_eq!(g.term_build_views(), vec!["@FView"]);
    let p = g.plan_term_build("@FView", &render).unwrap();
    assert_eq!(
        p.batch,
        "CREATE OR REPLACE TEMP TABLE batch AS SELECT v1.c0 AS c0, v1.c1 AS old, v2.c1 AS new \
         FROM \"@_f_view\" v1 JOIN \"@_f_view\" v2 ON v1.c0 = v2.c0 AND v1.c1 > v2.c1 \
         WHERE v1.ts >= 0 OR v2.ts >= 0"
    );
    assert_eq!(
        p.guard.as_deref(),
        Some(
            "CREATE OR REPLACE TEMP TABLE batch AS SELECT * FROM batch b WHERE \
             duck_uf_UF__Sf_find(b.old) <> duck_uf_UF__Sf_find(b.new)"
        )
    );
    let read = "(SELECT MIN(c2) FROM \"_c\" WHERE c0 = b.old AND c1 = b.new)";
    let mint = format!(
        "INSERT INTO \"_c\" (c0, c1, c2, ts) SELECT b.old, b.new, COALESCE({read}, \
         nextval('__egglog_eqsort_seq')), 1 FROM batch b ON CONFLICT DO NOTHING"
    );
    let view = format!(
        "INSERT INTO \"@_c_view\" (c0, c1, c2, ts) SELECT b.old, b.new, {read}, 1 \
         FROM batch b ON CONFLICT DO NOTHING"
    );
    assert_eq!(p.stmts, vec![mint.clone(), view, mint]);
    assert_eq!(p.written, vec!["C", "@CView"]);
    assert_eq!(
        p.delete_old,
        "DELETE FROM \"@_f_view\" WHERE (c0, c1) IN (SELECT b.c0, b.old FROM batch b)"
    );
    assert_eq!(
        p.delete_new,
        "DELETE FROM \"@_f_view\" WHERE (c0, c1) IN (SELECT b.c0, b.new FROM batch b)"
    );
    assert_eq!(
        p.insert,
        format!(
            "INSERT INTO \"@_f_view\" (c0, c1, ts) SELECT b.c0, {read}, 1 FROM batch b \
             ON CONFLICT DO NOTHING"
        )
    );
    assert_eq!(g.finish_term_build(&p, 2, &vec![1, 2, 3]), 2);
    assert_eq!(g.rules_affected_total(), 6);
    for t in ["C", "@CView", "@FView"] {
        assert_eq!(g.progress.watermarks.get_or(t, 0), 1);
    }
    assert_eq!(g.last_termbuild_at.get_or("@FView", 0), 1);
    g.begin_iteration(&Selection::Ruleset(None), 0);
    let p = g.plan_term_build("@FView", &render).unwrap();
    assert!(p.batch.ends_with("WHERE v1.ts >= 1 OR v2.ts >= 1"));
    assert_eq!(g.finish_term_build(&p, 0, &vec![]), 0);
    assert_eq!(g.rules_affected_total(), 6);
    assert!(g.term_build_views().is_empty());
}

fn fails(tree: MergeFn) -> BuildError {
    program(tree).plan_term_build("@FView", &render).unwrap_err()
}

#[test]
fn merges_that_cannot_be_built() {
    let f = FunctionId::new;
    let x = ExternalFunctionId::new;
    assert_eq!(fails(MergeFn::KeyCol(1)), BuildError::KeyOutOfRange(1));
    assert_eq!(fails(MergeFn::Function(f(9), vec![])), BuildError::UnknownFunction(9));
    assert_eq!(fails(MergeFn::Function(f(4), vec![])), BuildError::Unregistered(4));
    assert_eq!(fails(MergeFn::Function(UF, vec![])), BuildError::CanonArity(1, 0));
    assert_eq!(fails(MergeFn::Primitive(x(9), vec![])), BuildError::UnknownPrimitive(9));
    assert_eq!(fails(MergeFn::Primitive(x(1), vec![])), BuildError::Unrendered(1));
    assert_eq!(
        fails(MergeFn::Construct(C, vec![], vec![MergeFn::Old])),
        BuildError::ValueColumns
    );
    assert_eq!(fails(MergeFn::UnionId), BuildError::NoValue);
    assert_eq!(fails(MergeFn::OldCol(1)), BuildError::NoValue);
    assert_eq!(fails(MergeFn::Sequence(vec![])), BuildError::EmptySequence);
    assert_eq!(
        fails(MergeFn::Sequence(vec![MergeFn::Old, MergeFn::Old])),
        BuildError::NoEffect
    );
    assert_eq!(
        fails(MergeFn::Sequence(vec![MergeFn::TableInsert(CVIEW, vec![]), MergeFn::Old])),
        BuildError::InsertArity(3, 0, 3)
    );
}

#[test]
fn merges_of_values() {
    let x = ExternalFunctionId::new;
    let g = program(MergeFn::Primitive(x(0), vec![MergeFn::KeyCol(0), MergeFn::Const(Value::new(7))]));
    let p = g.plan_term_build("@FView", &render).unwrap();
    assert!(p.insert.contains("SELECT b.c0, GREATEST(b.c0, 7), 0 FROM batch b"));
    assert!(p.guard.is_none() && p.stmts.is_empty());
    let g = program(MergeFn::Function(C, vec![]));
    let p = g.plan_term_build("@FView", &render).unwrap();
    assert!(p.insert.contains("(SELECT MIN(c2) FROM \"_c\")"));
    let g = program(MergeFn::Sequence(vec![
        MergeFn::Sequence(vec![construct(), MergeFn::New]),
        MergeFn::NewCol(0),
    ]));
    let p = g.plan_term_build("@FView", &render).unwrap();
    assert_eq!(p.stmts.len(), 1);
    assert!(p.insert.contains("SELECT b.c0, b.new, 0 FROM batch b"));
}

#[test]
fn congruences_unite_inline() {
    let mut g = EGraph::new();
    g.add_relation("@UF_S", &vec![ColumnTy::I64, ColumnTy::I64]).unwrap();
    let two = vec![ColumnTy::I64, ColumnTy::I64];
    g.add_relation_with_pname("@V", &two, Some("@UF_S")).unwrap();
    g.add_eq_sort_constructor("C", &two, Some("@UF_S")).unwrap();
    g.add_relation_with_pname("@One", &vec![ColumnTy::I64], Some("@UF_S")).unwrap();
    g.begin_iteration(&Selection::Ruleset(None), 0);
    let plans = g.plan_inline_congruence();
    assert_eq!(plans.len(), 2);
    assert_eq!(
        plans[0].insert,
        "INSERT INTO \"@_u_f___s\" (c0, c1, ts) SELECT GREATEST(v1.c1, v2.c1), \
         LEAST(v1.c1, v2.c1), 1 FROM \"@_v\" v1, \"@_v\" v2 WHERE v1.ts >= 0 AND v1.ts < 1 \
         AND v2.ts < 1 AND v1.c1 <> v2.c1 AND v1.c0 = v2.c0 ON CONFLICT DO NOTHING"
    );
    assert!(plans[1].insert.contains("AND v1.c0 = v2.c0 AND v1.c1 = v2.c1 ON CONFLICT"));
    assert_eq!(g.finish_inline_congruence(&plans[0], 3), 3);
    assert_eq!(g.finish_inline_congruence(&plans[1], 0), 0);
    assert_eq!(g.rules_affected_total(), 3);
    assert_eq!(g.progress.watermarks.get_or("@UF_S", 0), 1);
    g.begin_iteration(&Selection::Ruleset(None), 0);
    assert!(g.plan_inline_congruence().is_empty());
}

#[test]
fn congruences_unite_by_batch() {
    let mut g = EGraph::new();
    g.enable_native_uf();
    g.register_native_uf_function("@UF_Sf").unwrap();
    g.add_relation("@V", &vec![ColumnTy::I64, ColumnTy::I64]).unwrap();
    assert!(g.plan_native_congruence().is_empty());
    assert!(g.set_native_congruence("@V", "@UF_Sf".to_string()));
    assert!(!g.set_native_congruence("nowhere", "@UF_Sf".to_string()));
    g.begin_iteration(&Selection::Ruleset(None), 0);
    let plans = g.plan_native_congruence();
    assert_eq!(plans.len(), 1);
    assert_eq!(
        plans[0].batch.as_deref(),
        Some(
            "CREATE OR REPLACE TEMP TABLE native_cong_batch AS SELECT v1.c0 AS c0, \
             GREATEST(v1.c1, v2.c1) AS loser, LEAST(v1.c1, v2.c1) AS winner FROM \"@_v\" v1 \
             JOIN \"@_v\" v2 ON v1.c0 = v2.c0 AND v1.c1 <> v2.c1 \
             WHERE v1.ts >= 0 AND v1.ts < 1 AND v2.ts < 1"
        )
    );
    assert_eq!(
        plans[0].insert,
        "INSERT INTO \"@_u_f___sf\" (c0, c1, ts) SELECT b.loser, b.winner, 1 \
         FROM native_cong_batch b ON CONFLICT DO NOTHING"
    );
    assert_eq!(g.finish_native_congruence(&plans[0], 2, 1), 2);
    assert_eq!(g.rules_affected_total(), 1);
    assert_eq!(g.progress.watermarks.get_or("@UF_Sf", 0), 1);
    assert_eq!(g.finish_native_congruence(&plans[0], 0, 0), 0);
    assert_eq!(g.last_native_cong_at.get_or("@V", 0), 1);
}
