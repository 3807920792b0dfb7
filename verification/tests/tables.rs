use egglog_backends::backend;
use egglog_backends::backend::{ExternalFunctionId, MergeFn};
use egglog_backends::duckdb::egraph::{DeclareError, EGraph, TableError};
use egglog_backends::duckdb::pool::BaseTy;
use egglog_backends::duckdb::rules::{Literal, Term};
use egglog_backends::duckdb::schema::{ColumnTy, FunctionInfo, MergeMode};
use egglog_backends::duckdb::sql::{bind, conflict_clause, create_table_sql, prefix_with_comma};
use egglog_backends::duckdb::udf::UdfKind;

fn texts(v: &[&str]) -> Vec<String> {
    v.iter().map(|s| s.to_string()).collect()
}

#[test]
fn tables_are_created() {
    let mut g = EGraph::new();
    let d = g.add_relation("edge", &vec![ColumnTy::I64, ColumnTy::Str]).unwrap();
    assert_eq!(
        d.sql,
        "CREATE TABLE \"edge\" (c0 BIGINT NOT NULL, c1 VARCHAR NOT NULL, ts BIGINT NOT NULL, \
         PRIMARY KEY (c0, c1))"
    );
    assert_eq!(d.udf, None);
    let d = g.add_function("f", &vec![ColumnTy::Bool], ColumnTy::F64, MergeMode::New).unwrap();
    assert_eq!(
        d.sql,
        "CREATE TABLE \"f\" (c0 BOOLEAN NOT NULL, c1 DOUBLE NOT NULL, ts BIGINT NOT NULL, \
         PRIMARY KEY (c0))"
    );
    let d = g.add_function("v", &vec![], ColumnTy::PairI64, MergeMode::Old).unwrap();
    assert_eq!(
        d.sql,
        "CREATE TABLE \"v\" (c0 STRUCT(first BIGINT, second BIGINT) NOT NULL, ts BIGINT NOT NULL)"
    );
    let d = g.add_relation("n", &vec![]).unwrap();
    assert_eq!(d.sql, "CREATE TABLE \"n\" (ts BIGINT NOT NULL)");
    let d = g.add_eq_sort_constructor("Add", &vec![ColumnTy::I64], Some("nowhere")).unwrap();
    assert_eq!(
        d.sql,
        "CREATE TABLE \"_add\" (c0 BIGINT NOT NULL, c1 BIGINT NOT NULL, ts BIGINT NOT NULL, \
         PRIMARY KEY (c0, c1))"
    );
    let d = g
        .add_term_build_view_function("b", &vec![ColumnTy::I64], ColumnTy::I64, MergeFn::Old)
        .unwrap();
    assert!(d.sql.ends_with("PRIMARY KEY (c0, c1))"));
    assert_eq!(g.add_relation("n", &vec![]).unwrap_err(), DeclareError::AlreadyRegistered);
    assert_eq!(g.function_arity("edge"), Some(2));
    assert_eq!(g.function_arity("x"), None);
    assert_eq!(g.functions.get("Add").unwrap().eq_sort_pname, None);
}

#[test]
fn declarations_are_taken_back() {
    let mut g = EGraph::new();
    g.add_relation("edge", &vec![ColumnTy::I64]).unwrap();
    let d = g.register_native_uf_function("@UF_T").unwrap();
    assert!(d.udf.is_some() && g.is_native_uf_function("@UF_T"));
    g.undeclare("@UF_T");
    assert!(!g.is_native_uf_function("@UF_T"));
    assert_eq!(g.function_arity("@UF_T"), None);
    assert!(g.register_native_uf_function("@UF_T").is_ok());
    g.undeclare("edge");
    assert_eq!(g.function_arity("edge"), None);
    assert!(g.is_native_uf_function("@UF_T"));
    assert!(g.add_relation("edge", &vec![ColumnTy::I64]).is_ok());
}

#[test]
fn parents_have_to_be_known() {
    let mut g = EGraph::new();
    g.add_relation("@UF_M", &vec![ColumnTy::I64, ColumnTy::I64]).unwrap();
    g.add_relation_with_pname("@MView", &vec![ColumnTy::I64], Some("@UF_M")).unwrap();
    assert_eq!(g.functions.get("@MView").unwrap().eq_sort_pname.as_deref(), Some("@UF_M"));
}

#[test]
fn smallest_outputs_get_a_union_find() {
    let mut g = EGraph::new();
    let cols = vec![ColumnTy::I64];
    g.add_function("plainf", &cols, ColumnTy::I64, MergeMode::Min).unwrap();
    assert_eq!(g.native_uf_table_count(), 0);
    g.enable_native_uf();
    let e = g.add_function("@UF_S", &cols, ColumnTy::I64, MergeMode::Min).unwrap_err();
    assert_eq!(e, DeclareError::NoParentName);
    let e = g.add_function("@UF_Sf", &cols, ColumnTy::I64, MergeMode::Min).unwrap_err();
    assert_eq!(e, DeclareError::NoParent);
    g.add_relation("@UF_S", &vec![ColumnTy::I64, ColumnTy::I64]).unwrap();
    let d = g.add_function("@UF_Sf", &cols, ColumnTy::I64, MergeMode::Min).unwrap();
    assert_eq!(d.udf.as_deref(), Some("duck_uf_UF__Sf_find"));
    assert!(g.is_native_uf_function("@UF_Sf") && !g.is_native_uf_function("@UF_S"));
    assert_eq!(g.native_uf_pname.get("@UF_Sf").map(|s| s.as_str()), Some("@UF_S"));
    let d = g.register_native_uf_function("@UF_T").unwrap();
    assert_eq!(d.udf.as_deref(), Some("duck_uf_UF__T_find"));
    assert!(d.sql.ends_with("PRIMARY KEY (c0, c1))"));
    assert_eq!(g.native_uf_pname.get("@UF_T").map(|s| s.as_str()), Some("@UF_T"));
    assert_eq!(
        g.register_native_uf_function("@UF_T").unwrap_err(),
        DeclareError::AlreadyRegistered
    );
    assert_eq!(g.native_uf_table_count(), 2);
}

fn function(inputs: usize, merge: MergeMode) -> FunctionInfo {
    FunctionInfo {
        cols: vec![ColumnTy::I64; inputs + 1],
        inputs_len: inputs,
        merge: Some(merge),
        eq_sort_ctor: false,
        native_uf_udf: None,
        eq_sort_pname: None,
        identity_on_miss: false,
        merge_tree: None,
        native_congruence_uf: None,
    }
}

#[test]
fn conflicts_follow_the_merge_mode() {
    let nothing = "ON CONFLICT DO NOTHING";
    assert_eq!(conflict_clause(&function(1, MergeMode::Old)), nothing);
    assert_eq!(
        conflict_clause(&function(2, MergeMode::New)),
        "ON CONFLICT DO UPDATE SET c2 = EXCLUDED.c2, ts = EXCLUDED.ts"
    );
    assert_eq!(
        conflict_clause(&function(1, MergeMode::Min)),
        "ON CONFLICT DO UPDATE SET c1 = LEAST(c1, EXCLUDED.c1), ts = EXCLUDED.ts"
    );
    assert_eq!(
        conflict_clause(&function(1, MergeMode::Fold("f(c1)".to_string()))),
        "ON CONFLICT DO UPDATE SET c1 = f(c1), ts = EXCLUDED.ts"
    );
    assert_eq!(conflict_clause(&function(0, MergeMode::New)), "");
    assert_eq!(conflict_clause(&FunctionInfo::relation(vec![], None)), "");
    assert_eq!(conflict_clause(&FunctionInfo::relation(vec![ColumnTy::I64], None)), nothing);
    let mut tree = function(0, MergeMode::Old);
    tree.merge_tree = Some(MergeFn::Old);
    assert_eq!(conflict_clause(&tree), nothing);
    assert_eq!(tree.key_width(), 1);
    let mut ctor = function(0, MergeMode::New);
    ctor.eq_sort_ctor = true;
    assert_eq!(conflict_clause(&ctor), nothing);
    assert!(create_table_sql("t", &ctor).contains("PRIMARY KEY (c0)"));
}

#[test]
fn rows_are_inserted_and_read() {
    let mut g = EGraph::new();
    g.add_function("f", &vec![ColumnTy::I64], ColumnTy::I64, MergeMode::New).unwrap();
    g.add_relation("n", &vec![]).unwrap();
    g.add_function("v", &vec![], ColumnTy::I64, MergeMode::Old).unwrap();
    g.add_function("s", &vec![], ColumnTy::Str, MergeMode::Old).unwrap();
    g.add_eq_sort_constructor("C", &vec![ColumnTy::I64], None).unwrap();
    assert_eq!(
        g.insert("f", &texts(&["1", "2"])).unwrap(),
        "INSERT INTO \"f\" (c0, c1, ts) VALUES (1, 2, 0) \
         ON CONFLICT DO UPDATE SET c1 = EXCLUDED.c1, ts = EXCLUDED.ts"
    );
    assert_eq!(g.insert("n", &vec![]).unwrap(), "INSERT INTO \"n\" (ts) VALUES (0)");
    assert_eq!(
        g.insert_terms("v", &texts(&["(SELECT 1)"])).unwrap(),
        "INSERT INTO \"v\" (c0, ts) SELECT (SELECT 1), 0 "
    );
    assert_eq!(g.insert("f", &texts(&["1"])).unwrap_err(), TableError::Arity(1, 2));
    assert_eq!(g.insert("g", &vec![]).unwrap_err(), TableError::Unknown);
    assert_eq!(g.insert_terms("g", &vec![]).unwrap_err(), TableError::Unknown);
    assert_eq!(
        g.check_exists("f", 2).unwrap(),
        "SELECT COUNT(*) FROM \"f\" WHERE c0 = ?1 AND c1 = ?2"
    );
    assert_eq!(g.check_exists("f", 1).unwrap(), "SELECT COUNT(*) FROM \"f\" WHERE c0 = ?1");
    assert_eq!(g.check_exists("n", 0).unwrap(), "SELECT COUNT(*) FROM \"n\"");
    assert_eq!(g.check_exists("f", 3).unwrap_err(), TableError::EitherArity(3, 1, 2));
    assert_eq!(g.check_exists("x", 3).unwrap_err(), TableError::Unknown);
    assert_eq!(g.lookup_i64("f", 1).unwrap(), "SELECT c1 FROM \"f\" WHERE c0 = ?1");
    assert_eq!(g.lookup_i64("v", 0).unwrap(), "SELECT c0 FROM \"v\"");
    assert_eq!(g.lookup_i64("f", 2).unwrap_err(), TableError::Arity(2, 1));
    assert_eq!(g.lookup_i64("n", 0).unwrap_err(), TableError::IsRelation);
    assert_eq!(g.lookup_i64("s", 0).unwrap_err(), TableError::OutputNotI64);
    assert_eq!(g.lookup_i64("x", 0).unwrap_err(), TableError::Unknown);
    assert_eq!(
        g.allocate_and_insert("C", 1).unwrap(),
        "SELECT nextval('__egglog_eqsort_seq')"
    );
    assert_eq!(g.allocate_and_insert("C", 2).unwrap_err(), TableError::Arity(2, 1));
    assert_eq!(g.allocate_and_insert("f", 1).unwrap_err(), TableError::NotConstructor);
    assert_eq!(g.allocate_and_insert("x", 1).unwrap_err(), TableError::Unknown);
    assert_eq!(
        g.insert_allocated("C", texts(&["7"]), 1).unwrap(),
        "INSERT INTO \"_c\" (c0, c1, ts) VALUES (7, 1, 0) ON CONFLICT DO NOTHING"
    );
    assert_eq!(g.insert_allocated("C", texts(&[]), 1).unwrap_err(), TableError::Arity(0, 1));
    assert_eq!(g.insert_allocated("f", texts(&["7"]), 1).unwrap_err(), TableError::NotConstructor);
    assert_eq!(g.insert_allocated("x", texts(&["7"]), 1).unwrap_err(), TableError::Unknown);
    assert_eq!(
        g.relation_exists_raw("f", &texts(&["c0 = 1", "c1 = 2"])),
        "SELECT COUNT(*) FROM \"f\" WHERE c0 = 1 AND c1 = 2"
    );
    assert_eq!(g.count("C"), "SELECT COUNT(*) FROM \"_c\"");
}

#[test]
fn sizes_are_those_of_public_tables() {
    let mut g = EGraph::new();
    assert!(g.table_size_query().is_none());
    g.add_relation("@hidden", &vec![]).unwrap();
    assert!(g.table_size_query().is_none());
    g.add_relation("a", &vec![]).unwrap();
    g.add_relation("b", &vec![]).unwrap();
    let (names, sql) = g.table_size_query().unwrap();
    assert_eq!(names, texts(&["a", "b"]));
    assert_eq!(sql, "SELECT (SELECT COUNT(*) FROM \"a\"), (SELECT COUNT(*) FROM \"b\")");
    assert_eq!(g.get_size(), 0);
    g.refresh_table_sizes(&names, &vec![3, 4]);
    assert_eq!(g.get_size(), 7);
}

#[test]
fn windows_are_filled_in() {
    assert_eq!(bind("ts >= ?1 AND ts < ?2 AND x < ?2", -1, 12), "ts >= -1 AND ts < 12 AND x < 12");
    assert_eq!(prefix_with_comma(&vec![]), "");
    assert_eq!(prefix_with_comma(&texts(&["a", "b"])), "a, b, ");
}

#[test]
fn primitives_are_named_once() {
    let mut g = EGraph::new();
    g.pool.register_type(BaseTy::Str);
    g.pool.register_type(BaseTy::BigInt);
    let id = g.external_funcs.add_func();
    let plan = g.set_external_func_name(id, "bigint-add".to_string());
    assert!(matches!(plan, Some((ref n, UdfKind::BigintBinary(_))) if n == "__egglog_bigint_add"));
    assert_eq!(g.external_func_name(id), Some("bigint-add"));
    g.builtin_udf_registered("bigint-add");
    assert!(g.register_builtin_prim_udf("bigint-add").is_none());
    assert!(g.set_external_func_name(id, "bigint-add".to_string()).is_none());
    let unknown = ExternalFunctionId::new(9);
    assert!(g.set_external_func_name(unknown, "from-string".to_string()).is_none());
    assert_eq!(g.external_func_name(unknown), None);
    let canon = g.external_funcs.add_func();
    g.bind_canon(canon, "duck_uf_S_find".to_string());
    assert!(g.set_external_func_name(canon, "@canon_S".to_string()).is_none());
    assert_eq!(
        g.native_uf_canon_prim_udf.get("@canon_S").map(|s| s.as_str()),
        Some("duck_uf_S_find")
    );
    let pair = g.pair_column_ty();
    assert_eq!(pair, g.pair_column_ty());
    assert!(matches!(pair, backend::ColumnTy::Base(id) if id.rep() == 2));
    let s = g.pool.intern_string("12".to_string()) as i64;
    match g.fold_builtin_prim("from-string", &vec![Term::i64(s)]) {
        Some(Term::Lit(Literal::I64(h))) => {
            assert_eq!(g.base_value_pool_typed().int_at(h as u32).to_i64(), Some(12))
        }
        _ => unreachable!(),
    }
}
