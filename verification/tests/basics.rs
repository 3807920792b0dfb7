use egglog_backends::backend::{
    BaseValueId, ColumnTy, DefaultVal, ExternalFunctionId, FunctionConfig, FunctionId, MergeFn,
    QueryEntry, UfProofConfig, Value, Variable, VariableId,
};
use egglog_backends::duckdb::rules::Literal;
use egglog_backends::feldera::compile::{pack_row, row_col, slot_lookup, unpack_row, HeadOp, RuleIr, Slot};
use egglog_backends::feldera::egraph::{BaseTypes, EGraph, UfError};
use egglog_backends::feldera::rebuild::{probe_delta_view_row, rebuild_rule_plan, RebuildError};
use egglog_backends::feldera::compile::{BodyAtom, BodyOp};
use egglog_backends::feldera::row::{get_col, pick_width, set_col, Row, Row16, Row32, Row8};

fn config(name: &str, schema: Vec<ColumnTy>, merge: MergeFn, default: DefaultVal) -> FunctionConfig {
    FunctionConfig { schema, default, merge, name: name.to_string(), can_subsume: false }
}

fn row(v: &[u32]) -> Vec<Value> {
    v.iter().map(|x| Value::new(*x)).collect()
}

#[test]
fn rows_are_packed_and_unpacked() {
    let vals = row(&[3, 1, 4]);
    let packed = pack_row(&vals);
    assert_eq!(packed, vec![3, 1, 4]);
    assert_eq!(row_col(&packed, 2), 4);
    assert_eq!(unpack_row(&packed, 3), vals);
    assert_eq!(unpack_row(&packed, 1), row(&[3]));
    let env = |v: u32| if v == 7 { Some(70) } else { None };
    assert_eq!(slot_lookup(&Slot::Var(7), &env), Some(70));
    assert_eq!(slot_lookup(&Slot::Var(8), &env), None);
    assert_eq!(slot_lookup(&Slot::Const(9), &env), Some(9));
}

#[test]
fn rows_have_the_width_of_a_bucket() {
    assert_eq!((pick_width(0), pick_width(8), pick_width(9)), (8, 8, 16));
    assert_eq!((pick_width(16), pick_width(17), pick_width(99)), (16, 32, 32));
    assert_eq!((Row8::WIDTH, Row16::WIDTH, Row32::WIDTH), (8, 16, 32));
    let r = Row16::pack(&[5, 6]);
    assert_eq!((get_col(&r, 0), get_col(&r, 1), get_col(&r, 2), get_col(&r, 99)), (5, 6, 0, 0));
    let r = set_col(r, 15, 9);
    assert_eq!(get_col(&r, 15), 9);
    let r = set_col(r, 16, 1);
    assert_eq!(get_col(&r, 16), 0);
}

#[test]
fn entries_refer_to_variables() {
    let v = Variable::from_id(VariableId::new(4));
    assert!(v.name.is_none());
    assert!(matches!(QueryEntry::from_variable(v), QueryEntry::Var(x) if x.id.rep() == 4));
}

#[test]
fn tables_hold_rows() {
    let mut eg = EGraph::new();
    let unit = BaseValueId::new(3);
    eg.set_base_types(BaseTypes { unit: Some(unit), boolean: None, int: None, string: None });
    let id = ColumnTy::Id;
    let rel = eg.add_table(config("rel", vec![id, ColumnTy::Base(unit)], MergeFn::Old, DefaultVal::Fail));
    let uff = eg.add_table(config("uff", vec![id, id], MergeFn::Old, DefaultVal::Identity));
    assert!(!eg.info(rel).has_output && eg.info(uff).has_output);
    eg.add_values(&vec![(rel, row(&[1, 0])), (uff, row(&[2, 1])), (rel, row(&[1, 0]))]);
    assert_eq!((eg.table_size(rel), eg.approx_table_size(uff)), (1, 1));
    assert_eq!(eg.table_size(FunctionId::new(9)), 0);
    assert_eq!(eg.lookup_id(uff, &row(&[2])), Some(Value::new(1)));
    assert_eq!(eg.lookup_id(uff, &row(&[5])), None);
    assert_eq!(eg.get_canon_repr(Value::new(8), id), Value::new(8));
    assert_eq!(eg.col_ty(rel, 1), Some(ColumnTy::Base(unit)));
    assert_eq!(eg.col_ty(rel, 2), None);
    eg.clear_table(rel);
    assert_eq!(eg.table_size(rel), 0);
    assert_eq!(eg.fresh_id(), Value::new(1));
    assert_eq!(eg.fresh_id(), Value::new(2));
    assert!(!eg.supports_inline_table_lookups() && !eg.supports_subsumption());
    assert!(!eg.supports_complex_merge() && !eg.supports_containers());
}

#[test]
fn primitives_are_registered_and_freed() {
    let mut eg = EGraph::new();
    let p = eg.register_external_func();
    let stop = eg.new_panic("stop".to_string());
    eg.set_pure_prim_name(p, "plus".to_string());
    assert!(eg.is_pure_prim(p) && !eg.is_pure_prim(stop));
    assert_eq!(eg.prim_name(p), Some("plus"));
    assert_eq!(eg.panic_message(stop), Some("stop"));
    assert_eq!(eg.panic_message(p), None);
    eg.free_external_func(stop);
    eg.free_external_func(p);
    assert_eq!(eg.panic_message(stop), None);
    assert!(!eg.is_pure_prim(p));
    eg.set_external_func_name(ExternalFunctionId::new(50), "lost".to_string());
    assert_eq!(eg.prim_name(ExternalFunctionId::new(50)), None);
    assert_eq!(eg.register_external_func().rep(), 2);
}

#[test]
fn union_find_functions_have_conditions() {
    let mut eg = EGraph::new();
    let f = FunctionId::new(0);
    let proofs = Some(UfProofConfig { trans: f, sym: f });
    assert_eq!(
        eg.add_uf_function("@UF".to_string(), None, None),
        Err(UfError::NativeUfDisabled)
    );
    eg.enable_native_uf();
    assert_eq!(
        eg.add_uf_function("@UF".to_string(), None, proofs),
        Err(UfError::ProofUnsupported)
    );
    let (uf, canon) = eg.add_uf_function("@UF".to_string(), None, None).unwrap();
    assert!(eg.has_uf(uf));
    assert_eq!(eg.canon_table(canon), Some(uf.rep() as usize));
    eg.enqueue_union(uf, 9, 4);
    assert_eq!(eg.native_uf_find(uf, 9), 9);
    assert_eq!(eg.native_uf_drain_all(), 1);
    assert_eq!(eg.native_uf_find(uf, 9), 4);
    assert_eq!(eg.native_uf_drain_all(), 0);
}

#[test]
fn rebuild_rules_are_recognized() {
    let mut eg = EGraph::new();
    eg.enable_native_uf();
    let (uf, canon) = eg.add_uf_function("@UF".to_string(), None, None).unwrap();
    let view = eg.add_table(config(
        "@View",
        vec![ColumnTy::Id, ColumnTy::Id],
        MergeFn::Old,
        DefaultVal::Fail,
    ));
    let atom = BodyOp::Atom(BodyAtom { func: view, slots: vec![Slot::Var(0), Slot::Var(1)] });
    let set = HeadOp::SetRow { func: view, slots: vec![Slot::Var(0), Slot::Var(1)] };
    let call = |s: Slot| HeadOp::Call { id: canon, args: vec![s], ret: 9 };
    let rule = |body: Vec<BodyOp>, head: Vec<HeadOp>| RuleIr {
        name: "@rebuild_rule".to_string(),
        body,
        head,
    };
    let fails = |r: RuleIr| rebuild_rule_plan(&eg, &r).map(|_| ()).unwrap_err();
    assert_eq!(fails(rule(vec![], vec![set.clone()])), RebuildError::NoViewAtom);
    assert_eq!(
        fails(rule(vec![atom.clone()], vec![call(Slot::Const(1)), set.clone()])),
        RebuildError::CanonWithoutVar
    );
    assert_eq!(
        fails(rule(vec![atom.clone()], vec![call(Slot::Var(5)), set.clone()])),
        RebuildError::CanonNotAColumn
    );
    let plan = rebuild_rule_plan(&eg, &rule(vec![atom], vec![call(Slot::Var(0)), set])).unwrap();
    assert!(!probe_delta_view_row(&eg, &vec![7, 3], &plan));
    eg.enqueue_union(uf, 7, 2);
    eg.native_uf_drain_all();
    assert!(probe_delta_view_row(&eg, &vec![7, 3], &plan));
}

#[test]
fn literals_are_compared_by_their_bits() {
    let nan = Literal::F64(f64::NAN.to_bits());
    assert!(nan.same(&nan.clone()));
    assert!(!Literal::F64(0.0f64.to_bits()).same(&Literal::F64((-0.0f64).to_bits())));
    assert!(Literal::Str("a".to_string()).same(&Literal::Str("a".to_string())));
    assert!(!Literal::I64(1).same(&Literal::Bool(true)));
    assert!(Literal::I64(1) == Literal::I64(1));
}
