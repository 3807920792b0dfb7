//! The e-graph state and the operations that do not run rules.
use crate::backend::{
    reps, BaseValueId, ColumnTy, DefaultVal, ExternalFunctionId, FunctionConfig, FunctionId, MergeFn,
    RuleId, UfProofConfig, Value,
};
use crate::collections::{row_views, IdMap, IdSet, RowSet};
use crate::feldera::compile::{pack_row, unpack_row, MergeMode, Row, RuleIr, MAX_ARITY};
use crate::feldera::external_func::{EntryView, ExternalFuncRegistry};
use crate::feldera::table::{
    drained, lemma_grown_fits, merge_changes, merged, moved, puts_fit, rows_fit, uf_find, RelationInfo, InfoState, Table, TableState, UfState,
};
use crate::feldera::uf::after_unions;
use std::rc::Rc;
use vstd::prelude::*;

verus! {

/// The base types that rules treat specially, where they are registered.
#[derive(Clone, Copy, Debug, PartialEq, Eq, Structural)]
pub struct BaseTypes {
    pub unit: Option<BaseValueId>,
    pub boolean: Option<BaseValueId>,
    pub int: Option<BaseValueId>,
    pub string: Option<BaseValueId>,
}

/// The rows that were last fed to the circuit of one set of rules.
#[derive(Debug)]
pub struct FedView {
    /// The rules, in ascending order.
    pub key: Vec<usize>,
    /// The rules, in the order in which the circuit reports them.
    pub order: Vec<usize>,
    /// The variables of each rule's binding row, in that order.
    pub var_orders: Vec<Vec<u32>>,
    /// The rows of each table; a table beyond the end was fed nothing.
    pub fed: Vec<Rc<RowSet>>,
}

/// The rows that were last fed to a circuit, as a value.
#[verifier::ext_equal]
pub struct FedState {
    pub key: Seq<usize>,
    pub order: Seq<usize>,
    pub var_orders: Seq<Seq<u32>>,
    pub fed: Seq<Set<Seq<u32>>>,
}

impl FedState {
    /// The rows of table `f` that were last fed.
    pub open spec fn rows(self, f: int) -> Set<Seq<u32>> {
        rows_at(self.fed, f)
    }
}

/// The rows at a position; none beyond the end.
pub open spec fn rows_at(rows: Seq<Set<Seq<u32>>>, f: int) -> Set<Seq<u32>> {
    if 0 <= f < rows.len() {
        rows[f]
    } else {
        Set::empty()
    }
}

/// The contents of shared row sets.
pub open spec fn shared_rows(rows: Seq<Rc<RowSet>>) -> Seq<Set<Seq<u32>>> {
    rows.map_values(|s: Rc<RowSet>| s@)
}

impl FedView {
    pub open spec fn state(&self) -> FedState {
        FedState {
            key: self.key@,
            order: self.order@,
            var_orders: row_views(self.var_orders@),
            fed: shared_rows(self.fed@),
        }
    }
}

/// The e-graph, as a value.
#[verifier::ext_equal]
pub struct EgState {
    pub tables: Seq<TableState>,
    pub rules: Seq<Option<RuleIr>>,
    pub prims: Seq<EntryView>,
    pub names: Seq<Option<Seq<char>>>,
    /// The primitives that may be evaluated more than once.
    pub pure_prims: Set<u32>,
    /// The table whose union-find answers a canonicalization primitive.
    pub canon: Map<u32, usize>,
    pub base: BaseTypes,
    pub next_id: u32,
    pub native_uf: bool,
    pub fast_rebuild: bool,
    pub circuit_rebuild: bool,
    /// The rules without body atoms that have fired.
    pub fired: Set<usize>,
    pub fed: Seq<FedState>,
}

impl EgState {
    /// The state with other rows in table `f`.
    pub open spec fn with_rows(self, f: int, rows: Set<Seq<u32>>) -> EgState {
        EgState {
            tables: self.tables.update(f, TableState { rows, ..self.tables[f] }),
            ..self
        }
    }

    /// The state with another table `f`.
    pub open spec fn with_table(self, f: int, t: TableState) -> EgState {
        EgState { tables: self.tables.update(f, t), ..self }
    }

    /// The leader of `x` in the union-find of table `f`; `x` where there is none.
    pub open spec fn find(self, f: int, x: u32) -> u32 {
        if 0 <= f < self.tables.len() {
            uf_find(self.tables[f].uf, x as i64) as u32
        } else {
            x
        }
    }

    /// The name of a primitive.
    pub open spec fn name_of(self, id: u32) -> Option<Seq<char>> {
        if id < self.names.len() {
            self.names[id as int]
        } else {
            None
        }
    }

    /// The type of a column, if the table and the column exist.
    pub open spec fn col_ty(self, f: u32, c: int) -> Option<ColumnTy> {
        if f < self.tables.len() && 0 <= c < self.tables[f as int].info.schema.len() {
            Some(self.tables[f as int].info.schema[c])
        } else {
            None
        }
    }

    pub open spec fn arity(self, f: u32) -> nat {
        self.tables[f as int].info.arity
    }

    /// What holds in every state that the operations lead to.
    pub open spec fn wf(self) -> bool {
        &&& self.tables.len() <= u32::MAX + 1
        &&& self.names.len() == self.prims.len()
        &&& self.prims.len() <= u32::MAX + 1
        &&& forall|i: int| 0 <= i < self.tables.len() ==> table_ok(#[trigger] self.tables[i])
        &&& forall|id: u32| #[trigger]
            self.canon.contains_key(id) ==> self.canon[id] < self.tables.len()
                && self.tables[self.canon[id] as int].uf is Some
        &&& forall|i: int| 0 <= i < self.fed.len() ==> fed_ok(#[trigger] self.fed[i])
    }
}

/// What holds of every circuit: it has an order and the variables of its rules.
pub open spec fn fed_ok(v: FedState) -> bool {
    &&& v.order.to_multiset() == v.key.to_multiset()
    &&& v.var_orders.len() == v.order.len()
}

/// A count, which stops at the largest number that it can hold.
pub open spec fn capped(n: int) -> u64 {
    if n <= u64::MAX {
        n as u64
    } else {
        u64::MAX
    }
}

/// What holds of every table.
pub open spec fn table_ok(t: TableState) -> bool {
    &&& rows_fit(t.rows, t.info.arity)
    &&& t.info.arity <= MAX_ARITY
    &&& t.info.schema.len() == t.info.arity
    &&& (t.info.has_output ==> t.info.arity > 0)
    &&& (t.info.identity_on_miss ==> t.info.arity == 2)
    &&& t.uf matches Some(u) ==> {
        &&& t.info.arity == 2
        &&& uf_ok(u)
    }
}

/// Leaders are the smallest of their classes, and all ids fit 32 bits.
pub open spec fn uf_ok(u: UfState) -> bool {
    &&& crate::feldera::uf::is_leader_fn(u.find)
    &&& forall|x: i64| 0 <= x <= u32::MAX ==> 0 <= #[trigger] (u.find)(x)
    &&& forall|i: int|
        0 <= i < u.pending.len() ==> 0 <= (#[trigger] u.pending[i]).0 <= u32::MAX && 0
            <= u.pending[i].1 <= u32::MAX
}

proof fn lemma_unions_in_range(find: spec_fn(i64) -> i64, unions: Seq<(i64, i64)>, x: i64)
    requires
        forall|x: i64| 0 <= x <= u32::MAX ==> 0 <= #[trigger] find(x),
        forall|i: int|
            0 <= i < unions.len() ==> 0 <= (#[trigger] unions[i]).0 <= u32::MAX && 0 <= unions[i].1
                <= u32::MAX,
        0 <= x <= u32::MAX,
    ensures
        0 <= after_unions(find, unions)(x),
    decreases unions.len(),
{
    if unions.len() > 0 {
        let less = unions.drop_last();
        assert(unions[unions.len() - 1] == unions.last());
        assert forall|i: int| 0 <= i < less.len() implies 0 <= (#[trigger] less[i]).0 <= u32::MAX
            && 0 <= less[i].1 <= u32::MAX by {
            assert(less[i] == unions[i]);
        }
        lemma_unions_in_range(find, less, x);
        lemma_unions_in_range(find, less, unions.last().0);
        lemma_unions_in_range(find, less, unions.last().1);
    }
}

/// Applying the queued unions keeps a union-find sound.
pub proof fn lemma_drained_ok(t: TableState, stash: bool)
    requires
        table_ok(t),
    ensures
        table_ok(drained(t, stash)),
{
    if t.uf is Some {
        let u = t.uf->0;
        crate::feldera::uf::unions_keep_leader_fn(u.find, u.pending);
        assert forall|x: i64| 0 <= x <= u32::MAX implies 0 <= #[trigger] after_unions(
            u.find,
            u.pending,
        )(x) by {
            lemma_unions_in_range(u.find, u.pending, x);
        }
    }
}

/// Why a union-find function was refused.
#[derive(Clone, Copy, Debug, PartialEq, Eq, Structural)]
pub enum UfError {
    /// The in-core union-find is not enabled.
    NativeUfDisabled,
    /// Proof-carrying union-finds are not supported.
    ProofUnsupported,
}

/// The merge mode of a function with an output.
pub open spec fn merge_mode_of(m: MergeFn) -> MergeMode {
    match m {
        MergeFn::New => MergeMode::New,
        MergeFn::UnionId => MergeMode::Min,
        MergeFn::UnionIntoUf(_) => MergeMode::Min,
        MergeFn::Primitive(_, _) => MergeMode::Min,
        _ => MergeMode::Old,
    }
}

/// Whether the last column of a schema is of the unit type.
pub open spec fn unit_output(schema: Seq<ColumnTy>, unit: Option<BaseValueId>) -> bool {
    &&& schema.len() > 0
    &&& schema.last() matches ColumnTy::Base(b) && unit == Some(b)
}

/// What a registered function looks like.
pub open spec fn info_of(config: FunctionConfig, unit: Option<BaseValueId>) -> InfoState {
    let has_output = config.schema@.len() > 0 && !unit_output(config.schema@, unit);
    InfoState {
        name: config.name@,
        arity: config.schema@.len(),
        schema: config.schema@,
        has_output,
        merge: if has_output {
            merge_mode_of(config.merge)
        } else {
            MergeMode::Relation
        },
        identity_on_miss: config.default == DefaultVal::Identity,
    }
}

/// A table without rows.
pub open spec fn is_empty_table(t: TableState, info: InfoState) -> bool {
    &&& t.info == info
    &&& t.rows == Set::<Seq<u32>>::empty()
    &&& t.view_cols is None
    &&& t.displaced == Set::<i64>::empty()
}

/// The e-graph.
#[derive(Debug)]
pub struct EGraph {
    tables: Vec<Table>,
    rules: Vec<Option<Rc<RuleIr>>>,
    external_funcs: ExternalFuncRegistry,
    pure_prims: IdMap,
    canon_prims: IdMap,
    base: BaseTypes,
    next_id: u32,
    native_uf: bool,
    fast_rebuild: bool,
    circuit_rebuild: bool,
    atomless_fired: IdSet,
    fed: Vec<FedView>,
    dbsp_rule_runs: u64,
    host_rule_runs: u64,
    circuit_rebuild_runs: u64,
}

impl View for EGraph {
    type V = EgState;

    closed spec fn view(&self) -> EgState {
        EgState {
            tables: self.tables@.map_values(|t: Table| t.state()),
            rules: self.rules@.map_values(
                |r: Option<Rc<RuleIr>>|
                    match r {
                        Some(x) => Some(*x),
                        None => None,
                    },
            ),
            prims: self.external_funcs.entries(),
            names: self.external_funcs.names(),
            pure_prims: self.pure_prims@.dom(),
            canon: self.canon_prims@,
            base: self.base,
            next_id: self.next_id,
            native_uf: self.native_uf,
            fast_rebuild: self.fast_rebuild,
            circuit_rebuild: self.circuit_rebuild,
            fired: self.atomless_fired@,
            fed: self.fed@.map_values(|f: FedView| f.state()),
        }
    }
}

impl EGraph {
    /// The invariant of the e-graph.
    pub closed spec fn wf(&self) -> bool {
        &&& self@.wf()
        &&& self.external_funcs.wf()
        &&& forall|i: int| 0 <= i < self.tables@.len() ==> (#[trigger] self.tables@[i]).wf()
    }

    /// What the invariant says of the state.
    pub broadcast proof fn lemma_wf(&self)
        requires
            #[trigger] self.wf(),
        ensures
            self@.wf(),
    {
    }

    /// The counters: rule runs on a circuit, rule runs on the host, rebuilds on a
    /// circuit.
    pub closed spec fn runs(&self) -> (u64, u64, u64) {
        (self.dbsp_rule_runs, self.host_rule_runs, self.circuit_rebuild_runs)
    }

    /// An e-graph without tables and rules. Ids start at one: rows are padded with
    /// zeros, so zero is no id.
    pub fn new() -> (eg: EGraph)
        ensures
            eg.wf(),
            eg@ == (EgState {
                tables: Seq::empty(),
                rules: Seq::empty(),
                prims: Seq::empty(),
                names: Seq::empty(),
                pure_prims: Set::empty(),
                canon: Map::empty(),
                base: BaseTypes { unit: None, boolean: None, int: None, string: None },
                next_id: 1,
                native_uf: false,
                fast_rebuild: false,
                circuit_rebuild: false,
                fired: Set::empty(),
                fed: Seq::empty(),
            }),
            eg.runs() == (0u64, 0u64, 0u64),
    {
        let eg = EGraph {
            tables: Vec::new(),
            rules: Vec::new(),
            external_funcs: ExternalFuncRegistry::new(),
            pure_prims: IdMap::new(),
            canon_prims: IdMap::new(),
            base: BaseTypes { unit: None, boolean: None, int: None, string: None },
            next_id: 1,
            native_uf: false,
            fast_rebuild: false,
            circuit_rebuild: false,
            atomless_fired: IdSet::new(),
            fed: Vec::new(),
            dbsp_rule_runs: 0,
            host_rule_runs: 0,
            circuit_rebuild_runs: 0,
        };
        proof {
            assert(eg@.tables =~= Seq::empty());
            assert(eg@.rules =~= Seq::empty());
            assert(eg@.fed =~= Seq::empty());
            assert(eg@.pure_prims =~= Set::empty());
            eg.external_funcs.lemma_lens();
        }
        eg
    }

    /// Turns the in-core union-find on.
    pub fn enable_native_uf(&mut self)
        requires
            old(self).wf(),
        ensures
            final(self).wf(),
            final(self)@ == (EgState { native_uf: true, ..old(self)@ }),
            final(self).runs() == old(self).runs(),
    {
        self.native_uf = true;
        assert(self@ =~= EgState { native_uf: true, ..old(self)@ });
    }

    /// Drops the rebuild term over new view rows, which is empty where rows are
    /// canonical when they are made.
    pub fn enable_fast_rebuild(&mut self)
        requires
            old(self).wf(),
        ensures
            final(self).wf(),
            final(self)@ == (EgState { fast_rebuild: true, ..old(self)@ }),
            final(self).runs() == old(self).runs(),
    {
        self.fast_rebuild = true;
        assert(self@ =~= EgState { fast_rebuild: true, ..old(self)@ });
    }

    /// Routes recognized rebuild rulesets to the rebuild circuit.
    pub fn enable_circuit_rebuild(&mut self)
        requires
            old(self).wf(),
        ensures
            final(self).wf(),
            final(self)@ == (EgState { circuit_rebuild: true, ..old(self)@ }),
            final(self).runs() == old(self).runs(),
    {
        self.circuit_rebuild = true;
        assert(self@ =~= EgState { circuit_rebuild: true, ..old(self)@ });
    }

    /// Records which base types are registered, and under which ids.
    pub fn set_base_types(&mut self, base: BaseTypes)
        requires
            old(self).wf(),
        ensures
            final(self).wf(),
            final(self)@ == (EgState { base, ..old(self)@ }),
            final(self).runs() == old(self).runs(),
    {
        self.base = base;
        assert(self@ =~= EgState { base, ..old(self)@ });
    }

    pub fn base_types(&self) -> (b: BaseTypes)
        ensures
            b == self@.base,
    {
        self.base
    }

    pub fn native_uf_enabled(&self) -> (b: bool)
        ensures
            b == self@.native_uf,
    {
        self.native_uf
    }

    pub fn fast_rebuild_enabled(&self) -> (b: bool)
        ensures
            b == self@.fast_rebuild,
    {
        self.fast_rebuild
    }

    pub fn circuit_rebuild_enabled(&self) -> (b: bool)
        ensures
            b == self@.circuit_rebuild,
    {
        self.circuit_rebuild
    }

    /// How many rule runs had their join on a circuit, and how many on the host.
    pub fn dbsp_join_stats(&self) -> (r: (u64, u64))
        ensures
            r == (self.runs().0, self.runs().1),
    {
        (self.dbsp_rule_runs, self.host_rule_runs)
    }

    /// How many calls the rebuild circuit served.
    pub fn circuit_rebuild_runs(&self) -> (n: u64)
        ensures
            n == self.runs().2,
    {
        self.circuit_rebuild_runs
    }

    /// Counts rule runs whose join ran on a circuit.
    pub(crate) fn count_dbsp_runs(&mut self, n: usize)
        requires
            old(self).wf(),
        ensures
            final(self).wf(),
            final(self)@ == old(self)@,
            final(self).runs() == (
                capped(old(self).runs().0 + n),
                old(self).runs().1,
                old(self).runs().2,
            ),
    {
        self.dbsp_rule_runs = self.dbsp_rule_runs.saturating_add(n as u64);
        assert(self@ =~= old(self)@);
    }

    /// Counts a call that the rebuild circuit served.
    pub fn count_circuit_rebuild(&mut self)
        requires
            old(self).wf(),
        ensures
            final(self).wf(),
            final(self)@ == old(self)@,
            final(self).runs() == (
                old(self).runs().0,
                old(self).runs().1,
                capped(old(self).runs().2 + 1),
            ),
    {
        self.circuit_rebuild_runs = self.circuit_rebuild_runs.saturating_add(1);
        assert(self@ =~= old(self)@);
    }

    /// How many tables there are.
    pub fn table_count(&self) -> (n: usize)
        ensures
            n == self@.tables.len(),
    {
        self.tables.len()
    }

    /// What is known of a registered function.
    pub fn info(&self, f: FunctionId) -> (i: &RelationInfo)
        requires
            f.rep < self@.tables.len(),
        ensures
            i.state() == self@.tables[f.rep as int].info,
    {
        self.tables[f.rep as usize].info()
    }

    /// A table.
    pub fn table(&self, f: usize) -> (t: &Table)
        requires
            self.wf(),
            f < self@.tables.len(),
        ensures
            t.wf(),
            t.state() == self@.tables[f as int],
    {
        &self.tables[f]
    }

    /// The type of a column, if the function and the column exist.
    pub fn col_ty(&self, f: FunctionId, col: usize) -> (t: Option<ColumnTy>)
        ensures
            t == self@.col_ty(f.rep, col as int),
    {
        let i: usize = f.rep as usize;
        if i < self.tables.len() {
            let info = self.tables[i].info();
            assert(info.state() == self@.tables[i as int].info);
            if col < info.schema.len() {
                Some(info.schema[col])
            } else {
                None
            }
        } else {
            None
        }
    }

    /// Whether the table has an in-core union-find.
    pub fn has_uf(&self, f: FunctionId) -> (b: bool)
        requires
            f.rep < self@.tables.len(),
        ensures
            b == self@.tables[f.rep as int].uf is Some,
    {
        self.tables[f.rep as usize].has_uf()
    }

    /// The table that answers a canonicalization primitive.
    pub fn canon_table(&self, id: ExternalFunctionId) -> (r: Option<usize>)
        ensures
            r == (if self@.canon.contains_key(id.rep) {
                Some(self@.canon[id.rep])
            } else {
                None
            }),
    {
        self.canon_prims.get(id.rep)
    }

    /// The leader of `x` in the union-find of `uf_func`; `x` where there is none.
    pub fn native_uf_find(&self, uf_func: FunctionId, x: u32) -> (l: u32)
        requires
            self.wf(),
        ensures
            l == self@.find(uf_func.rep as int, x),
            l <= x,
    {
        let i: usize = uf_func.rep as usize;
        if i < self.tables.len() {
            assert(self@.tables[i as int] == self.tables@[i as int].state());
            assert(table_ok(self@.tables[i as int]));
            let l: i64 = self.tables[i].find(x as i64);
            proof {
                if self@.tables[i as int].uf is Some {
                    let u = self@.tables[i as int].uf->0;
                    assert(0 <= (u.find)(x as i64) <= x as i64);
                }
            }
            l as u32
        } else {
            x
        }
    }

    /// Replaces a table: what the operations on one table have in common.
    proof fn lemma_one_table(&self, other: &EGraph, f: int)
        requires
            self.wf(),
            0 <= f < self.tables@.len(),
            other.tables@ == self.tables@.update(f, other.tables@[f]),
            other.tables@[f].wf(),
            table_ok(other.tables@[f].state()),
            self.tables@[f].state().uf is Some ==> other.tables@[f].state().uf is Some,
            other.rules == self.rules,
            other.external_funcs == self.external_funcs,
            other.pure_prims == self.pure_prims,
            other.canon_prims == self.canon_prims,
            other.base == self.base,
            other.next_id == self.next_id,
            other.native_uf == self.native_uf,
            other.fast_rebuild == self.fast_rebuild,
            other.circuit_rebuild == self.circuit_rebuild,
            other.atomless_fired == self.atomless_fired,
            other.fed == self.fed,
        ensures
            other.wf(),
            other@ == self@.with_table(f, other.tables@[f].state()),
    {
        assert(other@.tables =~= self@.tables.update(f, other.tables@[f].state()));
        assert forall|i: int| 0 <= i < other@.tables.len() implies table_ok(
            #[trigger] other@.tables[i],
        ) by {
            if i != f {
                assert(other@.tables[i] == self@.tables[i]);
            }
        }
        assert(other@ =~= self@.with_table(f, other.tables@[f].state()));
    }

    /// Queues a union in the union-find of table `f`.
    pub fn enqueue_union(&mut self, f: FunctionId, a: u32, b: u32)
        requires
            old(self).wf(),
            f.rep < old(self)@.tables.len(),
            old(self)@.tables[f.rep as int].uf is Some,
        ensures
            final(self).wf(),
            final(self)@ == with_union(old(self)@, f.rep as int, a, b),
            final(self).runs() == old(self).runs(),
    {
        let i: usize = f.rep as usize;
        proof {
            assert(self@.tables[i as int] == self.tables@[i as int].state());
            assert(table_ok(self@.tables[i as int]));
        }
        self.tables[i].enqueue_union(a as i64, b as i64);
        proof {
            old(self).lemma_one_table(self, i as int);
            assert(self@ =~= with_union(old(self)@, f.rep as int, a, b));
        }
    }

    /// Applies the queued unions of every union-find, and returns how many ids they
    /// gave another leader. Under the in-core union-find the ids that lost their
    /// leader are kept until a rebuild takes them.
    pub fn native_uf_drain_all(&mut self) -> (n: usize)
        requires
            old(self).wf(),
        ensures
            final(self).wf(),
            final(self)@ == (EgState { tables: drained_all(old(self)@), ..old(self)@ }),
            n == vstd::math::min(moved_total(old(self)@.tables) as int, usize::MAX as int),
            n > 0 <==> some_leader_moves(old(self)@),
            final(self).runs() == old(self).runs(),
    {
        let stash = self.native_uf;
        let m: usize = self.tables.len();
        let mut n: usize = 0;
        let ghost s0 = self@;
        for i in 0..m
            invariant
                m == s0.tables.len(),
                m == self.tables@.len(),
                s0 == old(self)@,
                s0.wf(),
                stash == s0.native_uf,
                forall|k: int| 0 <= k < m ==> (#[trigger] self.tables@[k]).wf(),
                forall|k: int|
                    0 <= k < i ==> (#[trigger] self.tables@[k]).state() == drained(
                        s0.tables[k],
                        stash,
                    ),
                forall|k: int|
                    i <= k < m ==> (#[trigger] self.tables@[k]).state() == s0.tables[k],
                *self == (EGraph { tables: self.tables, ..*old(self) }),
                n == vstd::math::min(moved_total(s0.tables.take(i as int)) as int, usize::MAX as int),
                n > 0 <==> exists|k: int, x: i64|
                    0 <= k < i && #[trigger] moved(s0.tables[k].uf).contains(x),
        {
            let ghost n0 = n;
            proof {
                let upto = s0.tables.take(i + 1);
                assert(upto.drop_last() =~= s0.tables.take(i as int));
                assert(upto.last() == s0.tables[i as int]);
            }
            let d: usize = self.tables[i].drain(stash);
            n = n.saturating_add(d);
            proof {
                let gone = moved(s0.tables[i as int].uf);
                if d > 0 {
                    let x = gone.choose();
                    assert(gone.contains(x));
                } else {
                    assert(gone =~= Set::empty());
                }
                if n0 > 0 {
                    let (k, x) = choose|k: int, x: i64|
                        0 <= k < i && #[trigger] moved(s0.tables[k].uf).contains(x);
                    assert(moved(s0.tables[k].uf).contains(x));
                }
            }
        }
        proof {
            assert forall|k: int| 0 <= k < m implies table_ok(#[trigger] self@.tables[k]) by {
                assert(self@.tables[k] == self.tables@[k].state());
                assert(table_ok(s0.tables[k]));
                lemma_drained_ok(s0.tables[k], stash);
            }
            assert(self@.tables =~= drained_all(s0)) by {
                assert forall|k: int| 0 <= k < m implies self@.tables[k] == drained_all(
                    s0,
                )[k] by {
                    assert(self@.tables[k] == self.tables@[k].state());
                }
            }
            assert(self@ =~= EgState { tables: drained_all(s0), ..s0 });
            assert(s0.tables.take(m as int) =~= s0.tables);
        }
        n
    }

    /// Takes the ids of a union-find that wait for a rebuild.
    pub fn native_uf_take_displaced(&mut self, func: usize) -> (d: Vec<i64>)
        requires
            old(self).wf(),
            func < old(self)@.tables.len(),
        ensures
            final(self).wf(),
            d@.to_set() == old(self)@.tables[func as int].displaced,
            final(self)@ == old(self)@.with_table(
                func as int,
                TableState { displaced: Set::empty(), ..old(self)@.tables[func as int] },
            ),
            final(self).runs() == old(self).runs(),
    {
        proof {
            assert(self@.tables[func as int] == self.tables@[func as int].state());
            assert(table_ok(self@.tables[func as int]));
        }
        let d = self.tables[func].take_displaced();
        proof {
            old(self).lemma_one_table(self, func as int);
        }
        d
    }

    /// Makes a table a view over the given columns, once.
    pub fn native_uf_seed_view_index(&mut self, f: FunctionId, eq_cols: &Vec<usize>)
        requires
            old(self).wf(),
            f.rep < old(self)@.tables.len(),
        ensures
            final(self).wf(),
            final(self)@ == seeded(old(self)@, f.rep as int, eq_cols@),
            final(self).runs() == old(self).runs(),
    {
        if !self.native_uf {
            return;
        }
        let i: usize = f.rep as usize;
        proof {
            assert(self@.tables[i as int] == self.tables@[i as int].state());
            assert(table_ok(self@.tables[i as int]));
        }
        self.tables[i].seed_view(eq_cols);
        proof {
            old(self).lemma_one_table(self, i as int);
            assert(self@ =~= seeded(old(self)@, f.rep as int, eq_cols@));
        }
    }

    /// Adds a row to a table, and says whether it was new.
    pub fn insert_row(&mut self, f: usize, row: Row) -> (b: bool)
        requires
            old(self).wf(),
            f < old(self)@.tables.len(),
            row@.len() == old(self)@.tables[f as int].info.arity,
        ensures
            final(self).wf(),
            b == !old(self)@.tables[f as int].rows.contains(row@),
            final(self)@ == old(self)@.with_rows(
                f as int,
                old(self)@.tables[f as int].rows.insert(row@),
            ),
            final(self).runs() == old(self).runs(),
    {
        proof {
            assert(self@.tables[f as int] == self.tables@[f as int].state());
            assert(table_ok(self@.tables[f as int]));
        }
        let b = self.tables[f].insert(row);
        proof {
            old(self).lemma_one_table(self, f as int);
        }
        b
    }

    /// Drops a row of a table, and says whether it was there.
    pub fn remove_row(&mut self, f: usize, row: &Row) -> (b: bool)
        requires
            old(self).wf(),
            f < old(self)@.tables.len(),
        ensures
            final(self).wf(),
            b == old(self)@.tables[f as int].rows.contains(row@),
            final(self)@ == old(self)@.with_rows(
                f as int,
                old(self)@.tables[f as int].rows.remove(row@),
            ),
            final(self).runs() == old(self).runs(),
    {
        proof {
            assert(self@.tables[f as int] == self.tables@[f as int].state());
            assert(table_ok(self@.tables[f as int]));
        }
        let b = self.tables[f].remove(row);
        proof {
            assert forall|r: Seq<u32>| #[trigger]
                self.tables@[f as int].state().rows.contains(r) implies r.len()
                == self@.tables[f as int].info.arity by {
                assert(old(self)@.tables[f as int].rows.contains(r));
            }
            old(self).lemma_one_table(self, f as int);
        }
        b
    }

    /// Writes rows to a table, one after the other, and merges those that share a
    /// written key. Says whether a row was new or was dropped.
    pub fn resolve_merge(&mut self, f: usize, puts: &Vec<Row>) -> (changed: bool)
        requires
            old(self).wf(),
            f < old(self)@.tables.len(),
            puts_fit(row_views(puts@), old(self)@.tables[f as int].info.arity),
        ensures
            final(self).wf(),
            final(self)@ == old(self)@.with_rows(
                f as int,
                merged(
                    old(self)@.tables[f as int].rows,
                    row_views(puts@),
                    old(self)@.tables[f as int].info.arity,
                    old(self)@.tables[f as int].info.merge,
                ),
            ),
            changed == merge_changes(
                old(self)@.tables[f as int].rows,
                row_views(puts@),
                old(self)@.tables[f as int].info.arity,
                old(self)@.tables[f as int].info.merge,
            ),
            final(self).runs() == old(self).runs(),
    {
        let ghost t = self@.tables[f as int];
        proof {
            assert(self@.tables[f as int] == self.tables@[f as int].state());
            assert(table_ok(self@.tables[f as int]));
        }
        let changed = self.tables[f].resolve_merge(puts);
        proof {
            assert forall|r: Seq<u32>| #[trigger]
                self.tables@[f as int].state().rows.contains(r) implies r.len()
                == self@.tables[f as int].info.arity by {
                lemma_grown_fits(t.rows, row_views(puts@), t.info.arity, r);
            }
            old(self).lemma_one_table(self, f as int);
        }
        changed
    }

    /// Hands out the next id.
    pub fn fresh_id(&mut self) -> (id: Value)
        requires
            old(self).wf(),
            old(self)@.next_id < u32::MAX,
        ensures
            final(self).wf(),
            id.rep == old(self)@.next_id,
            final(self)@ == (EgState {
                next_id: (old(self)@.next_id + 1) as u32,
                ..old(self)@
            }),
            final(self).runs() == old(self).runs(),
    {
        let id: u32 = self.next_id;
        self.next_id = self.next_id + 1;
        assert(self@ =~= EgState { next_id: (old(self)@.next_id + 1) as u32, ..old(self)@ });
        Value { rep: id }
    }

    /// The next id that will be handed out.
    pub fn next_id(&self) -> (id: u32)
        ensures
            id == self@.next_id,
    {
        self.next_id
    }

    /// Registers a function. It is a relation, whose whole row is its key, if it has
    /// no columns or its last column is of the unit type; else its last column is an
    /// output that its merge mode resolves.
    pub fn add_table(&mut self, config: FunctionConfig) -> (id: FunctionId)
        requires
            old(self).wf(),
            old(self)@.tables.len() <= u32::MAX,
            config.schema@.len() <= MAX_ARITY,
            config.default == DefaultVal::Identity ==> config.schema@.len() == 2,
        ensures
            final(self).wf(),
            id.rep == old(self)@.tables.len(),
            final(self)@.tables.len() == old(self)@.tables.len() + 1,
            is_empty_table(
                final(self)@.tables.last(),
                info_of(config, old(self)@.base.unit),
            ),
            final(self)@.tables.last().uf is None,
            final(self)@ == (EgState {
                tables: old(self)@.tables.push(final(self)@.tables.last()),
                ..old(self)@
            }),
            final(self).runs() == old(self).runs(),
    {
        let id = FunctionId::new(self.tables.len() as u32);
        let arity: usize = config.schema.len();
        let output_is_unit = if arity > 0 {
            match config.schema[arity - 1] {
                ColumnTy::Base(b) => match self.base.unit {
                    Some(u) => u == b,
                    None => false,
                },
                ColumnTy::Id => false,
            }
        } else {
            false
        };
        let has_output = arity > 0 && !output_is_unit;
        let merge = if !has_output {
            MergeMode::Relation
        } else {
            match &config.merge {
                MergeFn::New => MergeMode::New,
                MergeFn::UnionId => MergeMode::Min,
                MergeFn::UnionIntoUf(_) => MergeMode::Min,
                MergeFn::Primitive(_, _) => MergeMode::Min,
                _ => MergeMode::Old,
            }
        };
        let identity_on_miss = match config.default {
            DefaultVal::Identity => true,
            _ => false,
        };
        let info = RelationInfo {
            name: config.name,
            arity,
            schema: config.schema,
            has_output,
            merge,
            identity_on_miss,
        };
        assert(info.state() =~= info_of(config, self.base.unit));
        self.push_table(info, false);
        id
    }

    fn push_table(&mut self, info: RelationInfo, with_uf: bool)
        requires
            old(self).wf(),
            old(self)@.tables.len() <= u32::MAX,
            info.schema@.len() == info.arity,
            info.arity <= MAX_ARITY,
            info.has_output ==> info.arity > 0,
            info.identity_on_miss ==> info.arity == 2,
            with_uf ==> info.arity == 2,
        ensures
            final(self).wf(),
            final(self)@.tables.len() == old(self)@.tables.len() + 1,
            is_empty_table(final(self)@.tables.last(), info.state()),
            final(self)@.tables.last().uf is Some <==> with_uf,
            final(self)@.tables.last().uf matches Some(u) ==> u.pending == Seq::<
                (i64, i64),
            >::empty() && forall|x: i64| #[trigger] (u.find)(x) == x,
            final(self)@ == (EgState {
                tables: old(self)@.tables.push(final(self)@.tables.last()),
                ..old(self)@
            }),
            final(self).runs() == old(self).runs(),
    {
        let t = Table::new(info, with_uf);
        proof {
            t.lemma_wf();
        }
        self.tables.push(t);
        proof {
            assert(self@.tables =~= old(self)@.tables.push(t.state()));
            assert(self@ =~= EgState {
                tables: old(self)@.tables.push(t.state()),
                ..old(self)@
            });
            assert forall|i: int| 0 <= i < self@.tables.len() implies table_ok(
                #[trigger] self@.tables[i],
            ) by {
                if i < old(self)@.tables.len() {
                    assert(self@.tables[i] == old(self)@.tables[i]);
                }
            }
        }
    }

    /// Registers a function that an in-core union-find backs, with a primitive that
    /// canonicalizes against it. Refused unless the in-core union-find is enabled,
    /// and with proofs.
    pub fn add_uf_function(
        &mut self,
        name: String,
        _onchange: Option<FunctionId>,
        proof_config: Option<UfProofConfig>,
    ) -> (r: Result<(FunctionId, ExternalFunctionId), UfError>)
        requires
            old(self).wf(),
            old(self)@.tables.len() <= u32::MAX,
            old(self)@.prims.len() <= u32::MAX,
        ensures
            final(self).wf(),
            final(self).runs() == old(self).runs(),
            r == (Err::<(FunctionId, ExternalFunctionId), UfError>(UfError::NativeUfDisabled))
                <==> !old(self)@.native_uf,
            r == (Err::<(FunctionId, ExternalFunctionId), UfError>(UfError::ProofUnsupported))
                <==> old(self)@.native_uf && proof_config is Some,
            r is Err ==> final(self)@ == old(self)@,
            r matches Ok(ids) ==> {
                let t = final(self)@.tables.last();
                &&& ids.0.rep == old(self)@.tables.len()
                &&& ids.1.rep == old(self)@.prims.len()
                &&& is_empty_table(t, uf_info(name@))
                &&& t.uf matches Some(u) && u.pending == Seq::<(i64, i64)>::empty() && forall|
                    x: i64,
                | #[trigger] (u.find)(x) == x
                &&& final(self)@ == (EgState {
                    tables: old(self)@.tables.push(t),
                    prims: old(self)@.prims.push(EntryView::Func),
                    names: old(self)@.names.push(None),
                    canon: old(self)@.canon.insert(ids.1.rep, ids.0.rep as usize),
                    ..old(self)@
                })
            },
    {
        if !self.native_uf {
            return Err(UfError::NativeUfDisabled);
        }
        if proof_config.is_some() {
            return Err(UfError::ProofUnsupported);
        }
        let id = FunctionId::new(self.tables.len() as u32);
        let mut schema: Vec<ColumnTy> = Vec::new();
        schema.push(ColumnTy::Id);
        schema.push(ColumnTy::Id);
        let info = RelationInfo {
            name,
            arity: 2,
            schema,
            has_output: true,
            merge: MergeMode::Min,
            identity_on_miss: false,
        };
        assert(info.state() =~= uf_info(name@)) by {
            assert(info.schema@ =~= seq![ColumnTy::Id, ColumnTy::Id]);
        }
        self.push_table(info, true);
        let ghost mid = *self;
        proof {
            self.external_funcs.lemma_lens();
        }
        let canon = self.external_funcs.add_func();
        self.canon_prims.insert(canon.rep, id.rep as usize);
        proof {
            self.external_funcs.lemma_lens();
            let t = self@.tables.last();
            assert(self@.tables =~= mid@.tables);
            assert(self@ =~= EgState {
                tables: old(self)@.tables.push(t),
                prims: old(self)@.prims.push(EntryView::Func),
                names: old(self)@.names.push(None),
                canon: old(self)@.canon.insert(canon.rep, id.rep as usize),
                ..old(self)@
            });
            assert forall|k: u32| #[trigger] self@.canon.contains_key(k) implies self@.canon[k]
                < self@.tables.len() && self@.tables[self@.canon[k] as int].uf is Some by {
                if k != canon.rep {
                    assert(old(self)@.canon.contains_key(k));
                    assert(self@.tables[self@.canon[k] as int]
                        == old(self)@.tables[self@.canon[k] as int]);
                }
            }
        }
        Ok((id, canon))
    }

    /// How many rows a table has.
    pub fn table_size(&self, table: FunctionId) -> (n: usize)
        ensures
            n == (if table.rep < self@.tables.len() {
                self@.tables[table.rep as int].rows.len() as int
            } else {
                0
            }),
    {
        let i: usize = table.rep as usize;
        if i < self.tables.len() {
            assert(self@.tables[i as int] == self.tables@[i as int].state());
            self.tables[i].len()
        } else {
            0
        }
    }

    /// How many rows a table has.
    pub fn approx_table_size(&self, table: FunctionId) -> (n: usize)
        ensures
            n == (if table.rep < self@.tables.len() {
                self@.tables[table.rep as int].rows.len() as int
            } else {
                0
            }),
    {
        self.table_size(table)
    }

    /// Every row of a table once, in some order.
    pub fn for_each(&self, table: FunctionId) -> (rows: Vec<Vec<Value>>)
        requires
            self.wf(),
            table.rep < self@.tables.len(),
        ensures
            value_rows(rows@).no_duplicates(),
            value_rows(rows@).to_set() == self@.tables[table.rep as int].rows,
    {
        let i: usize = table.rep as usize;
        let t = self.table(i);
        let arity: usize = t.arity();
        let packed = t.rows();
        let ghost rv = row_views(packed@);
        let mut rows: Vec<Vec<Value>> = Vec::with_capacity(packed.len());
        proof {
            assert(table_ok(self@.tables[i as int]));
            assert forall|k: int| 0 <= k < packed@.len() implies (#[trigger] packed@[k])@.len()
                == arity by {
                assert(rv[k] == packed@[k]@);
                assert(rv.to_set().contains(rv[k]));
            }
        }
        for k in 0..packed.len()
            invariant
                forall|k: int| 0 <= k < packed@.len() ==> (#[trigger] packed@[k])@.len() == arity,
                rv == row_views(packed@),
                value_rows(rows@) =~= rv.take(k as int),
        {
            let ghost before = rows@;
            let vals = unpack_row(&packed[k], arity);
            rows.push(vals);
            proof {
                assert(packed@[k as int]@.take(arity as int) =~= packed@[k as int]@);
                assert(value_rows(rows@) =~= value_rows(before).push(rv[k as int]));
                assert(rv.take(k + 1) =~= rv.take(k as int).push(rv[k as int]));
            }
        }
        assert(rv.take(packed@.len() as int) =~= rv);
        rows
    }

    /// The output of a function at a key. A union-find function answers the leader
    /// of its one key.
    pub fn lookup_id(&self, func: FunctionId, key: &[Value]) -> (r: Option<Value>)
        requires
            self.wf(),
            func.rep < self@.tables.len(),
        ensures
            lookup_answers(self@, func.rep, reps(key@), r),
    {
        let i: usize = func.rep as usize;
        let t = self.table(i);
        proof {
            assert(table_ok(self@.tables[i as int]));
        }
        if t.has_uf() {
            if key.len() == 1 {
                let l: u32 = self.native_uf_find(func, key[0].rep);
                return Some(Value { rep: l });
            }
            return None;
        }
        if !t.info().has_output {
            return None;
        }
        let inputs: usize = t.arity() - 1;
        if key.len() != inputs {
            return None;
        }
        let rows = t.rows();
        let ghost rv = row_views(rows@);
        let ghost kv = reps(key@);
        proof {
            assert forall|k: int| 0 <= k < rows@.len() implies (#[trigger] rows@[k])@.len()
                == inputs + 1 && self@.tables[i as int].rows.contains(rows@[k]@) by {
                assert(rv[k] == rows@[k]@);
                assert(rv.to_set().contains(rv[k]));
            }
        }
        for k in 0..rows.len()
            invariant
                kv == reps(key@),
                kv.len() == inputs,
                key@.len() == inputs,
                forall|k: int|
                    0 <= k < rows@.len() ==> (#[trigger] rows@[k])@.len() == inputs + 1
                        && self@.tables[i as int].rows.contains(rows@[k]@),
                forall|q: int| 0 <= q < k ==> (#[trigger] rows@[q])@.take(inputs as int) != kv,
                i == func.rep,
                self@.tables[i as int].uf is None,
                self@.tables[i as int].info.has_output,
                self@.tables[i as int].info.arity == inputs + 1,
        {
            let row = &rows[k];
            let mut same = true;
            for j in 0..inputs
                invariant
                    kv == reps(key@),
                    kv.len() == inputs,
                    key@.len() == inputs,
                    row@.len() == inputs + 1,
                    same <==> forall|q: int| 0 <= q < j ==> row@[q] == #[trigger] kv[q],
            {
                assert(kv[j as int] == key@[j as int].rep);
                if row[j] != key[j].rep {
                    same = false;
                }
            }
            if same {
                assert(row@ =~= kv.push(row@[inputs as int]));
                return Some(Value { rep: row[inputs] });
            }
            proof {
                let q = choose|q: int| 0 <= q < inputs && row@[q] != #[trigger] kv[q];
                assert(row@.take(inputs as int)[q] != kv[q]);
            }
        }
        proof {
            assert forall|v: u32| !(#[trigger] self@.tables[i as int].rows.contains(
                kv.push(v),
            )) by {
                if self@.tables[i as int].rows.contains(kv.push(v)) {
                    assert(rv.to_set().contains(kv.push(v)));
                    let q = choose|q: int| 0 <= q < rv.len() && rv[q] == kv.push(v);
                    assert(rows@[q]@ == kv.push(v));
                    assert(kv.push(v).take(inputs as int) =~= kv);
                }
            }
        }
        None
    }

    /// Adds a row.
    fn mirror_insert(&mut self, f: FunctionId, row: &[Value])
        requires
            old(self).wf(),
            f.rep < old(self)@.tables.len(),
            row@.len() == old(self)@.tables[f.rep as int].info.arity,
        ensures
            final(self).wf(),
            final(self)@ == old(self)@.with_rows(
                f.rep as int,
                old(self)@.tables[f.rep as int].rows.insert(reps(row@)),
            ),
            final(self).runs() == old(self).runs(),
    {
        proof {
            assert(table_ok(self@.tables[f.rep as int]));
        }
        let packed = pack_row(row);
        self.insert_row(f.rep as usize, packed);
    }

    /// Adds rows to the functions they name.
    pub fn add_values(&mut self, values: &Vec<(FunctionId, Vec<Value>)>)
        requires
            old(self).wf(),
            forall|i: int|
                0 <= i < values@.len() ==> (#[trigger] values@[i]).0.rep < old(self)@.tables.len()
                    && values@[i].1@.len() == old(self)@.tables[values@[i].0.rep as int].info.arity,
        ensures
            final(self).wf(),
            final(self)@ == with_values(old(self)@, named_rows(values@)),
            final(self).runs() == old(self).runs(),
    {
        let ghost nr = named_rows(values@);
        assert(nr.take(0) =~= Seq::empty());
        for i in 0..values.len()
            invariant
                nr == named_rows(values@),
                forall|i: int|
                    0 <= i < values@.len() ==> (#[trigger] values@[i]).0.rep < old(
                        self,
                    )@.tables.len() && values@[i].1@.len() == old(
                        self,
                    )@.tables[values@[i].0.rep as int].info.arity,
                self.wf(),
                self@ == with_values(old(self)@, nr.take(i as int)),
                same_infos(self@, old(self)@),
                self.runs() == old(self).runs(),
        {
            self.mirror_insert(values[i].0, values[i].1.as_slice());
            proof {
                let upto = nr.take(i + 1);
                assert(upto.drop_last() =~= nr.take(i as int));
                assert(upto.last() == nr[i as int]);
            }
        }
        assert(nr.take(values@.len() as int) =~= nr);
    }

    /// Adds rows to a function.
    pub fn insert_rows(&mut self, table: FunctionId, rows: &Vec<Vec<Value>>)
        requires
            old(self).wf(),
            table.rep < old(self)@.tables.len(),
            forall|i: int|
                0 <= i < rows@.len() ==> (#[trigger] rows@[i])@.len() == old(
                    self,
                )@.tables[table.rep as int].info.arity,
        ensures
            final(self).wf(),
            final(self)@ == old(self)@.with_rows(
                table.rep as int,
                old(self)@.tables[table.rep as int].rows.union(value_rows(rows@).to_set()),
            ),
            final(self).runs() == old(self).runs(),
    {
        let ghost f = table.rep as int;
        let ghost rv = value_rows(rows@);
        proof {
            assert(rv.take(0).to_set() =~= Set::empty());
            assert(self@.tables[f].rows =~= self@.tables[f].rows.union(rv.take(0).to_set()));
            assert(self@ =~= self@.with_rows(f, self@.tables[f].rows));
        }
        for i in 0..rows.len()
            invariant
                f == table.rep,
                f < old(self)@.tables.len(),
                rv == value_rows(rows@),
                forall|i: int|
                    0 <= i < rows@.len() ==> (#[trigger] rows@[i])@.len() == old(
                        self,
                    )@.tables[f].info.arity,
                self.wf(),
                self@ == old(self)@.with_rows(
                    f,
                    old(self)@.tables[f].rows.union(rv.take(i as int).to_set()),
                ),
                self.runs() == old(self).runs(),
        {
            self.mirror_insert(table, rows[i].as_slice());
            proof {
                assert(rv.take(i + 1) =~= rv.take(i as int).push(rv[i as int]));
                crate::feldera::expr::lemma_push_contains(rv.take(i as int), rv[i as int]);
                assert(rv.take(i + 1).to_set() =~= rv.take(i as int).to_set().insert(rv[i as int]));
                assert(old(self)@.tables[f].rows.union(rv.take(i as int).to_set()).insert(
                    rv[i as int],
                ) =~= old(self)@.tables[f].rows.union(rv.take(i + 1).to_set()));
                assert(self@ =~= old(self)@.with_rows(
                    f,
                    old(self)@.tables[f].rows.union(rv.take(i + 1).to_set()),
                ));
            }
        }
        assert(rv.take(rows@.len() as int) =~= rv);
    }

    /// Adds the row of a new term and returns its id.
    pub fn add_term(&mut self, func: FunctionId, inputs: &[Value]) -> (id: Value)
        requires
            old(self).wf(),
            func.rep < old(self)@.tables.len(),
            inputs@.len() + 1 == old(self)@.tables[func.rep as int].info.arity,
            old(self)@.next_id < u32::MAX,
        ensures
            final(self).wf(),
            id.rep == old(self)@.next_id,
            final(self)@ == with_term(old(self)@, func.rep as int, reps(inputs@)),
            final(self).runs() == old(self).runs(),
    {
        let id = self.fresh_id();
        let mut full: Vec<Value> = Vec::with_capacity(inputs.len() + 1);
        for i in 0..inputs.len()
            invariant
                full@ =~= inputs@.take(i as int),
        {
            full.push(inputs[i]);
        }
        full.push(id);
        proof {
            assert(inputs@.take(inputs@.len() as int) =~= inputs@);
            assert(reps(full@) =~= reps(inputs@).push(id.rep));
        }
        self.mirror_insert(func, full.as_slice());
        assert(self@ =~= with_term(old(self)@, func.rep as int, reps(inputs@)));
        id
    }

    /// Makes a term for each key that a lookup has no answer for. Stops with `false`
    /// where the ids run out.
    pub fn lookup_constructor_rows(&mut self, table: FunctionId, rows: &Vec<Vec<Value>>) -> (ok: bool)
        requires
            old(self).wf(),
            table.rep < old(self)@.tables.len(),
            forall|i: int|
                0 <= i < rows@.len() ==> (#[trigger] rows@[i])@.len() + 1 == old(
                    self,
                )@.tables[table.rep as int].info.arity,
        ensures
            final(self).wf(),
            (final(self)@, ok) == looked_up(old(self)@, table.rep as int, value_rows(rows@)),
            old(self)@.next_id + rows@.len() <= u32::MAX ==> ok,
            final(self).runs() == old(self).runs(),
    {
        let ghost f = table.rep as int;
        let ghost rv = value_rows(rows@);
        assert(rv.take(0) =~= Seq::empty());
        for i in 0..rows.len()
            invariant
                f == table.rep,
                rv == value_rows(rows@),
                f < old(self)@.tables.len(),
                forall|i: int|
                    0 <= i < rows@.len() ==> (#[trigger] rows@[i])@.len() + 1 == old(
                        self,
                    )@.tables[f].info.arity,
                self.wf(),
                (self@, true) == looked_up(old(self)@, f, rv.take(i as int)),
                same_infos(self@, old(self)@),
                self@.next_id <= old(self)@.next_id + i,
                self.runs() == old(self).runs(),
        {
            proof {
                let upto = rv.take(i + 1);
                assert(upto.drop_last() =~= rv.take(i as int));
                assert(upto.last() == rv[i as int]);
            }
            let key = rows[i].as_slice();
            assert(reps(key@) == rv[i as int]);
            if self.lookup_id(table, key).is_none() {
                assert(!has_answer(self@, f, rv[i as int]));
                if self.next_id == u32::MAX {
                    proof {
                        assert(looked_up(old(self)@, f, rv.take(i + 1)) == (self@, false));
                        lemma_stuck(old(self)@, f, rv, i + 1);
                    }
                    return false;
                }
                self.add_term(table, key);
            }
        }
        assert(rv.take(rows@.len() as int) =~= rv);
        true
    }

    /// Drops every row of a table.
    pub fn clear_table(&mut self, func: FunctionId)
        requires
            old(self).wf(),
        ensures
            final(self).wf(),
            final(self)@ == (if func.rep < old(self)@.tables.len() {
                old(self)@.with_rows(func.rep as int, Set::empty())
            } else {
                old(self)@
            }),
            final(self).runs() == old(self).runs(),
    {
        let i: usize = func.rep as usize;
        if i < self.tables.len() {
            proof {
                assert(self@.tables[i as int] == self.tables@[i as int].state());
                assert(table_ok(self@.tables[i as int]));
            }
            self.tables[i].clear();
            proof {
                old(self).lemma_one_table(self, i as int);
            }
        }
    }

    /// Replaces the rows of a table, and says whether they changed.
    pub fn set_rows(&mut self, f: usize, rows: &Vec<Row>) -> (changed: bool)
        requires
            old(self).wf(),
            f < old(self)@.tables.len(),
            forall|i: int|
                0 <= i < rows@.len() ==> (#[trigger] rows@[i])@.len()
                    == old(self)@.tables[f as int].info.arity,
        ensures
            final(self).wf(),
            final(self)@ == old(self)@.with_rows(f as int, row_views(rows@).to_set()),
            changed == (row_views(rows@).to_set() != old(self)@.tables[f as int].rows),
            final(self).runs() == old(self).runs(),
    {
        proof {
            assert(self@.tables[f as int] == self.tables@[f as int].state());
            assert(table_ok(self@.tables[f as int]));
        }
        let ghost rv = row_views(rows@);
        let before = self.tables[f].snapshot();
        self.tables[f].set_rows(rows);
        let after = self.tables[f].snapshot();
        proof {
            assert forall|r: Seq<u32>| #[trigger]
                self.tables@[f as int].state().rows.contains(r) implies r.len()
                == self@.tables[f as int].info.arity by {
                assert(rv.contains(r));
                let k = choose|k: int| 0 <= k < rv.len() && rv[k] == r;
                assert(rows@[k]@ == r);
            }
            old(self).lemma_one_table(self, f as int);
        }
        !same_rows(&before, &after)
    }

    /// The canonical form of a value: itself.
    pub fn get_canon_repr(&self, val: Value, _ty: ColumnTy) -> (v: Value)
        ensures
            v == val,
    {
        val
    }
}

impl EGraph {
    /// The display name of a primitive.
    pub fn prim_name(&self, id: ExternalFunctionId) -> (n: Option<&str>)
        requires
            self.wf(),
        ensures
            n is Some <==> self@.name_of(id.rep) is Some,
            n matches Some(s) ==> self@.name_of(id.rep) == Some(s@),
    {
        self.external_funcs.name(id)
    }

    /// The message of a deferred failure; none for any other primitive.
    pub fn panic_message(&self, id: ExternalFunctionId) -> (m: Option<&str>)
        requires
            self.wf(),
        ensures
            m is Some <==> id.rep < self@.prims.len() && self@.prims[id.rep as int] is Panic,
            m matches Some(s) ==> self@.prims[id.rep as int] == EntryView::Panic(s@),
    {
        self.external_funcs.panic_message(id)
    }

    /// Whether a primitive may be evaluated more than once.
    pub fn is_pure_prim(&self, id: ExternalFunctionId) -> (b: bool)
        ensures
            b == self@.pure_prims.contains(id.rep),
    {
        self.pure_prims.get(id.rep).is_some()
    }

    /// Records the display name of a primitive; an unknown one is ignored.
    pub fn set_external_func_name(&mut self, id: ExternalFunctionId, name: String)
        requires
            old(self).wf(),
        ensures
            final(self).wf(),
            final(self)@ == with_name(old(self)@, id.rep, name@),
            final(self).runs() == old(self).runs(),
    {
        self.external_funcs.set_name(id, name);
        proof {
            self.external_funcs.lemma_lens();
            old(self).external_funcs.lemma_lens();
            assert(self@ =~= with_name(old(self)@, id.rep, name@));
        }
    }

    /// Records the display name of a primitive that may be evaluated more than once.
    pub fn set_pure_prim_name(&mut self, id: ExternalFunctionId, name: String)
        requires
            old(self).wf(),
        ensures
            final(self).wf(),
            final(self)@ == (EgState {
                pure_prims: old(self)@.pure_prims.insert(id.rep),
                ..with_name(old(self)@, id.rep, name@)
            }),
            final(self).runs() == old(self).runs(),
    {
        self.set_external_func_name(id, name);
        let ghost mid = self@;
        self.pure_prims.insert(id.rep, 0);
        assert(self@.pure_prims =~= mid.pure_prims.insert(id.rep));
        assert(self@ =~= EgState { pure_prims: mid.pure_prims.insert(id.rep), ..mid });
    }

    /// Registers a primitive under the next id.
    pub fn register_external_func(&mut self) -> (id: ExternalFunctionId)
        requires
            old(self).wf(),
            old(self)@.prims.len() <= u32::MAX,
        ensures
            final(self).wf(),
            id.rep == old(self)@.prims.len(),
            final(self)@ == (EgState {
                prims: old(self)@.prims.push(EntryView::Func),
                names: old(self)@.names.push(None),
                ..old(self)@
            }),
            final(self).runs() == old(self).runs(),
    {
        let id = self.external_funcs.add_func();
        proof {
            self.external_funcs.lemma_lens();
            assert(self@ =~= EgState {
                prims: old(self)@.prims.push(EntryView::Func),
                names: old(self)@.names.push(None),
                ..old(self)@
            });
        }
        id
    }

    /// Registers a deferred failure under the next id.
    pub fn new_panic(&mut self, message: String) -> (id: ExternalFunctionId)
        requires
            old(self).wf(),
            old(self)@.prims.len() <= u32::MAX,
        ensures
            final(self).wf(),
            id.rep == old(self)@.prims.len(),
            final(self)@ == (EgState {
                prims: old(self)@.prims.push(EntryView::Panic(message@)),
                names: old(self)@.names.push(None),
                ..old(self)@
            }),
            final(self).runs() == old(self).runs(),
    {
        let id = self.external_funcs.add_panic(message);
        proof {
            self.external_funcs.lemma_lens();
            assert(self@ =~= EgState {
                prims: old(self)@.prims.push(EntryView::Panic(message@)),
                names: old(self)@.names.push(None),
                ..old(self)@
            });
        }
        id
    }

    /// Frees a primitive, which is then no longer pure. Its id stays taken.
    pub fn free_external_func(&mut self, func: ExternalFunctionId)
        requires
            old(self).wf(),
        ensures
            final(self).wf(),
            final(self)@ == (EgState {
                prims: if func.rep < old(self)@.prims.len() {
                    old(self)@.prims.update(func.rep as int, EntryView::Free)
                } else {
                    old(self)@.prims
                },
                pure_prims: old(self)@.pure_prims.remove(func.rep),
                ..old(self)@
            }),
            final(self).runs() == old(self).runs(),
    {
        self.external_funcs.free(func);
        self.pure_prims.remove(func.rep);
        proof {
            self.external_funcs.lemma_lens();
            assert(self@.pure_prims =~= old(self)@.pure_prims.remove(func.rep));
            assert(self@ =~= EgState {
                prims: if func.rep < old(self)@.prims.len() {
                    old(self)@.prims.update(func.rep as int, EntryView::Free)
                } else {
                    old(self)@.prims
                },
                pure_prims: old(self)@.pure_prims.remove(func.rep),
                ..old(self)@
            });
        }
    }

    /// Table lookups in the middle of a rule are not supported.
    pub fn supports_inline_table_lookups(&self) -> (b: bool)
        ensures
            !b,
    {
        false
    }

    /// Subsumption is not tracked.
    pub fn supports_subsumption(&self) -> (b: bool)
        ensures
            !b,
    {
        false
    }

    /// Merges other than old, new and smallest are not supported.
    pub fn supports_complex_merge(&self) -> (b: bool)
        ensures
            !b,
    {
        false
    }

    /// Container sorts are not supported.
    pub fn supports_containers(&self) -> (b: bool)
        ensures
            !b,
    {
        false
    }

    /// Updates are visible at once: there is nothing to flush.
    pub fn flush_updates(&mut self) -> (b: bool)
        ensures
            !b,
            *final(self) == *old(self),
    {
        false
    }
}

/// The state with a primitive's name recorded.
pub open spec fn with_name(s: EgState, id: u32, name: Seq<char>) -> EgState {
    EgState {
        names: if id < s.names.len() {
            s.names.update(id as int, Some(name))
        } else {
            s.names
        },
        ..s
    }
}

impl EGraph {
    /// The rule at an index, unless it was freed.
    pub fn rule(&self, i: usize) -> (r: Option<Rc<RuleIr>>)
        ensures
            match r {
                Some(x) => i < self@.rules.len() && self@.rules[i as int] == Some(*x),
                None => i >= self@.rules.len() || self@.rules[i as int] is None,
            },
    {
        if i < self.rules.len() {
            assert(self@.rules[i as int] == (match self.rules@[i as int] {
                Some(x) => Some(*x),
                None => None,
            }));
            match &self.rules[i] {
                Some(x) => Some(x.clone()),
                None => None,
            }
        } else {
            None
        }
    }

    /// How many rules were registered, the freed ones included.
    pub fn rule_count(&self) -> (n: usize)
        ensures
            n == self@.rules.len(),
    {
        self.rules.len()
    }

    /// Registers a rule under the next index.
    pub fn add_rule(&mut self, rule: RuleIr) -> (id: RuleId)
        requires
            old(self).wf(),
            old(self)@.rules.len() <= u32::MAX,
        ensures
            final(self).wf(),
            id.rep == old(self)@.rules.len(),
            final(self)@ == (EgState {
                rules: old(self)@.rules.push(Some(rule)),
                ..old(self)@
            }),
            final(self).runs() == old(self).runs(),
    {
        let id = RuleId::new(self.rules.len() as u32);
        self.rules.push(Some(Rc::new(rule)));
        proof {
            assert(self@.rules =~= old(self)@.rules.push(Some(rule)));
            assert(self@ =~= EgState { rules: old(self)@.rules.push(Some(rule)), ..old(self)@ });
        }
        id
    }

    /// Frees a rule, and forgets that it fired and every circuit that it is part
    /// of. An unknown rule is left as it is.
    pub fn free_rule(&mut self, id: RuleId)
        requires
            old(self).wf(),
        ensures
            final(self).wf(),
            final(self)@ == without_rule(old(self)@, id.rep),
            final(self).runs() == old(self).runs(),
    {
        let i: usize = id.rep as usize;
        if i >= self.rules.len() {
            return;
        }
        self.rules[i] = None;
        self.atomless_fired.remove(i);
        let mut kept: Vec<FedView> = Vec::new();
        let mut rest: Vec<FedView> = Vec::new();
        std::mem::swap(&mut self.fed, &mut rest);
        let ghost all = rest@.map_values(|f: FedView| f.state());
        assert(all =~= old(self)@.fed);
        let ghost mut k: int = 0;
        // The views are taken from the back, so what is kept is in reverse order.
        while rest.len() > 0
            invariant
                0 <= k,
                k + rest@.len() == all.len(),
                rest@.map_values(|f: FedView| f.state()) =~= all.take(all.len() - k),
                kept@.map_values(|f: FedView| f.state()) =~= without_rule_fed(
                    all.skip(all.len() - k),
                    i,
                ).reverse(),
            decreases rest@.len(),
        {
            let ghost rest0 = rest@.map_values(|f: FedView| f.state());
            let ghost kept0 = kept@.map_values(|f: FedView| f.state());
            let ghost at = all.len() - k - 1;
            match rest.pop() {
                Some(v) => {
                    let ghost vs = v.state();
                    proof {
                        assert(rest0.last() == vs);
                        assert(all[at] == vs);
                        assert(rest@.map_values(|f: FedView| f.state()) =~= rest0.drop_last());
                        let tail = all.skip(all.len() - k);
                        assert(all.skip(at) =~= seq![vs] + tail);
                        lemma_without_rule_cons(vs, tail, i);
                    }
                    let hit = contains_usize(&v.key, i);
                    if !hit {
                        kept.push(v);
                        proof {
                            let t = without_rule_fed(all.skip(all.len() - k), i);
                            assert(kept@.map_values(|f: FedView| f.state()) =~= kept0.push(vs));
                            assert((seq![vs] + t).reverse() =~= t.reverse().push(vs));
                        }
                    }
                    proof {
                        k = k + 1;
                    }
                },
                None => {},
            }
        }
        assert(all.skip(0) =~= all);
        let ghost t = without_rule_fed(all, i);
        let ghost kv = kept@.map_values(|f: FedView| f.state());
        assert(kv =~= t.reverse());
        // Put them back in order.
        let mut fed: Vec<FedView> = Vec::new();
        while kept.len() > 0
            invariant
                kept@.map_values(|f: FedView| f.state()) + fed@.map_values(
                    |f: FedView| f.state(),
                ).reverse() =~= t.reverse(),
            decreases kept@.len(),
        {
            let ghost k0 = kept@.map_values(|f: FedView| f.state());
            let ghost f0 = fed@.map_values(|f: FedView| f.state());
            match kept.pop() {
                Some(v) => {
                    let ghost vs = v.state();
                    fed.push(v);
                    proof {
                        assert(k0.last() == vs);
                        assert(kept@.map_values(|f: FedView| f.state()) =~= k0.drop_last());
                        assert(fed@.map_values(|f: FedView| f.state()) =~= f0.push(vs));
                        assert(f0.push(vs).reverse() =~= seq![vs] + f0.reverse());
                        assert(k0.drop_last() + (seq![vs] + f0.reverse()) =~= k0 + f0.reverse());
                    }
                },
                None => {},
            }
        }
        proof {
            let fv = fed@.map_values(|f: FedView| f.state());
            assert(fv.reverse() =~= t.reverse());
            assert(fv =~= fv.reverse().reverse());
            assert(t =~= t.reverse().reverse());
        }
        self.fed = fed;
        proof {
            assert(self@.rules =~= old(self)@.rules.update(i as int, None));
            assert(self@ =~= without_rule(old(self)@, id.rep));
            lemma_without_rule_ok(all, i);
        }
    }

    /// Whether a rule without body atoms has fired.
    pub fn has_fired(&self, i: usize) -> (b: bool)
        ensures
            b == self@.fired.contains(i),
    {
        self.atomless_fired.contains(i)
    }

    /// Records that a rule without body atoms has fired.
    pub fn set_fired(&mut self, i: usize)
        requires
            old(self).wf(),
        ensures
            final(self).wf(),
            final(self)@ == (EgState { fired: old(self)@.fired.insert(i), ..old(self)@ }),
            final(self).runs() == old(self).runs(),
    {
        self.atomless_fired.insert(i);
        assert(self@ =~= EgState { fired: old(self)@.fired.insert(i), ..old(self)@ });
    }

    /// The place of the circuit of a set of rules.
    pub fn find_fed(&self, key: &Vec<usize>) -> (p: Option<usize>)
        ensures
            match p {
                Some(i) => i < self@.fed.len() && self@.fed[i as int].key == key@,
                None => forall|i: int|
                    0 <= i < self@.fed.len() ==> (#[trigger] self@.fed[i]).key != key@,
            },
    {
        for i in 0..self.fed.len()
            invariant
                forall|k: int| 0 <= k < i ==> (#[trigger] self@.fed[k]).key != key@,
        {
            assert(self@.fed[i as int] == self.fed@[i as int].state());
            if same_usizes(&self.fed[i].key, key) {
                return Some(i);
            }
        }
        None
    }

    /// Records a circuit that was fed nothing yet.
    pub fn push_fed(&mut self, key: Vec<usize>, order: Vec<usize>, var_orders: Vec<Vec<u32>>)
        requires
            old(self).wf(),
            order@.to_multiset() == key@.to_multiset(),
            var_orders@.len() == order@.len(),
        ensures
            final(self).wf(),
            final(self)@ == (EgState {
                fed: old(self)@.fed.push(
                    FedState {
                        key: key@,
                        order: order@,
                        var_orders: row_views(var_orders@),
                        fed: Seq::empty(),
                    },
                ),
                ..old(self)@
            }),
            final(self).runs() == old(self).runs(),
    {
        let v = FedView { key, order, var_orders, fed: Vec::new() };
        self.fed.push(v);
        proof {
            assert(v.state() =~= FedState {
                key: key@,
                order: order@,
                var_orders: row_views(var_orders@),
                fed: Seq::empty(),
            });
            assert(self@.fed =~= old(self)@.fed.push(v.state()));
            assert(self@ =~= EgState { fed: old(self)@.fed.push(v.state()), ..old(self)@ });
            assert forall|i: int| 0 <= i < self@.fed.len() implies fed_ok(
                #[trigger] self@.fed[i],
            ) by {
                if i < old(self)@.fed.len() {
                    assert(self@.fed[i] == old(self)@.fed[i]);
                }
            }
        }
    }

    /// How many circuits are known.
    pub fn fed_count(&self) -> (n: usize)
        ensures
            n == self@.fed.len(),
    {
        self.fed.len()
    }

    /// The circuit at a place.
    pub fn fed_view(&self, p: usize) -> (v: &FedView)
        requires
            p < self@.fed.len(),
        ensures
            v.state() == self@.fed[p as int],
    {
        &self.fed[p]
    }

    /// Records the rows of a table that a circuit was fed.
    pub fn set_fed_rows(&mut self, p: usize, f: usize, rows: Rc<RowSet>)
        requires
            old(self).wf(),
            p < old(self)@.fed.len(),
            f < usize::MAX,
        ensures
            final(self).wf(),
            final(self).runs() == old(self).runs(),
            final(self)@.fed.len() == old(self)@.fed.len(),
            final(self)@ == (EgState {
                fed: old(self)@.fed.update(p as int, final(self)@.fed[p as int]),
                ..old(self)@
            }),
            final(self)@.fed[p as int].key == old(self)@.fed[p as int].key,
            final(self)@.fed[p as int].order == old(self)@.fed[p as int].order,
            final(self)@.fed[p as int].var_orders == old(self)@.fed[p as int].var_orders,
            forall|g: int| #[trigger]
                final(self)@.fed[p as int].rows(g) == (if g == f {
                    rows@
                } else {
                    old(self)@.fed[p as int].rows(g)
                }),
    {
        let ghost v0 = self.fed@[p as int].state();
        assert(self@.fed[p as int] == v0);
        let fv = &mut self.fed[p];
        while fv.fed.len() <= f
            invariant
                f < usize::MAX,
                fv.state().key == v0.key,
                fv.state().order == v0.order,
                fv.state().var_orders == v0.var_orders,
                forall|g: int| #[trigger] fv.state().rows(g) == v0.rows(g),
            decreases f + 1 - fv.fed@.len(),
        {
            let ghost b0 = fv.state();
            fv.fed.push(Rc::new(RowSet::new()));
            assert forall|g: int| #[trigger] fv.state().rows(g) == v0.rows(g) by {
                assert(b0.rows(g) == v0.rows(g));
                if g == b0.fed.len() {
                    assert(fv.state().fed[g] =~= Set::empty());
                }
            }
        }
        let ghost b1 = fv.state();
        fv.fed[f] = rows;
        assert forall|g: int| #[trigger] fv.state().rows(g) == (if g == f {
            rows@
        } else {
            v0.rows(g)
        }) by {
            assert(b1.rows(g) == v0.rows(g));
        }
        let ghost v2 = fv.state();
        proof {
            assert(self@.fed =~= old(self)@.fed.update(p as int, v2));
            assert(fed_ok(v0));
            assert forall|k: int| 0 <= k < self@.fed.len() implies fed_ok(
                #[trigger] self@.fed[k],
            ) by {
                if k != p {
                    assert(self@.fed[k] == old(self)@.fed[k]);
                }
            }
            assert(self@ =~= EgState {
                fed: old(self)@.fed.update(p as int, v2),
                ..old(self)@
            });
        }
    }
}

/// The fed views without those of a rule.
pub open spec fn without_rule_fed(fed: Seq<FedState>, i: usize) -> Seq<FedState> {
    fed.filter(|v: FedState| !v.key.contains(i))
}

/// The state without a rule.
pub open spec fn without_rule(s: EgState, id: u32) -> EgState {
    if id < s.rules.len() {
        EgState {
            rules: s.rules.update(id as int, None),
            fired: s.fired.remove(id as usize),
            fed: without_rule_fed(s.fed, id as usize),
            ..s
        }
    } else {
        s
    }
}

proof fn lemma_without_rule_cons(v: FedState, tail: Seq<FedState>, i: usize)
    ensures
        without_rule_fed(seq![v] + tail, i) == (if v.key.contains(i) {
            without_rule_fed(tail, i)
        } else {
            seq![v] + without_rule_fed(tail, i)
        }),
    decreases tail.len(),
{
    let p = |x: FedState| !x.key.contains(i);
    reveal(Seq::filter);
    if tail.len() == 0 {
        assert((seq![v] + tail).drop_last() =~= Seq::empty());
        assert((seq![v] + tail).last() == v);
        assert((seq![v] + tail).drop_last().filter(p) =~= Seq::empty());
        assert(without_rule_fed(tail, i) =~= Seq::empty());
        assert(without_rule_fed(seq![v] + tail, i) =~= (if v.key.contains(i) {
            Seq::empty()
        } else {
            seq![v]
        }));
        assert(seq![v] + Seq::<FedState>::empty() =~= seq![v]);
    } else {
        let less = tail.drop_last();
        lemma_without_rule_cons(v, less, i);
        assert((seq![v] + tail).drop_last() =~= seq![v] + less);
        assert((seq![v] + tail).last() == tail.last());
        assert(without_rule_fed(seq![v] + tail, i) =~= (if v.key.contains(i) {
            without_rule_fed(tail, i)
        } else {
            seq![v] + without_rule_fed(tail, i)
        }));
    }
}

proof fn lemma_without_rule_ok(fed: Seq<FedState>, i: usize)
    requires
        forall|k: int| 0 <= k < fed.len() ==> fed_ok(#[trigger] fed[k]),
    ensures
        forall|k: int|
            0 <= k < without_rule_fed(fed, i).len() ==> fed_ok(
                #[trigger] without_rule_fed(fed, i)[k],
            ),
    decreases fed.len(),
{
    reveal(Seq::filter);
    if fed.len() > 0 {
        let less = fed.drop_last();
        lemma_without_rule_ok(less, i);
        let before = without_rule_fed(less, i);
        let after = without_rule_fed(fed, i);
        assert(fed_ok(fed[fed.len() - 1]));
        assert forall|k: int| 0 <= k < after.len() implies fed_ok(#[trigger] after[k]) by {
            if k < before.len() {
                assert(after[k] == before[k]);
            }
        }
    }
}

/// Whether two sets hold the same rows.
pub fn same_rows(a: &RowSet, b: &RowSet) -> (r: bool)
    ensures
        r == (a@ == b@),
{
    let av = a.rows();
    for i in 0..av.len()
        invariant
            row_views(av@).to_set() == a@,
            forall|k: int| 0 <= k < i ==> b@.contains((#[trigger] av@[k])@),
    {
        if !b.contains(&av[i]) {
            assert(row_views(av@)[i as int] == av@[i as int]@);
            assert(row_views(av@).to_set().contains(av@[i as int]@));
            return false;
        }
    }
    let bv = b.rows();
    for i in 0..bv.len()
        invariant
            row_views(bv@).to_set() == b@,
            forall|k: int| 0 <= k < i ==> a@.contains((#[trigger] bv@[k])@),
    {
        if !a.contains(&bv[i]) {
            assert(row_views(bv@)[i as int] == bv@[i as int]@);
            assert(row_views(bv@).to_set().contains(bv@[i as int]@));
            return false;
        }
    }
    proof {
        assert forall|r: Seq<u32>| a@.contains(r) <==> b@.contains(r) by {
            if a@.contains(r) {
                assert(row_views(av@).contains(r));
                let k = choose|k: int| 0 <= k < row_views(av@).len() && row_views(av@)[k] == r;
                assert(av@[k]@ == r);
            }
            if b@.contains(r) {
                assert(row_views(bv@).contains(r));
                let k = choose|k: int| 0 <= k < row_views(bv@).len() && row_views(bv@)[k] == r;
                assert(bv@[k]@ == r);
            }
        }
        assert(a@ =~= b@);
    }
    true
}

/// Whether a list contains an index.
pub fn contains_usize(v: &Vec<usize>, x: usize) -> (b: bool)
    ensures
        b == v@.contains(x),
{
    for i in 0..v.len()
        invariant
            forall|j: int| 0 <= j < i ==> v@[j] != x,
    {
        if v[i] == x {
            assert(v@[i as int] == x);
            return true;
        }
    }
    false
}

/// Whether two lists of indices are the same.
pub fn same_usizes(a: &Vec<usize>, b: &Vec<usize>) -> (r: bool)
    ensures
        r == (a@ == b@),
{
    if a.len() != b.len() {
        return false;
    }
    for i in 0..a.len()
        invariant
            a@.len() == b@.len(),
            forall|j: int| 0 <= j < i ==> a@[j] == b@[j],
    {
        if a[i] != b[i] {
            return false;
        }
    }
    assert(a@ =~= b@);
    true
}

/// The state with one more union queued in table `f`.
pub open spec fn with_union(s: EgState, f: int, a: u32, b: u32) -> EgState {
    let u = s.tables[f].uf->0;
    s.with_table(
        f,
        TableState {
            uf: Some(UfState { find: u.find, pending: u.pending.push((a as i64, b as i64)) }),
            ..s.tables[f]
        },
    )
}

/// The tables with all queued unions applied.
pub open spec fn drained_all(s: EgState) -> Seq<TableState> {
    s.tables.map_values(|t: TableState| drained(t, s.native_uf))
}

/// How many ids the queued unions give another leader.
pub open spec fn moved_total(tables: Seq<TableState>) -> nat
    decreases tables.len(),
{
    if tables.len() == 0 {
        0
    } else {
        moved_total(tables.drop_last()) + moved(tables.last().uf).len()
    }
}

/// Whether some queued union changes a leader.
pub open spec fn some_leader_moves(s: EgState) -> bool {
    exists|k: int, x: i64|
        0 <= k < s.tables.len() && #[trigger] moved(s.tables[k].uf).contains(x)
}

/// The state with table `f` made a view over `cols`, under the in-core union-find
/// and unless it is a view already.
pub open spec fn seeded(s: EgState, f: int, cols: Seq<usize>) -> EgState {
    if s.native_uf && s.tables[f].view_cols is None {
        s.with_table(f, TableState { view_cols: Some(cols), ..s.tables[f] })
    } else {
        s
    }
}

/// What a union-find function looks like.
pub open spec fn uf_info(name: Seq<char>) -> InfoState {
    InfoState {
        name,
        arity: 2,
        schema: seq![ColumnTy::Id, ColumnTy::Id],
        has_output: true,
        merge: MergeMode::Min,
        identity_on_miss: false,
    }
}

/// The representations of rows of values.
pub open spec fn value_rows(rows: Seq<Vec<Value>>) -> Seq<Seq<u32>> {
    rows.map_values(|r: Vec<Value>| reps(r@))
}

/// The functions and rows of a list of values.
pub open spec fn named_rows(values: Seq<(FunctionId, Vec<Value>)>) -> Seq<(u32, Seq<u32>)> {
    values.map_values(|v: (FunctionId, Vec<Value>)| (v.0.rep, reps(v.1@)))
}

/// The state with rows added to the functions they name.
pub open spec fn with_values(s: EgState, values: Seq<(u32, Seq<u32>)>) -> EgState
    decreases values.len(),
{
    if values.len() == 0 {
        s
    } else {
        let t = with_values(s, values.drop_last());
        let f = values.last().0 as int;
        t.with_rows(f, t.tables[f].rows.insert(values.last().1))
    }
}

/// The state with a row for a new term.
pub open spec fn with_term(s: EgState, f: int, inputs: Seq<u32>) -> EgState {
    EgState {
        next_id: (s.next_id + 1) as u32,
        ..s.with_rows(f, s.tables[f].rows.insert(inputs.push(s.next_id)))
    }
}

/// The state once keys have been looked up, one after the other, with a term made for each that has
/// no answer; and whether there were ids for all of them. Where the ids run out the rest is left.
pub open spec fn looked_up(s: EgState, f: int, keys: Seq<Seq<u32>>) -> (EgState, bool)
    decreases keys.len(),
{
    if keys.len() == 0 {
        (s, true)
    } else {
        let (t, ok) = looked_up(s, f, keys.drop_last());
        if !ok {
            (t, false)
        } else if has_answer(t, f, keys.last()) {
            (t, true)
        } else if t.next_id == u32::MAX {
            (t, false)
        } else {
            (with_term(t, f, keys.last()), true)
        }
    }
}

/// Whether some row of a function has the inputs `key`.
pub open spec fn has_term(s: EgState, f: int, key: Seq<u32>) -> bool {
    exists|v: u32| #[trigger] s.tables[f].rows.contains(key.push(v))
}

/// Whether a lookup has an answer. A union-find answers for every id, and a function
/// without output never.
pub open spec fn has_answer(s: EgState, f: int, key: Seq<u32>) -> bool {
    let t = s.tables[f];
    if t.uf is Some {
        key.len() == 1
    } else {
        t.info.has_output && key.len() + 1 == t.info.arity && has_term(s, f, key)
    }
}

/// Whether `f` is a function with an output whose inputs are as long as the keys.
pub open spec fn makes_terms(s: EgState, f: int, keys: Seq<Seq<u32>>) -> bool {
    &&& 0 <= f < s.tables.len()
    &&& s.tables[f].uf is None
    &&& s.tables[f].info.has_output
    &&& rows_fit(s.tables[f].rows, s.tables[f].info.arity)
    &&& forall|i: int| 0 <= i < keys.len() ==> (#[trigger] keys[i]).len() + 1
        == s.tables[f].info.arity
}

/// Looking up keys makes exactly one row, with a fresh id, for each key that had none and for which
/// there is an id. Every key then has a row, unless the ids ran out. Rows that were there stay, keys
/// that had a row get no other, and the rest of the state stays as it was.
pub proof fn lookups_make_each_term_once(s: EgState, f: int, keys: Seq<Seq<u32>>)
    requires
        makes_terms(s, f, keys),
    ensures
        ({
            let (t, ok) = looked_up(s, f, keys);
            let before = s.tables[f].rows;
            let after = t.tables[f].rows;
            &&& t == (EgState { next_id: t.next_id, ..s.with_rows(f, after) })
            &&& s.next_id <= t.next_id <= s.next_id + keys.len()
            &&& ok || t.next_id == u32::MAX
            &&& before.subset_of(after)
            &&& ok ==> forall|i: int| 0 <= i < keys.len() ==> has_term(t, f, #[trigger] keys[i])
            &&& forall|r: Seq<u32>|
                #![trigger after.contains(r)]
                after.contains(r) && !before.contains(r) ==> {
                    &&& r.len() == s.tables[f].info.arity
                    &&& keys.contains(r.drop_last())
                    &&& !has_term(s, f, r.drop_last())
                    &&& s.next_id <= r.last() < t.next_id
                }
            &&& forall|r1: Seq<u32>, r2: Seq<u32>|
                #![trigger after.contains(r1), after.contains(r2)]
                after.contains(r1) && !before.contains(r1) && after.contains(r2)
                    && r1.drop_last() == r2.drop_last() ==> r1 == r2
        }),
    decreases keys.len(),
{
    let (t, ok) = looked_up(s, f, keys);
    let before = s.tables[f].rows;
    let arity = s.tables[f].info.arity;
    if keys.len() == 0 {
        assert(s.with_rows(f, before).tables =~= s.tables);
        assert(t =~= EgState { next_id: t.next_id, ..s.with_rows(f, before) });
    } else {
        let less = keys.drop_last();
        let key = keys.last();
        assert forall|i: int| 0 <= i < less.len() implies (#[trigger] less[i]).len() + 1
            == arity by {
            assert(less[i] == keys[i]);
        }
        lookups_make_each_term_once(s, f, less);
        let (m, had) = looked_up(s, f, less);
        let mid = m.tables[f].rows;
        let after = t.tables[f].rows;
        assert(keys[keys.len() - 1].len() + 1 == arity);
        assert forall|k: Seq<u32>| less.contains(k) implies keys.contains(k) by {
            let i = choose|i: int| 0 <= i < less.len() && less[i] == k;
            assert(keys[i] == k);
        }
        assert(keys.contains(key)) by {
            assert(keys[keys.len() - 1] == key);
        }
        if !had || (!has_answer(m, f, key) && m.next_id == u32::MAX) {
        } else if has_answer(m, f, key) {
            assert forall|i: int| 0 <= i < keys.len() implies has_term(t, f, #[trigger] keys[i]) by {
                if i < less.len() {
                    assert(has_term(m, f, less[i]));
                }
            }
        } else {
            let new = key.push(m.next_id);
            assert(after =~= mid.insert(new));
            assert(t.tables =~= s.with_rows(f, after).tables);
            assert(t =~= EgState { next_id: t.next_id, ..s.with_rows(f, after) });
            assert(new.drop_last() =~= key);
            assert forall|r: Seq<u32>| mid.contains(r) && r.len() == arity implies r.drop_last()
                != key by {
                if r.drop_last() == key {
                    assert(r =~= key.push(r.last()));
                    assert(mid.contains(key.push(r.last())));
                }
            }
            assert(!has_term(s, f, key)) by {
                if has_term(s, f, key) {
                    let v = choose|v: u32| #[trigger] s.tables[f].rows.contains(key.push(v));
                    assert(mid.contains(key.push(v)));
                }
            }
            assert forall|i: int| 0 <= i < keys.len() implies has_term(t, f, #[trigger] keys[i]) by {
                if i < less.len() {
                    assert(has_term(m, f, less[i]));
                    let v = choose|v: u32| #[trigger] m.tables[f].rows.contains(less[i].push(v));
                    assert(t.tables[f].rows.contains(keys[i].push(v)));
                } else {
                    assert(t.tables[f].rows.contains(keys[i].push(m.next_id)));
                }
            }
            assert forall|r: Seq<u32>|
                #![trigger after.contains(r)]
                after.contains(r) && !before.contains(r) implies {
                &&& r.len() == arity
                &&& keys.contains(r.drop_last())
                &&& !has_term(s, f, r.drop_last())
                &&& s.next_id <= r.last() < t.next_id
            } by {
                if r != new {
                    assert(mid.contains(r));
                }
            }
            assert forall|r1: Seq<u32>, r2: Seq<u32>|
                #![trigger after.contains(r1), after.contains(r2)]
                after.contains(r1) && !before.contains(r1) && after.contains(r2) && r1.drop_last()
                    == r2.drop_last() implies r1 == r2 by {
                if r1 != new {
                    assert(mid.contains(r1));
                }
                if r2 != new {
                    assert(mid.contains(r2));
                    if !before.contains(r2) {
                        assert(r2.len() == arity);
                    }
                }
            }
        }
    }
}

/// A term that is there stays there.
proof fn lemma_term_stays(s: EgState, f: int, keys: Seq<Seq<u32>>, n: int, key: Seq<u32>)
    requires
        makes_terms(s, f, keys),
        0 <= n <= keys.len(),
        has_term(looked_up(s, f, keys.take(n)).0, f, key),
    ensures
        has_term(looked_up(s, f, keys).0, f, key),
    decreases keys.len() - n,
{
    if n == keys.len() {
        assert(keys.take(n) =~= keys);
    } else {
        let (a, had) = looked_up(s, f, keys.take(n));
        let (b, ok) = looked_up(s, f, keys.take(n + 1));
        assert(keys.take(n + 1).drop_last() =~= keys.take(n));
        assert(keys.take(n + 1).last() == keys[n]);
        lemma_prefix_makes(s, f, keys, n);
        lookups_make_each_term_once(s, f, keys.take(n));
        let v = choose|v: u32| #[trigger] a.tables[f].rows.contains(key.push(v));
        assert(b.tables[f].rows.contains(key.push(v)));
        lemma_term_stays(s, f, keys, n + 1, key);
    }
}

proof fn lemma_prefix_makes(s: EgState, f: int, keys: Seq<Seq<u32>>, n: int)
    requires
        makes_terms(s, f, keys),
        0 <= n <= keys.len(),
    ensures
        makes_terms(s, f, keys.take(n)),
{
    let less = keys.take(n);
    assert forall|i: int| 0 <= i < less.len() implies (#[trigger] less[i]).len() + 1
        == s.tables[f].info.arity by {
        assert(less[i] == keys[i]);
    }
}

/// Looking up the same keys again changes nothing and takes no id, and succeeds where it did: also
/// where the ids ran out.
pub proof fn lookups_again_change_nothing(s: EgState, f: int, keys: Seq<Seq<u32>>)
    requires
        makes_terms(s, f, keys),
    ensures
        looked_up(looked_up(s, f, keys).0, f, keys) == looked_up(s, f, keys),
{
    lemma_again(s, f, keys, keys.len() as int);
    assert(keys.take(keys.len() as int) =~= keys);
}

proof fn lemma_again(s: EgState, f: int, keys: Seq<Seq<u32>>, n: int)
    requires
        makes_terms(s, f, keys),
        0 <= n <= keys.len(),
    ensures
        looked_up(looked_up(s, f, keys).0, f, keys.take(n)) == (
            looked_up(s, f, keys).0,
            looked_up(s, f, keys.take(n)).1,
        ),
    decreases n,
{
    let (t, ok) = looked_up(s, f, keys);
    if n > 0 {
        lemma_again(s, f, keys, n - 1);
        let upto = keys.take(n);
        let less = keys.take(n - 1);
        assert(upto.drop_last() =~= less);
        assert(upto.last() == keys[n - 1]);
        let (a, had) = looked_up(s, f, less);
        let (b, has) = looked_up(s, f, upto);
        lookups_make_each_term_once(s, f, keys);
        lemma_prefix_makes(s, f, keys, n);
        lookups_make_each_term_once(s, f, upto);
        if had && has {
            assert(has_term(b, f, upto[n - 1]));
            lemma_term_stays(s, f, keys, n, keys[n - 1]);
            assert(has_answer(t, f, keys[n - 1]));
        } else if had {
            // The ids run out here, and stay out.
            lemma_prefix_makes(s, f, keys, n - 1);
            lemma_stuck(s, f, keys, n);
            assert(t == a);
        }
    }
}

proof fn lemma_stuck(s: EgState, f: int, keys: Seq<Seq<u32>>, n: int)
    requires
        0 <= n <= keys.len(),
        !looked_up(s, f, keys.take(n)).1,
    ensures
        looked_up(s, f, keys) == looked_up(s, f, keys.take(n)),
    decreases keys.len() - n,
{
    if n == keys.len() {
        assert(keys.take(n) =~= keys);
    } else {
        assert(keys.take(n + 1).drop_last() =~= keys.take(n));
        lemma_stuck(s, f, keys, n + 1);
    }
}

/// Whether two states have the same functions, of the same kinds.
pub open spec fn same_infos(a: EgState, b: EgState) -> bool {
    &&& a.tables.len() == b.tables.len()
    &&& forall|i: int|
        0 <= i < a.tables.len() ==> (#[trigger] a.tables[i]).info == b.tables[i].info && (
        a.tables[i].uf is Some <==> b.tables[i].uf is Some)
}

/// What a lookup answers. Where several rows have the key, it is one of their
/// outputs.
pub open spec fn lookup_answers(s: EgState, f: u32, key: Seq<u32>, r: Option<Value>) -> bool {
    let t = s.tables[f as int];
    if t.uf is Some {
        if key.len() == 1 {
            r == Some(Value { rep: s.find(f as int, key[0]) })
        } else {
            r is None
        }
    } else if !t.info.has_output || key.len() + 1 != t.info.arity {
        r is None
    } else {
        match r {
            Some(v) => t.rows.contains(key.push(v.rep)),
            None => forall|v: u32| !(#[trigger] t.rows.contains(key.push(v))),
        }
    }
}

} // verus!
