//! The e-graph's bookkeeping: tables, rules, union-finds and times.
use crate::backend;
use crate::backend::{ExternalFunctionId, MergeFn};
use crate::duckdb::changed::ChangedIds;
use crate::duckdb::fold::{fold_prim, fold_ready, folded};
use crate::duckdb::names::{
    family, is_rebuild_rule_name, is_uf_change_drain_rule_name, is_uf_maintenance_ruleset,
    sanitize_for_udf, sanitized, uf_maintenance,
};
use crate::duckdb::pool::{handle_of, interned, BaseTy, DuckdbBaseValuePool, PoolState};
use crate::duckdb::rules::{
    gate_tables, name_map, native_form, native_uf_rule_gate_tables, rewrite_native_uf_rule, Atom,
    AtomView, Rule, RuleView, Term,
};
use crate::duckdb::runner::{bumped, CompiledRule, CompiledVariant, Progress, ProgressView};
use crate::duckdb::schema::{
    opt_text, ColumnTy, FunctionInfo, InfoView, MergeMode, MergeModeView,
};
use crate::duckdb::sql::{
    count_matching_sql, count_rows, count_rows_sql, count_where, count_where_sql, create_table,
    create_table_sql, insert_select, insert_select_sql, insert_values, insert_values_sql,
    lookup_output, lookup_output_sql, parameters, table_sizes, table_sizes_sql,
};
use crate::duckdb::strmap::{add_name, holds_name, name_set, with_name, StrMap};
use crate::duckdb::term_build::info_map;
use crate::duckdb::udf::{builtin_udf, plan_builtin_udf, udf_view, UdfKind};
use crate::feldera::external_func::ExternalFuncRegistry;
use crate::feldera::uf::UfTable;
use crate::text::{
    begins_with, chars_of, decimal_i64, ends_with, finishes_with, signed_decimal, slice_chars,
    starts_with, str_eq, string_of, texts,
};
use vstd::prelude::*;
use vstd::string::*;

verus! {

/// A union-find that stands in for a table.
#[derive(Debug)]
pub struct NativeUf {
    /// The function whose table it stands in for.
    pub name: String,
    pub table: UfTable,
    /// The time of the newest union that it has.
    pub last_sync: i64,
}

/// The e-graph.
#[derive(Debug)]
pub struct EGraph {
    pub functions: StrMap<FunctionInfo>,
    pub rules: Vec<CompiledRule>,
    /// The time of the current iteration.
    pub next_ts: i64,
    /// The time at which each rule last ran.
    pub last_run_at: StrMap<i64>,
    pub rule_to_ruleset: StrMap<String>,
    pub progress: Progress,
    pub native_uf_enabled: bool,
    pub proofs_enabled: bool,
    pub fast_rebuild: bool,
    pub native_ufs: Vec<NativeUf>,
    /// The table that takes a union-find's unions, by function.
    pub native_uf_pname: StrMap<String>,
    /// How many unions the union-finds have taken.
    pub native_uf_unions_synced: u64,
    /// The functions' names by their ids.
    pub function_names: Vec<String>,
    pub pool: DuckdbBaseValuePool,
    pub external_funcs: ExternalFuncRegistry,
    /// The primitives whose function the database has.
    pub registered_builtin_udfs: Vec<String>,
    /// The sizes of the tables when they were last asked for.
    pub table_sizes: StrMap<i64>,
    /// The times up to which the congruence and merge passes have looked at each view.
    pub last_inline_cong_at: StrMap<i64>,
    pub last_termbuild_at: StrMap<i64>,
    pub last_native_cong_at: StrMap<i64>,
    /// The ids whose leader has changed, each once.
    pub adaptive_changed_ids: ChangedIds,
    /// How many changes of leader the last sync brought.
    pub adaptive_recent_displaced: usize,
    /// The find functions of the canonicalizing primitives, by id and by name.
    pub native_uf_canon_ids: Vec<(ExternalFunctionId, String)>,
    pub native_uf_canon_prim_udf: StrMap<String>,
    /// The table that a find function reads.
    pub native_uf_udf_to_table: StrMap<String>,
    /// The change relations, which never have a row.
    pub native_uf_onchange: Vec<String>,
}

/// What an e-graph holds.
#[verifier::ext_equal]
pub struct EgView {
    pub functions: Map<Seq<char>, InfoView>,
    pub order: Seq<Seq<char>>,
    pub rules: Seq<CompiledRule>,
    pub next_ts: i64,
    pub last_run_at: Map<Seq<char>, i64>,
    pub rulesets: Map<Seq<char>, Seq<char>>,
    pub progress: ProgressView,
    pub native_uf: bool,
    pub proofs: bool,
    pub fast_rebuild: bool,
    pub ufs: Seq<NativeUf>,
    pub pnames: Map<Seq<char>, Seq<char>>,
    pub unions_synced: u64,
    pub names: Seq<Seq<char>>,
    pub pool: PoolState,
    pub prims: Seq<Option<Seq<char>>>,
    pub registered: Seq<Seq<char>>,
    pub sizes: Map<Seq<char>, i64>,
    pub inline_at: Map<Seq<char>, i64>,
    pub build_at: Map<Seq<char>, i64>,
    pub native_at: Map<Seq<char>, i64>,
    pub changed: Seq<i64>,
    pub recent: usize,
    pub canon_ids: Seq<(ExternalFunctionId, Seq<char>)>,
    pub canon: Map<Seq<char>, Seq<char>>,
    pub udf_tables: Map<Seq<char>, Seq<char>>,
    pub udf_order: Seq<Seq<char>>,
    pub changes: Seq<Seq<char>>,
}

impl View for EGraph {
    type V = EgView;

    open spec fn view(&self) -> EgView {
        EgView {
            functions: info_map(self.functions@),
            order: self.functions.order(),
            rules: self.rules@,
            next_ts: self.next_ts,
            last_run_at: self.last_run_at@,
            rulesets: name_map(self.rule_to_ruleset@),
            progress: self.progress@,
            native_uf: self.native_uf_enabled,
            proofs: self.proofs_enabled,
            fast_rebuild: self.fast_rebuild,
            ufs: self.native_ufs@,
            pnames: name_map(self.native_uf_pname@),
            unions_synced: self.native_uf_unions_synced,
            names: texts(self.function_names@),
            pool: self.pool@,
            prims: self.external_funcs.names(),
            registered: texts(self.registered_builtin_udfs@),
            sizes: self.table_sizes@,
            inline_at: self.last_inline_cong_at@,
            build_at: self.last_termbuild_at@,
            native_at: self.last_native_cong_at@,
            changed: self.adaptive_changed_ids@,
            recent: self.adaptive_recent_displaced,
            canon_ids: self.native_uf_canon_ids@.map_values(
                |p: (ExternalFunctionId, String)| (p.0, p.1@),
            ),
            canon: name_map(self.native_uf_canon_prim_udf@),
            udf_tables: name_map(self.native_uf_udf_to_table@),
            udf_order: self.native_uf_udf_to_table.order(),
            changes: texts(self.native_uf_onchange@),
        }
    }
}

/// Whether a union-find is at rest: no union waits, and no change of leader is unread.
pub open spec fn at_rest(u: NativeUf) -> bool {
    u.table.wf() && u.table.pending().len() == 0 && u.table.displaced().len() == 0
}

impl EGraph {
    /// The parts are well formed, and the union-finds are at rest.
    pub open spec fn wf(self) -> bool {
        &&& self.functions.wf()
        &&& self.last_run_at.wf()
        &&& self.rule_to_ruleset.wf()
        &&& self.progress.wf()
        &&& self.native_uf_pname.wf()
        &&& self.pool.wf()
        &&& self.external_funcs.wf()
        &&& self.table_sizes.wf()
        &&& self.last_inline_cong_at.wf()
        &&& self.last_termbuild_at.wf()
        &&& self.last_native_cong_at.wf()
        &&& self.native_uf_canon_prim_udf.wf()
        &&& self.native_uf_udf_to_table.wf()
        &&& self.adaptive_changed_ids.wf()
        &&& forall|i: int| 0 <= i < self.native_ufs@.len() ==> at_rest(#[trigger] self.native_ufs@[i])
    }
}

/// An e-graph without tables and rules.
pub open spec fn empty_egraph() -> EgView {
    EgView {
        functions: Map::empty(),
        order: Seq::empty(),
        rules: Seq::empty(),
        next_ts: 0,
        last_run_at: Map::empty(),
        rulesets: Map::empty(),
        progress: ProgressView {
            watermarks: Map::empty(),
            affected: 0,
            skipped: 0,
            times: (0, 0, 0),
            perf: Map::empty(),
            perf_order: Seq::empty(),
        },
        native_uf: false,
        proofs: false,
        fast_rebuild: false,
        ufs: Seq::empty(),
        pnames: Map::empty(),
        unions_synced: 0,
        names: Seq::empty(),
        pool: PoolState {
            types: Seq::empty(),
            longs: Seq::empty(),
            strings: Seq::empty(),
            ints: Seq::empty(),
            rats: Seq::empty(),
        },
        prims: Seq::empty(),
        registered: Seq::empty(),
        sizes: Map::empty(),
        inline_at: Map::empty(),
        build_at: Map::empty(),
        native_at: Map::empty(),
        changed: Seq::empty(),
        recent: 0,
        canon_ids: Seq::empty(),
        canon: Map::empty(),
        udf_tables: Map::empty(),
        udf_order: Seq::empty(),
        changes: Seq::empty(),
    }
}

impl EGraph {
    /// An e-graph without tables and rules.
    pub fn new() -> (g: EGraph)
        ensures
            g.wf(),
            g@ == empty_egraph(),
    {
        let g = EGraph {
            functions: StrMap::new(),
            rules: Vec::new(),
            next_ts: 0,
            last_run_at: StrMap::new(),
            rule_to_ruleset: StrMap::new(),
            progress: Progress::new(),
            native_uf_enabled: false,
            proofs_enabled: false,
            fast_rebuild: false,
            native_ufs: Vec::new(),
            native_uf_pname: StrMap::new(),
            native_uf_unions_synced: 0,
            function_names: Vec::new(),
            pool: DuckdbBaseValuePool::new(),
            external_funcs: ExternalFuncRegistry::new(),
            registered_builtin_udfs: Vec::new(),
            table_sizes: StrMap::new(),
            last_inline_cong_at: StrMap::new(),
            last_termbuild_at: StrMap::new(),
            last_native_cong_at: StrMap::new(),
            adaptive_changed_ids: ChangedIds::new(),
            adaptive_recent_displaced: 0,
            native_uf_canon_ids: Vec::new(),
            native_uf_canon_prim_udf: StrMap::new(),
            native_uf_udf_to_table: StrMap::new(),
            native_uf_onchange: Vec::new(),
        };
        assert(g@ =~= empty_egraph());
        g
    }

    /// Turns the in-core union-find on. Tables and rules that are registered later take it into
    /// account.
    pub fn enable_native_uf(&mut self)
        requires
            old(self).wf(),
        ensures
            final(self).wf(),
            final(self)@ == (EgView { native_uf: true, ..old(self)@ }),
    {
        self.native_uf_enabled = true;
    }

    /// Turns the scan of new view rows off in rebuilds.
    pub fn enable_fast_rebuild(&mut self)
        requires
            old(self).wf(),
        ensures
            final(self).wf(),
            final(self)@ == (EgView { fast_rebuild: true, ..old(self)@ }),
    {
        self.fast_rebuild = true;
    }

    /// Turns proofs on.
    pub fn enable_proofs(&mut self)
        requires
            old(self).wf(),
        ensures
            final(self).wf(),
            final(self)@ == (EgView { proofs: true, ..old(self)@ }),
    {
        self.proofs_enabled = true;
    }
}

/// Why a table cannot be declared.
#[derive(Clone, Copy, Debug, PartialEq, Eq, Structural)]
pub enum DeclareError {
    /// The name is taken.
    AlreadyRegistered,
    /// The name of a union-find's function does not end in `f`, so it names no parent table.
    NoParentName,
    /// The parent table is not declared.
    NoParent,
}

/// What a declaration leaves to be done.
#[derive(Debug)]
pub struct Declared {
    /// The statement that creates the table.
    pub sql: String,
    /// The find function that has to be registered.
    pub udf: Option<String>,
}

/// The name of the find function of a union-find.
pub open spec fn find_udf(name: Seq<char>) -> Seq<char> {
    "duck_uf_"@ + sanitized(name) + "_find"@
}

fn find_udf_name(name: &str) -> (s: String)
    ensures
        s@ == find_udf(name@),
{
    let mut s = "duck_uf_".to_owned();
    s.append(sanitize_for_udf(name).as_str());
    s.append("_find");
    s
}

/// What is left to be done for a declaration, or why it cannot be made.
pub open spec fn declared_view(r: Result<Declared, DeclareError>) -> Result<
    (Seq<char>, Option<Seq<char>>),
    DeclareError,
> {
    match r {
        Ok(d) => Ok((d.sql@, opt_text(d.udf))),
        Err(e) => Err(e),
    }
}

/// Whether a function gets a union-find of its own.
pub open spec fn gets_union_find(g: EgView, info: InfoView) -> bool {
    g.native_uf && info.merge == Some(MergeModeView::Min)
}

/// What comes of a declaration: the statement, and the find function where there is one.
pub open spec fn declaration(g: EgView, name: Seq<char>, info: InfoView) -> Result<
    (Seq<char>, Option<Seq<char>>),
    DeclareError,
> {
    if g.functions.contains_key(name) {
        Err(DeclareError::AlreadyRegistered)
    } else if !gets_union_find(g, info) {
        Ok((create_table(name, info), None))
    } else if !finishes_with(name, "f"@) {
        Err(DeclareError::NoParentName)
    } else if !g.functions.contains_key(name.drop_last()) {
        Err(DeclareError::NoParent)
    } else {
        Ok((create_table(name, info), Some(find_udf(name))))
    }
}

/// A union-find without unions.
pub open spec fn fresh_uf(u: NativeUf, name: Seq<char>) -> bool {
    &&& u.name@ == name
    &&& u.last_sync == -1
    &&& at_rest(u)
    &&& forall|x: i64| #[trigger] u.table.find()(x) == x
}

/// The e-graph once a table is declared. A function that keeps the smallest of its outputs gets a
/// union-find, whose unions come to the table that has its name without the `f` at the end.
pub open spec fn has_declared(g: EgView, name: Seq<char>, info: InfoView, g2: EgView) -> bool {
    let order = g.order.push(name);
    if gets_union_find(g, info) {
        &&& g2.ufs.len() == g.ufs.len() + 1
        &&& fresh_uf(g2.ufs.last(), name)
        &&& g2 == (EgView {
            functions: g.functions.insert(
                name,
                InfoView { native_uf_udf: Some(find_udf(name)), ..info },
            ),
            order,
            ufs: g.ufs.push(g2.ufs.last()),
            pnames: g.pnames.insert(name, name.drop_last()),
            ..g
        })
    } else {
        g2 == (EgView { functions: g.functions.insert(name, info), order, ..g })
    }
}

proof fn lemma_info_insert(m: Map<Seq<char>, FunctionInfo>, name: Seq<char>, info: FunctionInfo)
    ensures
        info_map(m.insert(name, info)) == info_map(m).insert(name, info@),
{
    assert(info_map(m.insert(name, info)) =~= info_map(m).insert(name, info@));
}

proof fn lemma_name_insert(m: Map<Seq<char>, String>, name: Seq<char>, s: String)
    ensures
        name_map(m.insert(name, s)) == name_map(m).insert(name, s@),
{
    assert(name_map(m.insert(name, s)) =~= name_map(m).insert(name, s@));
}

proof fn lemma_info_remove(m: Map<Seq<char>, FunctionInfo>, name: Seq<char>)
    ensures
        info_map(m.remove(name)) == info_map(m).remove(name),
{
    assert(info_map(m.remove(name)) =~= info_map(m).remove(name));
}

proof fn lemma_name_remove(m: Map<Seq<char>, String>, name: Seq<char>)
    ensures
        name_map(m.remove(name)) == name_map(m).remove(name),
{
    assert(name_map(m.remove(name)) =~= name_map(m).remove(name));
}

/// The e-graph without a table, and without the union-find that came with it.
pub open spec fn undeclared(g: EgView, name: Seq<char>) -> EgView {
    let udf = find_udf(name);
    let own_uf = g.ufs.len() > 0 && g.ufs.last().name@ == name;
    let own_udf = g.udf_tables.contains_key(udf) && g.udf_tables[udf] == name;
    EgView {
        functions: g.functions.remove(name),
        order: if g.functions.contains_key(name) {
            g.order.remove(g.order.index_of(name))
        } else {
            g.order
        },
        ufs: if own_uf {
            g.ufs.drop_last()
        } else {
            g.ufs
        },
        pnames: if own_uf {
            g.pnames.remove(name)
        } else {
            g.pnames
        },
        udf_tables: if own_udf {
            g.udf_tables.remove(udf)
        } else {
            g.udf_tables
        },
        udf_order: if own_udf {
            g.udf_order.remove(g.udf_order.index_of(udf))
        } else {
            g.udf_order
        },
        ..g
    }
}

/// Whether nothing is known under a name.
pub open spec fn is_unknown(g: EgView, name: Seq<char>) -> bool {
    &&& !g.functions.contains_key(name)
    &&& !g.order.contains(name)
    &&& !g.pnames.contains_key(name)
    &&& !g.udf_tables.contains_key(find_udf(name))
    &&& !g.udf_order.contains(find_udf(name))
    &&& forall|i: int| 0 <= i < g.ufs.len() ==> (#[trigger] g.ufs[i]).name@ != name
}

proof fn lemma_pushed_out(s: Seq<Seq<char>>, name: Seq<char>)
    requires
        !s.contains(name),
    ensures
        s.push(name).remove(s.push(name).index_of(name)) == s,
{
    let t = s.push(name);
    let i = t.index_of(name);
    assert(t[s.len() as int] == name);
    assert(t.contains(name));
    assert(0 <= i < t.len() && t[i] == name);
    if i < s.len() {
        assert(s[i] == name);
        assert(s.contains(name));
    }
    assert(t.remove(i) =~= s);
}

/// Taking a declaration back leaves the e-graph as it was before it.
pub proof fn undeclaring_undoes_declaring(g: EgView, name: Seq<char>, info: InfoView, g2: EgView)
    requires
        is_unknown(g, name),
        has_declared(g, name, info, g2) || has_registered_uf(g, name, g2),
    ensures
        undeclared(g2, name) == g,
{
    lemma_pushed_out(g.order, name);
    lemma_pushed_out(g.udf_order, find_udf(name));
    let back = undeclared(g2, name);
    assert(back.functions =~= g.functions);
    assert(back.ufs =~= g.ufs);
    assert(back.pnames =~= g.pnames);
    assert(back.udf_tables =~= g.udf_tables);
    assert(back =~= g);
}

/// The same columns again.
fn copy_cols(cols: &Vec<ColumnTy>) -> (r: Vec<ColumnTy>)
    ensures
        r@ == cols@,
{
    let mut r: Vec<ColumnTy> = Vec::new();
    let n: usize = cols.len();
    for i in 0..n
        invariant
            n == cols@.len(),
            r@ == cols@.take(i as int),
    {
        r.push(cols[i]);
        assert(cols@.take(i + 1) =~= cols@.take(i as int).push(cols@[i as int]));
    }
    assert(cols@.take(n as int) =~= cols@);
    r
}

impl EGraph {
    /// Declares a table.
    fn declare(&mut self, name: &str, info: FunctionInfo) -> (r: Result<Declared, DeclareError>)
        requires
            old(self).wf(),
        ensures
            final(self).wf(),
            declared_view(r) == declaration(old(self)@, name@, info@),
            r is Ok ==> has_declared(old(self)@, name@, info@, final(self)@),
            r is Err ==> final(self)@ == old(self)@,
    {
        if self.functions.contains(name) {
            return Err(DeclareError::AlreadyRegistered);
        }
        let sql = create_table_sql(name, &info);
        let min = match &info.merge {
            Some(MergeMode::Min) => true,
            _ => false,
        };
        proof {
            self.functions.facts();
            lemma_info_insert(self.functions@, name@, info);
        }
        if self.native_uf_enabled && min {
            if !ends_with(name, "f") {
                return Err(DeclareError::NoParentName);
            }
            let cs = chars_of(name);
            proof {
                reveal_strlit("f");
            }
            let parent = string_of(&slice_chars(&cs, 0, cs.len() - 1));
            assert(parent@ =~= name@.drop_last());
            if !self.functions.contains(parent.as_str()) {
                return Err(DeclareError::NoParent);
            }
            let udf = find_udf_name(name);
            let uf = NativeUf { name: name.to_owned(), table: UfTable::new(), last_sync: -1 };
            self.native_ufs.push(uf);
            proof {
                lemma_name_insert(self.native_uf_pname@, name@, parent);
            }
            self.native_uf_pname.insert(name.to_owned(), parent);
            let mut info = info;
            info.native_uf_udf = Some(udf.clone());
            proof {
                lemma_info_insert(self.functions@, name@, info);
                assert(info@ =~= (InfoView {
                    native_uf_udf: Some(find_udf(name@)),
                    ..info@
                }));
            }
            self.functions.insert(name.to_owned(), info);
            return Ok(Declared { sql, udf: Some(udf) });
        }
        self.functions.insert(name.to_owned(), info);
        Ok(Declared { sql, udf: None })
    }
}

/// A relation: every column is an input.
pub open spec fn relation_info(cols: Seq<ColumnTy>, pname: Option<Seq<char>>) -> InfoView {
    InfoView {
        cols,
        inputs_len: cols.len(),
        merge: None,
        eq_sort_ctor: false,
        native_uf_udf: None,
        eq_sort_pname: pname,
        identity_on_miss: false,
        merge_tree: None,
        native_congruence_uf: None,
    }
}

/// A function: the last column is its output.
pub open spec fn function_info(
    inputs: Seq<ColumnTy>,
    output: ColumnTy,
    merge: MergeModeView,
    tree: Option<MergeFn>,
) -> InfoView {
    InfoView {
        cols: inputs.push(output),
        inputs_len: inputs.len(),
        merge: Some(merge),
        eq_sort_ctor: false,
        native_uf_udf: None,
        eq_sort_pname: None,
        identity_on_miss: false,
        merge_tree: tree,
        native_congruence_uf: None,
    }
}

/// A constructor: the last column is the id of the term.
pub open spec fn constructor_info(inputs: Seq<ColumnTy>, pname: Option<Seq<char>>) -> InfoView {
    InfoView {
        cols: inputs.push(ColumnTy::I64),
        inputs_len: inputs.len(),
        merge: None,
        eq_sort_ctor: true,
        native_uf_udf: None,
        eq_sort_pname: pname,
        identity_on_miss: false,
        merge_tree: None,
        native_congruence_uf: None,
    }
}

/// The table that takes unions, where it is registered.
pub open spec fn known_parent(g: EgView, pname: Option<&str>) -> Option<Seq<char>> {
    match pname {
        Some(p) => if g.functions.contains_key(p@) {
            Some(p@)
        } else {
            None
        },
        None => None,
    }
}

/// The e-graph once a function with a union-find of its own is registered.
pub open spec fn has_registered_uf(g: EgView, name: Seq<char>, g2: EgView) -> bool {
    let info = relation_info(seq![ColumnTy::I64, ColumnTy::I64], None);
    &&& g2.ufs.len() == g.ufs.len() + 1
    &&& fresh_uf(g2.ufs.last(), name)
    &&& g2 == (EgView {
        functions: g.functions.insert(
            name,
            InfoView { native_uf_udf: Some(find_udf(name)), ..info },
        ),
        order: g.order.push(name),
        ufs: g.ufs.push(g2.ufs.last()),
        pnames: g.pnames.insert(name, name),
        udf_tables: g.udf_tables.insert(find_udf(name), name),
        udf_order: if g.udf_tables.contains_key(find_udf(name)) {
            g.udf_order
        } else {
            g.udf_order.push(find_udf(name))
        },
        ..g
    })
}

impl EGraph {
    /// The parent table, where it is registered.
    fn resolve_parent(&self, pname: Option<&str>) -> (r: Option<String>)
        requires
            self.wf(),
        ensures
            opt_text(r) == known_parent(self@, pname),
    {
        match pname {
            Some(p) => if self.functions.contains(p) {
                Some(p.to_owned())
            } else {
                None
            },
            None => None,
        }
    }

    /// Registers a relation.
    pub fn add_relation(&mut self, name: &str, inputs: &Vec<ColumnTy>) -> (r: Result<
        Declared,
        DeclareError,
    >)
        requires
            old(self).wf(),
        ensures
            final(self).wf(),
            declared_view(r) == declaration(old(self)@, name@, relation_info(inputs@, None)),
            r is Ok ==> has_declared(
                old(self)@,
                name@,
                relation_info(inputs@, None),
                final(self)@,
            ),
            r is Err ==> final(self)@ == old(self)@,
    {
        self.add_relation_with_pname(name, inputs, None)
    }

    /// Registers a relation whose rows with equal inputs are united in a table of unions, where
    /// that table is registered.
    pub fn add_relation_with_pname(
        &mut self,
        name: &str,
        inputs: &Vec<ColumnTy>,
        pname: Option<&str>,
    ) -> (r: Result<Declared, DeclareError>)
        requires
            old(self).wf(),
        ensures
            final(self).wf(),
            declared_view(r) == declaration(
                old(self)@,
                name@,
                relation_info(inputs@, known_parent(old(self)@, pname)),
            ),
            r is Ok ==> has_declared(
                old(self)@,
                name@,
                relation_info(inputs@, known_parent(old(self)@, pname)),
                final(self)@,
            ),
            r is Err ==> final(self)@ == old(self)@,
    {
        let parent = self.resolve_parent(pname);
        let info = FunctionInfo::relation(copy_cols(inputs), parent);
        self.declare(name, info)
    }

    /// Registers a function with an output and a merge mode.
    pub fn add_function(
        &mut self,
        name: &str,
        inputs: &Vec<ColumnTy>,
        output: ColumnTy,
        merge: MergeMode,
    ) -> (r: Result<Declared, DeclareError>)
        requires
            old(self).wf(),
            inputs@.len() < usize::MAX,
        ensures
            final(self).wf(),
            declared_view(r) == declaration(
                old(self)@,
                name@,
                function_info(inputs@, output, merge@, None),
            ),
            r is Ok ==> has_declared(
                old(self)@,
                name@,
                function_info(inputs@, output, merge@, None),
                final(self)@,
            ),
            r is Err ==> final(self)@ == old(self)@,
    {
        let mut cols = copy_cols(inputs);
        cols.push(output);
        let info = FunctionInfo {
            cols,
            inputs_len: inputs.len(),
            merge: Some(merge),
            eq_sort_ctor: false,
            native_uf_udf: None,
            eq_sort_pname: None,
            identity_on_miss: false,
            merge_tree: None,
            native_congruence_uf: None,
        };
        self.declare(name, info)
    }

    /// Registers a view whose merge builds terms. Rows with equal inputs stand side by side until
    /// the merge is run between two iterations.
    pub fn add_term_build_view_function(
        &mut self,
        name: &str,
        inputs: &Vec<ColumnTy>,
        output: ColumnTy,
        tree: MergeFn,
    ) -> (r: Result<Declared, DeclareError>)
        requires
            old(self).wf(),
            inputs@.len() < usize::MAX,
        ensures
            final(self).wf(),
            declared_view(r) == declaration(
                old(self)@,
                name@,
                function_info(inputs@, output, MergeModeView::Old, Some(tree)),
            ),
            r is Ok ==> has_declared(
                old(self)@,
                name@,
                function_info(inputs@, output, MergeModeView::Old, Some(tree)),
                final(self)@,
            ),
            r is Err ==> final(self)@ == old(self)@,
    {
        let mut cols = copy_cols(inputs);
        cols.push(output);
        let info = FunctionInfo {
            cols,
            inputs_len: inputs.len(),
            merge: Some(MergeMode::Old),
            eq_sort_ctor: false,
            native_uf_udf: None,
            eq_sort_pname: None,
            identity_on_miss: false,
            merge_tree: Some(tree),
            native_congruence_uf: None,
        };
        self.declare(name, info)
    }

    /// Registers a constructor. Its key covers the id, so terms with equal inputs stand side by
    /// side until they are united.
    pub fn add_eq_sort_constructor(
        &mut self,
        name: &str,
        inputs: &Vec<ColumnTy>,
        pname: Option<&str>,
    ) -> (r: Result<Declared, DeclareError>)
        requires
            old(self).wf(),
            inputs@.len() < usize::MAX,
        ensures
            final(self).wf(),
            declared_view(r) == declaration(
                old(self)@,
                name@,
                constructor_info(inputs@, known_parent(old(self)@, pname)),
            ),
            r is Ok ==> has_declared(
                old(self)@,
                name@,
                constructor_info(inputs@, known_parent(old(self)@, pname)),
                final(self)@,
            ),
            r is Err ==> final(self)@ == old(self)@,
    {
        let parent = self.resolve_parent(pname);
        let mut cols = copy_cols(inputs);
        cols.push(ColumnTy::I64);
        let info = FunctionInfo {
            cols,
            inputs_len: inputs.len(),
            merge: None,
            eq_sort_ctor: true,
            native_uf_udf: None,
            eq_sort_pname: parent,
            identity_on_miss: false,
            merge_tree: None,
            native_congruence_uf: None,
        };
        self.declare(name, info)
    }

    /// Registers a function that is a union-find of its own: a table of unions that only grows,
    /// and a find function over it.
    pub fn register_native_uf_function(&mut self, name: &str) -> (r: Result<Declared, DeclareError>)
        requires
            old(self).wf(),
        ensures
            final(self).wf(),
            declared_view(r) == if old(self)@.functions.contains_key(name@) {
                Err::<_, DeclareError>(DeclareError::AlreadyRegistered)
            } else {
                Ok(
                    (
                        create_table(
                            name@,
                            relation_info(seq![ColumnTy::I64, ColumnTy::I64], None),
                        ),
                        Some(find_udf(name@)),
                    ),
                )
            },
            r is Ok ==> has_registered_uf(old(self)@, name@, final(self)@),
            r is Err ==> final(self)@ == old(self)@,
    {
        if self.functions.contains(name) {
            return Err(DeclareError::AlreadyRegistered);
        }
        let mut cols: Vec<ColumnTy> = Vec::new();
        cols.push(ColumnTy::I64);
        cols.push(ColumnTy::I64);
        assert(cols@ =~= seq![ColumnTy::I64, ColumnTy::I64]);
        let mut info = FunctionInfo::relation(cols, None);
        let sql = create_table_sql(name, &info);
        let udf = find_udf_name(name);
        info.native_uf_udf = Some(udf.clone());
        proof {
            self.functions.facts();
            self.native_uf_udf_to_table.facts();
            lemma_info_insert(self.functions@, name@, info);
        }
        self.functions.insert(name.to_owned(), info);
        let uf = NativeUf { name: name.to_owned(), table: UfTable::new(), last_sync: -1 };
        self.native_ufs.push(uf);
        let owned = name.to_owned();
        proof {
            lemma_name_insert(self.native_uf_udf_to_table@, udf@, owned);
            lemma_name_insert(self.native_uf_pname@, name@, owned);
        }
        self.native_uf_udf_to_table.insert(udf.clone(), owned.clone());
        self.native_uf_pname.insert(name.to_owned(), owned);
        Ok(Declared { sql, udf: Some(udf) })
    }

    /// Takes the declaration of a table back, where its statement could not be run.
    pub fn undeclare(&mut self, name: &str)
        requires
            old(self).wf(),
        ensures
            final(self).wf(),
            final(self)@ == undeclared(old(self)@, name@),
    {
        let ghost g = self@;
        let udf = find_udf_name(name);
        let own_udf = match self.native_uf_udf_to_table.get(udf.as_str()) {
            Some(t) => str_eq(t.as_str(), name),
            None => false,
        };
        proof {
            self.functions.facts();
            self.native_uf_udf_to_table.facts();
            lemma_info_remove(self.functions@, name@);
            lemma_name_remove(self.native_uf_pname@, name@);
            lemma_name_remove(self.native_uf_udf_to_table@, udf@);
        }
        self.functions.remove(name);
        if own_udf {
            self.native_uf_udf_to_table.remove(udf.as_str());
        }
        let n: usize = self.native_ufs.len();
        if n > 0 && str_eq(self.native_ufs[n - 1].name.as_str(), name) {
            self.native_ufs.pop();
            self.native_uf_pname.remove(name);
        }
        assert(self@ =~= undeclared(g, name@));
    }

    /// Whether a function is a union-find.
    pub fn is_native_uf_function(&self, name: &str) -> (b: bool)
        ensures
            b == exists|i: int| 0 <= i < self@.ufs.len() && (#[trigger] self@.ufs[i]).name@ == name@,
    {
        let n: usize = self.native_ufs.len();
        for i in 0..n
            invariant
                n == self.native_ufs@.len(),
                forall|k: int| 0 <= k < i ==> (#[trigger] self.native_ufs@[k]).name@ != name@,
        {
            if str_eq(self.native_ufs[i].name.as_str(), name) {
                assert(self@.ufs[i as int].name@ == name@);
                return true;
            }
        }
        false
    }

    /// How many union-finds there are.
    pub fn native_uf_table_count(&self) -> (n: usize)
        ensures
            n == self@.ufs.len(),
    {
        self.native_ufs.len()
    }

    /// How many unions the union-finds have taken.
    pub fn native_uf_unions_synced(&self) -> (n: u64)
        ensures
            n == self@.unions_synced,
    {
        self.native_uf_unions_synced
    }

    /// How many times a rule had nothing to do.
    pub fn rules_skipped(&self) -> (n: u64)
        ensures
            n == self@.progress.skipped,
    {
        self.progress.rules_skipped
    }

    /// How many rows all the actions have affected.
    pub fn rules_affected_total(&self) -> (n: u64)
        ensures
            n == self@.progress.affected,
    {
        self.progress.rules_affected
    }

    /// Nanoseconds spent materializing, acting on materialized matches, and acting directly.
    pub fn perf_timings_ns(&self) -> (t: (u64, u64, u64))
        ensures
            t == self@.progress.times,
    {
        (self.progress.time_mat_ns, self.progress.time_mat_act_ns, self.progress.time_act_ns)
    }

    /// The number of columns of a table.
    pub fn function_arity(&self, name: &str) -> (r: Option<usize>)
        requires
            self.wf(),
        ensures
            r is Some <==> self@.functions.contains_key(name@),
            r is Some ==> r->0 == self@.functions[name@].cols.len(),
    {
        match self.functions.get(name) {
            Some(info) => Some(info.arity()),
            None => None,
        }
    }

    /// The type of columns that hold a pair.
    pub fn pair_column_ty(&mut self) -> (t: backend::ColumnTy)
        requires
            old(self).wf(),
            old(self).pool.has_room(),
        ensures
            final(self).wf(),
            final(self)@ == (EgView {
                pool: PoolState {
                    types: interned(old(self)@.pool.types, BaseTy::Pair),
                    ..old(self)@.pool
                },
                ..old(self)@
            }),
            t matches backend::ColumnTy::Base(id) && id.rep == handle_of(
                old(self)@.pool.types,
                BaseTy::Pair,
            ),
    {
        backend::ColumnTy::Base(self.pool.register_type(BaseTy::Pair))
    }

    /// The name of a primitive.
    pub fn external_func_name(&self, id: ExternalFunctionId) -> (n: Option<&str>)
        requires
            self.wf(),
        ensures
            n is Some <==> self.external_funcs.name_of(id) is Some,
            n matches Some(s) ==> self.external_funcs.name_of(id) == Some(s@),
    {
        self.external_funcs.name(id)
    }

    /// The pool of interned values.
    pub fn base_value_pool_typed(&self) -> (p: &DuckdbBaseValuePool)
        ensures
            *p == self.pool,
    {
        &self.pool
    }

    /// Folds a primitive call on literals.
    pub fn fold_builtin_prim(&mut self, name: &str, args: &Vec<Term>) -> (r: Option<Term>)
        requires
            old(self).wf(),
            old(self).pool.has_room(),
            fold_ready(old(self).pool, name@, args@),
        ensures
            final(self).wf(),
            (final(self)@.pool, r) == folded(old(self)@.pool, name@, args@),
            final(self)@ == (EgView { pool: final(self)@.pool, ..old(self)@ }),
    {
        fold_prim(&mut self.pool, name, args)
    }
}

/// The find function that the canonicalizing primitive with this id stands for; the last one that
/// was bound to it.
pub open spec fn canon_udf(ids: Seq<(ExternalFunctionId, Seq<char>)>, id: ExternalFunctionId) -> Option<
    Seq<char>,
>
    decreases ids.len(),
{
    if ids.len() == 0 {
        None
    } else if ids.last().0 == id {
        Some(ids.last().1)
    } else {
        canon_udf(ids.drop_last(), id)
    }
}

/// The function that a primitive still needs.
pub open spec fn needed_udf(g: EgView, name: Seq<char>) -> Option<(Seq<char>, UdfKind)> {
    if g.registered.contains(name) {
        None
    } else {
        builtin_udf(name, g.pool.types)
    }
}

impl EGraph {
    /// Binds a canonicalizing primitive to a find function.
    pub fn bind_canon(&mut self, id: ExternalFunctionId, udf: String)
        requires
            old(self).wf(),
        ensures
            final(self).wf(),
            final(self)@ == (EgView {
                canon_ids: old(self)@.canon_ids.push((id, udf@)),
                ..old(self)@
            }),
    {
        self.native_uf_canon_ids.push((id, udf));
        assert(self@.canon_ids =~= old(self)@.canon_ids.push((id, udf@)));
    }

    /// Notes a change relation.
    pub fn add_change_relation(&mut self, name: &str)
        requires
            old(self).wf(),
        ensures
            final(self).wf(),
            final(self)@ == (EgView {
                changes: with_name(old(self)@.changes, name@),
                ..old(self)@
            }),
    {
        add_name(&mut self.native_uf_onchange, name);
    }

    /// Notes the name of the next function.
    pub fn add_function_name(&mut self, name: String)
        requires
            old(self).wf(),
        ensures
            final(self).wf(),
            final(self)@ == (EgView { names: old(self)@.names.push(name@), ..old(self)@ }),
    {
        self.function_names.push(name);
        assert(self@.names =~= old(self)@.names.push(name@));
    }

    /// The find function that a primitive stands for.
    fn canon_of(&self, id: ExternalFunctionId) -> (r: Option<String>)
        ensures
            opt_text(r) == canon_udf(self@.canon_ids, id),
    {
        let mut i: usize = self.native_uf_canon_ids.len();
        let ghost ids = self@.canon_ids;
        assert(ids.take(i as int) =~= ids);
        while i > 0
            invariant
                i <= self.native_uf_canon_ids@.len(),
                ids == self@.canon_ids,
                canon_udf(ids, id) == canon_udf(ids.take(i as int), id),
            decreases i,
        {
            assert(ids.take(i as int).drop_last() =~= ids.take(i - 1));
            assert(ids.take(i as int).last() == ids[i - 1]);
            if self.native_uf_canon_ids[i - 1].0 == id {
                return Some(self.native_uf_canon_ids[i - 1].1.clone());
            }
            i = i - 1;
        }
        None
    }

    /// The function that a builtin primitive needs and that is not registered yet.
    pub fn register_builtin_prim_udf(&self, name: &str) -> (r: Option<(String, UdfKind)>)
        requires
            self.wf(),
        ensures
            udf_view(r) == needed_udf(self@, name@),
    {
        if holds_name(&self.registered_builtin_udfs, name) {
            return None;
        }
        plan_builtin_udf(name, &self.pool)
    }

    /// Notes that a primitive's function is registered.
    pub fn builtin_udf_registered(&mut self, name: &str)
        requires
            old(self).wf(),
        ensures
            final(self).wf(),
            final(self)@ == (EgView {
                registered: with_name(old(self)@.registered, name@),
                ..old(self)@
            }),
    {
        add_name(&mut self.registered_builtin_udfs, name);
    }

    /// Names a primitive, and gives the function that it needs and that is not registered yet. A
    /// canonicalizing primitive is from then on known by its name. An id that was never handed out
    /// is ignored.
    pub fn set_external_func_name(&mut self, id: ExternalFunctionId, name: String) -> (r: Option<
        (String, UdfKind),
    >)
        requires
            old(self).wf(),
        ensures
            final(self).wf(),
            udf_view(r) == (if id.rep < old(self)@.prims.len() {
                needed_udf(old(self)@, name@)
            } else {
                None
            }),
            final(self)@ == (if id.rep < old(self)@.prims.len() {
                EgView {
                    prims: old(self)@.prims.update(id.rep as int, Some(name@)),
                    canon: match canon_udf(old(self)@.canon_ids, id) {
                        Some(udf) => old(self)@.canon.insert(name@, udf),
                        None => old(self)@.canon,
                    },
                    ..old(self)@
                }
            } else {
                old(self)@
            }),
    {
        if !self.external_funcs.is_known(id) {
            return None;
        }
        self.external_funcs.set_name(id, name.clone());
        match self.canon_of(id) {
            Some(udf) => {
                proof {
                    lemma_name_insert(self.native_uf_canon_prim_udf@, name@, udf);
                }
                self.native_uf_canon_prim_udf.insert(name.clone(), udf);
            },
            None => {},
        }
        self.register_builtin_prim_udf(name.as_str())
    }
}

/// A rule that is ready to be compiled.
#[derive(Debug)]
pub struct PreparedRule {
    /// The rule, in native form where the in-core union-find is on.
    pub rule: Rule,
    /// The union tables whose news make the rule scan all rows again.
    pub gate_tables: Vec<String>,
    /// Whether a relational rebuild rule only looks at changed leaders.
    pub delta_rebuild: bool,
    /// Whether a native rebuild rule passes over new view rows.
    pub drop_delta_view: bool,
    /// Whether constructors look up terms by themselves.
    pub proofs: bool,
}

/// Whether a rule is left out: the in-core union-find does its work.
pub open spec fn rule_dropped(g: EgView, r: RuleView) -> bool {
    g.native_uf && (uf_maintenance(r.ruleset) || family(r.name) == "uf_change_drain_rule"@)
}

/// The change relations of an e-graph.
pub open spec fn change_set(g: EgView) -> Set<Seq<char>> {
    Set::new(|k: Seq<char>| g.changes.contains(k))
}

/// A rule as it is compiled.
pub open spec fn prepared_rule(g: EgView, r: RuleView) -> RuleView {
    if g.native_uf {
        native_form(r, change_set(g), g.canon)
    } else {
        r
    }
}

/// The union tables whose news make a rule scan all rows again.
pub open spec fn prepared_gates(g: EgView, r: RuleView) -> Seq<Seq<char>> {
    if g.native_uf && family(r.name) == "rebuild_rule"@ {
        gate_tables(prepared_rule(g, r), g.udf_order, g.udf_tables)
    } else {
        Seq::empty()
    }
}

/// The table whose news a body atom of `name` waits for: that of the unions, where the function is
/// a union-find.
pub open spec fn effective_table(g: EgView, name: Seq<char>) -> Seq<char> {
    if g.functions.contains_key(name) && g.functions[name].native_uf_udf is Some
        && g.pnames.contains_key(name) {
        g.pnames[name]
    } else {
        name
    }
}

/// The tables whose news a body waits for, each once.
pub open spec fn tables_of_body(g: EgView, body: Seq<AtomView>) -> Seq<Seq<char>>
    decreases body.len(),
{
    if body.len() == 0 {
        Seq::empty()
    } else {
        let front = tables_of_body(g, body.drop_last());
        match body.last() {
            AtomView::Func(name, args) => with_name(front, effective_table(g, name)),
            _ => front,
        }
    }
}

/// A list with names added at its end, each unless it stands there already.
pub open spec fn with_names(names: Seq<Seq<char>>, more: Seq<Seq<char>>) -> Seq<Seq<char>>
    decreases more.len(),
{
    if more.len() == 0 {
        names
    } else {
        with_name(with_names(names, more.drop_last()), more.last())
    }
}

/// The e-graph once a compiled rule is added.
pub open spec fn has_added(
    g: EgView,
    p: PreparedRule,
    variants: Vec<CompiledVariant>,
    g2: EgView,
) -> bool {
    &&& g2.rules.len() == g.rules.len() + 1
    &&& ({
        let c = g2.rules.last();
        &&& c.name@ == p.rule@.name
        &&& c.ruleset@ == p.rule@.ruleset
        &&& c.variants == variants
        &&& texts(c.body_tables@) == with_names(
            tables_of_body(g, p.rule@.body),
            texts(p.gate_tables@),
        )
    })
    &&& g2 == (EgView {
        rules: g.rules.push(g2.rules.last()),
        last_run_at: g.last_run_at.insert(p.rule@.name, 0),
        rulesets: g.rulesets.insert(p.rule@.name, p.rule@.ruleset),
        ..g
    })
}

impl EGraph {
    /// Makes a rule ready to be compiled; nothing, where the rule is left out.
    pub fn prepare_rule(&self, rule: Rule) -> (r: Option<PreparedRule>)
        requires
            self.wf(),
        ensures
            r is None <==> rule_dropped(self@, rule@),
            r matches Some(p) ==> {
                &&& p.rule@ == prepared_rule(self@, rule@)
                &&& texts(p.gate_tables@) == prepared_gates(self@, rule@)
                &&& p.delta_rebuild == (self@.fast_rebuild && !self@.native_uf)
                &&& p.drop_delta_view == (self@.fast_rebuild && self@.native_uf)
                &&& p.proofs == self@.proofs
            },
    {
        if self.native_uf_enabled && is_uf_maintenance_ruleset(rule.ruleset.as_str()) {
            return None;
        }
        if self.native_uf_enabled && is_uf_change_drain_rule_name(rule.name.as_str()) {
            return None;
        }
        assert(name_set(self.native_uf_onchange@) =~= change_set(self@));
        let ready = if self.native_uf_enabled {
            rewrite_native_uf_rule(
                &rule,
                &self.native_uf_onchange,
                &self.native_uf_canon_prim_udf,
            )
        } else {
            rule
        };
        let gates = if self.native_uf_enabled && is_rebuild_rule_name(ready.name.as_str()) {
            native_uf_rule_gate_tables(&ready, &self.native_uf_udf_to_table)
        } else {
            let none: Vec<String> = Vec::new();
            assert(texts(none@) =~= Seq::empty());
            none
        };
        Some(
            PreparedRule {
                rule: ready,
                gate_tables: gates,
                delta_rebuild: self.fast_rebuild && !self.native_uf_enabled,
                drop_delta_view: self.native_uf_enabled && self.fast_rebuild,
                proofs: self.proofs_enabled,
            },
        )
    }

    /// The table whose news a body atom waits for.
    fn effective_name(&self, name: &String) -> (r: String)
        requires
            self.wf(),
        ensures
            r@ == effective_table(self@, name@),
    {
        match self.functions.get(name.as_str()) {
            Some(info) => {
                assert(self@.functions[name@] == info@);
                if info.native_uf_udf.is_some() {
                    match self.native_uf_pname.get(name.as_str()) {
                        Some(p) => p.clone(),
                        None => name.clone(),
                    }
                } else {
                    name.clone()
                }
            },
            None => name.clone(),
        }
    }

    /// The tables whose news a body waits for.
    fn body_tables(&self, body: &Vec<Atom>) -> (r: Vec<String>)
        requires
            self.wf(),
        ensures
            texts(r@) == tables_of_body(self@, crate::duckdb::rules::atom_views(body@)),
    {
        let mut r: Vec<String> = Vec::new();
        let n: usize = body.len();
        let ghost views = crate::duckdb::rules::atom_views(body@);
        assert(texts(r@) =~= Seq::empty());
        for i in 0..n
            invariant
                n == body@.len(),
                self.wf(),
                views == crate::duckdb::rules::atom_views(body@),
                texts(r@) == tables_of_body(self@, views.take(i as int)),
        {
            assert(views.take(i + 1).drop_last() =~= views.take(i as int));
            assert(views.take(i + 1).last() == views[i as int]);
            match &body[i] {
                Atom::Func { name, args: _ } => {
                    let t = self.effective_name(name);
                    add_name(&mut r, t.as_str());
                },
                _ => {},
            }
        }
        assert(views.take(n as int) =~= views);
        r
    }

    /// Adds a rule with its compiled variants. It runs when one of the tables that its body reads,
    /// or one of its gate tables, has had a row.
    pub fn add_rule(&mut self, prepared: PreparedRule, variants: Vec<CompiledVariant>)
        requires
            old(self).wf(),
        ensures
            final(self).wf(),
            has_added(old(self)@, prepared, variants, final(self)@),
    {
        let mut tables = self.body_tables(&prepared.rule.body);
        let n: usize = prepared.gate_tables.len();
        let ghost gates = texts(prepared.gate_tables@);
        let ghost front = texts(tables@);
        for i in 0..n
            invariant
                n == prepared.gate_tables@.len(),
                gates == texts(prepared.gate_tables@),
                texts(tables@) == with_names(front, gates.take(i as int)),
        {
            assert(gates.take(i + 1).drop_last() =~= gates.take(i as int));
            assert(gates.take(i + 1).last() == gates[i as int]);
            add_name(&mut tables, prepared.gate_tables[i].as_str());
        }
        assert(gates.take(n as int) =~= gates);
        let name = prepared.rule.name.clone();
        let ruleset = prepared.rule.ruleset.clone();
        self.last_run_at.insert(name.clone(), 0);
        proof {
            lemma_name_insert(self.rule_to_ruleset@, name@, ruleset);
        }
        self.rule_to_ruleset.insert(name.clone(), ruleset.clone());
        self.rules.push(CompiledRule { name, ruleset, variants, body_tables: tables });
    }
}

/// Why a table cannot be read or written as asked.
#[derive(Clone, Copy, Debug, PartialEq, Eq, Structural)]
pub enum TableError {
    /// There is no such function.
    Unknown,
    /// The wrong number of values: how many there are, and how many there should be.
    Arity(usize, usize),
    /// The wrong number of values, where the inputs or all the columns may be given.
    EitherArity(usize, usize, usize),
    /// The function is no constructor.
    NotConstructor,
    /// The function has no output.
    IsRelation,
    /// The output is no integer.
    OutputNotI64,
}

/// A statement, or why there is none.
pub open spec fn statement(r: Result<String, TableError>) -> Result<Seq<char>, TableError> {
    match r {
        Ok(s) => Ok(s@),
        Err(e) => Err(e),
    }
}

/// The insert of a row, or why there is none.
pub open spec fn insert_statement(
    g: EgView,
    name: Seq<char>,
    args: Seq<Seq<char>>,
    select: bool,
) -> Result<Seq<char>, TableError> {
    if !g.functions.contains_key(name) {
        Err(TableError::Unknown)
    } else {
        let info = g.functions[name];
        if args.len() != info.cols.len() {
            Err(TableError::Arity(args.len() as usize, info.cols.len() as usize))
        } else if select {
            Ok(insert_select(name, info, args, g.next_ts as int))
        } else {
            Ok(insert_values(name, info, args, g.next_ts as int))
        }
    }
}

/// The query for a match, or why there is none.
pub open spec fn exists_statement(g: EgView, name: Seq<char>, n: nat) -> Result<
    Seq<char>,
    TableError,
> {
    if !g.functions.contains_key(name) {
        Err(TableError::Unknown)
    } else {
        let info = g.functions[name];
        if n != info.cols.len() && n != info.inputs_len {
            Err(
                TableError::EitherArity(
                    n as usize,
                    info.inputs_len as usize,
                    info.cols.len() as usize,
                ),
            )
        } else {
            Ok(count_where(name, parameters(n)))
        }
    }
}

/// The query for an output, or why there is none.
pub open spec fn lookup_statement(g: EgView, name: Seq<char>, n: nat) -> Result<
    Seq<char>,
    TableError,
> {
    if !g.functions.contains_key(name) {
        Err(TableError::Unknown)
    } else {
        let info = g.functions[name];
        if info.merge is None {
            Err(TableError::IsRelation)
        } else if n != info.inputs_len {
            Err(TableError::Arity(n as usize, info.inputs_len as usize))
        } else if info.inputs_len >= info.cols.len() || info.cols[info.inputs_len as int]
            != ColumnTy::I64 {
            Err(TableError::OutputNotI64)
        } else {
            Ok(lookup_output(name, n))
        }
    }
}

/// The request for a fresh id, or why there is none.
pub open spec fn allocate_statement(g: EgView, name: Seq<char>, n: nat) -> Result<
    Seq<char>,
    TableError,
> {
    if !g.functions.contains_key(name) {
        Err(TableError::Unknown)
    } else if n != g.functions[name].inputs_len {
        Err(TableError::Arity(n as usize, g.functions[name].inputs_len as usize))
    } else if !g.functions[name].eq_sort_ctor {
        Err(TableError::NotConstructor)
    } else {
        Ok("SELECT nextval('__egglog_eqsort_seq')"@)
    }
}

/// The insert of a constructor's row, the inputs and the id that was drawn for them; or why there
/// is none.
pub open spec fn allocated_statement(
    g: EgView,
    name: Seq<char>,
    inputs: Seq<Seq<char>>,
    id: int,
) -> Result<Seq<char>, TableError> {
    match allocate_statement(g, name, inputs.len()) {
        Err(e) => Err(e),
        Ok(_) => insert_statement(g, name, inputs.push(signed_decimal(id)), false),
    }
}

/// The tables whose sizes are asked for: those with a name that is not generated.
pub open spec fn public_tables(order: Seq<Seq<char>>) -> Seq<Seq<char>>
    decreases order.len(),
{
    if order.len() == 0 {
        Seq::empty()
    } else if begins_with(order.last(), "@"@) {
        public_tables(order.drop_last())
    } else {
        public_tables(order.drop_last()).push(order.last())
    }
}

/// The sum of all the sizes in the given order.
pub open spec fn size_sum(m: Map<Seq<char>, i64>, order: Seq<Seq<char>>) -> int
    decreases order.len(),
{
    if order.len() == 0 {
        0
    } else {
        size_sum(m, order.drop_last()) + m[order.last()]
    }
}

/// The sizes by name, in the order in which they are given.
pub open spec fn sizes_of(names: Seq<Seq<char>>, counts: Seq<i64>) -> Map<Seq<char>, i64>
    decreases names.len(),
{
    if names.len() == 0 {
        Map::empty()
    } else {
        sizes_of(names.drop_last(), counts).insert(names.last(), counts[names.len() - 1])
    }
}

impl EGraph {
    /// The statement that inserts a row of rendered literals at the current time.
    pub fn insert(&self, name: &str, arg_sqls: &Vec<String>) -> (r: Result<String, TableError>)
        requires
            self.wf(),
        ensures
            statement(r) == insert_statement(self@, name@, texts(arg_sqls@), false),
    {
        match self.functions.get(name) {
            None => Err(TableError::Unknown),
            Some(info) => {
                assert(self@.functions[name@] == info@);
                if arg_sqls.len() != info.arity() {
                    return Err(TableError::Arity(arg_sqls.len(), info.arity()));
                }
                Ok(insert_values_sql(name, info, arg_sqls, self.next_ts))
            },
        }
    }

    /// The statement that inserts a row of rendered terms at the current time.
    pub fn insert_terms(&self, name: &str, arg_sqls: &Vec<String>) -> (r: Result<
        String,
        TableError,
    >)
        requires
            self.wf(),
        ensures
            statement(r) == insert_statement(self@, name@, texts(arg_sqls@), true),
    {
        match self.functions.get(name) {
            None => Err(TableError::Unknown),
            Some(info) => {
                assert(self@.functions[name@] == info@);
                if arg_sqls.len() != info.arity() {
                    return Err(TableError::Arity(arg_sqls.len(), info.arity()));
                }
                Ok(insert_select_sql(name, info, arg_sqls, self.next_ts))
            },
        }
    }

    /// Notes how many rows an insert has affected.
    pub fn inserted(&mut self, name: &str, n: usize)
        requires
            old(self).wf(),
        ensures
            final(self).wf(),
            final(self)@ == if n > 0 {
                EgView {
                    progress: ProgressView {
                        watermarks: bumped(
                            old(self)@.progress.watermarks,
                            name@,
                            old(self)@.next_ts,
                        ),
                        ..old(self)@.progress
                    },
                    ..old(self)@
                }
            } else {
                old(self)@
            },
    {
        if n > 0 {
            let ts: i64 = self.next_ts;
            self.progress.bump_watermark(name, ts);
        }
    }

    /// The request for a fresh id of a constructor. The row of the inputs and the id that the
    /// request gives is then written by [`Self::insert_allocated`].
    pub fn allocate_and_insert(&self, name: &str, n_inputs: usize) -> (r: Result<
        String,
        TableError,
    >)
        requires
            self.wf(),
        ensures
            statement(r) == allocate_statement(self@, name@, n_inputs as nat),
    {
        match self.functions.get(name) {
            None => Err(TableError::Unknown),
            Some(info) => {
                assert(self@.functions[name@] == info@);
                if n_inputs != info.inputs_len {
                    return Err(TableError::Arity(n_inputs, info.inputs_len));
                }
                if !info.eq_sort_ctor {
                    return Err(TableError::NotConstructor);
                }
                Ok("SELECT nextval('__egglog_eqsort_seq')".to_owned())
            },
        }
    }

    /// The statement that inserts the row of a constructor's rendered inputs and the fresh id that
    /// was drawn for them, at the current time. Rows with the same inputs and other ids stay.
    pub fn insert_allocated(&self, name: &str, input_sqls: Vec<String>, id: i64) -> (r: Result<
        String,
        TableError,
    >)
        requires
            self.wf(),
        ensures
            statement(r) == allocated_statement(self@, name@, texts(input_sqls@), id as int),
    {
        let ghost inputs = texts(input_sqls@);
        if let Err(e) = self.allocate_and_insert(name, input_sqls.len()) {
            return Err(e);
        }
        let mut row = input_sqls;
        row.push(decimal_i64(id));
        assert(texts(row@) =~= inputs.push(signed_decimal(id as int)));
        self.insert(name, &row)
    }

    /// The query for whether a row matches: its inputs, or all of its columns, are the statement's
    /// parameters.
    pub fn check_exists(&self, name: &str, n_args: usize) -> (r: Result<String, TableError>)
        requires
            self.wf(),
            n_args < usize::MAX,
        ensures
            statement(r) == exists_statement(self@, name@, n_args as nat),
    {
        match self.functions.get(name) {
            None => Err(TableError::Unknown),
            Some(info) => {
                assert(self@.functions[name@] == info@);
                if n_args != info.arity() && n_args != info.inputs_len {
                    return Err(TableError::EitherArity(n_args, info.inputs_len, info.arity()));
                }
                Ok(count_matching_sql(name, n_args))
            },
        }
    }

    /// The query for a function's output at the statement's parameters.
    pub fn lookup_i64(&self, name: &str, n_inputs: usize) -> (r: Result<String, TableError>)
        requires
            self.wf(),
            n_inputs < usize::MAX,
        ensures
            statement(r) == lookup_statement(self@, name@, n_inputs as nat),
    {
        match self.functions.get(name) {
            None => Err(TableError::Unknown),
            Some(info) => {
                assert(self@.functions[name@] == info@);
                if !info.has_output() {
                    return Err(TableError::IsRelation);
                }
                if n_inputs != info.inputs_len {
                    return Err(TableError::Arity(n_inputs, info.inputs_len));
                }
                if info.inputs_len >= info.cols.len() || info.cols[info.inputs_len]
                    != ColumnTy::I64 {
                    return Err(TableError::OutputNotI64);
                }
                Ok(lookup_output_sql(name, n_inputs))
            },
        }
    }

    /// The query for how many rows meet the given conditions.
    pub fn relation_exists_raw(&self, name: &str, where_parts: &Vec<String>) -> (s: String)
        ensures
            s@ == count_where(name@, texts(where_parts@)),
    {
        count_where_sql(name, where_parts)
    }

    /// The query for how many rows a table has.
    pub fn count(&self, name: &str) -> (s: String)
        ensures
            s@ == count_rows(name@),
    {
        count_rows_sql(name)
    }

    /// The tables whose sizes are asked for, and the query for them; none, where there is no such
    /// table.
    pub fn table_size_query(&self) -> (r: Option<(Vec<String>, String)>)
        requires
            self.wf(),
        ensures
            r is None <==> public_tables(self@.order).len() == 0,
            r matches Some(p) ==> (texts(p.0@) == public_tables(self@.order) && p.1@ == table_sizes(
                public_tables(self@.order),
            )),
    {
        let mut names: Vec<String> = Vec::new();
        let n: usize = self.functions.len();
        let ghost order = self.functions.order();
        assert(texts(names@) =~= Seq::empty());
        for i in 0..n
            invariant
                n == order.len(),
                self.wf(),
                order == self.functions.order(),
                texts(names@) == public_tables(order.take(i as int)),
        {
            assert(order.take(i + 1).drop_last() =~= order.take(i as int));
            assert(order.take(i + 1).last() == order[i as int]);
            let name = self.functions.name_at(i);
            if !starts_with(name.as_str(), "@") {
                let ghost before = texts(names@);
                names.push(name.clone());
                assert(texts(names@) =~= before.push(name@));
            }
        }
        assert(order.take(n as int) =~= order);
        if names.len() == 0 {
            return None;
        }
        let sql = table_sizes_sql(&names);
        Some((names, sql))
    }

    /// Takes the sizes of the tables.
    pub fn refresh_table_sizes(&mut self, names: &Vec<String>, counts: &Vec<i64>)
        requires
            old(self).wf(),
            names@.len() == counts@.len(),
        ensures
            final(self).wf(),
            final(self)@ == (EgView {
                sizes: sizes_of(texts(names@), counts@),
                ..old(self)@
            }),
    {
        let mut m: StrMap<i64> = StrMap::new();
        let n: usize = names.len();
        let ghost all = texts(names@);
        for i in 0..n
            invariant
                n == names@.len(),
                n == counts@.len(),
                all == texts(names@),
                m.wf(),
                m@ == sizes_of(all.take(i as int), counts@),
        {
            assert(all.take(i + 1).drop_last() =~= all.take(i as int));
            assert(all.take(i + 1).last() == all[i as int]);
            m.insert(names[i].clone(), counts[i]);
        }
        assert(all.take(n as int) =~= all);
        self.table_sizes = m;
    }

    /// The sum of the sizes of the tables when they were last asked for.
    pub fn get_size(&self) -> (total: i128)
        requires
            self.wf(),
        ensures
            total == size_sum(self@.sizes, self.table_sizes.order()),
    {
        let n: usize = self.table_sizes.len();
        let ghost order = self.table_sizes.order();
        let ghost m = self.table_sizes@;
        let mut total: i128 = 0;
        assert(order.take(0) =~= Seq::empty());
        for i in 0..n
            invariant
                n == order.len(),
                n <= 0xffff_ffff_ffff_ffff,
                self.wf(),
                m == self.table_sizes@,
                order == self.table_sizes.order(),
                total == size_sum(m, order.take(i as int)),
                -0x8000_0000_0000_0000 * i <= total <= 0x7fff_ffff_ffff_ffff * i,
        {
            assert(order.take(i + 1).drop_last() =~= order.take(i as int));
            assert(order.take(i + 1).last() == order[i as int]);
            total = total + *self.table_sizes.val_at(i) as i128;
        }
        assert(order.take(n as int) =~= order);
        total
    }
}

} // verus!
