//! Merges that build terms, compiled to SQL over a batch of conflicts.
//!
//! The batch `b` has a row for each conflict: the key columns `c0`, `c1`, …, the `old` output and
//! the `new` one. A merge becomes statements that mint its constructors for the whole batch, and
//! an expression for the merged output.
use crate::backend::{ExternalFunctionId, FunctionId, MergeFn};
use crate::duckdb::names::{q, quoted};
use crate::duckdb::schema::{FunctionInfo, InfoView};
use crate::duckdb::sql::{conflict, conflict_clause, numbered, numbered_texts};
use crate::duckdb::strmap::{add_name, with_name, StrMap};
use crate::feldera::external_func::ExternalFuncRegistry;
use crate::text::{decimal, decimal_i64, decimal_usize, join, joined, signed_decimal, texts};
use vstd::prelude::*;
use vstd::string::*;

verus! {

/// Why a merge cannot be compiled.
#[derive(Clone, Copy, Debug, PartialEq, Eq, Structural)]
pub enum BuildError {
    /// No function has this id.
    UnknownFunction(u32),
    /// The function's table is not registered.
    Unregistered(u32),
    /// There is no such key column.
    KeyOutOfRange(usize),
    /// No primitive has this id, or it has no name.
    UnknownPrimitive(u32),
    /// The primitive has no rendering in SQL.
    Unrendered(u32),
    /// A find-or-self call of this function has not one argument.
    CanonArity(u32, usize),
    /// A constructor with value columns.
    ValueColumns,
    /// The node has no value.
    NoValue,
    /// An insert into this function's table has not one value for each column.
    InsertArity(u32, usize, usize),
    /// A sequence without elements.
    EmptySequence,
    /// The node is no effect.
    NoEffect,
}

/// What is known where a merge is compiled.
pub struct Scope {
    /// The functions' names by their ids.
    pub names: Seq<Seq<char>>,
    /// The registered tables.
    pub infos: Map<Seq<char>, InfoView>,
    /// The primitives' names by their ids.
    pub prims: spec_fn(ExternalFunctionId) -> Option<Seq<char>>,
    /// How a primitive on rendered arguments is rendered.
    pub render: spec_fn(Seq<char>, Seq<Seq<char>>) -> Option<Seq<char>>,
    /// The batch's key columns.
    pub keys: Seq<Seq<char>>,
}

/// The statements so far, and the tables that they write to, each once.
#[verifier::ext_equal]
pub struct Built {
    pub stmts: Seq<Seq<char>>,
    pub written: Seq<Seq<char>>,
}

/// The conditions that the columns are the given expressions.
pub open spec fn columns_are(children: Seq<Seq<char>>) -> Seq<Seq<char>> {
    Seq::new(children.len(), |i: int| "c"@ + decimal(i as nat) + " = "@ + children[i])
}

/// The least id that a table has for the children.
pub open spec fn hashcons_text(table: Seq<char>, info: InfoView, children: Seq<Seq<char>>) -> Seq<
    char,
> {
    let head = "(SELECT MIN(c"@ + decimal(info.inputs_len) + ") FROM "@ + quoted(table);
    if children.len() == 0 {
        head + ")"@
    } else {
        head + " WHERE "@ + joined(columns_are(children), " AND "@) + ")"@
    }
}

/// The statement that gives every row of the batch a term with its children: the one that is
/// there, or a new one.
pub open spec fn mint_text(table: Seq<char>, info: InfoView, children: Seq<Seq<char>>) -> Seq<
    char,
> {
    "INSERT INTO "@ + quoted(table) + " ("@ + joined(numbered("c"@, children.len()), ", "@) + ", c"@
        + decimal(info.inputs_len) + ", ts) SELECT "@ + joined(children, ", "@) + ", COALESCE("@
        + hashcons_text(table, info, children)
        + ", nextval('__egglog_eqsort_seq')), ?2 FROM batch b ON CONFLICT DO NOTHING"@
}

/// The statement that writes a row of a view for every row of the batch.
pub open spec fn view_insert_text(table: Seq<char>, info: InfoView, vals: Seq<Seq<char>>) -> Seq<
    char,
> {
    "INSERT INTO "@ + quoted(table) + " ("@ + joined(numbered("c"@, info.cols.len()), ", "@)
        + ", ts) SELECT "@ + joined(vals, ", "@) + ", ?2 FROM batch b "@ + conflict(info)
}

impl Built {
    /// One more statement, which writes to a table.
    pub open spec fn plus(self, stmt: Seq<char>, table: Seq<char>) -> Built {
        Built { stmts: self.stmts.push(stmt), written: with_name(self.written, table) }
    }
}

impl Scope {
    /// The table of a function.
    pub open spec fn table(self, f: FunctionId) -> Result<Seq<char>, BuildError> {
        if f.rep >= self.names.len() {
            Err(BuildError::UnknownFunction(f.rep))
        } else {
            Ok(self.names[f.rep as int])
        }
    }
}

/// The nodes that a node's own expression is made of.
pub open spec fn arguments(node: MergeFn) -> Seq<MergeFn> {
    match node {
        MergeFn::Primitive(_, args) => args@,
        MergeFn::Function(_, args) => args@,
        MergeFn::Construct(_, args, _) => args@,
        MergeFn::TableInsert(_, args) => args@,
        MergeFn::Sequence(items) => items@,
        _ => Seq::empty(),
    }
}

/// The expression that a node stands for, and the statements it needs.
pub open spec fn value_of(sc: Scope, node: MergeFn, st: Built) -> Result<
    (Built, Seq<char>),
    BuildError,
>
    decreases node, 1nat, 0nat,
{
    match node {
        MergeFn::Old => Ok((st, "b.old"@)),
        MergeFn::New => Ok((st, "b.new"@)),
        MergeFn::OldCol(c) => if c == 0 {
            Ok((st, "b.old"@))
        } else {
            Err(BuildError::NoValue)
        },
        MergeFn::NewCol(c) => if c == 0 {
            Ok((st, "b.new"@))
        } else {
            Err(BuildError::NoValue)
        },
        MergeFn::KeyCol(i) => if i < sc.keys.len() {
            Ok((st, sc.keys[i as int]))
        } else {
            Err(BuildError::KeyOutOfRange(i))
        },
        MergeFn::Const(v) => Ok((st, signed_decimal(v.rep as int))),
        MergeFn::Primitive(id, args) => match (sc.prims)(id) {
            None => Err(BuildError::UnknownPrimitive(id.rep)),
            Some(op) => match values_of(sc, node, args@.len(), st) {
                Err(e) => Err(e),
                Ok((st1, vals)) => match (sc.render)(op, vals) {
                    Some(t) => Ok((st1, t)),
                    None => Err(BuildError::Unrendered(id.rep)),
                },
            },
        },
        MergeFn::Function(f, args) => match sc.table(f) {
            Err(e) => Err(e),
            Ok(name) => if !sc.infos.contains_key(name) {
                Err(BuildError::Unregistered(f.rep))
            } else {
                match sc.infos[name].native_uf_udf {
                    Some(udf) => if args@.len() != 1 {
                        Err(BuildError::CanonArity(f.rep, args@.len() as usize))
                    } else {
                        match values_of(sc, node, 1, st) {
                            Err(e) => Err(e),
                            Ok((st1, vals)) => Ok((st1, udf + "("@ + vals[0] + ")"@)),
                        }
                    },
                    None => match values_of(sc, node, args@.len(), st) {
                        Err(e) => Err(e),
                        Ok((st1, vals)) => Ok((st1, hashcons_text(name, sc.infos[name], vals))),
                    },
                }
            },
        },
        MergeFn::Construct(f, args, vals_args) => if vals_args@.len() > 0 {
            Err(BuildError::ValueColumns)
        } else {
            match sc.table(f) {
                Err(e) => Err(e),
                Ok(name) => match values_of(sc, node, args@.len(), st) {
                    Err(e) => Err(e),
                    Ok((st1, vals)) => if !sc.infos.contains_key(name) {
                        Err(BuildError::Unregistered(f.rep))
                    } else {
                        let info = sc.infos[name];
                        Ok(
                            (
                                st1.plus(mint_text(name, info, vals), name),
                                hashcons_text(name, info, vals),
                            ),
                        )
                    },
                },
            }
        },
        _ => Err(BuildError::NoValue),
    }
}

/// The expressions of a node's first `n` arguments, from left to right.
pub open spec fn values_of(sc: Scope, node: MergeFn, n: nat, st: Built) -> Result<
    (Built, Seq<Seq<char>>),
    BuildError,
>
    decreases node, 0nat, n,
    via values_of_shrinks
{
    if n == 0 || n > arguments(node).len() {
        Ok((st, Seq::empty()))
    } else {
        match values_of(sc, node, (n - 1) as nat, st) {
            Err(e) => Err(e),
            Ok((st1, vals)) => match value_of(sc, arguments(node)[n - 1], st1) {
                Err(e) => Err(e),
                Ok((st2, v)) => Ok((st2, vals.push(v))),
            },
        }
    }
}

/// An argument is smaller than its node.
proof fn lemma_argument_shrinks(node: MergeFn, i: int)
    requires
        0 <= i < arguments(node).len(),
    ensures
        decreases_to!(node => arguments(node)[i]),
{
    match node {
        MergeFn::Primitive(_, args) => {
            assert(decreases_to!(node => args@[i]));
        },
        MergeFn::Function(_, args) => {
            assert(decreases_to!(node => args@[i]));
        },
        MergeFn::Construct(_, args, _) => {
            assert(decreases_to!(node => args@[i]));
        },
        MergeFn::TableInsert(_, args) => {
            assert(decreases_to!(node => args@[i]));
        },
        MergeFn::Sequence(items) => {
            assert(decreases_to!(node => items@[i]));
        },
        _ => {},
    }
}

#[via_fn]
proof fn values_of_shrinks(sc: Scope, node: MergeFn, n: nat, st: Built) {
    if n == 0 || n > arguments(node).len() {
    } else {
        lemma_argument_shrinks(node, n - 1);
    }
}

/// The statement that an insert into a view stands for, behind those that its values need.
pub open spec fn insert_of(sc: Scope, node: MergeFn, st: Built) -> Result<Built, BuildError> {
    match node {
        MergeFn::TableInsert(f, args) => match sc.table(f) {
            Err(e) => Err(e),
            Ok(name) => if !sc.infos.contains_key(name) {
                Err(BuildError::Unregistered(f.rep))
            } else if args@.len() != sc.infos[name].cols.len() {
                Err(
                    BuildError::InsertArity(
                        f.rep,
                        args@.len() as usize,
                        sc.infos[name].cols.len() as usize,
                    ),
                )
            } else {
                match values_of(sc, node, args@.len(), st) {
                    Err(e) => Err(e),
                    Ok((st1, vals)) => Ok(
                        st1.plus(view_insert_text(name, sc.infos[name], vals), name),
                    ),
                }
            },
        },
        _ => Err(BuildError::NoEffect),
    }
}

/// The statements of a node that is run for its effect.
pub open spec fn effect_of(sc: Scope, node: MergeFn, st: Built) -> Result<Built, BuildError>
    decreases node, 4nat, 0nat,
{
    match node {
        MergeFn::TableInsert(f, args) => insert_of(sc, node, st),
        MergeFn::Construct(f, args, vals) => match value_of(sc, node, st) {
            Err(e) => Err(e),
            Ok((st1, v)) => Ok(st1),
        },
        MergeFn::Sequence(items) => match sequence_of(sc, node, st) {
            Err(e) => Err(e),
            Ok((st1, v)) => Ok(st1),
        },
        _ => Err(BuildError::NoEffect),
    }
}

/// The statements of a sequence's first `n` elements, each run for its effect.
pub open spec fn effects_of(sc: Scope, node: MergeFn, n: nat, st: Built) -> Result<
    Built,
    BuildError,
>
    decreases node, 2nat, n,
    via effects_of_shrinks
{
    if n == 0 || n > arguments(node).len() {
        Ok(st)
    } else {
        match effects_of(sc, node, (n - 1) as nat, st) {
            Err(e) => Err(e),
            Ok(st1) => effect_of(sc, arguments(node)[n - 1], st1),
        }
    }
}

#[via_fn]
proof fn effects_of_shrinks(sc: Scope, node: MergeFn, n: nat, st: Built) {
    if n == 0 || n > arguments(node).len() {
    } else {
        lemma_argument_shrinks(node, n - 1);
    }
}

/// The expression that a sequence stands for: its last element's, behind the effects of the
/// others.
pub open spec fn sequence_of(sc: Scope, node: MergeFn, st: Built) -> Result<
    (Built, Seq<char>),
    BuildError,
>
    decreases node, 3nat, 0nat,
{
    let items = arguments(node);
    if items.len() == 0 {
        Err(BuildError::EmptySequence)
    } else {
        match effects_of(sc, node, (items.len() - 1) as nat, st) {
            Err(e) => Err(e),
            Ok(st1) => value_of(sc, items.last(), st1),
        }
    }
}

/// A compiled merge.
#[verifier::ext_equal]
pub struct MergeText {
    /// The statements, in order.
    pub stmts: Seq<Seq<char>>,
    /// The expression for the merged output.
    pub merged: Seq<char>,
    /// The tables that the statements write to, each once.
    pub written: Seq<Seq<char>>,
    /// The condition on the rows of the batch that are merged.
    pub guard: Option<Seq<char>>,
}

/// The expression of a merge's body: a sequence, or just a value.
pub open spec fn body_of(sc: Scope, node: MergeFn, st: Built) -> Result<
    (Built, Seq<char>),
    BuildError,
> {
    match node {
        MergeFn::Sequence(items) => sequence_of(sc, node, st),
        _ => value_of(sc, node, st),
    }
}

/// The merge without statements.
pub open spec fn nothing_built() -> Built {
    Built { stmts: Seq::empty(), written: Seq::empty() }
}

/// What a merge compiles to. Behind a test for equality, the rows on which the two sides agree are
/// left out of the batch, and the rest is merged by the other branch.
pub open spec fn merge_text(sc: Scope, tree: MergeFn) -> Result<MergeText, BuildError> {
    match tree {
        MergeFn::IfEq { a, b, then, els } => match value_of(sc, *a, nothing_built()) {
            Err(e) => Err(e),
            Ok((st1, x)) => match value_of(sc, *b, st1) {
                Err(e) => Err(e),
                Ok((st2, y)) => match body_of(sc, *els, st2) {
                    Err(e) => Err(e),
                    Ok((st3, m)) => Ok(
                        MergeText {
                            stmts: st3.stmts,
                            merged: m,
                            written: st3.written,
                            guard: Some(x + " <> "@ + y),
                        },
                    ),
                },
            },
        },
        _ => match body_of(sc, tree, nothing_built()) {
            Err(e) => Err(e),
            Ok((st1, m)) => Ok(
                MergeText { stmts: st1.stmts, merged: m, written: st1.written, guard: None },
            ),
        },
    }
}

/// What is known of registered tables.
pub open spec fn info_map(m: Map<Seq<char>, FunctionInfo>) -> Map<Seq<char>, InfoView> {
    Map::new(|k: Seq<char>| m.contains_key(k), |k: Seq<char>| m[k]@)
}

/// Whether `f` renders equal calls alike, and all of them can be made.
pub open spec fn renders<F: Fn(&String, &Vec<String>) -> Option<String>>(f: F) -> bool {
    &&& forall|op: &String, args: &Vec<String>| #[trigger] f.requires((op, args))
    &&& forall|
        op: &String,
        args: &Vec<String>,
        r: Option<String>,
        op2: &String,
        args2: &Vec<String>,
        r2: Option<String>,
    |
        #![trigger f.ensures((op, args), r), f.ensures((op2, args2), r2)]
        f.ensures((op, args), r) && f.ensures((op2, args2), r2) && op@ == op2@ && texts(args@)
            == texts(args2@) ==> crate::duckdb::schema::opt_text(r)
            == crate::duckdb::schema::opt_text(r2)
}

/// Whether `f` may render a call as `t`.
pub open spec fn may_render<F: Fn(&String, &Vec<String>) -> Option<String>>(
    f: F,
    op: Seq<char>,
    args: Seq<Seq<char>>,
    t: Option<Seq<char>>,
) -> bool {
    exists|o: &String, a: &Vec<String>, r: Option<String>|
        #![trigger f.ensures((o, a), r)]
        f.ensures((o, a), r) && o@ == op && texts(a@) == args && t
            == crate::duckdb::schema::opt_text(r)
}

/// How `f` renders calls.
pub open spec fn rendering<F: Fn(&String, &Vec<String>) -> Option<String>>(f: F) -> spec_fn(
    Seq<char>,
    Seq<Seq<char>>,
) -> Option<Seq<char>> {
    |op: Seq<char>, args: Seq<Seq<char>>|
        choose|t: Option<Seq<char>>| #[trigger] may_render(f, op, args, t)
}

/// A merge that is being compiled.
struct Ctx<'a, F: Fn(&String, &Vec<String>) -> Option<String>> {
    names: &'a Vec<String>,
    functions: &'a StrMap<FunctionInfo>,
    prims: &'a ExternalFuncRegistry,
    render: &'a F,
    keys: Vec<String>,
    stmts: Vec<String>,
    written: Vec<String>,
}

/// What is known where a merge is compiled.
pub open spec fn scope_of<F: Fn(&String, &Vec<String>) -> Option<String>>(
    names: Seq<String>,
    functions: Map<Seq<char>, FunctionInfo>,
    prims: ExternalFuncRegistry,
    render: F,
    keys: Seq<Seq<char>>,
) -> Scope {
    Scope {
        names: texts(names),
        infos: info_map(functions),
        prims: |id: ExternalFunctionId| prims.name_of(id),
        render: rendering(render),
        keys,
    }
}

/// The expression and the statements that were found, or why there are none.
pub open spec fn outcome(
    r: Result<String, BuildError>,
    st: Built,
) -> Result<(Built, Seq<char>), BuildError> {
    match r {
        Ok(s) => Ok((st, s@)),
        Err(e) => Err(e),
    }
}

/// The statements that were found, or why there are none.
pub open spec fn effect_outcome(r: Result<(), BuildError>, st: Built) -> Result<Built, BuildError> {
    match r {
        Ok(_) => Ok(st),
        Err(e) => Err(e),
    }
}

impl<'a, F: Fn(&String, &Vec<String>) -> Option<String>> Ctx<'a, F> {
    spec fn scope(&self) -> Scope {
        scope_of(self.names@, self.functions@, *self.prims, *self.render, texts(self.keys@))
    }

    spec fn built(&self) -> Built {
        Built { stmts: texts(self.stmts@), written: texts(self.written@) }
    }

    spec fn wf(&self) -> bool {
        self.functions.wf() && self.prims.wf() && renders(*self.render) && texts(
            self.written@,
        ).no_duplicates()
    }

    /// The table of a function.
    fn fn_name(&self, id: FunctionId) -> (r: Result<&'a String, BuildError>)
        ensures
            match r {
                Ok(s) => self.scope().table(id) == Ok::<Seq<char>, BuildError>(s@),
                Err(e) => self.scope().table(id) == Err::<Seq<char>, BuildError>(e),
            },
    {
        let i: usize = id.rep as usize;
        if i < self.names.len() {
            Ok(&self.names[i])
        } else {
            Err(BuildError::UnknownFunction(id.rep))
        }
    }

    /// Renders a primitive.
    fn render_prim(&self, op: &String, args: &Vec<String>) -> (r: Option<String>)
        requires
            self.wf(),
        ensures
            crate::duckdb::schema::opt_text(r) == (self.scope().render)(op@, texts(args@)),
    {
        let f = self.render;
        let r = f(op, args);
        proof {
            let t = crate::duckdb::schema::opt_text(r);
            assert(may_render(*f, op@, texts(args@), t));
            let c = choose|t: Option<Seq<char>>| #[trigger] may_render(*f, op@, texts(args@), t);
            assert(may_render(*f, op@, texts(args@), c));
        }
        r
    }

    /// One more statement, which writes to a table.
    fn record(&mut self, stmt: String, table: &str)
        ensures
            final(self).scope() == old(self).scope(),
            old(self).wf() ==> final(self).wf(),
            final(self).built() == old(self).built().plus(stmt@, table@),
            final(self).names == old(self).names,
            final(self).functions == old(self).functions,
    {
        self.stmts.push(stmt);
        add_name(&mut self.written, table);
        assert(texts(self.stmts@) =~= texts(old(self).stmts@).push(stmt@));
    }
}

/// The least id that a table has for the children.
fn hashcons_sql(table: &str, info: &FunctionInfo, children: &Vec<String>) -> (s: String)
    ensures
        s@ == hashcons_text(table@, info@, texts(children@)),
{
    let mut s = "(SELECT MIN(c".to_owned();
    s.append(decimal_usize(info.inputs_len).as_str());
    s.append(") FROM ");
    s.append(q(table).as_str());
    let n: usize = children.len();
    if n == 0 {
        s.append(")");
        return s;
    }
    let mut conds: Vec<String> = Vec::new();
    for i in 0..n
        invariant
            n == children@.len(),
            conds@.len() == i,
            forall|k: int|
                0 <= k < i ==> (#[trigger] conds@[k])@ == columns_are(texts(children@))[k],
    {
        let mut c = "c".to_owned();
        c.append(decimal_usize(i).as_str());
        c.append(" = ");
        c.append(children[i].as_str());
        conds.push(c);
    }
    assert(texts(conds@) =~= columns_are(texts(children@)));
    s.append(" WHERE ");
    s.append(join(&conds, " AND ").as_str());
    s.append(")");
    s
}

/// The statement that mints a constructor's terms.
fn mint_sql(table: &str, info: &FunctionInfo, children: &Vec<String>) -> (s: String)
    ensures
        s@ == mint_text(table@, info@, texts(children@)),
{
    let cols = numbered_texts("c", children.len());
    let mut s = "INSERT INTO ".to_owned();
    s.append(q(table).as_str());
    s.append(" (");
    s.append(join(&cols, ", ").as_str());
    s.append(", c");
    s.append(decimal_usize(info.inputs_len).as_str());
    s.append(", ts) SELECT ");
    s.append(join(children, ", ").as_str());
    s.append(", COALESCE(");
    s.append(hashcons_sql(table, info, children).as_str());
    s.append(", nextval('__egglog_eqsort_seq')), ?2 FROM batch b ON CONFLICT DO NOTHING");
    s
}

/// The statement that writes a view's rows.
fn view_insert_sql(table: &str, info: &FunctionInfo, vals: &Vec<String>) -> (s: String)
    ensures
        s@ == view_insert_text(table@, info@, texts(vals@)),
{
    let cols = numbered_texts("c", info.cols.len());
    let mut s = "INSERT INTO ".to_owned();
    s.append(q(table).as_str());
    s.append(" (");
    s.append(join(&cols, ", ").as_str());
    s.append(", ts) SELECT ");
    s.append(join(vals, ", ").as_str());
    s.append(", ?2 FROM batch b ");
    s.append(conflict_clause(info).as_str());
    s
}

/// The expressions that were found, or why there are none.
pub open spec fn list_outcome(
    r: Result<Vec<String>, BuildError>,
    st: Built,
) -> Result<(Built, Seq<Seq<char>>), BuildError> {
    match r {
        Ok(v) => Ok((st, texts(v@))),
        Err(e) => Err(e),
    }
}

/// An error among the first arguments is the outcome of all of them.
proof fn lemma_values_error(sc: Scope, node: MergeFn, n: nat, m: nat, st: Built)
    requires
        n <= m <= arguments(node).len(),
        values_of(sc, node, n, st) is Err,
    ensures
        values_of(sc, node, m, st) == values_of(sc, node, n, st),
    decreases m - n,
{
    if n < m {
        lemma_values_error(sc, node, n, (m - 1) as nat, st);
    }
}

/// An error among the first effects is the outcome of all of them.
proof fn lemma_effects_error(sc: Scope, node: MergeFn, n: nat, m: nat, st: Built)
    requires
        n <= m <= arguments(node).len(),
        effects_of(sc, node, n, st) is Err,
    ensures
        effects_of(sc, node, m, st) == effects_of(sc, node, n, st),
    decreases m - n,
{
    if n < m {
        lemma_effects_error(sc, node, n, (m - 1) as nat, st);
    }
}

impl<'a, F: Fn(&String, &Vec<String>) -> Option<String>> Ctx<'a, F> {
    /// The expressions of a node's arguments.
    fn arg_sqls(&mut self, node: &MergeFn, args: &Vec<MergeFn>) -> (r: Result<
        Vec<String>,
        BuildError,
    >)
        requires
            old(self).wf(),
            args@ == arguments(*node),
        ensures
            final(self).wf(),
            final(self).scope() == old(self).scope(),
            final(self).names == old(self).names,
            final(self).functions == old(self).functions,
            list_outcome(r, final(self).built()) == values_of(
                old(self).scope(),
                *node,
                args@.len(),
                old(self).built(),
            ),
        decreases *node, 0nat,
    {
        let ghost sc = self.scope();
        let ghost st = self.built();
        let mut v: Vec<String> = Vec::new();
        let n: usize = args.len();
        assert(texts(v@) =~= Seq::empty());
        for i in 0..n
            invariant
                n == args@.len(),
                args@ == arguments(*node),
                self.wf(),
                self.scope() == sc,
                sc == old(self).scope(),
                st == old(self).built(),
                self.names == old(self).names,
                self.functions == old(self).functions,
                values_of(sc, *node, i as nat, st) == Ok::<_, BuildError>(
                    (self.built(), texts(v@)),
                ),
        {
            proof {
                lemma_argument_shrinks(*node, i as int);
            }
            let ghost before = texts(v@);
            match self.value_sql(&args[i]) {
                Ok(s) => {
                    v.push(s);
                    assert(texts(v@) =~= before.push(s@));
                },
                Err(e) => {
                    proof {
                        lemma_values_error(sc, *node, (i + 1) as nat, n as nat, st);
                    }
                    return Err(e);
                },
            }
        }
        Ok(v)
    }

    /// The expression that a node stands for; the statements it needs are added.
    fn value_sql(&mut self, node: &MergeFn) -> (r: Result<String, BuildError>)
        requires
            old(self).wf(),
        ensures
            final(self).wf(),
            final(self).scope() == old(self).scope(),
            final(self).names == old(self).names,
            final(self).functions == old(self).functions,
            outcome(r, final(self).built()) == value_of(
                old(self).scope(),
                *node,
                old(self).built(),
            ),
        decreases *node, 1nat,
    {
        let ghost sc = self.scope();
        let ghost st = self.built();
        match node {
            MergeFn::Old => Ok("b.old".to_owned()),
            MergeFn::New => Ok("b.new".to_owned()),
            MergeFn::OldCol(c) => if *c == 0 {
                Ok("b.old".to_owned())
            } else {
                Err(BuildError::NoValue)
            },
            MergeFn::NewCol(c) => if *c == 0 {
                Ok("b.new".to_owned())
            } else {
                Err(BuildError::NoValue)
            },
            MergeFn::KeyCol(i) => if *i < self.keys.len() {
                Ok(self.keys[*i].clone())
            } else {
                Err(BuildError::KeyOutOfRange(*i))
            },
            MergeFn::Const(v) => Ok(decimal_i64(v.rep as i64)),
            MergeFn::Primitive(id, args) => {
                let op = match self.prims.name(*id) {
                    Some(op) => op.to_owned(),
                    None => return Err(BuildError::UnknownPrimitive(id.rep)),
                };
                let vals = match self.arg_sqls(node, args) {
                    Ok(v) => v,
                    Err(e) => return Err(e),
                };
                match self.render_prim(&op, &vals) {
                    Some(s) => Ok(s),
                    None => Err(BuildError::Unrendered(id.rep)),
                }
            },
            MergeFn::Function(f, args) => {
                let name = match self.fn_name(*f) {
                    Ok(s) => s,
                    Err(e) => return Err(e),
                };
                let functions = self.functions;
                let info = match functions.get(name.as_str()) {
                    Some(i) => i,
                    None => return Err(BuildError::Unregistered(f.rep)),
                };
                assert(sc.infos[name@] == info@);
                match &info.native_uf_udf {
                    Some(udf) => {
                        if args.len() != 1 {
                            return Err(BuildError::CanonArity(f.rep, args.len()));
                        }
                        let vals = match self.arg_sqls(node, args) {
                            Ok(v) => v,
                            Err(e) => return Err(e),
                        };
                        proof {
                            lemma_values_len(sc, *node, 1, st);
                        }
                        let mut s = udf.clone();
                        s.append("(");
                        s.append(vals[0].as_str());
                        s.append(")");
                        Ok(s)
                    },
                    None => {
                        let vals = match self.arg_sqls(node, args) {
                            Ok(v) => v,
                            Err(e) => return Err(e),
                        };
                        Ok(hashcons_sql(name.as_str(), info, &vals))
                    },
                }
            },
            MergeFn::Construct(f, args, val_args) => {
                if val_args.len() > 0 {
                    return Err(BuildError::ValueColumns);
                }
                let name = match self.fn_name(*f) {
                    Ok(s) => s,
                    Err(e) => return Err(e),
                };
                let functions = self.functions;
                let vals = match self.arg_sqls(node, args) {
                    Ok(v) => v,
                    Err(e) => return Err(e),
                };
                let info = match functions.get(name.as_str()) {
                    Some(i) => i,
                    None => return Err(BuildError::Unregistered(f.rep)),
                };
                assert(sc.infos[name@] == info@);
                let stmt = mint_sql(name.as_str(), info, &vals);
                self.record(stmt, name.as_str());
                Ok(hashcons_sql(name.as_str(), info, &vals))
            },
            _ => Err(BuildError::NoValue),
        }
    }

    /// Adds the statement of an insert into a view.
    fn table_insert(&mut self, node: &MergeFn) -> (r: Result<(), BuildError>)
        requires
            old(self).wf(),
        ensures
            final(self).wf(),
            final(self).scope() == old(self).scope(),
            final(self).names == old(self).names,
            final(self).functions == old(self).functions,
            effect_outcome(r, final(self).built()) == insert_of(
                old(self).scope(),
                *node,
                old(self).built(),
            ),
    {
        let ghost sc = self.scope();
        match node {
            MergeFn::TableInsert(f, args) => {
                let name = match self.fn_name(*f) {
                    Ok(s) => s,
                    Err(e) => return Err(e),
                };
                let functions = self.functions;
                let info = match functions.get(name.as_str()) {
                    Some(i) => i,
                    None => return Err(BuildError::Unregistered(f.rep)),
                };
                assert(sc.infos[name@] == info@);
                let arity: usize = info.cols.len();
                if args.len() != arity {
                    return Err(BuildError::InsertArity(f.rep, args.len(), arity));
                }
                let vals = match self.arg_sqls(node, args) {
                    Ok(v) => v,
                    Err(e) => return Err(e),
                };
                let stmt = view_insert_sql(name.as_str(), info, &vals);
                self.record(stmt, name.as_str());
                Ok(())
            },
            _ => Err(BuildError::NoEffect),
        }
    }

    /// Adds the statements of a node that is run for its effect.
    fn effect(&mut self, node: &MergeFn) -> (r: Result<(), BuildError>)
        requires
            old(self).wf(),
        ensures
            final(self).wf(),
            final(self).scope() == old(self).scope(),
            final(self).names == old(self).names,
            final(self).functions == old(self).functions,
            effect_outcome(r, final(self).built()) == effect_of(
                old(self).scope(),
                *node,
                old(self).built(),
            ),
        decreases *node, 1nat,
    {
        match node {
            MergeFn::TableInsert(_, _) => self.table_insert(node),
            MergeFn::Construct(_, _, _) => match self.value_sql(node) {
                Ok(_) => Ok(()),
                Err(e) => Err(e),
            },
            MergeFn::Sequence(items) => match self.seq_sql(node, items) {
                Ok(_) => Ok(()),
                Err(e) => Err(e),
            },
            _ => Err(BuildError::NoEffect),
        }
    }

    /// The expression that a sequence stands for; the statements are added.
    fn seq_sql(&mut self, node: &MergeFn, items: &Vec<MergeFn>) -> (r: Result<String, BuildError>)
        requires
            old(self).wf(),
            *node is Sequence,
            items@ == arguments(*node),
        ensures
            final(self).wf(),
            final(self).scope() == old(self).scope(),
            final(self).names == old(self).names,
            final(self).functions == old(self).functions,
            outcome(r, final(self).built()) == sequence_of(
                old(self).scope(),
                *node,
                old(self).built(),
            ),
        decreases *node, 0nat,
    {
        let ghost sc = self.scope();
        let ghost st = self.built();
        let n: usize = items.len();
        if n == 0 {
            return Err(BuildError::EmptySequence);
        }
        for i in 0..n - 1
            invariant
                0 < n == items@.len(),
                items@ == arguments(*node),
                self.wf(),
                self.scope() == sc,
                sc == old(self).scope(),
                st == old(self).built(),
                self.names == old(self).names,
                self.functions == old(self).functions,
                effects_of(sc, *node, i as nat, st) == Ok::<_, BuildError>(self.built()),
        {
            proof {
                lemma_argument_shrinks(*node, i as int);
            }
            match self.effect(&items[i]) {
                Ok(_) => {},
                Err(e) => {
                    proof {
                        lemma_effects_error(sc, *node, (i + 1) as nat, (n - 1) as nat, st);
                    }
                    return Err(e);
                },
            }
        }
        self.value_sql(&items[n - 1])
    }

    /// The expression of a merge's body; the statements are added.
    fn body_sql(&mut self, node: &MergeFn) -> (r: Result<String, BuildError>)
        requires
            old(self).wf(),
        ensures
            final(self).wf(),
            final(self).scope() == old(self).scope(),
            outcome(r, final(self).built()) == body_of(
                old(self).scope(),
                *node,
                old(self).built(),
            ),
    {
        match node {
            MergeFn::Sequence(items) => self.seq_sql(node, items),
            _ => self.value_sql(node),
        }
    }
}

/// There are as many expressions as arguments.
proof fn lemma_values_len(sc: Scope, node: MergeFn, n: nat, st: Built)
    requires
        n <= arguments(node).len(),
        values_of(sc, node, n, st) is Ok,
    ensures
        values_of(sc, node, n, st)->Ok_0.1.len() == n,
    decreases n,
{
    if n > 0 {
        lemma_values_len(sc, node, (n - 1) as nat, st);
    }
}

/// A compiled merge.
#[derive(Debug)]
pub struct CompiledTermBuild {
    /// The statements, in order.
    pub stmts: Vec<String>,
    /// The expression for the merged output.
    pub merged_expr: String,
    /// The tables that the statements write to, each once.
    pub written_tables: Vec<String>,
    /// The condition on the rows of the batch that are merged.
    pub guard: Option<String>,
}

impl View for CompiledTermBuild {
    type V = MergeText;

    open spec fn view(&self) -> MergeText {
        MergeText {
            stmts: texts(self.stmts@),
            merged: self.merged_expr@,
            written: texts(self.written_tables@),
            guard: crate::duckdb::schema::opt_text(self.guard),
        }
    }
}

/// The compiled merge, or why there is none.
pub open spec fn compiled_view(r: Result<CompiledTermBuild, BuildError>) -> Result<
    MergeText,
    BuildError,
> {
    match r {
        Ok(c) => Ok(c@),
        Err(e) => Err(e),
    }
}

/// Compiles the merge of a view with `n_keys` key columns.
pub fn compile_term_build<F: Fn(&String, &Vec<String>) -> Option<String>>(
    names: &Vec<String>,
    functions: &StrMap<FunctionInfo>,
    prims: &ExternalFuncRegistry,
    render: &F,
    tree: &MergeFn,
    n_keys: usize,
) -> (r: Result<CompiledTermBuild, BuildError>)
    requires
        functions.wf(),
        prims.wf(),
        renders(*render),
    ensures
        compiled_view(r) == merge_text(
            scope_of(names@, functions@, *prims, *render, numbered("b.c"@, n_keys as nat)),
            *tree,
        ),
        r is Ok ==> r->Ok_0@.written.no_duplicates(),
{
    let mut ctx = Ctx {
        names,
        functions,
        prims,
        render,
        keys: numbered_texts("b.c", n_keys),
        stmts: Vec::new(),
        written: Vec::new(),
    };
    let ghost sc = ctx.scope();
    assert(ctx.built() =~= nothing_built());
    match tree {
        MergeFn::IfEq { a, b, then: _, els } => {
            let x = match ctx.value_sql(a) {
                Ok(s) => s,
                Err(e) => return Err(e),
            };
            let y = match ctx.value_sql(b) {
                Ok(s) => s,
                Err(e) => return Err(e),
            };
            let m = match ctx.body_sql(els) {
                Ok(s) => s,
                Err(e) => return Err(e),
            };
            let mut guard = x;
            guard.append(" <> ");
            guard.append(y.as_str());
            Ok(
                CompiledTermBuild {
                    stmts: ctx.stmts,
                    merged_expr: m,
                    written_tables: ctx.written,
                    guard: Some(guard),
                },
            )
        },
        _ => {
            let m = match ctx.body_sql(tree) {
                Ok(s) => s,
                Err(e) => return Err(e),
            };
            Ok(
                CompiledTermBuild {
                    stmts: ctx.stmts,
                    merged_expr: m,
                    written_tables: ctx.written,
                    guard: None,
                },
            )
        },
    }
}

} // verus!
