//! The passes between iterations: views whose rows conflict are merged or united.
use crate::duckdb::egraph::{EGraph, EgView};
use crate::duckdb::names::{q, quoted};
use crate::duckdb::runner::{bumped, wrapped, ProgressView};
use crate::duckdb::schema::{opt_text, FunctionInfo, InfoView};
use crate::duckdb::sql::{
    bind, bound, numbered, numbered_texts, twice_numbered, twice_numbered_texts,
};
use crate::duckdb::strmap::value_or;
use crate::duckdb::term_build::{
    compile_term_build, merge_text, renders, scope_of, BuildError, MergeText,
};
use crate::text::{decimal, decimal_usize, join, joined, texts};
use vstd::prelude::*;
use vstd::string::*;

verus! {

/// Whether a view has had a row since a pass last looked at it.
pub open spec fn touched(w: Map<Seq<char>, i64>, at: Map<Seq<char>, i64>, view: Seq<char>) -> bool {
    value_or(w, view, 0) >= value_or(at, view, 0)
}

/// The names of a list that meet a condition.
pub open spec fn chosen(order: Seq<Seq<char>>, p: spec_fn(Seq<char>) -> bool) -> Seq<Seq<char>>
    decreases order.len(),
{
    if order.len() == 0 {
        Seq::empty()
    } else if p(order.last()) {
        chosen(order.drop_last(), p).push(order.last())
    } else {
        chosen(order.drop_last(), p)
    }
}

/// The chosen names are those of the list that meet the condition.
pub proof fn chosen_exact(order: Seq<Seq<char>>, p: spec_fn(Seq<char>) -> bool, n: Seq<char>)
    ensures
        chosen(order, p).contains(n) <==> order.contains(n) && p(n),
    decreases order.len(),
{
    if order.len() > 0 {
        let front = order.drop_last();
        chosen_exact(front, p, n);
        crate::feldera::expr::lemma_push_contains(chosen(front, p), order.last());
        crate::feldera::expr::lemma_push_contains(front, order.last());
        assert(front.push(order.last()) =~= order);
    }
}

/// The views whose merge is due.
pub open spec fn build_due(g: EgView) -> spec_fn(Seq<char>) -> bool {
    |n: Seq<char>| g.functions[n].merge_tree is Some && touched(g.progress.watermarks, g.build_at, n)
}

/// How many of a view's columns are key columns in the inline congruence pass: a constructor's
/// inputs, or all the columns of a relation but its last.
pub open spec fn inline_keys(info: InfoView) -> int {
    if info.eq_sort_ctor {
        info.inputs_len as int
    } else {
        info.cols.len() - 1
    }
}

/// The views whose inline congruence is due.
pub open spec fn inline_due(g: EgView) -> spec_fn(Seq<char>) -> bool {
    |n: Seq<char>|
        g.functions[n].eq_sort_pname is Some && g.functions[n].cols.len() >= 2 && inline_keys(
            g.functions[n],
        ) > 0 && touched(g.progress.watermarks, g.inline_at, n)
}

/// The views whose native congruence is due.
pub open spec fn native_due(g: EgView) -> spec_fn(Seq<char>) -> bool {
    |n: Seq<char>|
        g.functions[n].native_congruence_uf is Some && g.functions[n].inputs_len >= 2 && touched(
            g.progress.watermarks,
            g.native_at,
            n,
        )
}

/// The statement that collects the conflicts of a view whose merge builds terms: the rows with
/// equal keys and different outputs, the greater output as the old one.
pub open spec fn build_batch(view: Seq<char>, n: nat) -> Seq<char> {
    let out = decimal(n);
    "CREATE OR REPLACE TEMP TABLE batch AS SELECT "@ + joined(
        twice_numbered("v1.c"@, " AS c"@, n),
        ", "@,
    ) + ", v1.c"@ + out + " AS old, v2.c"@ + out + " AS new FROM "@ + quoted(view) + " v1 JOIN "@
        + quoted(view) + " v2 ON "@ + joined(twice_numbered("v1.c"@, " = v2.c"@, n), " AND "@)
        + " AND v1.c"@ + out + " > v2.c"@ + out + " WHERE v1.ts >= ?1 OR v2.ts >= ?1"@
}

/// The statement that leaves out of the batch the rows that need no merge.
pub open spec fn guard_batch(guard: Seq<char>) -> Seq<char> {
    "CREATE OR REPLACE TEMP TABLE batch AS SELECT * FROM batch b WHERE "@ + guard
}

/// The statement that deletes the rows of one side of the conflicts.
pub open spec fn delete_side(view: Seq<char>, n: nat, side: Seq<char>) -> Seq<char> {
    "DELETE FROM "@ + quoted(view) + " WHERE ("@ + joined(numbered("c"@, n), ", "@) + ", c"@
        + decimal(n) + ") IN (SELECT "@ + joined(numbered("b.c"@, n), ", "@) + ", b."@ + side
        + " FROM batch b)"@
}

/// The statement that writes the merged rows.
pub open spec fn insert_merged(view: Seq<char>, n: nat, merged: Seq<char>) -> Seq<char> {
    "INSERT INTO "@ + quoted(view) + " ("@ + joined(numbered("c"@, n), ", "@) + ", c"@ + decimal(n)
        + ", ts) SELECT "@ + joined(numbered("b.c"@, n), ", "@) + ", "@ + merged
        + ", ?2 FROM batch b ON CONFLICT DO NOTHING"@
}

/// The statement that unites, in a table of unions, the ids of rows with equal keys.
pub open spec fn inline_unions(pname: Seq<char>, view: Seq<char>, n: nat) -> Seq<char> {
    let id = decimal(n);
    "INSERT INTO "@ + quoted(pname) + " (c0, c1, ts) SELECT GREATEST(v1.c"@ + id + ", v2.c"@ + id
        + "), LEAST(v1.c"@ + id + ", v2.c"@ + id + "), ?2 FROM "@ + quoted(view) + " v1, "@
        + quoted(view) + " v2 WHERE v1.ts >= ?1 AND v1.ts < ?2 AND v2.ts < ?2 AND v1.c"@ + id
        + " <> v2.c"@ + id + " AND "@ + joined(twice_numbered("v1.c"@, " = v2.c"@, n), " AND "@)
        + " ON CONFLICT DO NOTHING"@
}

/// The statement that collects the conflicts of a constructor's view.
pub open spec fn native_batch(view: Seq<char>, n: nat) -> Seq<char> {
    let out = decimal(n);
    "CREATE OR REPLACE TEMP TABLE native_cong_batch AS SELECT "@ + joined(
        twice_numbered("v1.c"@, " AS c"@, n),
        ", "@,
    ) + ", GREATEST(v1.c"@ + out + ", v2.c"@ + out + ") AS loser, LEAST(v1.c"@ + out + ", v2.c"@
        + out + ") AS winner FROM "@ + quoted(view) + " v1 JOIN "@ + quoted(view) + " v2 ON "@
        + joined(twice_numbered("v1.c"@, " = v2.c"@, n), " AND "@) + " AND v1.c"@ + out
        + " <> v2.c"@ + out + " WHERE v1.ts >= ?1 AND v1.ts < ?2 AND v2.ts < ?2"@
}

/// The statement that unites the ids of the collected conflicts.
pub open spec fn native_edges(uf: Seq<char>) -> Seq<char> {
    "INSERT INTO "@ + quoted(uf)
        + " (c0, c1, ts) SELECT b.loser, b.winner, ?2 FROM native_cong_batch b ON CONFLICT DO NOTHING"@
}

fn build_batch_sql(view: &str, n: usize) -> (s: String)
    ensures
        s@ == build_batch(view@, n as nat),
{
    let proj = twice_numbered_texts("v1.c", " AS c", n);
    let keys = twice_numbered_texts("v1.c", " = v2.c", n);
    let out = decimal_usize(n);
    let v = q(view);
    let mut s = "CREATE OR REPLACE TEMP TABLE batch AS SELECT ".to_owned();
    s.append(join(&proj, ", ").as_str());
    s.append(", v1.c");
    s.append(out.as_str());
    s.append(" AS old, v2.c");
    s.append(out.as_str());
    s.append(" AS new FROM ");
    s.append(v.as_str());
    s.append(" v1 JOIN ");
    s.append(v.as_str());
    s.append(" v2 ON ");
    s.append(join(&keys, " AND ").as_str());
    s.append(" AND v1.c");
    s.append(out.as_str());
    s.append(" > v2.c");
    s.append(out.as_str());
    s.append(" WHERE v1.ts >= ?1 OR v2.ts >= ?1");
    s
}

fn guard_batch_sql(guard: &str) -> (s: String)
    ensures
        s@ == guard_batch(guard@),
{
    let mut s = "CREATE OR REPLACE TEMP TABLE batch AS SELECT * FROM batch b WHERE ".to_owned();
    s.append(guard);
    s
}

fn delete_side_sql(view: &str, n: usize, side: &str) -> (s: String)
    ensures
        s@ == delete_side(view@, n as nat, side@),
{
    let cols = numbered_texts("c", n);
    let keys = numbered_texts("b.c", n);
    let mut s = "DELETE FROM ".to_owned();
    s.append(q(view).as_str());
    s.append(" WHERE (");
    s.append(join(&cols, ", ").as_str());
    s.append(", c");
    s.append(decimal_usize(n).as_str());
    s.append(") IN (SELECT ");
    s.append(join(&keys, ", ").as_str());
    s.append(", b.");
    s.append(side);
    s.append(" FROM batch b)");
    s
}

fn insert_merged_sql(view: &str, n: usize, merged: &str) -> (s: String)
    ensures
        s@ == insert_merged(view@, n as nat, merged@),
{
    let cols = numbered_texts("c", n);
    let keys = numbered_texts("b.c", n);
    let mut s = "INSERT INTO ".to_owned();
    s.append(q(view).as_str());
    s.append(" (");
    s.append(join(&cols, ", ").as_str());
    s.append(", c");
    s.append(decimal_usize(n).as_str());
    s.append(", ts) SELECT ");
    s.append(join(&keys, ", ").as_str());
    s.append(", ");
    s.append(merged);
    s.append(", ?2 FROM batch b ON CONFLICT DO NOTHING");
    s
}

fn inline_unions_sql(pname: &str, view: &str, n: usize) -> (s: String)
    ensures
        s@ == inline_unions(pname@, view@, n as nat),
{
    let keys = twice_numbered_texts("v1.c", " = v2.c", n);
    let id = decimal_usize(n);
    let v = q(view);
    let mut s = "INSERT INTO ".to_owned();
    s.append(q(pname).as_str());
    s.append(" (c0, c1, ts) SELECT GREATEST(v1.c");
    s.append(id.as_str());
    s.append(", v2.c");
    s.append(id.as_str());
    s.append("), LEAST(v1.c");
    s.append(id.as_str());
    s.append(", v2.c");
    s.append(id.as_str());
    s.append("), ?2 FROM ");
    s.append(v.as_str());
    s.append(" v1, ");
    s.append(v.as_str());
    s.append(" v2 WHERE v1.ts >= ?1 AND v1.ts < ?2 AND v2.ts < ?2 AND v1.c");
    s.append(id.as_str());
    s.append(" <> v2.c");
    s.append(id.as_str());
    s.append(" AND ");
    s.append(join(&keys, " AND ").as_str());
    s.append(" ON CONFLICT DO NOTHING");
    s
}

fn native_batch_sql(view: &str, n: usize) -> (s: String)
    ensures
        s@ == native_batch(view@, n as nat),
{
    let proj = twice_numbered_texts("v1.c", " AS c", n);
    let keys = twice_numbered_texts("v1.c", " = v2.c", n);
    let out = decimal_usize(n);
    let v = q(view);
    let mut s = "CREATE OR REPLACE TEMP TABLE native_cong_batch AS SELECT ".to_owned();
    s.append(join(&proj, ", ").as_str());
    s.append(", GREATEST(v1.c");
    s.append(out.as_str());
    s.append(", v2.c");
    s.append(out.as_str());
    s.append(") AS loser, LEAST(v1.c");
    s.append(out.as_str());
    s.append(", v2.c");
    s.append(out.as_str());
    s.append(") AS winner FROM ");
    s.append(v.as_str());
    s.append(" v1 JOIN ");
    s.append(v.as_str());
    s.append(" v2 ON ");
    s.append(join(&keys, " AND ").as_str());
    s.append(" AND v1.c");
    s.append(out.as_str());
    s.append(" <> v2.c");
    s.append(out.as_str());
    s.append(" WHERE v1.ts >= ?1 AND v1.ts < ?2 AND v2.ts < ?2");
    s
}

fn native_edges_sql(uf: &str) -> (s: String)
    ensures
        s@ == native_edges(uf@),
{
    let mut s = "INSERT INTO ".to_owned();
    s.append(q(uf).as_str());
    s.append(
        " (c0, c1, ts) SELECT b.loser, b.winner, ?2 FROM native_cong_batch b ON CONFLICT DO NOTHING",
    );
    s
}

/// The merge of a view's conflicts, statement by statement.
#[derive(Debug)]
pub struct MergePlan {
    pub view: String,
    /// Collects the conflicts into `batch`.
    pub batch: String,
    /// Leaves out the conflicts that need no merge.
    pub guard: Option<String>,
    /// Mints the terms.
    pub stmts: Vec<String>,
    /// The tables that the terms come to.
    pub written: Vec<String>,
    /// Deletes the two sides of the conflicts.
    pub delete_old: String,
    pub delete_new: String,
    /// Writes the merged rows.
    pub insert: String,
}

/// The union of a view's conflicts.
#[derive(Debug)]
pub struct UnionPlan {
    pub view: String,
    /// The table that takes the unions.
    pub target: String,
    /// Collects the conflicts, where they are collected first.
    pub batch: Option<String>,
    /// Writes the unions.
    pub insert: String,
}

/// The statements, each with its window filled in.
pub open spec fn all_bound(stmts: Seq<Seq<char>>, last: int, cur: int) -> Seq<Seq<char>> {
    stmts.map_values(|s: Seq<char>| bound(s, last, cur))
}

fn bind_all(stmts: &Vec<String>, last: i64, cur: i64) -> (v: Vec<String>)
    ensures
        texts(v@) == all_bound(texts(stmts@), last as int, cur as int),
{
    let mut v: Vec<String> = Vec::new();
    let n: usize = stmts.len();
    for i in 0..n
        invariant
            n == stmts@.len(),
            v@.len() == i,
            forall|k: int|
                0 <= k < i ==> (#[trigger] v@[k])@ == bound(stmts@[k]@, last as int, cur as int),
    {
        v.push(bind(stmts[i].as_str(), last, cur));
    }
    assert(texts(v@) =~= all_bound(texts(stmts@), last as int, cur as int));
    v
}

/// Whether a plan merges a view's conflicts in the way that its merge compiles to.
pub open spec fn plans_merge(
    p: MergePlan,
    view: Seq<char>,
    n: nat,
    m: MergeText,
    last: int,
    cur: int,
) -> bool {
    &&& p.view@ == view
    &&& p.batch@ == bound(build_batch(view, n), last, cur)
    &&& opt_text(p.guard) == match m.guard {
        Some(c) => Some(bound(guard_batch(c), last, cur)),
        None => None,
    }
    &&& texts(p.stmts@) == all_bound(m.stmts, last, cur)
    &&& texts(p.written@) == m.written
    &&& p.delete_old@ == bound(delete_side(view, n, "old"@), last, cur)
    &&& p.delete_new@ == bound(delete_side(view, n, "new"@), last, cur)
    &&& p.insert@ == bound(insert_merged(view, n, m.merged), last, cur)
}

/// The watermarks once rows came to tables at `ts`.
pub open spec fn all_bumped(w: Map<Seq<char>, i64>, tables: Seq<Seq<char>>, ts: i64) -> Map<
    Seq<char>,
    i64,
>
    decreases tables.len(),
{
    if tables.len() == 0 {
        w
    } else {
        bumped(all_bumped(w, tables.drop_last(), ts), tables.last(), ts)
    }
}

/// A counter once all the counts are added, modulo 2^64.
pub open spec fn all_counted(a: u64, counts: Seq<u64>) -> u64
    decreases counts.len(),
{
    if counts.len() == 0 {
        a
    } else {
        wrapped(all_counted(a, counts.drop_last()), counts.last())
    }
}

impl EGraph {
    /// The views whose merge is due.
    pub fn term_build_views(&self) -> (r: Vec<String>)
        requires
            self.wf(),
        ensures
            texts(r@) == chosen(self@.order, build_due(self@)),
    {
        let mut r: Vec<String> = Vec::new();
        let n: usize = self.functions.len();
        let ghost order = self.functions.order();
        assert(texts(r@) =~= Seq::empty());
        for i in 0..n
            invariant
                n == order.len(),
                self.wf(),
                order == self.functions.order(),
                texts(r@) == chosen(order.take(i as int), build_due(self@)),
        {
            assert(order.take(i + 1).drop_last() =~= order.take(i as int));
            assert(order.take(i + 1).last() == order[i as int]);
            let name = self.functions.name_at(i);
            let info = self.functions.val_at(i);
            assert(self@.functions[name@] == info@);
            if info.merge_tree.is_some() {
                let wm: i64 = self.progress.watermarks.get_or(name.as_str(), 0);
                let last_at: i64 = self.last_termbuild_at.get_or(name.as_str(), 0);
                if wm >= last_at {
                    let ghost before = texts(r@);
                    r.push(name.clone());
                    assert(texts(r@) =~= before.push(name@));
                }
            }
        }
        assert(order.take(n as int) =~= order);
        r
    }

    /// The merge of a view's conflicts in the current iteration. `render` renders primitives.
    pub fn plan_term_build<F: Fn(&String, &Vec<String>) -> Option<String>>(
        &self,
        view: &str,
        render: &F,
    ) -> (r: Result<MergePlan, BuildError>)
        requires
            self.wf(),
            renders(*render),
            self@.functions.contains_key(view@),
            self@.functions[view@].merge_tree is Some,
        ensures
            ({
                let info = self@.functions[view@];
                let sc = scope_of(
                    self.function_names@,
                    self.functions@,
                    self.external_funcs,
                    *render,
                    numbered("b.c"@, info.inputs_len),
                );
                match merge_text(sc, info.merge_tree->0) {
                    Err(e) => r == Err::<MergePlan, BuildError>(e),
                    Ok(m) => r is Ok && plans_merge(
                        r->Ok_0,
                        view@,
                        info.inputs_len,
                        m,
                        value_or(self@.build_at, view@, 0) as int,
                        self@.next_ts as int,
                    ),
                }
            }),
    {
        let info = match self.functions.get(view) {
            Some(i) => i,
            None => return Err(BuildError::NoValue),
        };
        assert(self@.functions[view@] == info@);
        let tree = match &info.merge_tree {
            Some(t) => t,
            None => return Err(BuildError::NoValue),
        };
        let n: usize = info.inputs_len;
        let last: i64 = self.last_termbuild_at.get_or(view, 0);
        let cur: i64 = self.next_ts;
        let c = match compile_term_build(
            &self.function_names,
            &self.functions,
            &self.external_funcs,
            render,
            tree,
            n,
        ) {
            Ok(c) => c,
            Err(e) => return Err(e),
        };
        let guard = match &c.guard {
            Some(g) => Some(bind(guard_batch_sql(g.as_str()).as_str(), last, cur)),
            None => None,
        };
        let stmts = bind_all(&c.stmts, last, cur);
        let insert = insert_merged_sql(view, n, c.merged_expr.as_str());
        Ok(
            MergePlan {
                view: view.to_owned(),
                batch: bind(build_batch_sql(view, n).as_str(), last, cur),
                guard,
                stmts,
                written: c.written_tables,
                delete_old: bind(delete_side_sql(view, n, "old").as_str(), last, cur),
                delete_new: bind(delete_side_sql(view, n, "new").as_str(), last, cur),
                insert: bind(insert.as_str(), last, cur),
            },
        )
    }

    /// Notes that a view's conflicts are merged: there were `conflicts` of them, and the
    /// statements behind the count have affected as many rows as `counts` says. Without conflicts
    /// nothing was run.
    pub fn finish_term_build(&mut self, plan: &MergePlan, conflicts: u64, counts: &Vec<u64>) -> (r:
        u64)
        requires
            old(self).wf(),
        ensures
            final(self).wf(),
            r == conflicts,
            final(self)@ == (EgView {
                build_at: old(self)@.build_at.insert(plan.view@, old(self)@.next_ts),
                progress: if conflicts == 0 {
                    old(self)@.progress
                } else {
                    ProgressView {
                        affected: all_counted(old(self)@.progress.affected, counts@),
                        watermarks: bumped(
                            all_bumped(
                                old(self)@.progress.watermarks,
                                texts(plan.written@),
                                old(self)@.next_ts,
                            ),
                            plan.view@,
                            old(self)@.next_ts,
                        ),
                        ..old(self)@.progress
                    }
                },
                ..old(self)@
            }),
    {
        let cur: i64 = self.next_ts;
        if conflicts > 0 {
            let n: usize = counts.len();
            let ghost p0 = self.progress@;
            for i in 0..n
                invariant
                    n == counts@.len(),
                    self.wf(),
                    cur == self.next_ts,
                    p0 == old(self)@.progress,
                    self@ == (EgView {
                        progress: ProgressView {
                            affected: all_counted(p0.affected, counts@.take(i as int)),
                            ..p0
                        },
                        ..old(self)@
                    }),
            {
                assert(counts@.take(i + 1).drop_last() =~= counts@.take(i as int));
                self.progress.count_affected(counts[i]);
            }
            assert(counts@.take(n as int) =~= counts@);
            let m: usize = plan.written.len();
            let ghost p1 = self.progress@;
            let ghost ts = texts(plan.written@);
            assert(ts.take(0) =~= Seq::empty());
            for i in 0..m
                invariant
                    m == plan.written@.len(),
                    ts == texts(plan.written@),
                    self.wf(),
                    cur == self.next_ts,
                    self@ == (EgView {
                        progress: ProgressView {
                            watermarks: all_bumped(p1.watermarks, ts.take(i as int), cur),
                            ..p1
                        },
                        ..old(self)@
                    }),
            {
                assert(ts.take(i + 1).drop_last() =~= ts.take(i as int));
                assert(ts.take(i + 1).last() == ts[i as int]);
                self.progress.bump_watermark(plan.written[i].as_str(), cur);
            }
            assert(ts.take(m as int) =~= ts);
            self.progress.bump_watermark(plan.view.as_str(), cur);
        }
        self.last_termbuild_at.insert(plan.view.clone(), cur);
        conflicts
    }
}

/// Whether a plan unites the ids of a view's rows with equal keys directly.
pub open spec fn plans_inline(p: UnionPlan, g: EgView, view: Seq<char>) -> bool {
    let info = g.functions[view];
    let last = value_or(g.inline_at, view, 0) as int;
    &&& p.view@ == view
    &&& Some(p.target@) == info.eq_sort_pname
    &&& p.batch is None
    &&& p.insert@ == bound(
        inline_unions(p.target@, view, inline_keys(info) as nat),
        last,
        g.next_ts as int,
    )
}

/// Whether a plan unites the ids of a constructor's view by way of a batch.
pub open spec fn plans_native(p: UnionPlan, g: EgView, view: Seq<char>) -> bool {
    let info = g.functions[view];
    let last = value_or(g.native_at, view, 0) as int;
    &&& p.view@ == view
    &&& Some(p.target@) == info.native_congruence_uf
    &&& opt_text(p.batch) == Some(
        bound(native_batch(view, (info.inputs_len - 1) as nat), last, g.next_ts as int),
    )
    &&& p.insert@ == bound(native_edges(p.target@), last, g.next_ts as int)
}

/// The progress once `n` unions came to a table.
pub open spec fn with_unions(p: ProgressView, table: Seq<char>, n: u64, ts: i64) -> ProgressView {
    if n == 0 {
        p
    } else {
        ProgressView {
            affected: wrapped(p.affected, n),
            watermarks: bumped(p.watermarks, table, ts),
            ..p
        }
    }
}

impl EGraph {
    /// The inline congruence of a view, where it is due.
    fn inline_plan(&self, name: &String, info: &FunctionInfo) -> (r: Option<UnionPlan>)
        requires
            self.wf(),
            self@.functions[name@] == info@,
        ensures
            r is Some <==> inline_due(self@)(name@),
            r is Some ==> plans_inline(r->0, self@, name@),
    {
        let pname = match &info.eq_sort_pname {
            Some(p) => p,
            None => return None,
        };
        if info.cols.len() < 2 {
            return None;
        }
        let keys: usize = if info.eq_sort_ctor {
            info.inputs_len
        } else {
            info.cols.len() - 1
        };
        if keys == 0 {
            return None;
        }
        let wm: i64 = self.progress.watermarks.get_or(name.as_str(), 0);
        let last: i64 = self.last_inline_cong_at.get_or(name.as_str(), 0);
        if wm < last {
            return None;
        }
        let sql = inline_unions_sql(pname.as_str(), name.as_str(), keys);
        Some(
            UnionPlan {
                view: name.clone(),
                target: pname.clone(),
                batch: None,
                insert: bind(sql.as_str(), last, self.next_ts),
            },
        )
    }

    /// The inline congruence pass: one union for each view that has had a row since.
    pub fn plan_inline_congruence(&self) -> (r: Vec<UnionPlan>)
        requires
            self.wf(),
        ensures
            r@.len() == chosen(self@.order, inline_due(self@)).len(),
            forall|i: int|
                0 <= i < r@.len() ==> plans_inline(
                    #[trigger] r@[i],
                    self@,
                    chosen(self@.order, inline_due(self@))[i],
                ),
    {
        let mut r: Vec<UnionPlan> = Vec::new();
        let n: usize = self.functions.len();
        let ghost order = self.functions.order();
        let ghost due = inline_due(self@);
        for i in 0..n
            invariant
                n == order.len(),
                self.wf(),
                order == self.functions.order(),
                due == inline_due(self@),
                r@.len() == chosen(order.take(i as int), due).len(),
                forall|k: int|
                    0 <= k < r@.len() ==> plans_inline(
                        #[trigger] r@[k],
                        self@,
                        chosen(order.take(i as int), due)[k],
                    ),
        {
            assert(order.take(i + 1).drop_last() =~= order.take(i as int));
            assert(order.take(i + 1).last() == order[i as int]);
            let name = self.functions.name_at(i);
            let info = self.functions.val_at(i);
            assert(self@.functions[name@] == info@);
            match self.inline_plan(name, info) {
                Some(p) => {
                    r.push(p);
                },
                None => {},
            }
        }
        assert(order.take(n as int) =~= order);
        r
    }

    /// Notes that an inline congruence has written `n` unions.
    pub fn finish_inline_congruence(&mut self, plan: &UnionPlan, n: u64) -> (r: u64)
        requires
            old(self).wf(),
        ensures
            final(self).wf(),
            r == n,
            final(self)@ == (EgView {
                inline_at: old(self)@.inline_at.insert(plan.view@, old(self)@.next_ts),
                progress: with_unions(
                    old(self)@.progress,
                    plan.target@,
                    n,
                    old(self)@.next_ts,
                ),
                ..old(self)@
            }),
    {
        let cur: i64 = self.next_ts;
        if n > 0 {
            self.progress.count_affected(n);
            self.progress.bump_watermark(plan.target.as_str(), cur);
        }
        self.last_inline_cong_at.insert(plan.view.clone(), cur);
        n
    }

    /// The native congruence of a view, where it is due.
    fn native_plan(&self, name: &String, info: &FunctionInfo) -> (r: Option<UnionPlan>)
        requires
            self.wf(),
            self@.functions[name@] == info@,
        ensures
            r is Some <==> native_due(self@)(name@),
            r is Some ==> plans_native(r->0, self@, name@),
    {
        let uf = match &info.native_congruence_uf {
            Some(u) => u,
            None => return None,
        };
        if info.inputs_len < 2 {
            return None;
        }
        let wm: i64 = self.progress.watermarks.get_or(name.as_str(), 0);
        let last: i64 = self.last_native_cong_at.get_or(name.as_str(), 0);
        if wm < last {
            return None;
        }
        let batch = native_batch_sql(name.as_str(), info.inputs_len - 1);
        let edges = native_edges_sql(uf.as_str());
        Some(
            UnionPlan {
                view: name.clone(),
                target: uf.clone(),
                batch: Some(bind(batch.as_str(), last, self.next_ts)),
                insert: bind(edges.as_str(), last, self.next_ts),
            },
        )
    }

    /// The native congruence pass: one union for each constructor's view that has had a row since.
    pub fn plan_native_congruence(&self) -> (r: Vec<UnionPlan>)
        requires
            self.wf(),
        ensures
            r@.len() == chosen(self@.order, native_due(self@)).len(),
            forall|i: int|
                0 <= i < r@.len() ==> plans_native(
                    #[trigger] r@[i],
                    self@,
                    chosen(self@.order, native_due(self@))[i],
                ),
    {
        let mut r: Vec<UnionPlan> = Vec::new();
        let n: usize = self.functions.len();
        let ghost order = self.functions.order();
        let ghost due = native_due(self@);
        for i in 0..n
            invariant
                n == order.len(),
                self.wf(),
                order == self.functions.order(),
                due == native_due(self@),
                r@.len() == chosen(order.take(i as int), due).len(),
                forall|k: int|
                    0 <= k < r@.len() ==> plans_native(
                        #[trigger] r@[k],
                        self@,
                        chosen(order.take(i as int), due)[k],
                    ),
        {
            assert(order.take(i + 1).drop_last() =~= order.take(i as int));
            assert(order.take(i + 1).last() == order[i as int]);
            let name = self.functions.name_at(i);
            let info = self.functions.val_at(i);
            assert(self@.functions[name@] == info@);
            match self.native_plan(name, info) {
                Some(p) => {
                    r.push(p);
                },
                None => {},
            }
        }
        assert(order.take(n as int) =~= order);
        r
    }

    /// Notes that a native congruence has found `conflicts` and written `edges` unions. Without
    /// conflicts no union was written.
    pub fn finish_native_congruence(&mut self, plan: &UnionPlan, conflicts: u64, edges: u64) -> (r:
        u64)
        requires
            old(self).wf(),
        ensures
            final(self).wf(),
            r == conflicts,
            final(self)@ == (EgView {
                native_at: old(self)@.native_at.insert(plan.view@, old(self)@.next_ts),
                progress: if conflicts == 0 {
                    old(self)@.progress
                } else {
                    with_unions(
                        old(self)@.progress,
                        plan.target@,
                        edges,
                        old(self)@.next_ts,
                    )
                },
                ..old(self)@
            }),
    {
        let cur: i64 = self.next_ts;
        if conflicts > 0 && edges > 0 {
            self.progress.count_affected(edges);
            self.progress.bump_watermark(plan.target.as_str(), cur);
        }
        self.last_native_cong_at.insert(plan.view.clone(), cur);
        conflicts
    }

    /// Marks a view as one whose congruences go to a union-find's table.
    pub fn set_native_congruence(&mut self, view: &str, uf: String) -> (b: bool)
        requires
            old(self).wf(),
        ensures
            final(self).wf(),
            b == old(self)@.functions.contains_key(view@),
            final(self)@ == if b {
                EgView {
                    functions: old(self)@.functions.insert(
                        view@,
                        InfoView {
                            native_congruence_uf: Some(uf@),
                            ..old(self)@.functions[view@]
                        },
                    ),
                    ..old(self)@
                }
            } else {
                old(self)@
            },
    {
        let mut info = FunctionInfo::relation(Vec::new(), None);
        let known = self.functions.exchange(view, &mut info);
        if !known {
            return false;
        }
        info.native_congruence_uf = Some(uf);
        let ghost set = info@;
        self.functions.exchange(view, &mut info);
        assert(self@.functions =~= old(self)@.functions.insert(view@, set));
        true
    }
}

} // verus!
