//! When the passes and the rules are due, and what the passes' plans bring together.
use crate::duckdb::egraph::EgView;
use crate::duckdb::meaning::{column, Named, Query, Setting, Statement, Tables};
use crate::duckdb::names::quoted;
use crate::duckdb::pass_laws::{
    begins_as, build_batch_pairs_conflicting_rows, columns, conflicting, congruent,
    deletes_take_the_rows_of_the_batch, edge_columns, inline_unions_pair_congruent_rows,
    merged_rows_are_written_once, native_batch_pairs_congruent_rows, native_edges_unite_each_pair,
    same_keys, whole,
};
use crate::duckdb::passes::{
    build_due, inline_due, native_due, plans_inline, plans_merge, plans_native, touched, MergePlan,
    UnionPlan,
};
use crate::duckdb::runner::{bumped, gate_open, rule_fresh, CompiledRule, CompiledVariant};
use crate::duckdb::schema::{opt_text, InfoView};
use crate::duckdb::sql::bound;
use crate::duckdb::strmap::value_or;
use crate::duckdb::term_build::MergeText;
use crate::text::texts;
use vstd::prelude::*;

verus! {

// ---------------------------------------------------------------------------
// What is due
// ---------------------------------------------------------------------------

/// A row that comes to a table at or after the time at which a pass, a variant or a rule last looked
/// is seen: the view is touched, the variant's gate is open and the rule is fresh.
pub proof fn rows_since_the_last_look_are_seen(
    w: Map<Seq<char>, i64>,
    at: Map<Seq<char>, i64>,
    table: Seq<char>,
    ts: i64,
    v: CompiledVariant,
    r: CompiledRule,
    last: i64,
)
    ensures
        ts >= value_or(at, table, 0) ==> touched(bumped(w, table, ts), at, table),
        ts >= last && (v.gate_table matches Some(t) ==> t@ == table) ==> gate_open(
            v,
            bumped(w, table, ts),
            last,
        ),
        ts >= last && texts(r.body_tables@).contains(table) ==> rule_fresh(
            r,
            bumped(w, table, ts),
            last,
        ),
{
    if texts(r.body_tables@).contains(table) {
        let i = choose|i: int| 0 <= i < texts(r.body_tables@).len() && texts(r.body_tables@)[i] == table;
        assert(value_or(bumped(w, table, ts), texts(r.body_tables@)[i], 0) >= ts);
    }
}

/// What has had no row since the last look is left alone.
pub proof fn nothing_new_is_left_alone(
    w: Map<Seq<char>, i64>,
    at: Map<Seq<char>, i64>,
    table: Seq<char>,
    v: CompiledVariant,
    r: CompiledRule,
    last: i64,
)
    ensures
        value_or(w, table, 0) < value_or(at, table, 0) ==> !touched(w, at, table),
        v.gate_table matches Some(t) ==> (value_or(w, t@, 0) < last ==> !gate_open(v, w, last)),
        r.body_tables@.len() > 0 && (forall|i: int|
            0 <= i < texts(r.body_tables@).len() ==> value_or(w, #[trigger] texts(r.body_tables@)[i], 0)
                < last) ==> !rule_fresh(r, w, last),
        v.gate_table is None ==> gate_open(v, w, last),
        r.body_tables@.len() == 0 ==> rule_fresh(r, w, last),
{
}

/// The views that a pass takes up: the merge pass those with a merge that builds terms, the inline
/// pass those whose unions go to a table and that have a key beside the id, the native pass those
/// that are marked and have a child beside the id; each of them only where a row has come since.
pub proof fn passes_take_up_the_touched_views(g: EgView, view: Seq<char>)
    ensures
        ({
            let info = g.functions[view];
            let mark = value_or(g.progress.watermarks, view, 0);
            &&& build_due(g)(view) <==> info.merge_tree is Some && mark >= value_or(
                g.build_at,
                view,
                0,
            )
            &&& inline_due(g)(view) <==> info.eq_sort_pname is Some && info.cols.len() >= 2 && (
            info.eq_sort_ctor ==> info.inputs_len > 0) && mark >= value_or(g.inline_at, view, 0)
            &&& native_due(g)(view) <==> info.native_congruence_uf is Some && info.inputs_len >= 2
                && mark >= value_or(g.native_at, view, 0)
        }),
{
}

// ---------------------------------------------------------------------------
// What the plans bring together
// ---------------------------------------------------------------------------

/// Whether a query gives just the pairs of rows that agree on the first `n` columns and differ in the
/// next one, the id: the rest of a row behind the first `n` values is the greater id, then the lesser.
/// One of the rows came in the window, and both before its end.
pub open spec fn pairs_congruent_rows(q: Query, table: Seq<char>, n: nat) -> bool {
    forall|db: Tables, w: Setting, out: Seq<int>| #[trigger]
        q.gives(db, w, out) <==> exists|r1: Named, r2: Named| #[trigger]
            congruent(db(table), n, (w.params)(1), (w.params)(2), r1, r2) && out.len() == n + 2
                && begins_as(out, r1, n) && {
                let (a, b) = (r1(column(n)), r2(column(n)));
                &&& a > b ==> out[n as int] == a && out[n as int + 1] == b
                &&& a < b ==> out[n as int] == b && out[n as int + 1] == a
            }
}

/// A native congruence unites, in the union-find that the view is marked with, the ids of the rows
/// that agree on all columns but the last, with a row that came between the last pass and now.
pub proof fn native_plans_unite_congruent_rows(p: UnionPlan, g: EgView, view: Seq<char>)
    requires
        plans_native(p, g, view),
        g.functions[view].inputs_len >= 2,
    ensures
        p.view@ == view,
        Some(p.target@) == g.functions[view].native_congruence_uf,
        exists|q: Query|
            opt_text(p.batch) == Some(
                bound(
                    #[trigger] Statement::Collect("native_cong_batch"@, q).text(),
                    value_or(g.native_at, view, 0) as int,
                    g.next_ts as int,
                ),
            ) && pairs_congruent_rows(
                q,
                quoted(view),
                (g.functions[view].inputs_len - 1) as nat,
            ),
        exists|q: Query|
            p.insert@ == bound(
                #[trigger] Statement::Add(quoted(p.target@), edge_columns(), q).text(),
                value_or(g.native_at, view, 0) as int,
                g.next_ts as int,
            ) && (forall|db: Tables, w: Setting, out: Seq<int>| #[trigger]
                q.gives(db, w, out) <==> exists|b: Named| #[trigger]
                    db("native_cong_batch"@).contains(b) && out == seq![
                        b("loser"@),
                        b("winner"@),
                        (w.params)(2),
                    ]),
{
    let n = (g.functions[view].inputs_len - 1) as nat;
    native_batch_pairs_congruent_rows(view, n);
    native_edges_unite_each_pair(p.target@);
}

/// How many columns of a view have to agree for two of its rows to be congruent: a constructor's
/// inputs, or all columns of a relation but the last.
pub open spec fn child_columns(info: InfoView) -> nat {
    if info.eq_sort_ctor {
        info.inputs_len
    } else {
        (info.cols.len() - 1) as nat
    }
}

/// An inline congruence unites, in the table that the view names, the ids of the rows that agree on
/// all children, with a row that came between the last pass and now.
pub proof fn inline_plans_unite_congruent_rows(p: UnionPlan, g: EgView, view: Seq<char>)
    requires
        plans_inline(p, g, view),
        inline_due(g)(view),
    ensures
        p.view@ == view,
        Some(p.target@) == g.functions[view].eq_sort_pname,
        p.batch is None,
        exists|q: Query|
            p.insert@ == bound(
                #[trigger] Statement::Add(quoted(p.target@), edge_columns(), q).text(),
                value_or(g.inline_at, view, 0) as int,
                g.next_ts as int,
            ) && (forall|db: Tables, w: Setting, out: Seq<int>| #[trigger]
                q.gives(db, w, out) <==> exists|r1: Named, r2: Named| #[trigger]
                    congruent(
                        db(quoted(view)),
                        child_columns(g.functions[view]),
                        (w.params)(1),
                        (w.params)(2),
                        r1,
                        r2,
                    ) && {
                        let id = column(child_columns(g.functions[view]));
                        let (a, b) = (r1(id), r2(id));
                        &&& a > b ==> out == seq![a, b, (w.params)(2)]
                        &&& a < b ==> out == seq![b, a, (w.params)(2)]
                    }),
{
    inline_unions_pair_congruent_rows(p.target@, view, child_columns(g.functions[view]));
}

/// A merge collects the rows of the view that agree on all inputs and differ in the output, deletes
/// both, and writes for each pair one row with the inputs, the merged output and the time. Where the
/// merge has a condition, only the pairs that meet it are left in the batch.
pub proof fn merge_plans_replace_conflicting_rows(
    p: MergePlan,
    view: Seq<char>,
    n: nat,
    m: MergeText,
    last: int,
    cur: int,
)
    requires
        plans_merge(p, view, n, m, last, cur),
        n > 0,
    ensures
        p.view@ == view,
        exists|q: Query|
            p.batch@ == bound(#[trigger] Statement::Collect("batch"@, q).text(), last, cur) && (
            forall|db: Tables, w: Setting, out: Seq<int>| #[trigger]
                q.gives(db, w, out) <==> exists|r1: Named, r2: Named| #[trigger]
                    conflicting(db(quoted(view)), n, (w.params)(1), r1, r2) && out.len() == n + 2
                        && begins_as(out, r1, n) && out[n as int] == r1(column(n)) && out[n as int + 1]
                        == r2(column(n))),
        m.guard is None <==> p.guard is None,
        m.guard matches Some(c) ==> opt_text(p.guard) == Some(
            bound(
                "CREATE OR REPLACE TEMP TABLE batch AS SELECT * FROM batch b WHERE "@ + c,
                last,
                cur,
            ),
        ),
        exists|q: Query|
            p.delete_old@ == bound(
                #[trigger] Statement::Delete(quoted(view), columns((n + 1) as nat), q).text(),
                last,
                cur,
            ) && (forall|db: Tables, w: Setting, r: Named|
                #![trigger q.gives(db, w, whole(r, n))]
                q.gives(db, w, whole(r, n)) <==> exists|b: Named| #[trigger]
                    db("batch"@).contains(b) && same_keys(b, r, n) && r(column(n)) == b("old"@)),
        exists|q: Query|
            p.delete_new@ == bound(
                #[trigger] Statement::Delete(quoted(view), columns((n + 1) as nat), q).text(),
                last,
                cur,
            ) && (forall|db: Tables, w: Setting, r: Named|
                #![trigger q.gives(db, w, whole(r, n))]
                q.gives(db, w, whole(r, n)) <==> exists|b: Named| #[trigger]
                    db("batch"@).contains(b) && same_keys(b, r, n) && r(column(n)) == b("new"@)),
        exists|q: Query|
            p.insert@ == bound(
                #[trigger] Statement::Add(
                    quoted(view),
                    columns((n + 1) as nat).push("ts"@),
                    q,
                ).text(),
                last,
                cur,
            ) && (forall|db: Tables, w: Setting, out: Seq<int>| #[trigger]
                q.gives(db, w, out) <==> exists|b: Named| #[trigger]
                    db("batch"@).contains(b) && out.len() == n + 2 && begins_as(out, b, n)
                        && out[n as int] == (w.other)(
                        m.merged,
                        crate::duckdb::meaning::two_rows("b"@, b, b),
                    ) && out[n as int + 1] == (w.params)(2)),
{
    build_batch_pairs_conflicting_rows(view, n);
    deletes_take_the_rows_of_the_batch(view, n, "old"@);
    deletes_take_the_rows_of_the_batch(view, n, "new"@);
    merged_rows_are_written_once(view, n, m.merged);
}

} // verus!
