//! Which rules an iteration runs, on which rows, and what it keeps account of.
use crate::backend::ExternalFunctionId;
use crate::duckdb::drive::merge_pass;
use crate::duckdb::egraph::{
    allocated_statement, canon_udf, constructor_info, effective_table, exists_statement,
    function_info, insert_statement, lookup_statement, prepared_gates, prepared_rule, public_tables,
    relation_info, rule_dropped, sizes_of, tables_of_body, with_names, EgView, NativeUf, TableError,
};
use crate::duckdb::iterate::{
    as_size, changed_statements, chosen_mode, count_sum, gated, newest, planned, scan_of,
    scanned_tables, takes, Selection, UnionRow,
};
use crate::duckdb::names::{family, stem, uf_maintenance};
use crate::duckdb::perf::{explanation, ExplainedView};
use crate::duckdb::rules::{AtomView, RuleView};
use crate::duckdb::runner::{
    after_action, due, rendering, with_time, CompiledRule, CompiledVariant, GateMode, ProgressView,
    Rendering, RequestView, Step,
};
use crate::duckdb::schema::{opt_text, ColumnTy, MergeModeView};
use crate::duckdb::sql::{
    bound, count_rows, count_where, insert_changed, insert_select, insert_values, lookup_output,
    parameters, unions_after,
};
use crate::duckdb::strmap::{value_or, with_name};
use crate::text::{begins_with, first_at, signed_decimal, texts};
use crate::text_laws::stands_before;
use vstd::prelude::*;
use vstd::string::*;

verus! {

// ---------------------------------------------------------------------------
// The rules of an iteration
// ---------------------------------------------------------------------------

/// An iteration runs, in the order of the positions that it looks at, just the rules that its selection
/// takes, each with the time at which it last ran.
pub proof fn iterations_run_the_selected_rules(
    g: EgView,
    s: Selection,
    a: Seq<usize>,
    b: Seq<usize>,
)
    ensures
        planned(g, s, a + b) == planned(g, s, a) + planned(g, s, b),
        a.len() == 0 ==> planned(g, s, a).len() == 0,
        a.len() == 1 ==> planned(g, s, a) == if a[0] < g.rules.len() && takes(
            g,
            s,
            g.rules[a[0] as int],
        ) {
            seq![(a[0], value_or(g.last_run_at, g.rules[a[0] as int].name@, 0))]
        } else {
            Seq::empty()
        },
    decreases b.len(),
{
    if a.len() == 1 {
        assert(a.drop_last() =~= Seq::empty());
        assert(planned(g, s, a.drop_last()) =~= Seq::empty());
        assert(a.last() == a[0]);
        assert(planned(g, s, a) =~= if a[0] < g.rules.len() && takes(g, s, g.rules[a[0] as int]) {
            seq![(a[0], value_or(g.last_run_at, g.rules[a[0] as int].name@, 0))]
        } else {
            Seq::empty()
        });
    }
    if b.len() == 0 {
        assert(a + b =~= a);
        assert(planned(g, s, a) + planned(g, s, b) =~= planned(g, s, a));
    } else {
        iterations_run_the_selected_rules(g, s, a, b.drop_last());
        assert((a + b).drop_last() =~= a + b.drop_last());
        assert((a + b).last() == b.last());
        assert(planned(g, s, a + b) =~= planned(g, s, a) + planned(g, s, b));
    }
}

/// The rules that a selection takes: those of the named ruleset or rulesets, or all of them where none
/// is named. Under the in-core union-find the rules that keep the union-find tables are left out; and
/// so are congruence rules, unless several rulesets or positions are named.
pub proof fn selections_take_rules_by_ruleset(g: EgView, s: Selection, r: CompiledRule)
    ensures
        ({
            let upkeep = g.native_uf && uf_maintenance(r.ruleset@);
            match s {
                Selection::Ruleset(None) => takes(g, s, r) <==> !upkeep && !(g.native_uf && stem(r.name@)
                    == "congruence_rule"@),
                Selection::Ruleset(Some(n)) => takes(g, s, r) <==> n@ == r.ruleset@ && !upkeep && !(
                g.native_uf && stem(r.name@) == "congruence_rule"@),
                Selection::Any(names) => takes(g, s, r) <==> !upkeep && (names@.len() == 0 || texts(
                    names@,
                ).contains(r.ruleset@)),
                Selection::Indices(_) => takes(g, s, r) <==> !upkeep,
            }
        }),
        merge_pass(g, s) ==> g.native_uf,
        g.native_uf ==> (s matches Selection::Ruleset(Some(n)) ==> (merge_pass(g, s) <==> stem(n@)
            == "rebuilding"@)),
        g.native_uf ==> (s matches Selection::Ruleset(None) ==> merge_pass(g, s)),
        g.native_uf ==> (s is Indices ==> merge_pass(g, s)) && (s is Any ==> !merge_pass(g, s)),
{
}

/// A variant runs its restricted form in the mode that asks for it, where it has one, with its own
/// actions where that form has none; else it runs its own form.
pub proof fn variants_run_the_form_of_the_mode(v: CompiledVariant, mode: GateMode)
    ensures
        mode is FullScan || v.delta is None ==> rendering(v, mode).materialize == opt_text(v.materialize)
            && rendering(v, mode).temp == opt_text(v.temp_table) && rendering(v, mode).actions
            == v.actions@,
        mode is Delta ==> (v.delta matches Some(d) ==> rendering(v, mode).materialize == opt_text(
            d.materialize,
        ) && rendering(v, mode).temp == opt_text(d.temp_table) && rendering(v, mode).actions == if
            d.actions@.len() == 0 {
            v.actions@
        } else {
            d.actions@
        }),
{
}

/// A rule's statements are run on the window from the time at which it last ran up to now; the matches
/// that are counted are those of the table that they were written to.
pub proof fn statements_are_run_on_the_window(
    r: CompiledRule,
    last: i64,
    cur: i64,
    mode: GateMode,
    variant: int,
    k: usize,
)
    requires
        0 <= variant < r.variants@.len(),
    ensures
        ({
            let e = rendering(r.variants@[variant], mode);
            &&& due(r, last, cur, mode, variant, Step::Enter) == RequestView::Materialize(
                bound(e.materialize->0, last as int, cur as int),
            )
            &&& due(r, last, cur, mode, variant, Step::Count) == RequestView::Count(
                count_rows(e.temp->0),
            )
            &&& due(r, last, cur, mode, variant, Step::Act(k)) == RequestView::Act(
                bound(e.actions[k as int].sql@, last as int, cur as int),
            )
        }),
        due(r, last, cur, mode, r.variants@.len() as int, Step::Enter) == RequestView::Done,
{
}

/// The restricted form is chosen just where the in-core union-find is on, there are rows to scan, and
/// neither the ids that changed last nor all that changed are more than the threshold.
pub proof fn few_changes_choose_the_restricted_form(g: EgView, id_space: usize, threshold: usize)
    ensures
        chosen_mode(g, id_space, threshold) is Delta <==> g.native_uf && id_space > 0 && g.recent
            <= threshold && g.changed.len() <= threshold,
{
}

/// The tables that a full scan reads are those of the bodies of rules with a gated variant.
pub proof fn full_scans_read_the_gated_rules(rules: Seq<CompiledRule>, t: Seq<char>)
    ensures
        scanned_tables(rules).contains(t) <==> exists|i: int|
            0 <= i < rules.len() && gated(#[trigger] rules[i]) && texts(
                rules[i].body_tables@,
            ).contains(t),
        scanned_tables(rules).no_duplicates(),
    decreases rules.len(),
{
    if rules.len() > 0 {
        let less = rules.drop_last();
        full_scans_read_the_gated_rules(less, t);
        let last = rules.len() - 1;
        assert(rules[last] == rules.last());
        lemma_with_names(scanned_tables(less), texts(rules.last().body_tables@), t);
        if scanned_tables(less).contains(t) {
            let i = choose|i: int|
                0 <= i < less.len() && gated(#[trigger] less[i]) && texts(
                    less[i].body_tables@,
                ).contains(t);
            assert(rules[i] == less[i]);
        }
        if exists|i: int|
            0 <= i < rules.len() && gated(#[trigger] rules[i]) && texts(
                rules[i].body_tables@,
            ).contains(t) {
            let i = choose|i: int|
                0 <= i < rules.len() && gated(#[trigger] rules[i]) && texts(
                    rules[i].body_tables@,
                ).contains(t);
            if i < last {
                assert(less[i] == rules[i]);
            }
        }
    }
}

proof fn lemma_with_name(names: Seq<Seq<char>>, n: Seq<char>, t: Seq<char>)
    ensures
        with_name(names, n).contains(t) <==> names.contains(t) || n == t,
        names.no_duplicates() ==> with_name(names, n).no_duplicates(),
{
    crate::feldera::expr::lemma_push_contains(names, n);
}

proof fn lemma_with_names(names: Seq<Seq<char>>, more: Seq<Seq<char>>, t: Seq<char>)
    ensures
        with_names(names, more).contains(t) <==> names.contains(t) || more.contains(t),
        names.no_duplicates() ==> with_names(names, more).no_duplicates(),
    decreases more.len(),
{
    if more.len() > 0 {
        let less = more.drop_last();
        lemma_with_names(names, less, t);
        lemma_with_name(with_names(names, less), more.last(), t);
        crate::feldera::expr::lemma_push_contains(less, more.last());
        assert(less.push(more.last()) =~= more);
    }
}

/// A rule waits for the tables of its body's atoms, for each of them once; for that of the unions where
/// an atom is one of a union-find.
pub proof fn rules_wait_for_the_tables_of_their_bodies(g: EgView, body: Seq<AtomView>, t: Seq<char>)
    ensures
        tables_of_body(g, body).no_duplicates(),
        tables_of_body(g, body).contains(t) <==> exists|i: int|
            0 <= i < body.len() && ((#[trigger] body[i]) matches AtomView::Func(name, args) && t
                == if g.functions.contains_key(name) && g.functions[name].native_uf_udf is Some
                && g.pnames.contains_key(name) {
                g.pnames[name]
            } else {
                name
            }),
    decreases body.len(),
{
    if body.len() > 0 {
        let less = body.drop_last();
        let last = body.len() - 1;
        rules_wait_for_the_tables_of_their_bodies(g, less, t);
        assert(body[last] == body.last());
        if let AtomView::Func(name, args) = body.last() {
            lemma_with_name(tables_of_body(g, less), effective_table(g, name), t);
        }
        if tables_of_body(g, less).contains(t) {
            let i = choose|i: int|
                0 <= i < less.len() && ((#[trigger] less[i]) matches AtomView::Func(name, args) && t
                    == if g.functions.contains_key(name) && g.functions[name].native_uf_udf is Some
                    && g.pnames.contains_key(name) {
                    g.pnames[name]
                } else {
                    name
                });
            assert(body[i] == less[i]);
        }
        if exists|i: int|
            0 <= i < body.len() && ((#[trigger] body[i]) matches AtomView::Func(name, args) && t
                == if g.functions.contains_key(name) && g.functions[name].native_uf_udf is Some
                && g.pnames.contains_key(name) {
                g.pnames[name]
            } else {
                name
            }) {
            let i = choose|i: int|
                0 <= i < body.len() && ((#[trigger] body[i]) matches AtomView::Func(name, args) && t
                    == if g.functions.contains_key(name) && g.functions[name].native_uf_udf is Some
                    && g.pnames.contains_key(name) {
                    g.pnames[name]
                } else {
                    name
                });
            if i < last {
                assert(less[i] == body[i]);
            }
        }
    }
}

/// Without the in-core union-find a rule is compiled as it stands, and waits for no union table; with it
/// the rules that keep the union-find tables, or drain their changes, are left out, and only rebuild
/// rules wait for union tables.
pub proof fn rules_are_prepared_for_the_union_find(g: EgView, r: RuleView)
    ensures
        !g.native_uf ==> !rule_dropped(g, r) && prepared_rule(g, r) == r && prepared_gates(g, r).len()
            == 0,
        g.native_uf ==> (rule_dropped(g, r) <==> uf_maintenance(r.ruleset) || family(r.name)
            == "uf_change_drain_rule"@),
        g.native_uf && family(r.name) != "rebuild_rule"@ ==> prepared_gates(g, r).len() == 0
            && prepared_rule(g, r).body.len() == r.body.len(),
        prepared_rule(g, r).name == r.name && prepared_rule(g, r).ruleset == r.ruleset,
        prepared_rule(g, r).actions.len() == r.actions.len(),
{
}

// ---------------------------------------------------------------------------
// The unions that are taken over
// ---------------------------------------------------------------------------

/// A union-find has then taken all unions up to the newest of those that came: no time is above it, and
/// it is one of them, or the time before.
pub proof fn syncs_end_at_the_newest_union(rows: Seq<UnionRow>, since: i64)
    ensures
        newest(rows, since) >= since,
        forall|i: int| 0 <= i < rows.len() ==> (#[trigger] rows[i]).2 <= newest(rows, since),
        newest(rows, since) == since || exists|i: int|
            0 <= i < rows.len() && (#[trigger] rows[i]).2 == newest(rows, since),
    decreases rows.len(),
{
    if rows.len() > 0 {
        let less = rows.drop_last();
        let last = rows.len() - 1;
        syncs_end_at_the_newest_union(less, since);
        assert(rows[last] == rows.last());
        assert forall|i: int| 0 <= i < rows.len() implies (#[trigger] rows[i]).2 <= newest(
            rows,
            since,
        ) by {
            if i < last {
                assert(less[i] == rows[i]);
            }
        }
        if newest(less, since) != since {
            let i = choose|i: int|
                0 <= i < less.len() && (#[trigger] less[i]).2 == newest(less, since);
            assert(rows[i] == less[i]);
        }
    }
}

/// A union-find is brought up to date with the unions behind the newest that it has taken, where its
/// table has had a row since.
pub proof fn syncs_ask_for_what_is_new(g: EgView, u: NativeUf, p: Seq<char>)
    requires
        g.pnames.contains_key(u.name@),
        g.pnames[u.name@] == p,
    ensures
        value_or(g.progress.watermarks, p, 0) > u.last_sync ==> scan_of(g, u) == Some(
            unions_after(p, u.last_sync as int),
        ),
        value_or(g.progress.watermarks, p, 0) <= u.last_sync ==> scan_of(g, u) is None,
{
}

/// The table of changed ids is made anew, and then filled where there are ids.
pub proof fn changed_ids_replace_the_old_ones(ids: Seq<i64>)
    ensures
        changed_statements(ids).len() == if ids.len() == 0 {
            1int
        } else {
            2
        },
        changed_statements(ids)[0] == "CREATE OR REPLACE TEMP TABLE __UF_CHANGED__ (id BIGINT)"@,
        ids.len() > 0 ==> changed_statements(ids)[1] == insert_changed(ids),
{
}

/// The size that counts add up to: the sum of two lists is that of the two sums, and a sum that fits
/// is itself.
pub proof fn counts_add_up(a: Seq<i64>, b: Seq<i64>)
    ensures
        count_sum(a + b) == count_sum(a) + count_sum(b),
        a.len() == 1 ==> count_sum(a) == a[0],
        0 <= count_sum(a) <= usize::MAX ==> as_size(count_sum(a)) == count_sum(a),
        count_sum(a) < 0 ==> as_size(count_sum(a)) == 0,
        count_sum(a) > usize::MAX ==> as_size(count_sum(a)) == usize::MAX,
    decreases b.len(),
{
    if a.len() == 1 {
        assert(a.drop_last() =~= Seq::empty());
        assert(count_sum(a.drop_last()) == 0);
    }
    if b.len() == 0 {
        assert(a + b =~= a);
    } else {
        counts_add_up(a, b.drop_last());
        assert((a + b).drop_last() =~= a + b.drop_last());
        assert((a + b).last() == b.last());
    }
}

// ---------------------------------------------------------------------------
// Accounts
// ---------------------------------------------------------------------------

/// An action adds the rows that it affected, and its time, to the counts; where there are any, its
/// table has a row of now. Nothing else changes.
pub proof fn actions_are_counted(
    p: ProgressView,
    e: Rendering,
    k: int,
    cur: i64,
    n: u64,
    ns: u64,
    t: Seq<char>,
)
    ensures
        ({
            let q = after_action(p, e, k, cur, n, ns);
            &&& p.affected + n <= u64::MAX ==> q.affected == p.affected + n
            &&& q.skipped == p.skipped && q.perf == p.perf && q.perf_order == p.perf_order
            &&& q.times.0 == p.times.0
            &&& e.materialize is Some ==> q.times.2 == p.times.2 && (p.times.1 + ns <= u64::MAX
                ==> q.times.1 == p.times.1 + ns)
            &&& e.materialize is None ==> q.times.1 == p.times.1 && (p.times.2 + ns <= u64::MAX
                ==> q.times.2 == p.times.2 + ns)
            &&& n == 0 || e.actions[k].target is None ==> q.watermarks == p.watermarks
            &&& n > 0 ==> (e.actions[k].target matches Some(x) ==> value_or(q.watermarks, x@, 0) >= cur
                && (t != x@ ==> value_or(q.watermarks, t, 0) == value_or(p.watermarks, t, 0)))
        }),
{
}

/// A rule's time is added to its account; the other accounts stay.
pub proof fn times_are_added_to_accounts(
    p: ProgressView,
    rule: Seq<char>,
    mat: u64,
    act: u64,
    other: Seq<char>,
)
    ensures
        ({
            let q = with_time(p, rule, mat, act);
            let was = if p.perf.contains_key(rule) {
                p.perf[rule]
            } else {
                (0u64, 0u64)
            };
            &&& mat == 0 && act == 0 ==> q == p
            &&& mat > 0 || act > 0 ==> q.perf.contains_key(rule)
            &&& (mat > 0 || act > 0) && was.0 + mat <= u64::MAX ==> q.perf[rule].0 == was.0 + mat
            &&& (mat > 0 || act > 0) && was.1 + act <= u64::MAX ==> q.perf[rule].1 == was.1 + act
            &&& other != rule ==> (q.perf.contains_key(other) <==> p.perf.contains_key(other))
            &&& other != rule && p.perf.contains_key(other) ==> q.perf[other] == p.perf[other]
        }),
{
}

/// What is explained is the query of a statement that makes a table, from its `SELECT` on, over all
/// rows up to now.
pub proof fn queries_are_explained(a: Seq<char>, b: Seq<char>, cur: int)
    requires
        !stands_before(a + " AS SELECT "@ + b, " AS SELECT "@, a.len() as int),
    ensures
        explanation(Some(a + " AS SELECT "@ + b), cur) == ExplainedView::Query(
            "EXPLAIN ANALYZE "@ + bound("SELECT "@ + b, 0, cur),
        ),
        explanation(None, cur) == ExplainedView::NoMaterialize,
{
    let s = a + " AS SELECT "@ + b;
    let mark = " AS SELECT "@;
    reveal_strlit(" AS SELECT ");
    reveal_strlit("SELECT ");
    let n = a.len() as int;
    assert(s.subrange(n, n + mark.len()) =~= mark);
    lemma_found(s, mark, n, 0);
    assert(s.skip(a.len() as int + 4) =~= "SELECT "@ + b);
}

proof fn lemma_found(s: Seq<char>, mark: Seq<char>, n: int, from: int)
    requires
        0 <= from <= n,
        n + mark.len() <= s.len(),
        s.subrange(n, n + mark.len()) == mark,
        !stands_before(s, mark, n),
    ensures
        first_at(s, mark, from) == Some(n),
    decreases n - from,
{
    if from == n {
        assert(s.skip(n).take(mark.len() as int) =~= s.subrange(n, n + mark.len()));
    } else {
        assert(!begins_with(s.skip(from), mark));
        lemma_found(s, mark, n, from + 1);
    }
}

// ---------------------------------------------------------------------------
// Tables and rows
// ---------------------------------------------------------------------------

/// A row goes into a registered table that has a column for each of its values, at the current time; a
/// query for a match names all columns or all inputs, and one for an output all inputs of a function
/// whose output is an integer. A constructor's row is its inputs and the id that was drawn for them.
pub proof fn rows_fit_their_tables(
    g: EgView,
    name: Seq<char>,
    args: Seq<Seq<char>>,
    n: nat,
    id: int,
)
    ensures
        !g.functions.contains_key(name) ==> insert_statement(g, name, args, true) == Err::<Seq<char>, _>(
            TableError::Unknown,
        ) && insert_statement(g, name, args, false) == Err::<Seq<char>, _>(TableError::Unknown)
            && exists_statement(g, name, n) == Err::<Seq<char>, _>(TableError::Unknown)
            && lookup_statement(g, name, n) == Err::<Seq<char>, _>(TableError::Unknown),
        g.functions.contains_key(name) ==> {
            let info = g.functions[name];
            &&& args.len() == info.cols.len() ==> insert_statement(g, name, args, false) == Ok::<
                _,
                TableError,
            >(insert_values(name, info, args, g.next_ts as int)) && insert_statement(
                g,
                name,
                args,
                true,
            ) == Ok::<_, TableError>(insert_select(name, info, args, g.next_ts as int))
            &&& args.len() != info.cols.len() ==> insert_statement(g, name, args, false) is Err
                && insert_statement(g, name, args, true) is Err
            &&& exists_statement(g, name, n) == Ok::<_, TableError>(count_where(name, parameters(n)))
                <==> n == info.cols.len() || n == info.inputs_len
            &&& lookup_statement(g, name, n) == Ok::<_, TableError>(lookup_output(name, n))
                <==> info.merge is Some && n == info.inputs_len && n < info.cols.len()
                && info.cols[n as int] == ColumnTy::I64
            &&& info.eq_sort_ctor && args.len() == info.inputs_len ==> allocated_statement(
                g,
                name,
                args,
                id,
            ) == insert_statement(g, name, args.push(signed_decimal(id)), false)
            &&& !info.eq_sort_ctor || args.len() != info.inputs_len ==> allocated_statement(
                g,
                name,
                args,
                id,
            ) is Err
        },
{
}

/// A relation's columns are all inputs; a function's last column is its output, a constructor's the
/// integer id of its term. Just a function has one row for its inputs.
pub proof fn declarations_describe_their_columns(
    inputs: Seq<ColumnTy>,
    output: ColumnTy,
    merge: MergeModeView,
    pname: Option<Seq<char>>,
)
    ensures
        ({
            let r = relation_info(inputs, pname);
            let f = function_info(inputs, output, merge, None);
            let c = constructor_info(inputs, pname);
            &&& r.cols == inputs && r.inputs_len == inputs.len() && r.key_width() == inputs.len()
            &&& r.merge is None && !r.eq_sort_ctor && r.eq_sort_pname == pname
            &&& f.cols.len() == inputs.len() + 1 && f.cols.last() == output && f.inputs_len
                == inputs.len() && f.key_width() == inputs.len()
            &&& f.merge == Some(merge) && !f.eq_sort_ctor && f.eq_sort_pname is None
            &&& c.cols.len() == inputs.len() + 1 && c.cols.last() == ColumnTy::I64 && c.inputs_len
                == inputs.len() && c.key_width() == inputs.len() + 1
            &&& c.merge is None && c.eq_sort_ctor && c.eq_sort_pname == pname
            &&& forall|i: int|
                0 <= i < inputs.len() ==> f.cols[i] == #[trigger] inputs[i] && c.cols[i] == inputs[i]
        }),
{
}

/// The tables whose sizes are asked for are those whose name does not begin with an at sign, in their
/// order.
pub proof fn generated_tables_are_not_sized(a: Seq<Seq<char>>, b: Seq<Seq<char>>, n: Seq<char>)
    ensures
        public_tables(a + b) == public_tables(a) + public_tables(b),
        n.len() > 0 && n[0] == '@' ==> public_tables(seq![n]).len() == 0,
        n.len() == 0 || n[0] != '@' ==> public_tables(seq![n]) == seq![n],
    decreases b.len(),
{
    reveal_strlit("@");
    let one = seq![n];
    assert(one.drop_last() =~= Seq::empty());
    assert(one.last() == n);
    assert(public_tables(one.drop_last()) =~= Seq::empty());
    assert(begins_with(n, "@"@) <==> n.len() > 0 && n[0] == '@') by {
        if n.len() > 0 && n[0] == '@' {
            assert(n.take(1) =~= "@"@);
        }
        if begins_with(n, "@"@) {
            assert(n.take(1)[0] == "@"@[0]);
        }
    }
    if n.len() == 0 || n[0] != '@' {
        assert(public_tables(one) =~= seq![n]);
    }
    if b.len() == 0 {
        assert(a + b =~= a);
        assert(public_tables(a) + public_tables(b) =~= public_tables(a));
    } else {
        generated_tables_are_not_sized(a, b.drop_last(), n);
        assert((a + b).drop_last() =~= a + b.drop_last());
        assert((a + b).last() == b.last());
        assert(public_tables(a + b) =~= public_tables(a) + public_tables(b));
    }
}

/// Each table's size is the count at its place.
pub proof fn sizes_are_the_counts(names: Seq<Seq<char>>, counts: Seq<i64>, i: int)
    requires
        names.no_duplicates(),
        names.len() == counts.len(),
        0 <= i < names.len(),
    ensures
        sizes_of(names, counts).contains_key(names[i]),
        sizes_of(names, counts)[names[i]] == counts[i],
    decreases names.len(),
{
    lemma_sizes(names, counts, i);
}

proof fn lemma_sizes(names: Seq<Seq<char>>, counts: Seq<i64>, i: int)
    requires
        names.no_duplicates(),
        names.len() <= counts.len(),
        0 <= i < names.len(),
    ensures
        sizes_of(names, counts).contains_key(names[i]),
        sizes_of(names, counts)[names[i]] == counts[i],
    decreases names.len(),
{
    let less = names.drop_last();
    let last = names.len() - 1;
    assert(names[last] == names.last());
    if i < last {
        assert(less[i] == names[i]);
        assert(names[i] != names[last]);
        lemma_sizes(less, counts, i);
    }
}

/// A canonicalizing primitive stands for the find function that it was last bound to.
pub proof fn last_binding_counts(
    ids: Seq<(ExternalFunctionId, Seq<char>)>,
    id: ExternalFunctionId,
    other: ExternalFunctionId,
    udf: Seq<char>,
)
    ensures
        canon_udf(ids.push((id, udf)), id) == Some(udf),
        other != id ==> canon_udf(ids.push((id, udf)), other) == canon_udf(ids, other),
        canon_udf(Seq::empty(), id) is None,
{
    assert(ids.push((id, udf)).drop_last() =~= ids);
}

} // verus!
