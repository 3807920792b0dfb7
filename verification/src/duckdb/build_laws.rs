//! What the statements and expressions of a merge that builds terms mean.
use crate::backend::MergeFn;
use crate::duckdb::meaning::{
    column, two_rows, ColRef, Expr, From, Item, Named, Query, Setting, Statement,
};
use crate::duckdb::names::quoted;
use crate::duckdb::pass_laws::columns;
use crate::duckdb::schema::InfoView;
use crate::duckdb::sql::{conflict, numbered};
use crate::duckdb::term_build::{
    arguments, body_of, columns_are, effect_of, effects_of, hashcons_text, merge_text, mint_text,
    nothing_built, sequence_of, value_of, values_of, view_insert_text, BuildError, Built, MergeText,
    Scope,
};
use crate::text::{decimal, joined, signed_decimal};
use vstd::prelude::*;
use vstd::string::*;

verus! {

// ---------------------------------------------------------------------------
// What an expression reads
// ---------------------------------------------------------------------------

/// Whether a text is an expression whose value, on each row of the batch, is that of a column.
pub open spec fn reads(t: Seq<char>, name: Seq<char>) -> bool {
    exists|e: Expr|
        t == #[trigger] e.text() && forall|b: Named, w: Setting| #[trigger]
            e.value(two_rows("b"@, b, b), w) == b(name)
}

proof fn lemma_reads(name: Seq<char>)
    ensures
        reads("b"@ + "."@ + name, name),
{
    let e = Expr::Col(ColRef { row: "b"@, name });
    assert(e.text() == "b"@ + "."@ + name);
    assert forall|b: Named, w: Setting| #[trigger] e.value(two_rows("b"@, b, b), w) == b(name) by {}
}

/// The old output of a merge is that of the batch's column `old`, the new one that of `new`, and a key
/// column that of the same number; none of them needs a statement. A constant stands for itself.
pub proof fn leaves_read_the_batch(sc: Scope, st: Built, i: usize, n: nat)
    requires
        sc.keys == numbered("b.c"@, n),
    ensures
        value_of(sc, MergeFn::Old, st) matches Ok((s, t)) && s == st && reads(t, "old"@),
        value_of(sc, MergeFn::New, st) matches Ok((s, t)) && s == st && reads(t, "new"@),
        value_of(sc, MergeFn::OldCol(0), st) == value_of(sc, MergeFn::Old, st),
        value_of(sc, MergeFn::NewCol(0), st) == value_of(sc, MergeFn::New, st),
        i < n ==> (value_of(sc, MergeFn::KeyCol(i), st) matches Ok((s, t)) && s == st && reads(
            t,
            column(i as nat),
        )),
        i >= n ==> value_of(sc, MergeFn::KeyCol(i), st) is Err,
{
    reveal_strlit("b.old");
    reveal_strlit("b.new");
    reveal_strlit("b.c");
    reveal_strlit("b");
    reveal_strlit(".");
    reveal_strlit("old");
    reveal_strlit("new");
    reveal_strlit("c");
    assert("b.old"@ =~= "b"@ + "."@ + "old"@);
    assert("b.new"@ =~= "b"@ + "."@ + "new"@);
    lemma_reads("old"@);
    lemma_reads("new"@);
    if i < n {
        assert("b.c"@ + decimal(i as nat) =~= "b"@ + "."@ + ("c"@ + decimal(i as nat)));
        lemma_reads(column(i as nat));
    }
}

// ---------------------------------------------------------------------------
// Terms
// ---------------------------------------------------------------------------

/// The search for a term: the least value of a column among the rows of a table whose columns are the
/// given expressions.
pub struct Search {
    pub out: Seq<char>,
    pub table: Seq<char>,
    pub tests: Seq<(Seq<char>, Seq<char>)>,
}

impl Search {
    pub open spec fn text(self) -> Seq<char> {
        let head = "(SELECT MIN("@ + self.out + ") FROM "@ + self.table;
        if self.tests.len() == 0 {
            head + ")"@
        } else {
            head + " WHERE "@ + joined(
                self.tests.map_values(|t: (Seq<char>, Seq<char>)| t.0 + " = "@ + t.1),
                " AND "@,
            ) + ")"@
        }
    }

    /// Whether a row passes the tests; `val` are the values of expressions.
    pub open spec fn takes(self, row: Named, val: spec_fn(Seq<char>) -> int) -> bool {
        forall|i: int| 0 <= i < self.tests.len() ==> row((#[trigger] self.tests[i]).0) == val(
            self.tests[i].1,
        )
    }

    /// Whether the search gives `id` on the rows of the table.
    pub open spec fn gives(self, rows: Set<Named>, val: spec_fn(Seq<char>) -> int, id: int) -> bool {
        &&& exists|r: Named| #[trigger] rows.contains(r) && self.takes(r, val) && r(self.out) == id
        &&& forall|r: Named| #[trigger] rows.contains(r) && self.takes(r, val) ==> id <= r(self.out)
    }
}

/// Whether a row has the values of the children, column by column.
pub open spec fn has_children(row: Named, children: Seq<Seq<char>>, val: spec_fn(Seq<char>) -> int) -> bool {
    forall|i: int| 0 <= i < children.len() ==> row(column(i as nat)) == val(#[trigger] children[i])
}

/// The expression of a term gives the least id of the rows of its table that have all its children.
pub proof fn terms_are_found_by_all_children(
    table: Seq<char>,
    info: InfoView,
    children: Seq<Seq<char>>,
)
    ensures
        exists|s: Search|
            hashcons_text(table, info, children) == #[trigger] s.text() && s.table == quoted(table)
                && forall|rows: Set<Named>, val: spec_fn(Seq<char>) -> int, id: int| #[trigger]
                s.gives(rows, val, id) <==> {
                    let out = column(info.inputs_len);
                    &&& exists|r: Named| #[trigger]
                        rows.contains(r) && has_children(r, children, val) && r(out) == id
                    &&& forall|r: Named| #[trigger]
                        rows.contains(r) && has_children(r, children, val) ==> id <= r(out)
                },
{
    let tests = Seq::new(children.len(), |i: int| (column(i as nat), children[i]));
    let s = Search { out: column(info.inputs_len), table: quoted(table), tests };
    reveal_strlit("(SELECT MIN(c");
    reveal_strlit("(SELECT MIN(");
    reveal_strlit("c");
    assert("(SELECT MIN(c"@ =~= "(SELECT MIN("@ + "c"@);
    assert("(SELECT MIN(c"@ + decimal(info.inputs_len) =~= "(SELECT MIN("@ + column(info.inputs_len));
    let written = tests.map_values(|t: (Seq<char>, Seq<char>)| t.0 + " = "@ + t.1);
    assert(written =~= columns_are(children)) by {
        assert forall|i: int| 0 <= i < children.len() implies written[i] == #[trigger] columns_are(
            children,
        )[i] by {}
    }
    assert(hashcons_text(table, info, children) == s.text());
    assert forall|r: Named, val: spec_fn(Seq<char>) -> int| #[trigger] s.takes(r, val) == has_children(
        r,
        children,
        val,
    ) by {
        if s.takes(r, val) {
            assert forall|i: int| 0 <= i < children.len() implies r(column(i as nat)) == val(
                #[trigger] children[i],
            ) by {
                assert(r(s.tests[i].0) == val(s.tests[i].1));
            }
        }
        if has_children(r, children, val) {
            assert forall|i: int| 0 <= i < s.tests.len() implies r((#[trigger] s.tests[i]).0) == val(
                s.tests[i].1,
            ) by {
                assert(r(column(i as nat)) == val(children[i]));
            }
        }
    }
    assert forall|rows: Set<Named>, val: spec_fn(Seq<char>) -> int, id: int| #[trigger]
        s.gives(rows, val, id) <==> {
            let out = column(info.inputs_len);
            &&& exists|r: Named| #[trigger]
                rows.contains(r) && has_children(r, children, val) && r(out) == id
            &&& forall|r: Named| #[trigger]
                rows.contains(r) && has_children(r, children, val) ==> id <= r(out)
        } by {
        let out = column(info.inputs_len);
        if s.gives(rows, val, id) {
            let r = choose|r: Named| #[trigger]
                rows.contains(r) && s.takes(r, val) && r(s.out) == id;
            assert(s.takes(r, val) == has_children(r, children, val));
            assert forall|r: Named| #[trigger]
                rows.contains(r) && has_children(r, children, val) implies id <= r(out) by {
                assert(s.takes(r, val) == has_children(r, children, val));
            }
        }
        if (exists|r: Named| #[trigger]
            rows.contains(r) && has_children(r, children, val) && r(out) == id) && (forall|r: Named|
            #[trigger]
            rows.contains(r) && has_children(r, children, val) ==> id <= r(out)) {
            let r = choose|r: Named| #[trigger]
                rows.contains(r) && has_children(r, children, val) && r(out) == id;
            assert(s.takes(r, val) == has_children(r, children, val));
            assert forall|r: Named| #[trigger] rows.contains(r) && s.takes(r, val) implies id <= r(
                s.out,
            ) by {
                assert(s.takes(r, val) == has_children(r, children, val));
            }
        }
    }
}

proof fn lemma_push(parts: Seq<Seq<char>>, x: Seq<char>)
    requires
        parts.len() > 0,
    ensures
        joined(parts.push(x), ", "@) == joined(parts, ", "@) + ", "@ + x,
{
    assert(parts.push(x).drop_last() =~= parts);
}

/// Whether an item is an expression that is not looked into, with this text.
pub open spec fn is_text(i: Item, t: Seq<char>) -> bool {
    i == (Item { e: Expr::Other(t), name: None })
}

/// The statement that mints a term writes, for every row of the batch, the children into the first
/// columns, the id that is there for them or else a fresh one behind the inputs, and the time; a row
/// that is there already stays.
pub proof fn terms_are_minted_for_the_whole_batch(
    table: Seq<char>,
    info: InfoView,
    children: Seq<Seq<char>>,
)
    requires
        children.len() > 0,
    ensures
        exists|q: Query|
            mint_text(table, info, children) == #[trigger] Statement::Add(
                quoted(table),
                columns(children.len()).push(column(info.inputs_len)).push("ts"@),
                q,
            ).text() && q.from == From::One("batch"@, "b"@) && q.filter is None && q.items.len()
                == children.len() + 2 && (forall|i: int|
                0 <= i < children.len() ==> is_text(#[trigger] q.items[i], children[i])) && is_text(
                q.items[children.len() as int],
                "COALESCE("@ + hashcons_text(table, info, children)
                    + ", nextval('__egglog_eqsort_seq'))"@,
            ) && q.items[children.len() as int + 1].e == Expr::Param(2),
{
    let n = children.len();
    let id = "COALESCE("@ + hashcons_text(table, info, children)
        + ", nextval('__egglog_eqsort_seq'))"@;
    let kids = Seq::new(n, |i: int| Item { e: Expr::Other(children[i]), name: None });
    let items = kids.push(Item { e: Expr::Other(id), name: None }).push(
        Item { e: Expr::Param(2), name: None },
    );
    let q = Query { items, from: From::One("batch"@, "b"@), filter: None };
    let written = items.map_values(|i: Item| i.text());
    reveal_strlit("?2");
    reveal_strlit("?");
    assert(Expr::Param(2).text() == "?2"@) by {
        assert("?"@ + decimal(2) =~= "?2"@);
    }
    assert(written =~= children.push(id).push("?2"@)) by {
        assert forall|i: int| 0 <= i < n implies written[i] == children[i] by {
            assert(items[i] == kids[i]);
        }
    }
    lemma_push(children, id);
    lemma_push(children.push(id), "?2"@);
    let cols = columns(n);
    assert(cols =~= numbered("c"@, n)) by {
        assert forall|i: int| 0 <= i < n implies cols[i] == numbered("c"@, n)[i] by {}
    }
    lemma_push(cols, column(info.inputs_len));
    lemma_push(cols.push(column(info.inputs_len)), "ts"@);
    lemma_mint_text(
        quoted(table),
        joined(cols, ", "@),
        decimal(info.inputs_len),
        joined(children, ", "@),
        hashcons_text(table, info, children),
    );
    assert(mint_text(table, info, children) == Statement::Add(
        quoted(table),
        columns(n).push(column(info.inputs_len)).push("ts"@),
        q,
    ).text());
}

/// The two ways to group the text of a mint.
proof fn lemma_mint_text(t: Seq<char>, cols: Seq<char>, k: Seq<char>, kids: Seq<char>, find: Seq<char>)
    ensures
        "INSERT INTO "@ + t + " ("@ + cols + ", c"@ + k + ", ts) SELECT "@ + kids + ", COALESCE("@
            + find + ", nextval('__egglog_eqsort_seq')), ?2 FROM batch b ON CONFLICT DO NOTHING"@
            == "INSERT INTO "@ + t + " ("@ + (cols + ", "@ + ("c"@ + k) + ", "@ + "ts"@) + ") "@ + (
        "SELECT "@ + (kids + ", "@ + ("COALESCE("@ + find + ", nextval('__egglog_eqsort_seq'))"@)
            + ", "@ + "?2"@) + " FROM "@ + ("batch"@ + " "@ + "b"@)) + " ON CONFLICT DO NOTHING"@,
{
    reveal_strlit(", c");
    reveal_strlit(", ");
    reveal_strlit("c");
    reveal_strlit(", ts) SELECT ");
    reveal_strlit("ts");
    reveal_strlit(") ");
    reveal_strlit("SELECT ");
    reveal_strlit(", COALESCE(");
    reveal_strlit("COALESCE(");
    reveal_strlit(", nextval('__egglog_eqsort_seq')), ?2 FROM batch b ON CONFLICT DO NOTHING");
    reveal_strlit(", nextval('__egglog_eqsort_seq'))");
    reveal_strlit("?2");
    reveal_strlit(" FROM ");
    reveal_strlit("batch");
    reveal_strlit(" ");
    reveal_strlit("b");
    reveal_strlit(" ON CONFLICT DO NOTHING");
    let h = "INSERT INTO "@ + t + " ("@;
    let nv = ", nextval('__egglog_eqsort_seq'))"@;
    let end = " FROM "@ + ("batch"@ + " "@ + "b"@);
    let tail = " ON CONFLICT DO NOTHING"@;
    assert(", c"@ =~= ", "@ + "c"@);
    assert(", ts) SELECT "@ =~= ", "@ + "ts"@ + ") "@ + "SELECT "@);
    assert(", COALESCE("@ =~= ", "@ + "COALESCE("@);
    assert(", nextval('__egglog_eqsort_seq')), ?2 FROM batch b ON CONFLICT DO NOTHING"@ =~= nv + ", "@
        + "?2"@ + end + tail);
    let a = h + cols + ", c"@ + k;
    let a2 = h + (cols + ", "@ + ("c"@ + k));
    assert(a =~= a2);
    let b = a + (", "@ + "ts"@ + ") "@ + "SELECT "@);
    let b2 = h + (cols + ", "@ + ("c"@ + k) + ", "@ + "ts"@) + ") "@ + "SELECT "@;
    assert(b =~= b2);
    let items = kids + ", "@ + ("COALESCE("@ + find + nv) + ", "@ + "?2"@;
    let c = b + kids + (", "@ + "COALESCE("@) + find + (nv + ", "@ + "?2"@ + end + tail);
    assert(c =~= b + items + end + tail);
    let h2 = h + (cols + ", "@ + ("c"@ + k) + ", "@ + "ts"@) + ") "@;
    assert((h2 + "SELECT "@) + items + end + tail =~= h2 + ("SELECT "@ + items + end) + tail);
}

/// The statement that writes a view's rows writes, for every row of the batch, the values into the
/// columns at their places, and the time; the view's rule decides on conflicts.
pub proof fn views_are_written_for_the_whole_batch(
    table: Seq<char>,
    info: InfoView,
    vals: Seq<Seq<char>>,
)
    requires
        vals.len() == info.cols.len(),
        vals.len() > 0,
    ensures
        exists|q: Query|
            view_insert_text(table, info, vals) == "INSERT INTO "@ + quoted(table) + " ("@ + joined(
                columns(vals.len()).push("ts"@),
                ", "@,
            ) + ") "@ + (#[trigger] q.text()) + " "@ + conflict(info) && q.from == From::One(
                "batch"@,
                "b"@,
            ) && q.filter is None && q.items.len() == vals.len() + 1 && (forall|i: int|
                0 <= i < vals.len() ==> is_text(#[trigger] q.items[i], vals[i]))
                && q.items[vals.len() as int].e == Expr::Param(2),
{
    let n = vals.len();
    let cells = Seq::new(n, |i: int| Item { e: Expr::Other(vals[i]), name: None });
    let items = cells.push(Item { e: Expr::Param(2), name: None });
    let q = Query { items, from: From::One("batch"@, "b"@), filter: None };
    let written = items.map_values(|i: Item| i.text());
    reveal_strlit("?2");
    reveal_strlit("?");
    assert(Expr::Param(2).text() == "?2"@) by {
        assert("?"@ + decimal(2) =~= "?2"@);
    }
    assert(written =~= vals.push("?2"@)) by {
        assert forall|i: int| 0 <= i < n implies written[i] == vals[i] by {
            assert(items[i] == cells[i]);
        }
    }
    lemma_push(vals, "?2"@);
    let cols = columns(n);
    assert(cols =~= numbered("c"@, n)) by {
        assert forall|i: int| 0 <= i < n implies cols[i] == numbered("c"@, n)[i] by {}
    }
    lemma_push(cols, "ts"@);
    reveal_strlit(", ts) SELECT ");
    reveal_strlit(", ");
    reveal_strlit("ts");
    reveal_strlit(") ");
    reveal_strlit("SELECT ");
    reveal_strlit(", ?2 FROM batch b ");
    reveal_strlit(" FROM ");
    reveal_strlit("batch");
    reveal_strlit(" ");
    reveal_strlit("b");
    let h = "INSERT INTO "@ + quoted(table) + " ("@;
    let cs = joined(cols, ", "@);
    let vs = joined(vals, ", "@);
    let end = " FROM "@ + ("batch"@ + " "@ + "b"@);
    assert(", ts) SELECT "@ =~= ", "@ + "ts"@ + ") "@ + "SELECT "@);
    assert(", ?2 FROM batch b "@ =~= ", "@ + "?2"@ + end + " "@);
    let a = h + cs + (", "@ + "ts"@ + ") "@ + "SELECT "@);
    let h2 = h + (cs + ", "@ + "ts"@) + ") "@;
    assert(a =~= h2 + "SELECT "@);
    let it = vs + ", "@ + "?2"@;
    assert(a + vs + (", "@ + "?2"@ + end + " "@) + conflict(info) =~= h2 + ("SELECT "@ + it + end)
        + " "@ + conflict(info));
    assert(view_insert_text(table, info, vals) == h2 + q.text() + " "@ + conflict(info));
}

// ---------------------------------------------------------------------------
// How a merge is put together
// ---------------------------------------------------------------------------

/// Whether a merge is made behind the expressions `x` and `y` of the two sides of a test, for the pairs
/// on which they differ.
pub open spec fn made_where_unequal(
    sc: Scope,
    a: MergeFn,
    b: MergeFn,
    els: MergeFn,
    m: MergeText,
    s1: Built,
    s2: Built,
    x: Seq<char>,
    y: Seq<char>,
) -> bool {
    &&& value_of(sc, a, nothing_built()) == Ok::<_, BuildError>((s1, x))
    &&& value_of(sc, b, s1) == Ok::<_, BuildError>((s2, y))
    &&& m.guard == Some(x + " <> "@ + y)
    &&& body_of(sc, els, s2) == Ok::<_, BuildError>(
        (Built { stmts: m.stmts, written: m.written }, m.merged),
    )
}

/// A merge behind a test for equality is made for just the pairs on which the two sides differ, by the
/// other branch; any other merge is made for all of them.
pub proof fn equal_sides_need_no_merge(sc: Scope, tree: MergeFn)
    ensures
        merge_text(sc, tree) matches Ok(m) ==> match tree {
            MergeFn::IfEq { a, b, then, els } => exists|
                s1: Built,
                s2: Built,
                x: Seq<char>,
                y: Seq<char>,
            | #[trigger] made_where_unequal(sc, *a, *b, *els, m, s1, s2, x, y),
            _ => m.guard is None && body_of(sc, tree, nothing_built()) == Ok::<_, BuildError>(
                (Built { stmts: m.stmts, written: m.written }, m.merged),
            ),
        },
{
    if let Ok(m) = merge_text(sc, tree) {
        if let MergeFn::IfEq { a, b, then, els } = tree {
            let (s1, x) = value_of(sc, *a, nothing_built())->Ok_0;
            let (s2, y) = value_of(sc, *b, s1)->Ok_0;
            let (s3, t) = body_of(sc, *els, s2)->Ok_0;
            assert(s3 =~= Built { stmts: m.stmts, written: m.written });
            assert(made_where_unequal(sc, *a, *b, *els, m, s1, s2, x, y));
        } else {
            let (s3, t) = body_of(sc, tree, nothing_built())->Ok_0;
            assert(s3 =~= Built { stmts: m.stmts, written: m.written });
        }
    }
}

/// Whether the argument at a place is compiled behind those before it, and its expression is the one
/// at that place.
pub open spec fn argument_follows(
    sc: Scope,
    node: MergeFn,
    st: Built,
    vals: Seq<Seq<char>>,
    i: int,
    before: Built,
    after: Built,
) -> bool {
    &&& values_of(sc, node, i as nat, st) == Ok::<_, BuildError>((before, vals.take(i)))
    &&& value_of(sc, arguments(node)[i], before) == Ok::<_, BuildError>((after, vals[i]))
}

/// Whether the argument at a place is compiled behind those before it.
pub open spec fn is_compiled_at(
    sc: Scope,
    node: MergeFn,
    st: Built,
    vals: Seq<Seq<char>>,
    i: int,
) -> bool {
    exists|before: Built, after: Built| #[trigger]
        argument_follows(sc, node, st, vals, i, before, after)
}

/// The arguments of a node are compiled from left to right, each behind the statements of those before
/// it, and their expressions stand in the same order.
pub proof fn arguments_come_in_order(sc: Scope, node: MergeFn, n: nat, st: Built)
    requires
        n <= arguments(node).len(),
    ensures
        values_of(sc, node, n, st) matches Ok((s2, vals)) ==> vals.len() == n && (n == 0 ==> s2 == st)
            && forall|i: int| 0 <= i < n ==> #[trigger] is_compiled_at(sc, node, st, vals, i),
    decreases n,
{
    if n > 0 {
        arguments_come_in_order(sc, node, (n - 1) as nat, st);
        if let Ok((s2, vals)) = values_of(sc, node, n, st) {
            let (s1, front) = values_of(sc, node, (n - 1) as nat, st)->Ok_0;
            let (after, v) = value_of(sc, arguments(node)[n - 1], s1)->Ok_0;
            assert(vals == front.push(v));
            assert(s2 == after);
            assert(vals.len() == n);
            assert(vals.take(n - 1) =~= front);
            assert forall|i: int| 0 <= i < n implies #[trigger] is_compiled_at(
                sc,
                node,
                st,
                vals,
                i,
            ) by {
                if i < n - 1 {
                    assert(is_compiled_at(sc, node, st, front, i));
                    assert(vals[i] == front[i]);
                    assert(front.take(i) =~= vals.take(i));
                    let (before, after) = choose|before: Built, after: Built| #[trigger]
                        argument_follows(sc, node, st, front, i, before, after);
                    assert(argument_follows(sc, node, st, vals, i, before, after));
                } else {
                    assert(argument_follows(sc, node, st, vals, i, s1, s2));
                }
            }
        }
    }
}

/// A constructed term is minted behind the statements of its children, and then stands for the id that
/// its table has for them; a function stands for the output that its table has, and a union-find's
/// function for the leader of its one argument.
pub proof fn nodes_are_built_from_their_children(sc: Scope, node: MergeFn, st: Built)
    ensures
        value_of(sc, node, st) matches Ok((s2, e)) ==> match node {
            MergeFn::Construct(f, args, more) => values_of(sc, node, args@.len(), st) matches Ok(
                (s1, vals),
            ) && {
                let name = sc.names[f.rep as int];
                &&& more@.len() == 0
                &&& s2.stmts == s1.stmts.push(mint_text(name, sc.infos[name], vals))
                &&& s2.written.contains(name)
                &&& e == hashcons_text(name, sc.infos[name], vals)
            },
            MergeFn::Function(f, args) => values_of(sc, node, args@.len(), st) matches Ok((s1, vals))
                && {
                let name = sc.names[f.rep as int];
                &&& s2 == s1
                &&& match sc.infos[name].native_uf_udf {
                    Some(udf) => args@.len() == 1 && e == udf + "("@ + vals[0] + ")"@,
                    None => e == hashcons_text(name, sc.infos[name], vals),
                }
            },
            MergeFn::Primitive(id, args) => values_of(sc, node, args@.len(), st) matches Ok((s1, vals))
                && s2 == s1 && (sc.prims)(id) is Some && (sc.render)((sc.prims)(id)->0, vals) == Some(
                e,
            ),
            MergeFn::Const(v) => s2 == st && e == signed_decimal(v.rep as int),
            _ => s2 == st,
        },
{
    if let MergeFn::Construct(f, args, more) = node {
        if let Ok((s2, e)) = value_of(sc, node, st) {
            let name = sc.names[f.rep as int];
            let (s1, vals) = values_of(sc, node, args@.len(), st)->Ok_0;
            assert(s2 == s1.plus(mint_text(name, sc.infos[name], vals), name));
            if !s1.written.contains(name) {
                assert(s2.written[s1.written.len() as int] == name);
            }
        }
    }
}

/// Whether an insert's statement stands behind those of its values.
pub open spec fn writes_behind(
    sc: Scope,
    node: MergeFn,
    table: Seq<char>,
    st: Built,
    s1: Built,
    vals: Seq<Seq<char>>,
    s2: Built,
) -> bool {
    &&& values_of(sc, node, arguments(node).len(), st) == Ok::<_, BuildError>((s1, vals))
    &&& vals.len() == sc.infos[table].cols.len()
    &&& s2.stmts == s1.stmts.push(view_insert_text(table, sc.infos[table], vals))
}

/// A sequence stands for the value of its last element, behind the effects of the others in their
/// order; an insert among them writes its view behind the statements of its values.
pub proof fn sequences_end_in_their_value(sc: Scope, node: MergeFn, st: Built)
    ensures
        node matches MergeFn::Sequence(items) ==> (sequence_of(sc, node, st) matches Ok((s2, e))
            ==> items@.len() > 0 && (effects_of(sc, node, (items@.len() - 1) as nat, st) matches Ok(s1)
            && value_of(sc, items@.last(), s1) == Ok::<_, BuildError>((s2, e)))),
        node matches MergeFn::TableInsert(f, args) ==> (effect_of(sc, node, st) matches Ok(s2)
            ==> exists|s1: Built, vals: Seq<Seq<char>>| #[trigger]
            writes_behind(sc, node, sc.names[f.rep as int], st, s1, vals, s2)),
{
    if let MergeFn::TableInsert(f, args) = node {
        if let Ok(s2) = effect_of(sc, node, st) {
            arguments_come_in_order(sc, node, args@.len(), st);
            let table = sc.names[f.rep as int];
            let (s1, vals) = values_of(sc, node, args@.len(), st)->Ok_0;
            assert(s2 == s1.plus(view_insert_text(table, sc.infos[table], vals), table));
            assert(writes_behind(sc, node, table, st, s1, vals, s2));
        }
    }
}

} // verus!
