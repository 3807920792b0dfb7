//! What the statements on single tables do to rows.
use crate::duckdb::meaning::{column, Named, Rel};
use crate::duckdb::names::quoted;
use crate::duckdb::schema::{ColumnTy, InfoView, MergeModeView};
use crate::duckdb::sql::{
    column_decls, comma_prefix, conflict, count_rows, count_where, create_table, insert_changed,
    insert_head, insert_select, insert_values, lookup_output, numbered, parameters, table_sizes,
    unions_after,
};
use crate::text::{decimal, joined, signed_decimal};
use vstd::prelude::*;
use vstd::string::*;

verus! {

// ---------------------------------------------------------------------------
// Rows whose key is there already
// ---------------------------------------------------------------------------

/// What an insert does with a row whose key is there already.
pub enum Clash {
    /// The row that is there stays.
    Keep,
    /// The column of the row that is there gets a value, and the row the time of the incoming one.
    Update(Seq<char>, NewValue),
}

/// The value that a column gets.
pub enum NewValue {
    /// That of the incoming row.
    Incoming,
    /// The lesser of the two.
    Lesser,
    /// That of an expression.
    Other(Seq<char>),
}

impl Clash {
    /// The clause as it is written.
    pub open spec fn text(self) -> Seq<char> {
        match self {
            Clash::Keep => "ON CONFLICT DO NOTHING"@,
            Clash::Update(c, v) => "ON CONFLICT DO UPDATE SET "@ + c + " = "@ + (match v {
                NewValue::Incoming => "EXCLUDED."@ + c,
                NewValue::Lesser => "LEAST("@ + c + ", EXCLUDED."@ + c + ")"@,
                NewValue::Other(e) => e,
            }) + ", ts = EXCLUDED.ts"@,
        }
    }

    /// The row that is there afterwards, when `row` was there and `new` comes. `other` is the value of
    /// the clause's expression.
    pub open spec fn outcome(self, row: Named, new: Named, other: int) -> Named {
        match self {
            Clash::Keep => row,
            Clash::Update(c, v) => |n: Seq<char>|
                if n == c {
                    match v {
                        NewValue::Incoming => new(c),
                        NewValue::Lesser => if row(c) <= new(c) {
                            row(c)
                        } else {
                            new(c)
                        },
                        NewValue::Other(e) => other,
                    }
                } else if n == "ts"@ {
                    new("ts"@)
                } else {
                    row(n)
                },
        }
    }
}

/// Whether a row differs from another at most in its output and its time.
pub open spec fn same_but_output(a: Named, b: Named, out: Seq<char>) -> bool {
    forall|n: Seq<char>| n != out && n != "ts"@ ==> #[trigger] a(n) == b(n)
}

/// What becomes of a function's row when another output for the same inputs comes: under the mode
/// that keeps the old output the row stays as it is, under the one that takes the new output it gets
/// that of the incoming row, under the least it gets the lesser of the two, and under an expression
/// its value. A changed row has the time of the incoming one; nothing else of it changes. Relations,
/// constructors and the views whose conflicts are merged between iterations keep the row that is there.
pub proof fn conflicts_are_resolved_by_mode(info: InfoView)
    requires
        info.key_width() > 0,
    ensures
        exists|c: Clash|
            conflict(info) == #[trigger] c.text() && forall|row: Named, new: Named, other: int| {
                let after = #[trigger] c.outcome(row, new, other);
                let out = column(info.inputs_len);
                &&& info.merge_tree is Some || info.eq_sort_ctor || info.merge is None || info.merge
                    == Some(MergeModeView::Old) ==> after == row
                &&& info.merge_tree is None && !info.eq_sort_ctor && info.merge is Some && info.merge
                    != Some(MergeModeView::Old) ==> after("ts"@) == new("ts"@) && same_but_output(
                    after,
                    row,
                    out,
                )
                &&& info.merge_tree is None && !info.eq_sort_ctor ==> match info.merge {
                    Some(MergeModeView::New) => after(out) == new(out),
                    Some(MergeModeView::Min) => after(out) <= row(out) && after(out) <= new(out) && (
                    after(out) == row(out) || after(out) == new(out)),
                    Some(MergeModeView::Fold(e)) => after(out) == other,
                    _ => true,
                }
            },
{
    let out = column(info.inputs_len);
    reveal_strlit("ts");
    reveal_strlit("c");
    assert(out != "ts"@) by {
        assert(out[0] == 'c');
        assert("ts"@[0] == 't');
    }
    let update = if info.merge_tree is Some || info.eq_sort_ctor {
        None
    } else {
        match info.merge {
            Some(MergeModeView::New) => Some(NewValue::Incoming),
            Some(MergeModeView::Min) => Some(NewValue::Lesser),
            Some(MergeModeView::Fold(e)) => Some(NewValue::Other(e)),
            _ => None,
        }
    };
    let c = match update {
        None => Clash::Keep,
        Some(v) => Clash::Update(out, v),
    };
    let set = "ON CONFLICT DO UPDATE SET "@;
    match update {
        None => {},
        Some(NewValue::Incoming) => {
            reveal_strlit(" = ");
            reveal_strlit(" = EXCLUDED.");
            reveal_strlit("EXCLUDED.");
            assert(" = EXCLUDED."@ =~= " = "@ + "EXCLUDED."@);
            assert(conflict(info) =~= c.text());
        },
        Some(NewValue::Lesser) => {
            reveal_strlit(" = ");
            reveal_strlit(" = LEAST(");
            reveal_strlit("LEAST(");
            reveal_strlit(")");
            reveal_strlit("), ts = EXCLUDED.ts");
            reveal_strlit(", ts = EXCLUDED.ts");
            assert(" = LEAST("@ =~= " = "@ + "LEAST("@);
            assert("), ts = EXCLUDED.ts"@ =~= ")"@ + ", ts = EXCLUDED.ts"@);
            let l = set + out + " = "@;
            let m = "LEAST("@ + out + ", EXCLUDED."@ + out + ")"@;
            assert(set + out + " = LEAST("@ =~= l + "LEAST("@);
            assert(l + "LEAST("@ + out + ", EXCLUDED."@ + out + ")"@ =~= l + m);
            assert(conflict(info) =~= (l + m) + ", ts = EXCLUDED.ts"@);
        },
        Some(NewValue::Other(e)) => {},
    }
    assert(conflict(info) == c.text());
    assert forall|row: Named, new: Named, other: int| {
        let after = #[trigger] c.outcome(row, new, other);
        &&& info.merge_tree is Some || info.eq_sort_ctor || info.merge is None || info.merge == Some(
            MergeModeView::Old,
        ) ==> after == row
        &&& info.merge_tree is None && !info.eq_sort_ctor && info.merge is Some && info.merge != Some(
            MergeModeView::Old,
        ) ==> after("ts"@) == new("ts"@) && same_but_output(after, row, out)
        &&& info.merge_tree is None && !info.eq_sort_ctor ==> match info.merge {
            Some(MergeModeView::New) => after(out) == new(out),
            Some(MergeModeView::Min) => after(out) <= row(out) && after(out) <= new(out) && (
            after(out) == row(out) || after(out) == new(out)),
            Some(MergeModeView::Fold(e)) => after(out) == other,
            _ => true,
        }
    } by {}
}

/// A table has one row for each of its inputs where a conflict updates the output, and one for each
/// row of values everywhere else.
pub proof fn keys_are_the_inputs_of_functions(info: InfoView)
    ensures
        info.merge is Some && !info.eq_sort_ctor && info.merge_tree is None ==> info.key_width()
            == info.inputs_len,
        info.merge is None || info.eq_sort_ctor || info.merge_tree is Some ==> info.key_width()
            == info.cols.len(),
{
}

// ---------------------------------------------------------------------------
// Inserts
// ---------------------------------------------------------------------------

/// An insert of one row: the table, and the columns with the texts of their values.
pub struct Insert {
    pub table: Seq<char>,
    pub cols: Seq<Seq<char>>,
    pub vals: Seq<Seq<char>>,
}

impl Insert {
    /// The insert as it is written, with literals.
    pub open spec fn values_text(self) -> Seq<char> {
        "INSERT INTO "@ + self.table + " ("@ + joined(self.cols, ", "@) + ")"@ + " VALUES ("@
            + joined(self.vals, ", "@) + ")"@
    }

    /// The insert as it is written, with expressions.
    pub open spec fn select_text(self) -> Seq<char> {
        "INSERT INTO "@ + self.table + " ("@ + joined(self.cols, ", "@) + ")"@ + " SELECT "@
            + joined(self.vals, ", "@)
    }

    /// Whether it is the insert of a row with the given values at a time.
    pub open spec fn is_row(self, name: Seq<char>, args: Seq<Seq<char>>, ts: int) -> bool {
        let n = args.len() as int;
        &&& self.table == quoted(name)
        &&& self.cols.len() == n + 1 && self.vals.len() == n + 1
        &&& forall|i: int|
            0 <= i < n ==> self.cols[i] == column(i as nat) && #[trigger] self.vals[i] == args[i]
        &&& self.cols[n] == "ts"@ && self.vals[n] == signed_decimal(ts)
    }
}

proof fn lemma_comma(parts: Seq<Seq<char>>, x: Seq<char>)
    ensures
        comma_prefix(parts) + x == joined(parts.push(x), ", "@),
{
    let all = parts.push(x);
    assert(all.drop_last() =~= parts);
    if parts.len() == 0 {
        assert(comma_prefix(parts) + x =~= x);
    }
}

proof fn lemma_insert_head(name: Seq<char>, n: nat)
    ensures
        insert_head(name, n) == "INSERT INTO "@ + quoted(name) + " ("@ + joined(
            numbered("c"@, n).push("ts"@),
            ", "@,
        ) + ")"@,
{
    reveal_strlit("ts)");
    reveal_strlit("ts");
    reveal_strlit(")");
    assert("ts)"@ =~= "ts"@ + ")"@);
    lemma_comma(numbered("c"@, n), "ts"@);
    let h = "INSERT INTO "@ + quoted(name) + " ("@;
    let cs = comma_prefix(numbered("c"@, n));
    assert(h + cs + ("ts"@ + ")"@) =~= h + (cs + "ts"@) + ")"@);
}

/// An insert gives each column the value at its place, and the row its time; where a key is there
/// already the table's rule for conflicts decides, if it has one.
pub proof fn inserts_write_the_row(
    name: Seq<char>,
    info: InfoView,
    args: Seq<Seq<char>>,
    ts: int,
)
    ensures
        exists|i: Insert|
            #![trigger i.values_text()]
            #![trigger i.select_text()]
            i.is_row(name, args, ts) && insert_values(name, info, args, ts) == i.values_text() + (
            if conflict(info).len() == 0 {
                Seq::empty()
            } else {
                " "@ + conflict(info)
            }) && insert_select(name, info, args, ts) == i.select_text() + " "@ + conflict(info),
{
    let i = Insert {
        table: quoted(name),
        cols: numbered("c"@, args.len()).push("ts"@),
        vals: args.push(signed_decimal(ts)),
    };
    lemma_insert_head(name, args.len());
    lemma_comma(args, signed_decimal(ts));
    let h = insert_head(name, args.len());
    let cs = comma_prefix(args);
    let t = signed_decimal(ts);
    assert(h + " VALUES ("@ + cs + t + ")"@ =~= h + " VALUES ("@ + (cs + t) + ")"@);
    assert(h + " SELECT "@ + cs + t =~= h + " SELECT "@ + (cs + t));
    let v = i.values_text();
    assert(v + Seq::<char>::empty() =~= v);
    assert(v + " "@ + conflict(info) =~= v + (" "@ + conflict(info)));
    assert(i.is_row(name, args, ts));
    assert(insert_select(name, info, args, ts) == i.select_text() + " "@ + conflict(info));
}

// ---------------------------------------------------------------------------
// Queries
// ---------------------------------------------------------------------------

/// A test of a column.
pub enum Test {
    /// It is a parameter of the statement.
    Is(Seq<char>, nat),
    /// It compares with a number.
    Compares(Seq<char>, Rel, int),
}

impl Test {
    pub open spec fn text(self) -> Seq<char> {
        match self {
            Test::Is(c, k) => c + " = ?"@ + decimal(k),
            Test::Compares(c, rel, n) => c + (match rel {
                Rel::Eq => " = "@,
                Rel::Ne => " <> "@,
                Rel::Lt => " < "@,
                Rel::Gt => " > "@,
                Rel::Ge => " >= "@,
            }) + signed_decimal(n),
        }
    }

    pub open spec fn holds(self, row: Named, params: spec_fn(nat) -> int) -> bool {
        match self {
            Test::Is(c, k) => row(c) == params(k),
            Test::Compares(c, rel, n) => match rel {
                Rel::Eq => row(c) == n,
                Rel::Ne => row(c) != n,
                Rel::Lt => row(c) < n,
                Rel::Gt => row(c) > n,
                Rel::Ge => row(c) >= n,
            },
        }
    }
}

/// A query on one table.
pub struct Lookup {
    /// What it selects: columns, or the number of rows.
    pub what: Seq<char>,
    pub table: Seq<char>,
    /// The tests that a row has to pass.
    pub tests: Seq<Test>,
}

impl Lookup {
    pub open spec fn text(self) -> Seq<char> {
        let head = "SELECT "@ + self.what + " FROM "@ + self.table;
        if self.tests.len() == 0 {
            head
        } else {
            head + " WHERE "@ + joined(self.tests.map_values(|t: Test| t.text()), " AND "@)
        }
    }

    /// Whether a row is selected.
    pub open spec fn takes(self, row: Named, params: spec_fn(nat) -> int) -> bool {
        forall|i: int| 0 <= i < self.tests.len() ==> (#[trigger] self.tests[i]).holds(row, params)
    }
}

/// Whether the first columns of a row are the statement's parameters.
pub open spec fn starts_with_parameters(row: Named, n: nat, params: spec_fn(nat) -> int) -> bool {
    forall|i: nat| #![trigger column(i)] i < n ==> row(column(i)) == params((i + 1) as nat)
}

spec fn key_tests(n: nat) -> Seq<Test> {
    Seq::new(n, |i: int| Test::Is(column(i as nat), (i + 1) as nat))
}

proof fn lemma_key_tests(n: nat)
    ensures
        key_tests(n).map_values(|t: Test| t.text()) == parameters(n),
{
    assert forall|i: int| 0 <= i < n implies key_tests(n).map_values(|t: Test| t.text())[i]
        == #[trigger] parameters(n)[i] by {}
    assert(key_tests(n).map_values(|t: Test| t.text()) =~= parameters(n));
}

proof fn lemma_key_takes(q: Lookup, n: nat, row: Named, params: spec_fn(nat) -> int)
    requires
        q.tests == key_tests(n),
    ensures
        q.takes(row, params) <==> starts_with_parameters(row, n, params),
{
    if q.takes(row, params) {
        assert forall|i: nat| #![trigger column(i)] i < n implies row(column(i)) == params(
            (i + 1) as nat,
        ) by {
            assert(q.tests[i as int].holds(row, params));
        }
    }
    if starts_with_parameters(row, n, params) {
        assert forall|i: int| 0 <= i < q.tests.len() implies (#[trigger] q.tests[i]).holds(
            row,
            params,
        ) by {
            assert(row(column(i as nat)) == params((i as nat + 1) as nat));
        }
    }
}

/// The query for a match counts just the rows whose first columns are the statement's parameters, one
/// after the other; without parameters it counts them all.
pub proof fn matches_are_the_rows_with_the_parameters(name: Seq<char>, n: nat)
    ensures
        exists|q: Lookup|
            count_where(name, parameters(n)) == #[trigger] q.text() && q.what == "COUNT(*)"@
                && q.table == quoted(name) && forall|row: Named, params: spec_fn(nat) -> int|
                #[trigger]
                q.takes(row, params) <==> starts_with_parameters(row, n, params),
        n == 0 ==> count_where(name, parameters(n)) == count_rows(name),
{
    let q = Lookup { what: "COUNT(*)"@, table: quoted(name), tests: key_tests(n) };
    lemma_key_tests(n);
    reveal_strlit("SELECT COUNT(*) FROM ");
    reveal_strlit("SELECT ");
    reveal_strlit("COUNT(*)");
    reveal_strlit(" FROM ");
    assert("SELECT COUNT(*) FROM "@ =~= "SELECT "@ + "COUNT(*)"@ + " FROM "@);
    let head = "SELECT COUNT(*) FROM "@ + quoted(name);
    if n == 0 {
        assert(parameters(n).len() == 0);
        assert(head + Seq::<char>::empty() =~= head);
    } else {
        let j = joined(parameters(n), " AND "@);
        assert(head + (" WHERE "@ + j) =~= head + " WHERE "@ + j);
    }
    assert(count_where(name, parameters(n)) == q.text());
    assert forall|row: Named, params: spec_fn(nat) -> int| #[trigger]
        q.takes(row, params) <==> starts_with_parameters(row, n, params) by {
        lemma_key_takes(q, n, row, params);
    }
}

/// The query for an output selects the column behind the inputs, of just the rows whose inputs are the
/// statement's parameters, one after the other.
pub proof fn lookups_read_the_output_at_the_inputs(name: Seq<char>, n: nat)
    ensures
        exists|q: Lookup|
            lookup_output(name, n) == #[trigger] q.text() && q.what == column(n) && q.table == quoted(
                name,
            ) && forall|row: Named, params: spec_fn(nat) -> int| #[trigger]
                q.takes(row, params) <==> starts_with_parameters(row, n, params),
{
    let q = Lookup { what: column(n), table: quoted(name), tests: key_tests(n) };
    lemma_key_tests(n);
    reveal_strlit("SELECT c");
    reveal_strlit("SELECT ");
    reveal_strlit("c");
    assert("SELECT c"@ =~= "SELECT "@ + "c"@);
    let head = "SELECT c"@ + decimal(n) + " FROM "@ + quoted(name);
    assert("SELECT "@ + "c"@ + decimal(n) =~= "SELECT "@ + column(n));
    assert(head == "SELECT "@ + column(n) + " FROM "@ + quoted(name));
    if n == 0 {
        assert(parameters(n).len() == 0);
        assert(head + Seq::<char>::empty() =~= head);
    } else {
        let j = joined(parameters(n), " AND "@);
        assert(head + (" WHERE "@ + j) =~= head + " WHERE "@ + j);
    }
    assert(lookup_output(name, n) == q.text());
    assert forall|row: Named, params: spec_fn(nat) -> int| #[trigger]
        q.takes(row, params) <==> starts_with_parameters(row, n, params) by {
        lemma_key_takes(q, n, row, params);
    }
}

/// The query for the new unions selects the two ids and the time of just the rows that came after the
/// given time.
pub proof fn new_unions_came_after_the_time(pname: Seq<char>, after: int)
    ensures
        exists|q: Lookup|
            unions_after(pname, after) == #[trigger] q.text() && q.what == "c0, c1, ts"@ && q.table
                == quoted(pname) && forall|row: Named, params: spec_fn(nat) -> int| #[trigger]
                q.takes(row, params) <==> row("ts"@) > after,
{
    let t = Test::Compares("ts"@, Rel::Gt, after);
    let q = Lookup { what: "c0, c1, ts"@, table: quoted(pname), tests: seq![t] };
    reveal_strlit("SELECT c0, c1, ts FROM ");
    reveal_strlit("SELECT ");
    reveal_strlit("c0, c1, ts");
    reveal_strlit(" FROM ");
    reveal_strlit(" WHERE ts > ");
    reveal_strlit(" WHERE ");
    reveal_strlit("ts");
    reveal_strlit(" > ");
    assert("SELECT c0, c1, ts FROM "@ =~= "SELECT "@ + "c0, c1, ts"@ + " FROM "@);
    assert(" WHERE ts > "@ =~= " WHERE "@ + "ts"@ + " > "@);
    assert(joined(q.tests.map_values(|t: Test| t.text()), " AND "@) == t.text());
    let head = "SELECT c0, c1, ts FROM "@ + quoted(pname);
    let n = signed_decimal(after);
    assert(head + (" WHERE "@ + "ts"@ + " > "@) + n =~= head + " WHERE "@ + ("ts"@ + " > "@ + n));
    assert(unions_after(pname, after) == q.text());
    assert forall|row: Named, params: spec_fn(nat) -> int| #[trigger]
        q.takes(row, params) <==> row("ts"@) > after by {
        assert(q.tests[0] == t);
        if row("ts"@) > after {
            assert forall|i: int| 0 <= i < q.tests.len() implies (#[trigger] q.tests[i]).holds(
                row,
                params,
            ) by {}
        }
        if q.takes(row, params) {
            assert(q.tests[0].holds(row, params));
        }
    }
}

/// The query for sizes selects, in the order of the tables, how many rows each of them has.
pub proof fn sizes_come_in_the_order_of_the_tables(names: Seq<Seq<char>>)
    ensures
        exists|cols: Seq<Seq<char>>|
            table_sizes(names) == "SELECT "@ + #[trigger] joined(cols, ", "@) && cols.len()
                == names.len() && forall|i: int|
                0 <= i < names.len() ==> exists|q: Lookup|
                    #[trigger] cols[i] == "("@ + (#[trigger] q.text()) + ")"@ && q.what
                        == "COUNT(*)"@ && q.table == quoted(names[i]) && q.tests.len() == 0,
{
    let cols = names.map_values(|n: Seq<char>| "("@ + count_rows(n) + ")"@);
    reveal_strlit("SELECT COUNT(*) FROM ");
    reveal_strlit("SELECT ");
    reveal_strlit("COUNT(*)");
    reveal_strlit(" FROM ");
    assert("SELECT COUNT(*) FROM "@ =~= "SELECT "@ + "COUNT(*)"@ + " FROM "@);
    assert forall|i: int| 0 <= i < names.len() implies exists|q: Lookup|
        #[trigger] cols[i] == "("@ + (#[trigger] q.text()) + ")"@ && q.what == "COUNT(*)"@ && q.table
            == quoted(names[i]) && q.tests.len() == 0 by {
        let q = Lookup { what: "COUNT(*)"@, table: quoted(names[i]), tests: Seq::empty() };
        assert(q.text() == count_rows(names[i]));
        assert(cols[i] == "("@ + q.text() + ")"@);
    }
    assert(table_sizes(names) == "SELECT "@ + joined(cols, ", "@));
}

/// The insert of the changed ids has one row for each id, in their order.
pub proof fn changed_ids_are_written_one_by_one(ids: Seq<i64>)
    ensures
        exists|rows: Seq<Seq<char>>|
            insert_changed(ids) == "INSERT INTO __UF_CHANGED__ (id) VALUES "@ + #[trigger] joined(
                rows,
                ", "@,
            ) && rows.len() == ids.len() && forall|i: int|
                0 <= i < ids.len() ==> #[trigger] rows[i] == "("@ + signed_decimal(ids[i] as int)
                    + ")"@,
{
    let rows = ids.map_values(|id: i64| "("@ + signed_decimal(id as int) + ")"@);
    assert(insert_changed(ids) == "INSERT INTO __UF_CHANGED__ (id) VALUES "@ + joined(rows, ", "@));
}

// ---------------------------------------------------------------------------
// Tables
// ---------------------------------------------------------------------------

/// A table: its columns with their types, and those of its key.
pub struct TableText {
    pub table: Seq<char>,
    pub cols: Seq<(Seq<char>, Seq<char>)>,
    pub key: Seq<Seq<char>>,
}

impl TableText {
    pub open spec fn text(self) -> Seq<char> {
        "CREATE TABLE "@ + self.table + " ("@ + joined(
            self.cols.map_values(|c: (Seq<char>, Seq<char>)| c.0 + " "@ + c.1 + " NOT NULL"@),
            ", "@,
        ) + (if self.key.len() == 0 {
            Seq::empty()
        } else {
            ", PRIMARY KEY ("@ + joined(self.key, ", "@) + ")"@
        }) + ")"@
    }
}

/// A function's table has a column of the right type for each of the function's, then the time; its
/// key are the first columns, as many as the key is wide.
pub proof fn tables_have_the_functions_columns(name: Seq<char>, info: InfoView)
    ensures
        exists|t: TableText|
            create_table(name, info) == #[trigger] t.text() && t.table == quoted(name)
                && t.cols.len() == info.cols.len() + 1 && (forall|i: int|
                0 <= i < info.cols.len() ==> (#[trigger] t.cols[i]).0 == column(i as nat)
                    && t.cols[i].1 == info.cols[i].text()) && t.cols.last() == ("ts"@, "BIGINT"@)
                && t.key.len() == info.key_width() && forall|i: int|
                0 <= i < t.key.len() ==> #[trigger] t.key[i] == column(i as nat),
{
    let cols = Seq::new(
        info.cols.len(),
        |i: int| (column(i as nat), info.cols[i].text()),
    ).push(("ts"@, "BIGINT"@));
    let key = numbered("c"@, info.key_width());
    let t = TableText { table: quoted(name), cols, key };
    let written = cols.map_values(|c: (Seq<char>, Seq<char>)| c.0 + " "@ + c.1 + " NOT NULL"@);
    let ts = "ts BIGINT NOT NULL"@;
    reveal_strlit("ts BIGINT NOT NULL");
    reveal_strlit("ts");
    reveal_strlit(" ");
    reveal_strlit("BIGINT");
    reveal_strlit(" NOT NULL");
    assert(ts =~= "ts"@ + " "@ + "BIGINT"@ + " NOT NULL"@);
    assert(written =~= column_decls(info.cols).push(ts)) by {
        assert forall|i: int| 0 <= i < info.cols.len() implies written[i] == #[trigger] column_decls(
            info.cols,
        )[i] by {}
    }
    lemma_comma(column_decls(info.cols), ts);
    let h = "CREATE TABLE "@ + quoted(name) + " ("@;
    let cs = comma_prefix(column_decls(info.cols));
    assert(h + cs + ts =~= h + (cs + ts));
    assert(create_table(name, info) == t.text());
}

/// Integers, and so ids and times, are kept in 64 bits, a pair of them as a structure; truth values,
/// floating-point numbers and strings by the types of their own.
pub proof fn values_are_kept_by_their_types(t: ColumnTy)
    ensures
        t == ColumnTy::I64 ==> t.text() == "BIGINT"@,
        t == ColumnTy::Bool ==> t.text() == "BOOLEAN"@,
        t == ColumnTy::F64 ==> t.text() == "DOUBLE"@,
        t == ColumnTy::Str ==> t.text() == "VARCHAR"@,
        t == ColumnTy::PairI64 ==> t.text() == "STRUCT(first "@ + ColumnTy::I64.text() + ", second "@
            + ColumnTy::I64.text() + ")"@,
{
    reveal_strlit("BIGINT");
    reveal_strlit("STRUCT(first BIGINT, second BIGINT)");
    reveal_strlit("STRUCT(first ");
    reveal_strlit(", second ");
    reveal_strlit(")");
    assert("STRUCT(first BIGINT, second BIGINT)"@ =~= "STRUCT(first "@ + "BIGINT"@ + ", second "@
        + "BIGINT"@ + ")"@);
}

} // verus!
