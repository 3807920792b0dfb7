//! The SQL statements.
use crate::duckdb::names::{q, quoted};
use crate::duckdb::schema::{ColumnTy, FunctionInfo, InfoView, MergeMode, MergeModeView};
use crate::text::{
    decimal, decimal_i64, decimal_usize, join, joined, replace_all, replaced, signed_decimal, texts,
};
use vstd::prelude::*;
use vstd::string::*;

verus! {

/// The texts `prefix` and a number, for each number below `n`.
pub open spec fn numbered(prefix: Seq<char>, n: nat) -> Seq<Seq<char>> {
    Seq::new(n, |i: int| prefix + decimal(i as nat))
}

/// The texts `a`, a number, `b` and the number again, for each number below `n`.
pub open spec fn twice_numbered(a: Seq<char>, b: Seq<char>, n: nat) -> Seq<Seq<char>> {
    Seq::new(n, |i: int| a + decimal(i as nat) + b + decimal(i as nat))
}

/// The texts `prefix` and a number, for each number below `n`.
pub fn numbered_texts(prefix: &str, n: usize) -> (v: Vec<String>)
    ensures
        texts(v@) == numbered(prefix@, n as nat),
{
    let mut v: Vec<String> = Vec::new();
    for i in 0..n
        invariant
            v@.len() == i,
            forall|k: int| 0 <= k < i ==> (#[trigger] v@[k])@ == prefix@ + decimal(k as nat),
    {
        let mut s = prefix.to_owned();
        s.append(decimal_usize(i).as_str());
        v.push(s);
    }
    assert(texts(v@) =~= numbered(prefix@, n as nat));
    v
}

/// The texts `a`, a number, `b` and the number again, for each number below `n`.
pub fn twice_numbered_texts(a: &str, b: &str, n: usize) -> (v: Vec<String>)
    ensures
        texts(v@) == twice_numbered(a@, b@, n as nat),
{
    let mut v: Vec<String> = Vec::new();
    for i in 0..n
        invariant
            v@.len() == i,
            forall|k: int|
                0 <= k < i ==> (#[trigger] v@[k])@ == a@ + decimal(k as nat) + b@ + decimal(
                    k as nat,
                ),
    {
        let mut s = a.to_owned();
        s.append(decimal_usize(i).as_str());
        s.append(b);
        s.append(decimal_usize(i).as_str());
        v.push(s);
    }
    assert(texts(v@) =~= twice_numbered(a@, b@, n as nat));
    v
}

/// The texts with commas between them, and a last comma where there is any text.
pub open spec fn comma_prefix(parts: Seq<Seq<char>>) -> Seq<char> {
    if parts.len() == 0 {
        Seq::empty()
    } else {
        joined(parts, ", "@) + ", "@
    }
}

/// The texts with commas between them, ready to be followed by one more.
pub fn prefix_with_comma(parts: &Vec<String>) -> (s: String)
    ensures
        s@ == comma_prefix(texts(parts@)),
{
    if parts.len() == 0 {
        String::new()
    } else {
        let mut s = join(parts, ", ");
        s.append(", ");
        s
    }
}

/// A statement with its window filled in: `?1` is the start, `?2` the end.
pub open spec fn bound(sql: Seq<char>, last: int, cur: int) -> Seq<char> {
    replaced(replaced(sql, "?1"@, signed_decimal(last)), "?2"@, signed_decimal(cur))
}

/// Fills in a statement's window.
pub fn bind(sql: &str, last: i64, cur: i64) -> (s: String)
    ensures
        s@ == bound(sql@, last as int, cur as int),
{
    let a = replace_all(sql, "?1", decimal_i64(last).as_str());
    replace_all(a.as_str(), "?2", decimal_i64(cur).as_str())
}

/// The columns of a table, as they are declared.
pub open spec fn column_decls(cols: Seq<ColumnTy>) -> Seq<Seq<char>> {
    Seq::new(
        cols.len(),
        |i: int| "c"@ + decimal(i as nat) + " "@ + cols[i].text() + " NOT NULL"@,
    )
}

/// The clause that declares the primary key.
pub open spec fn key_clause(width: nat) -> Seq<char> {
    if width == 0 {
        Seq::empty()
    } else {
        ", PRIMARY KEY ("@ + joined(numbered("c"@, width), ", "@) + ")"@
    }
}

/// The statement that creates a function's table. Every table has a column `ts` for the time at
/// which a row came.
pub open spec fn create_table(name: Seq<char>, info: InfoView) -> Seq<char> {
    "CREATE TABLE "@ + quoted(name) + " ("@ + comma_prefix(column_decls(info.cols))
        + "ts BIGINT NOT NULL"@ + key_clause(info.key_width()) + ")"@
}

fn declare_columns(cols: &Vec<ColumnTy>) -> (v: Vec<String>)
    ensures
        texts(v@) == column_decls(cols@),
{
    let mut v: Vec<String> = Vec::new();
    let n: usize = cols.len();
    for i in 0..n
        invariant
            n == cols@.len(),
            v@.len() == i,
            forall|k: int| 0 <= k < i ==> (#[trigger] v@[k])@ == column_decls(cols@)[k],
    {
        let mut s = "c".to_owned();
        s.append(decimal_usize(i).as_str());
        s.append(" ");
        s.append(cols[i].sql());
        s.append(" NOT NULL");
        v.push(s);
    }
    assert(texts(v@) =~= column_decls(cols@));
    v
}

fn declare_key(width: usize) -> (s: String)
    ensures
        s@ == key_clause(width as nat),
{
    if width == 0 {
        return String::new();
    }
    let cols = numbered_texts("c", width);
    let mut s = ", PRIMARY KEY (".to_owned();
    s.append(join(&cols, ", ").as_str());
    s.append(")");
    s
}

/// The statement that creates a function's table.
pub fn create_table_sql(name: &str, info: &FunctionInfo) -> (s: String)
    ensures
        s@ == create_table(name@, info@),
{
    let cols = declare_columns(&info.cols);
    let mut s = "CREATE TABLE ".to_owned();
    s.append(q(name).as_str());
    s.append(" (");
    s.append(prefix_with_comma(&cols).as_str());
    s.append("ts BIGINT NOT NULL");
    s.append(declare_key(info.key_width()).as_str());
    s.append(")");
    s
}

/// What an insert into a table does where the key is there already: keep the row, or update its
/// output by the merge mode. A table without a key has no clause.
pub open spec fn conflict(info: InfoView) -> Seq<char> {
    let out = "c"@ + decimal(info.inputs_len);
    if info.merge_tree is Some {
        "ON CONFLICT DO NOTHING"@
    } else if info.key_width() == 0 {
        Seq::empty()
    } else if info.eq_sort_ctor {
        "ON CONFLICT DO NOTHING"@
    } else {
        match info.merge {
            None => "ON CONFLICT DO NOTHING"@,
            Some(MergeModeView::Old) => "ON CONFLICT DO NOTHING"@,
            Some(MergeModeView::New) => "ON CONFLICT DO UPDATE SET "@ + out + " = EXCLUDED."@ + out
                + ", ts = EXCLUDED.ts"@,
            Some(MergeModeView::Min) => "ON CONFLICT DO UPDATE SET "@ + out + " = LEAST("@ + out
                + ", EXCLUDED."@ + out + "), ts = EXCLUDED.ts"@,
            Some(MergeModeView::Fold(e)) => "ON CONFLICT DO UPDATE SET "@ + out + " = "@ + e
                + ", ts = EXCLUDED.ts"@,
        }
    }
}

/// The clause for rows whose key is there already.
pub fn conflict_clause(info: &FunctionInfo) -> (s: String)
    ensures
        s@ == conflict(info@),
{
    if info.merge_tree.is_some() {
        return "ON CONFLICT DO NOTHING".to_owned();
    }
    if info.key_width() == 0 {
        return String::new();
    }
    if info.eq_sort_ctor {
        return "ON CONFLICT DO NOTHING".to_owned();
    }
    let mut out = "c".to_owned();
    out.append(decimal_usize(info.inputs_len).as_str());
    match &info.merge {
        None => "ON CONFLICT DO NOTHING".to_owned(),
        Some(MergeMode::Old) => "ON CONFLICT DO NOTHING".to_owned(),
        Some(MergeMode::New) => {
            let mut s = "ON CONFLICT DO UPDATE SET ".to_owned();
            s.append(out.as_str());
            s.append(" = EXCLUDED.");
            s.append(out.as_str());
            s.append(", ts = EXCLUDED.ts");
            s
        },
        Some(MergeMode::Min) => {
            let mut s = "ON CONFLICT DO UPDATE SET ".to_owned();
            s.append(out.as_str());
            s.append(" = LEAST(");
            s.append(out.as_str());
            s.append(", EXCLUDED.");
            s.append(out.as_str());
            s.append("), ts = EXCLUDED.ts");
            s
        },
        Some(MergeMode::Fold(e)) => {
            let mut s = "ON CONFLICT DO UPDATE SET ".to_owned();
            s.append(out.as_str());
            s.append(" = ");
            s.append(e.as_str());
            s.append(", ts = EXCLUDED.ts");
            s
        },
    }
}

/// An insert has a clause for conflicts just where the table has a key; without one the database
/// refuses the clause.
pub proof fn conflict_needs_a_key(info: InfoView)
    requires
        info.merge_tree is Some ==> info.cols.len() > 0,
    ensures
        conflict(info).len() > 0 <==> key_clause(info.key_width()).len() > 0,
{
    reveal_strlit("ON CONFLICT DO NOTHING");
    reveal_strlit("ON CONFLICT DO UPDATE SET ");
    reveal_strlit(", PRIMARY KEY (");
}

/// The start of an insert: the table and all of its columns.
pub open spec fn insert_head(name: Seq<char>, n: nat) -> Seq<char> {
    "INSERT INTO "@ + quoted(name) + " ("@ + comma_prefix(numbered("c"@, n)) + "ts)"@
}

fn insert_head_sql(name: &str, n: usize) -> (s: String)
    ensures
        s@ == insert_head(name@, n as nat),
{
    let cols = numbered_texts("c", n);
    let mut s = "INSERT INTO ".to_owned();
    s.append(q(name).as_str());
    s.append(" (");
    s.append(prefix_with_comma(&cols).as_str());
    s.append("ts)");
    s
}

/// The insert of one row of rendered literals.
pub open spec fn insert_values(
    name: Seq<char>,
    info: InfoView,
    args: Seq<Seq<char>>,
    ts: int,
) -> Seq<char> {
    let head = insert_head(name, args.len()) + " VALUES ("@ + comma_prefix(args) + signed_decimal(
        ts,
    ) + ")"@;
    if conflict(info).len() == 0 {
        head
    } else {
        head + " "@ + conflict(info)
    }
}

/// The insert of one row of rendered literals.
pub fn insert_values_sql(name: &str, info: &FunctionInfo, args: &Vec<String>, ts: i64) -> (s: String)
    ensures
        s@ == insert_values(name@, info@, texts(args@), ts as int),
{
    let mut s = insert_head_sql(name, args.len());
    s.append(" VALUES (");
    s.append(prefix_with_comma(args).as_str());
    s.append(decimal_i64(ts).as_str());
    s.append(")");
    let c = conflict_clause(info);
    if !crate::text::str_eq(c.as_str(), "") {
        s.append(" ");
        s.append(c.as_str());
        proof {
            reveal_strlit("");
            if conflict(info@).len() == 0 {
                assert(conflict(info@) =~= ""@);
            }
        }
    } else {
        proof {
            reveal_strlit("");
        }
    }
    s
}

/// The insert of one row of rendered terms.
pub open spec fn insert_select(
    name: Seq<char>,
    info: InfoView,
    args: Seq<Seq<char>>,
    ts: int,
) -> Seq<char> {
    insert_head(name, args.len()) + " SELECT "@ + comma_prefix(args) + signed_decimal(ts) + " "@
        + conflict(info)
}

/// The insert of one row of rendered terms.
pub fn insert_select_sql(name: &str, info: &FunctionInfo, args: &Vec<String>, ts: i64) -> (s: String)
    ensures
        s@ == insert_select(name@, info@, texts(args@), ts as int),
{
    let mut s = insert_head_sql(name, args.len());
    s.append(" SELECT ");
    s.append(prefix_with_comma(args).as_str());
    s.append(decimal_i64(ts).as_str());
    s.append(" ");
    s.append(conflict_clause(info).as_str());
    s
}

/// The clause that asks for all the conditions.
pub open spec fn where_all(parts: Seq<Seq<char>>) -> Seq<char> {
    if parts.len() == 0 {
        Seq::empty()
    } else {
        " WHERE "@ + joined(parts, " AND "@)
    }
}

fn where_clause(parts: &Vec<String>) -> (s: String)
    ensures
        s@ == where_all(texts(parts@)),
{
    if parts.len() == 0 {
        return String::new();
    }
    let mut s = " WHERE ".to_owned();
    s.append(join(parts, " AND ").as_str());
    s
}

/// The conditions that the first `n` columns are the statement's parameters.
pub open spec fn parameters(n: nat) -> Seq<Seq<char>> {
    Seq::new(n, |i: int| "c"@ + decimal(i as nat) + " = ?"@ + decimal((i + 1) as nat))
}

fn parameter_texts(n: usize) -> (v: Vec<String>)
    requires
        n < usize::MAX,
    ensures
        texts(v@) == parameters(n as nat),
{
    let mut v: Vec<String> = Vec::new();
    for i in 0..n
        invariant
            n < usize::MAX,
            v@.len() == i,
            forall|k: int| 0 <= k < i ==> (#[trigger] v@[k])@ == parameters(n as nat)[k],
    {
        let mut s = "c".to_owned();
        s.append(decimal_usize(i).as_str());
        s.append(" = ?");
        s.append(decimal_usize(i + 1).as_str());
        v.push(s);
    }
    assert(texts(v@) =~= parameters(n as nat));
    v
}

/// The query for how many rows of a table meet the conditions.
pub open spec fn count_where(name: Seq<char>, parts: Seq<Seq<char>>) -> Seq<char> {
    "SELECT COUNT(*) FROM "@ + quoted(name) + where_all(parts)
}

/// The query for how many rows of a table meet the conditions.
pub fn count_where_sql(name: &str, parts: &Vec<String>) -> (s: String)
    ensures
        s@ == count_where(name@, texts(parts@)),
{
    let mut s = "SELECT COUNT(*) FROM ".to_owned();
    s.append(q(name).as_str());
    s.append(where_clause(parts).as_str());
    s
}

/// The query for how many rows a table has.
pub open spec fn count_rows(name: Seq<char>) -> Seq<char> {
    "SELECT COUNT(*) FROM "@ + quoted(name)
}

/// The query for how many rows a table has.
pub fn count_rows_sql(name: &str) -> (s: String)
    ensures
        s@ == count_rows(name@),
{
    let mut s = "SELECT COUNT(*) FROM ".to_owned();
    s.append(q(name).as_str());
    s
}

/// The query for how many rows begin with the statement's `n` parameters.
pub fn count_matching_sql(name: &str, n: usize) -> (s: String)
    requires
        n < usize::MAX,
    ensures
        s@ == count_where(name@, parameters(n as nat)),
{
    let parts = parameter_texts(n);
    count_where_sql(name, &parts)
}

/// The query for a function's output at the statement's parameters.
pub open spec fn lookup_output(name: Seq<char>, inputs: nat) -> Seq<char> {
    "SELECT c"@ + decimal(inputs) + " FROM "@ + quoted(name) + where_all(parameters(inputs))
}

/// The query for a function's output at the statement's parameters.
pub fn lookup_output_sql(name: &str, inputs: usize) -> (s: String)
    requires
        inputs < usize::MAX,
    ensures
        s@ == lookup_output(name@, inputs as nat),
{
    let parts = parameter_texts(inputs);
    let mut s = "SELECT c".to_owned();
    s.append(decimal_usize(inputs).as_str());
    s.append(" FROM ");
    s.append(q(name).as_str());
    s.append(where_clause(&parts).as_str());
    s
}

/// The query for the sizes of tables, one column for each.
pub open spec fn table_sizes(names: Seq<Seq<char>>) -> Seq<char> {
    "SELECT "@ + joined(names.map_values(|n: Seq<char>| "("@ + count_rows(n) + ")"@), ", "@)
}

/// The query for the sizes of tables, one column for each.
pub fn table_sizes_sql(names: &Vec<String>) -> (s: String)
    ensures
        s@ == table_sizes(texts(names@)),
{
    let mut cols: Vec<String> = Vec::new();
    let n: usize = names.len();
    let ghost want = texts(names@).map_values(|n: Seq<char>| "("@ + count_rows(n) + ")"@);
    for i in 0..n
        invariant
            n == names@.len(),
            want == texts(names@).map_values(|n: Seq<char>| "("@ + count_rows(n) + ")"@),
            cols@.len() == i,
            forall|k: int| 0 <= k < i ==> (#[trigger] cols@[k])@ == want[k],
    {
        let mut s = "(".to_owned();
        s.append(count_rows_sql(names[i].as_str()).as_str());
        s.append(")");
        cols.push(s);
    }
    assert(texts(cols@) =~= want);
    let mut s = "SELECT ".to_owned();
    s.append(join(&cols, ", ").as_str());
    s
}

/// The query for the unions that came after a time.
pub open spec fn unions_after(pname: Seq<char>, after: int) -> Seq<char> {
    "SELECT c0, c1, ts FROM "@ + quoted(pname) + " WHERE ts > "@ + signed_decimal(after)
}

/// The query for the unions that came after a time.
pub fn unions_after_sql(pname: &str, after: i64) -> (s: String)
    ensures
        s@ == unions_after(pname@, after as int),
{
    let mut s = "SELECT c0, c1, ts FROM ".to_owned();
    s.append(q(pname).as_str());
    s.append(" WHERE ts > ");
    s.append(decimal_i64(after).as_str());
    s
}

/// The insert of the changed ids.
pub open spec fn insert_changed(ids: Seq<i64>) -> Seq<char> {
    "INSERT INTO __UF_CHANGED__ (id) VALUES "@ + joined(
        ids.map_values(|id: i64| "("@ + signed_decimal(id as int) + ")"@),
        ", "@,
    )
}

/// The insert of the changed ids.
pub fn insert_changed_sql(ids: &Vec<i64>) -> (s: String)
    ensures
        s@ == insert_changed(ids@),
{
    let mut rows: Vec<String> = Vec::new();
    let n: usize = ids.len();
    let ghost want = ids@.map_values(|id: i64| "("@ + signed_decimal(id as int) + ")"@);
    for i in 0..n
        invariant
            n == ids@.len(),
            want == ids@.map_values(|id: i64| "("@ + signed_decimal(id as int) + ")"@),
            rows@.len() == i,
            forall|k: int| 0 <= k < i ==> (#[trigger] rows@[k])@ == want[k],
    {
        let mut s = "(".to_owned();
        s.append(decimal_i64(ids[i]).as_str());
        s.append(")");
        rows.push(s);
    }
    assert(texts(rows@) =~= want);
    let mut s = "INSERT INTO __UF_CHANGED__ (id) VALUES ".to_owned();
    s.append(join(&rows, ", ").as_str());
    s
}

} // verus!
