//! What the statements of the passes bring together.
use crate::duckdb::meaning::{
    all_hold, all_text, column, condition_holds, condition_text, regroup, two_rows, ColRef,
    Comparison, Condition, Expr, From, Item, Named, Query, Rel, Setting, Statement, Tables,
};
use crate::duckdb::names::quoted;
use crate::duckdb::passes::{
    build_batch, delete_side, inline_unions, insert_merged, native_batch, native_edges,
};
use crate::duckdb::sql::{numbered, twice_numbered};
use crate::text::{decimal, joined};
use vstd::prelude::*;
use vstd::string::*;

verus! {

spec fn v1(i: nat) -> ColRef {
    ColRef { row: "v1"@, name: column(i) }
}

spec fn v2(i: nat) -> ColRef {
    ColRef { row: "v2"@, name: column(i) }
}

/// The conditions that two rows agree in their first `n` columns.
spec fn agree(n: nat) -> Seq<Comparison> {
    Seq::new(
        n,
        |i: int| Comparison { l: Expr::Col(v1(i as nat)), rel: Rel::Eq, r: Expr::Col(v2(i as nat)) },
    )
}

/// The first `n` columns of the first row, under their names.
spec fn keys_of(n: nat) -> Seq<Item> {
    Seq::new(n, |i: int| Item { e: Expr::Col(v1(i as nat)), name: Some(column(i as nat)) })
}

proof fn lemma_column_texts(n: nat)
    ensures
        agree(n).map_values(|c: Comparison| c.text()) == twice_numbered("v1.c"@, " = v2.c"@, n),
        keys_of(n).map_values(|i: Item| i.text()) == twice_numbered("v1.c"@, " AS c"@, n),
        v1(n).text() == "v1.c"@ + decimal(n),
        v2(n).text() == "v2.c"@ + decimal(n),
{
    broadcast use regroup;

    reveal_strlit("v1");
    reveal_strlit("v2");
    reveal_strlit(".");
    reveal_strlit("c");
    reveal_strlit("v1.c");
    reveal_strlit("v2.c");
    reveal_strlit(" = ");
    reveal_strlit(" = v2.c");
    reveal_strlit(" AS ");
    reveal_strlit(" AS c");
    assert("v1"@ + "."@ + "c"@ =~= "v1.c"@);
    assert("v2"@ + "."@ + "c"@ =~= "v2.c"@);
    assert(" = "@ + "v2.c"@ =~= " = v2.c"@);
    assert(" AS "@ + "c"@ =~= " AS c"@);
    assert forall|i: nat| #[trigger] v1(i).text() == "v1.c"@ + decimal(i) by {}
    assert forall|i: nat| #[trigger] v2(i).text() == "v2.c"@ + decimal(i) by {}
    let a = agree(n).map_values(|c: Comparison| c.text());
    let b = twice_numbered("v1.c"@, " = v2.c"@, n);
    assert forall|i: int| 0 <= i < n implies a[i] == b[i] by {
        let d = decimal(i as nat);
        assert(a[i] == v1(i as nat).text() + " = "@ + v2(i as nat).text());
        assert(a[i] == "v1.c"@ + d + " = "@ + ("v2.c"@ + d));
        assert(b[i] == "v1.c"@ + d + " = v2.c"@ + d);
        assert("v1.c"@ + d + (" = "@ + "v2.c"@) == "v1.c"@ + d + " = "@ + "v2.c"@);
    }
    assert(a =~= b);
    let k = keys_of(n).map_values(|i: Item| i.text());
    let t = twice_numbered("v1.c"@, " AS c"@, n);
    assert forall|i: int| 0 <= i < n implies k[i] == t[i] by {
        let d = decimal(i as nat);
        assert(k[i] == v1(i as nat).text() + " AS "@ + column(i as nat));
        assert(k[i] == "v1.c"@ + d + " AS "@ + ("c"@ + d));
        assert("v1.c"@ + d + (" AS "@ + "c"@) == "v1.c"@ + d + " AS "@ + "c"@);
    }
    assert(k =~= t);
}

proof fn lemma_joined_push(parts: Seq<Seq<char>>, x: Seq<char>, sep: Seq<char>)
    requires
        parts.len() > 0,
    ensures
        joined(parts.push(x), sep) == joined(parts, sep) + sep + x,
{
    assert(parts.push(x).drop_last() =~= parts);
}

spec fn time_at_least(row: Seq<char>, k: nat) -> Comparison {
    Comparison {
        l: Expr::Col(ColRef { row, name: "ts"@ }),
        rel: Rel::Ge,
        r: Expr::Param(k),
    }
}

spec fn time_below(row: Seq<char>, k: nat) -> Comparison {
    Comparison {
        l: Expr::Col(ColRef { row, name: "ts"@ }),
        rel: Rel::Lt,
        r: Expr::Param(k),
    }
}

/// The batch of a constructor's view.
spec fn native_query(view: Seq<char>, n: nat) -> Query {
    Query {
        items: keys_of(n).push(
            Item { e: Expr::Greatest(v1(n), v2(n)), name: Some("loser"@) },
        ).push(Item { e: Expr::Least(v1(n), v2(n)), name: Some("winner"@) }),
        from: From::Join(
            quoted(view),
            "v1"@,
            quoted(view),
            "v2"@,
            seq![
                agree(n).push(
                    Comparison { l: Expr::Col(v1(n)), rel: Rel::Ne, r: Expr::Col(v2(n)) },
                ),
            ],
        ),
        filter: Some(
            seq![
                seq![time_at_least("v1"@, 1), time_below("v1"@, 2), time_below("v2"@, 2)],
            ],
        ),
    }
}

proof fn lemma_one_alternative(cs: Seq<Comparison>)
    ensures
        condition_text(seq![cs]) == all_text(cs),
{
    let c: Condition = seq![cs];
    assert(c.map_values(|x: Seq<Comparison>| all_text(x)) =~= seq![all_text(cs)]);
}

proof fn lemma_window_texts()
    ensures
        time_at_least("v1"@, 1).text() == "v1.ts >= ?1"@,
        time_at_least("v2"@, 1).text() == "v2.ts >= ?1"@,
        time_below("v1"@, 2).text() == "v1.ts < ?2"@,
        time_below("v2"@, 2).text() == "v2.ts < ?2"@,
        all_text(
            seq![time_at_least("v1"@, 1), time_below("v1"@, 2), time_below("v2"@, 2)],
        ) == "v1.ts >= ?1 AND v1.ts < ?2 AND v2.ts < ?2"@,
{
    reveal_strlit("v1");
    reveal_strlit("v2");
    reveal_strlit(".");
    reveal_strlit("ts");
    reveal_strlit(" >= ");
    reveal_strlit(" < ");
    reveal_strlit("?");
    reveal_strlit("v1.ts >= ?1");
    reveal_strlit("v2.ts >= ?1");
    reveal_strlit("v1.ts < ?2");
    reveal_strlit("v2.ts < ?2");
    reveal_strlit(" AND ");
    reveal_strlit("v1.ts >= ?1 AND v1.ts < ?2 AND v2.ts < ?2");
    reveal_with_fuel(decimal, 3);
    assert(decimal(1) =~= seq!['1']);
    assert(decimal(2) =~= seq!['2']);
    assert(time_at_least("v1"@, 1).text() =~= "v1.ts >= ?1"@);
    assert(time_at_least("v2"@, 1).text() =~= "v2.ts >= ?1"@);
    assert(time_below("v1"@, 2).text() =~= "v1.ts < ?2"@);
    assert(time_below("v2"@, 2).text() =~= "v2.ts < ?2"@);
    let cs = seq![time_at_least("v1"@, 1), time_below("v1"@, 2), time_below("v2"@, 2)];
    let ts = cs.map_values(|c: Comparison| c.text());
    assert(ts =~= seq!["v1.ts >= ?1"@].push("v1.ts < ?2"@).push("v2.ts < ?2"@));
    lemma_joined_push(seq!["v1.ts >= ?1"@], "v1.ts < ?2"@, " AND "@);
    lemma_joined_push(seq!["v1.ts >= ?1"@].push("v1.ts < ?2"@), "v2.ts < ?2"@, " AND "@);
    assert(joined(ts, " AND "@) =~= "v1.ts >= ?1 AND v1.ts < ?2 AND v2.ts < ?2"@);
}

/// The rows of both sides came in the window, the first one as well after its start.
spec fn window() -> Seq<Comparison> {
    seq![time_at_least("v1"@, 1), time_below("v1"@, 2), time_below("v2"@, 2)]
}

/// One of the two rows came after the window's start.
spec fn either() -> Condition {
    seq![seq![time_at_least("v1"@, 1)], seq![time_at_least("v2"@, 1)]]
}

/// The batch of a merge.
spec fn build_query(view: Seq<char>, n: nat) -> Query {
    Query {
        items: keys_of(n).push(Item { e: Expr::Col(v1(n)), name: Some("old"@) }).push(
            Item { e: Expr::Col(v2(n)), name: Some("new"@) },
        ),
        from: From::Join(
            quoted(view),
            "v1"@,
            quoted(view),
            "v2"@,
            seq![
                agree(n).push(
                    Comparison { l: Expr::Col(v1(n)), rel: Rel::Gt, r: Expr::Col(v2(n)) },
                ),
            ],
        ),
        filter: Some(either()),
    }
}

/// The unions of a view's rows.
spec fn inline_query(view: Seq<char>, n: nat) -> Query {
    Query {
        items: seq![
            Item { e: Expr::Greatest(v1(n), v2(n)), name: None },
            Item { e: Expr::Least(v1(n), v2(n)), name: None },
            Item { e: Expr::Param(2), name: None },
        ],
        from: From::Both(quoted(view), "v1"@, quoted(view), "v2"@),
        filter: Some(
            seq![
                window().push(
                    Comparison { l: Expr::Col(v1(n)), rel: Rel::Ne, r: Expr::Col(v2(n)) },
                ) + agree(n),
            ],
        ),
    }
}

spec fn of_batch(name: Seq<char>) -> Item {
    Item { e: Expr::Col(ColRef { row: "b"@, name }), name: None }
}

/// The unions of a batch.
spec fn edges_query() -> Query {
    Query {
        items: seq![of_batch("loser"@), of_batch("winner"@), Item { e: Expr::Param(2), name: None }],
        from: From::One("native_cong_batch"@, "b"@),
        filter: None,
    }
}

spec fn batch_keys(n: nat) -> Seq<Item> {
    Seq::new(n, |i: int| of_batch(column(i as nat)))
}

/// The first `n` columns.
pub open spec fn columns(n: nat) -> Seq<Seq<char>> {
    Seq::new(n, |i: int| column(i as nat))
}

/// The keys of a batch with one side.
spec fn side_query(n: nat, side: Seq<char>) -> Query {
    Query {
        items: batch_keys(n).push(of_batch(side)),
        from: From::One("batch"@, "b"@),
        filter: None,
    }
}

/// The keys of a batch with the merged output and the time.
spec fn merged_query(n: nat, merged: Seq<char>) -> Query {
    Query {
        items: batch_keys(n).push(Item { e: Expr::Other(merged), name: None }).push(
            Item { e: Expr::Param(2), name: None },
        ),
        from: From::One("batch"@, "b"@),
        filter: None,
    }
}

/// The columns of a table of unions.
pub open spec fn edge_columns() -> Seq<Seq<char>> {
    seq!["c0"@, "c1"@, "ts"@]
}

proof fn lemma_edge_columns()
    ensures
        joined(edge_columns(), ", "@) == "c0, c1, ts"@,
        Expr::Param(2).text() == "?2"@,
{
    reveal_strlit("c0");
    reveal_strlit("c1");
    reveal_strlit("ts");
    reveal_strlit(", ");
    reveal_strlit("c0, c1, ts");
    lemma_joined_push(seq!["c0"@], "c1"@, ", "@);
    lemma_joined_push(seq!["c0"@].push("c1"@), "ts"@, ", "@);
    assert(edge_columns() =~= seq!["c0"@].push("c1"@).push("ts"@));
    assert(joined(edge_columns(), ", "@) =~= "c0, c1, ts"@);
    lemma_second_parameter();
}

proof fn lemma_second_parameter()
    ensures
        Expr::Param(2).text() == "?2"@,
{
    reveal_strlit("?");
    reveal_strlit("?2");
    reveal_with_fuel(decimal, 3);
    assert(decimal(2) =~= seq!['2']);
    assert(Expr::Param(2).text() =~= "?2"@);
}

proof fn lemma_edge_items()
    ensures
        joined(edges_query().items.map_values(|i: Item| i.text()), ", "@)
            == "b.loser, b.winner, ?2"@,
{
    lemma_second_parameter();
    reveal_strlit("b");
    reveal_strlit(".");
    reveal_strlit("loser");
    reveal_strlit("winner");
    reveal_strlit(", ");
    reveal_strlit("?2");
    reveal_strlit("b.loser");
    reveal_strlit("b.winner");
    reveal_strlit("b.loser, b.winner, ?2");
    assert(of_batch("loser"@).text() =~= "b.loser"@);
    assert(of_batch("winner"@).text() =~= "b.winner"@);
    let ts = edges_query().items.map_values(|i: Item| i.text());
    assert(ts =~= seq!["b.loser"@].push("b.winner"@).push("?2"@));
    lemma_joined_push(seq!["b.loser"@], "b.winner"@, ", "@);
    lemma_joined_push(seq!["b.loser"@].push("b.winner"@), "?2"@, ", "@);
    assert(joined(ts, ", "@) =~= "b.loser, b.winner, ?2"@);
}

proof fn lemma_batch_texts(n: nat)
    ensures
        columns(n) == numbered("c"@, n),
        batch_keys(n).map_values(|i: Item| i.text()) == numbered("b.c"@, n),
{
    reveal_strlit("b");
    reveal_strlit(".");
    reveal_strlit("c");
    reveal_strlit("b.c");
    assert("b"@ + "."@ + "c"@ =~= "b.c"@);
    assert(columns(n) =~= numbered("c"@, n));
    let a = batch_keys(n).map_values(|i: Item| i.text());
    let b = numbered("b.c"@, n);
    assert forall|i: int| 0 <= i < n implies a[i] == b[i] by {
        let d = decimal(i as nat);
        regroup("b"@ + "."@, "c"@, d);
        assert(a[i] == "b"@ + "."@ + ("c"@ + d));
    }
    assert(a =~= b);
}

proof fn lemma_either_text()
    ensures
        condition_text(either()) == "v1.ts >= ?1"@ + " OR "@ + "v2.ts >= ?1"@,
{
    lemma_window_texts();
    let a = seq![time_at_least("v1"@, 1)];
    let b = seq![time_at_least("v2"@, 1)];
    assert(a.map_values(|c: Comparison| c.text()) =~= seq!["v1.ts >= ?1"@]);
    assert(b.map_values(|c: Comparison| c.text()) =~= seq!["v2.ts >= ?1"@]);
    assert(either().map_values(|x: Seq<Comparison>| all_text(x)) =~= seq!["v1.ts >= ?1"@].push(
        "v2.ts >= ?1"@,
    ));
    lemma_joined_push(seq!["v1.ts >= ?1"@], "v2.ts >= ?1"@, " OR "@);
}

proof fn lemma_joined_concat(a: Seq<Seq<char>>, b: Seq<Seq<char>>, sep: Seq<char>)
    requires
        a.len() > 0,
        b.len() > 0,
    ensures
        joined(a + b, sep) == joined(a, sep) + sep + joined(b, sep),
    decreases b.len(),
{
    if b.len() == 1 {
        assert(a + b =~= a.push(b[0]));
        lemma_joined_push(a, b[0], sep);
    } else {
        let less = b.drop_last();
        lemma_joined_concat(a, less, sep);
        assert(a + b =~= (a + less).push(b.last()));
        assert(b =~= less.push(b.last()));
        lemma_joined_push(a + less, b.last(), sep);
        lemma_joined_push(less, b.last(), sep);
        let j = joined(less, sep);
        assert(joined(a, sep) + sep + (j + sep + b.last()) =~= joined(a, sep) + sep + j + sep
            + b.last());
    }
}

/// The statement that collects a constructor view's conflicts.
proof fn lemma_native_text(view: Seq<char>, n: nat)
    requires
        n > 0,
    ensures
        native_batch(view, n) == Statement::Collect(
            "native_cong_batch"@,
            native_query(view, n),
        ).text(),
{
    let d = decimal(n);
    let v = quoted(view);
    lemma_column_texts(n);
    lemma_window_texts();
    let keys = keys_of(n).map_values(|i: Item| i.text());
    let k = joined(keys, ", "@);
    let eqs = agree(n).map_values(|c: Comparison| c.text());
    let e = joined(eqs, " AND "@);
    let q = native_query(view, n);
    let loser = "GREATEST("@ + ("v1.c"@ + d) + ", "@ + ("v2.c"@ + d) + ")"@ + " AS "@ + "loser"@;
    let winner = "LEAST("@ + ("v1.c"@ + d) + ", "@ + ("v2.c"@ + d) + ")"@ + " AS "@ + "winner"@;
    assert(q.items.map_values(|i: Item| i.text()) =~= keys.push(loser).push(winner));
    lemma_joined_push(keys, loser, ", "@);
    lemma_joined_push(keys.push(loser), winner, ", "@);
    let ne = Comparison { l: Expr::Col(v1(n)), rel: Rel::Ne, r: Expr::Col(v2(n)) };
    let on = agree(n).push(ne);
    assert(on.map_values(|c: Comparison| c.text()) =~= eqs.push(ne.text()));
    lemma_joined_push(eqs, ne.text(), " AND "@);
    lemma_one_alternative(on);
    lemma_one_alternative(window());
    let text = Statement::Collect("native_cong_batch"@, q).text();
    lemma_literals();
    assert(text
        == "CREATE OR REPLACE TEMP TABLE "@ + "native_cong_batch"@ + " AS "@ + ("SELECT "@ + (k + ", "@ + ("GREATEST("@ + ("v1.c"@ + d) + ", "@ + ("v2.c"@ + d) + ")"@ + " AS "@ + "loser"@) + ", "@ + ("LEAST("@ + ("v1.c"@ + d) + ", "@ + ("v2.c"@ + d) + ")"@ + " AS "@ + "winner"@)) + " FROM "@ + (v + " "@ + "v1"@ + " JOIN "@ + v + " "@ + "v2"@ + " ON "@ + (e + " AND "@ + ("v1.c"@ + d + " <> "@ + ("v2.c"@ + d)))) + " WHERE "@ + "v1.ts >= ?1 AND v1.ts < ?2 AND v2.ts < ?2"@));
    let p1 = "CREATE OR REPLACE TEMP TABLE "@ + "native_cong_batch"@;
    let p2 = p1 + " AS "@;
    g6(p2, "SELECT "@, (k + ", "@ + ("GREATEST("@ + ("v1.c"@ + d) + ", "@ + ("v2.c"@ + d) + ")"@ + " AS "@ + "loser"@) + ", "@ + ("LEAST("@ + ("v1.c"@ + d) + ", "@ + ("v2.c"@ + d) + ")"@ + " AS "@ + "winner"@)), " FROM "@, (v + " "@ + "v1"@ + " JOIN "@ + v + " "@ + "v2"@ + " ON "@ + (e + " AND "@ + ("v1.c"@ + d + " <> "@ + ("v2.c"@ + d)))), " WHERE "@, "v1.ts >= ?1 AND v1.ts < ?2 AND v2.ts < ?2"@);
    let p3 = p2 + "SELECT "@;
    g5(p3, k, ", "@, ("GREATEST("@ + ("v1.c"@ + d) + ", "@ + ("v2.c"@ + d) + ")"@ + " AS "@ + "loser"@), ", "@, ("LEAST("@ + ("v1.c"@ + d) + ", "@ + ("v2.c"@ + d) + ")"@ + " AS "@ + "winner"@));
    let p4 = p3 + k;
    let p5 = p4 + ", "@;
    g7(p5, "GREATEST("@, ("v1.c"@ + d), ", "@, ("v2.c"@ + d), ")"@, " AS "@, "loser"@);
    let p6 = p5 + "GREATEST("@;
    g2(p6, "v1.c"@, d);
    let p7 = p6 + "v1.c"@;
    let p8 = p7 + d;
    let p9 = p8 + ", "@;
    g2(p9, "v2.c"@, d);
    let p10 = p9 + "v2.c"@;
    let p11 = p10 + d;
    let p12 = p11 + ")"@;
    let p13 = p12 + " AS "@;
    let p14 = p13 + "loser"@;
    let p15 = p14 + ", "@;
    g7(p15, "LEAST("@, ("v1.c"@ + d), ", "@, ("v2.c"@ + d), ")"@, " AS "@, "winner"@);
    let p16 = p15 + "LEAST("@;
    g2(p16, "v1.c"@, d);
    let p17 = p16 + "v1.c"@;
    let p18 = p17 + d;
    let p19 = p18 + ", "@;
    g2(p19, "v2.c"@, d);
    let p20 = p19 + "v2.c"@;
    let p21 = p20 + d;
    let p22 = p21 + ")"@;
    let p23 = p22 + " AS "@;
    let p24 = p23 + "winner"@;
    let p25 = p24 + " FROM "@;
    g9(p25, v, " "@, "v1"@, " JOIN "@, v, " "@, "v2"@, " ON "@, (e + " AND "@ + ("v1.c"@ + d + " <> "@ + ("v2.c"@ + d))));
    let p26 = p25 + v;
    let p27 = p26 + " "@;
    let p28 = p27 + "v1"@;
    let p29 = p28 + " JOIN "@;
    let p30 = p29 + v;
    let p31 = p30 + " "@;
    let p32 = p31 + "v2"@;
    let p33 = p32 + " ON "@;
    g3(p33, e, " AND "@, ("v1.c"@ + d + " <> "@ + ("v2.c"@ + d)));
    let p34 = p33 + e;
    let p35 = p34 + " AND "@;
    g4(p35, "v1.c"@, d, " <> "@, ("v2.c"@ + d));
    let p36 = p35 + "v1.c"@;
    let p37 = p36 + d;
    let p38 = p37 + " <> "@;
    g2(p38, "v2.c"@, d);
    let p39 = p38 + "v2.c"@;
    let p40 = p39 + d;
    let p41 = p40 + " WHERE "@;
    let p42 = p41 + "v1.ts >= ?1 AND v1.ts < ?2 AND v2.ts < ?2"@;
    assert("CREATE OR REPLACE TEMP TABLE native_cong_batch AS SELECT "@ == p3);
    g3(p4, ", "@, "GREATEST("@, "v1.c"@);
    g2(p8, ", "@, "v2.c"@);
    g6(p11, ")"@, " AS "@, "loser"@, ", "@, "LEAST("@, "v1.c"@);
    g2(p18, ", "@, "v2.c"@);
    g4(p21, ")"@, " AS "@, "winner"@, " FROM "@);
    g3(p26, " "@, "v1"@, " JOIN "@);
    g3(p30, " "@, "v2"@, " ON "@);
    g2(p34, " AND "@, "v1.c"@);
    g2(p37, " <> "@, "v2.c"@);
    g2(p40, " WHERE "@, "v1.ts >= ?1 AND v1.ts < ?2 AND v2.ts < ?2"@);
}

/// The statement that collects a merge's conflicts.
proof fn lemma_build_text(view: Seq<char>, n: nat)
    requires
        n > 0,
    ensures
        build_batch(view, n) == Statement::Collect("batch"@, build_query(view, n)).text(),
{
    let d = decimal(n);
    let v = quoted(view);
    lemma_column_texts(n);
    lemma_window_texts();
    let keys = keys_of(n).map_values(|i: Item| i.text());
    let k = joined(keys, ", "@);
    let eqs = agree(n).map_values(|c: Comparison| c.text());
    let e = joined(eqs, " AND "@);
    let q = build_query(view, n);
    let older = "v1.c"@ + d + " AS "@ + "old"@;
    let newer = "v2.c"@ + d + " AS "@ + "new"@;
    assert(q.items.map_values(|i: Item| i.text()) =~= keys.push(older).push(newer));
    lemma_joined_push(keys, older, ", "@);
    lemma_joined_push(keys.push(older), newer, ", "@);
    let gt = Comparison { l: Expr::Col(v1(n)), rel: Rel::Gt, r: Expr::Col(v2(n)) };
    let on = agree(n).push(gt);
    assert(on.map_values(|c: Comparison| c.text()) =~= eqs.push(gt.text()));
    lemma_joined_push(eqs, gt.text(), " AND "@);
    lemma_one_alternative(on);
    lemma_either_text();
    let text = Statement::Collect("batch"@, q).text();
    lemma_literals();
    assert(text
        == "CREATE OR REPLACE TEMP TABLE "@ + "batch"@ + " AS "@ + ("SELECT "@ + (k + ", "@ + ("v1.c"@ + d + " AS "@ + "old"@) + ", "@ + ("v2.c"@ + d + " AS "@ + "new"@)) + " FROM "@ + (v + " "@ + "v1"@ + " JOIN "@ + v + " "@ + "v2"@ + " ON "@ + (e + " AND "@ + ("v1.c"@ + d + " > "@ + ("v2.c"@ + d)))) + " WHERE "@ + ("v1.ts >= ?1"@ + " OR "@ + "v2.ts >= ?1"@)));
    let p1 = "CREATE OR REPLACE TEMP TABLE "@ + "batch"@;
    let p2 = p1 + " AS "@;
    g6(p2, "SELECT "@, (k + ", "@ + ("v1.c"@ + d + " AS "@ + "old"@) + ", "@ + ("v2.c"@ + d + " AS "@ + "new"@)), " FROM "@, (v + " "@ + "v1"@ + " JOIN "@ + v + " "@ + "v2"@ + " ON "@ + (e + " AND "@ + ("v1.c"@ + d + " > "@ + ("v2.c"@ + d)))), " WHERE "@, ("v1.ts >= ?1"@ + " OR "@ + "v2.ts >= ?1"@));
    let p3 = p2 + "SELECT "@;
    g5(p3, k, ", "@, ("v1.c"@ + d + " AS "@ + "old"@), ", "@, ("v2.c"@ + d + " AS "@ + "new"@));
    let p4 = p3 + k;
    let p5 = p4 + ", "@;
    g4(p5, "v1.c"@, d, " AS "@, "old"@);
    let p6 = p5 + "v1.c"@;
    let p7 = p6 + d;
    let p8 = p7 + " AS "@;
    let p9 = p8 + "old"@;
    let p10 = p9 + ", "@;
    g4(p10, "v2.c"@, d, " AS "@, "new"@);
    let p11 = p10 + "v2.c"@;
    let p12 = p11 + d;
    let p13 = p12 + " AS "@;
    let p14 = p13 + "new"@;
    let p15 = p14 + " FROM "@;
    g9(p15, v, " "@, "v1"@, " JOIN "@, v, " "@, "v2"@, " ON "@, (e + " AND "@ + ("v1.c"@ + d + " > "@ + ("v2.c"@ + d))));
    let p16 = p15 + v;
    let p17 = p16 + " "@;
    let p18 = p17 + "v1"@;
    let p19 = p18 + " JOIN "@;
    let p20 = p19 + v;
    let p21 = p20 + " "@;
    let p22 = p21 + "v2"@;
    let p23 = p22 + " ON "@;
    g3(p23, e, " AND "@, ("v1.c"@ + d + " > "@ + ("v2.c"@ + d)));
    let p24 = p23 + e;
    let p25 = p24 + " AND "@;
    g4(p25, "v1.c"@, d, " > "@, ("v2.c"@ + d));
    let p26 = p25 + "v1.c"@;
    let p27 = p26 + d;
    let p28 = p27 + " > "@;
    g2(p28, "v2.c"@, d);
    let p29 = p28 + "v2.c"@;
    let p30 = p29 + d;
    let p31 = p30 + " WHERE "@;
    g3(p31, "v1.ts >= ?1"@, " OR "@, "v2.ts >= ?1"@);
    let p32 = p31 + "v1.ts >= ?1"@;
    let p33 = p32 + " OR "@;
    let p34 = p33 + "v2.ts >= ?1"@;
    assert("CREATE OR REPLACE TEMP TABLE batch AS SELECT "@ == p3);
    g2(p4, ", "@, "v1.c"@);
    g4(p7, " AS "@, "old"@, ", "@, "v2.c"@);
    g3(p12, " AS "@, "new"@, " FROM "@);
    g3(p16, " "@, "v1"@, " JOIN "@);
    g3(p20, " "@, "v2"@, " ON "@);
    g2(p24, " AND "@, "v1.c"@);
    g2(p27, " > "@, "v2.c"@);
    g4(p30, " WHERE "@, "v1.ts >= ?1"@, " OR "@, "v2.ts >= ?1"@);
}

/// The statement that unites ids inline.
proof fn lemma_inline_text(pname: Seq<char>, view: Seq<char>, n: nat)
    requires
        n > 0,
    ensures
        inline_unions(pname, view, n) == Statement::Add(
            quoted(pname),
            edge_columns(),
            inline_query(view, n),
        ).text(),
{
    let d = decimal(n);
    let v = quoted(view);
    lemma_column_texts(n);
    lemma_window_texts();
    let keys = keys_of(n).map_values(|i: Item| i.text());
    let k = joined(keys, ", "@);
    let eqs = agree(n).map_values(|c: Comparison| c.text());
    let e = joined(eqs, " AND "@);
    let u = quoted(pname);
    let q = inline_query(view, n);
    let g = "GREATEST("@ + ("v1.c"@ + d) + ", "@ + ("v2.c"@ + d) + ")"@;
    let l = "LEAST("@ + ("v1.c"@ + d) + ", "@ + ("v2.c"@ + d) + ")"@;
    lemma_edge_columns();
    assert(q.items.map_values(|i: Item| i.text()) =~= seq![g].push(l).push("?2"@));
    lemma_joined_push(seq![g], l, ", "@);
    lemma_joined_push(seq![g].push(l), "?2"@, ", "@);
    let ne = Comparison { l: Expr::Col(v1(n)), rel: Rel::Ne, r: Expr::Col(v2(n)) };
    let all = window().push(ne) + agree(n);
    let start = window().map_values(|c: Comparison| c.text());
    assert(all.map_values(|c: Comparison| c.text()) =~= start.push(ne.text()) + eqs);
    lemma_joined_push(start, ne.text(), " AND "@);
    lemma_joined_concat(start.push(ne.text()), eqs, " AND "@);
    lemma_one_alternative(all);
    let text = Statement::Add(u, edge_columns(), q).text();
    lemma_literals();
    assert(text
        == "INSERT INTO "@ + u + " ("@ + "c0, c1, ts"@ + ") "@ + ("SELECT "@ + ("GREATEST("@ + ("v1.c"@ + d) + ", "@ + ("v2.c"@ + d) + ")"@ + ", "@ + ("LEAST("@ + ("v1.c"@ + d) + ", "@ + ("v2.c"@ + d) + ")"@) + ", "@ + "?2"@) + " FROM "@ + (v + " "@ + "v1"@ + ", "@ + v + " "@ + "v2"@) + " WHERE "@ + ("v1.ts >= ?1 AND v1.ts < ?2 AND v2.ts < ?2"@ + " AND "@ + ("v1.c"@ + d + " <> "@ + ("v2.c"@ + d)) + " AND "@ + e)) + " ON CONFLICT DO NOTHING"@);
    let p1 = "INSERT INTO "@ + u;
    let p2 = p1 + " ("@;
    let p3 = p2 + "c0, c1, ts"@;
    let p4 = p3 + ") "@;
    g6(p4, "SELECT "@, ("GREATEST("@ + ("v1.c"@ + d) + ", "@ + ("v2.c"@ + d) + ")"@ + ", "@ + ("LEAST("@ + ("v1.c"@ + d) + ", "@ + ("v2.c"@ + d) + ")"@) + ", "@ + "?2"@), " FROM "@, (v + " "@ + "v1"@ + ", "@ + v + " "@ + "v2"@), " WHERE "@, ("v1.ts >= ?1 AND v1.ts < ?2 AND v2.ts < ?2"@ + " AND "@ + ("v1.c"@ + d + " <> "@ + ("v2.c"@ + d)) + " AND "@ + e));
    let p5 = p4 + "SELECT "@;
    g9(p5, "GREATEST("@, ("v1.c"@ + d), ", "@, ("v2.c"@ + d), ")"@, ", "@, ("LEAST("@ + ("v1.c"@ + d) + ", "@ + ("v2.c"@ + d) + ")"@), ", "@, "?2"@);
    let p6 = p5 + "GREATEST("@;
    g2(p6, "v1.c"@, d);
    let p7 = p6 + "v1.c"@;
    let p8 = p7 + d;
    let p9 = p8 + ", "@;
    g2(p9, "v2.c"@, d);
    let p10 = p9 + "v2.c"@;
    let p11 = p10 + d;
    let p12 = p11 + ")"@;
    let p13 = p12 + ", "@;
    g5(p13, "LEAST("@, ("v1.c"@ + d), ", "@, ("v2.c"@ + d), ")"@);
    let p14 = p13 + "LEAST("@;
    g2(p14, "v1.c"@, d);
    let p15 = p14 + "v1.c"@;
    let p16 = p15 + d;
    let p17 = p16 + ", "@;
    g2(p17, "v2.c"@, d);
    let p18 = p17 + "v2.c"@;
    let p19 = p18 + d;
    let p20 = p19 + ")"@;
    let p21 = p20 + ", "@;
    let p22 = p21 + "?2"@;
    let p23 = p22 + " FROM "@;
    g7(p23, v, " "@, "v1"@, ", "@, v, " "@, "v2"@);
    let p24 = p23 + v;
    let p25 = p24 + " "@;
    let p26 = p25 + "v1"@;
    let p27 = p26 + ", "@;
    let p28 = p27 + v;
    let p29 = p28 + " "@;
    let p30 = p29 + "v2"@;
    let p31 = p30 + " WHERE "@;
    g5(p31, "v1.ts >= ?1 AND v1.ts < ?2 AND v2.ts < ?2"@, " AND "@, ("v1.c"@ + d + " <> "@ + ("v2.c"@ + d)), " AND "@, e);
    let p32 = p31 + "v1.ts >= ?1 AND v1.ts < ?2 AND v2.ts < ?2"@;
    let p33 = p32 + " AND "@;
    g4(p33, "v1.c"@, d, " <> "@, ("v2.c"@ + d));
    let p34 = p33 + "v1.c"@;
    let p35 = p34 + d;
    let p36 = p35 + " <> "@;
    g2(p36, "v2.c"@, d);
    let p37 = p36 + "v2.c"@;
    let p38 = p37 + d;
    let p39 = p38 + " AND "@;
    let p40 = p39 + e;
    let p41 = p40 + " ON CONFLICT DO NOTHING"@;
    assert("INSERT INTO "@ == "INSERT INTO "@);
    g6(p1, " ("@, "c0, c1, ts"@, ") "@, "SELECT "@, "GREATEST("@, "v1.c"@);
    g2(p8, ", "@, "v2.c"@);
    g4(p11, ")"@, ", "@, "LEAST("@, "v1.c"@);
    g2(p16, ", "@, "v2.c"@);
    g4(p19, ")"@, ", "@, "?2"@, " FROM "@);
    g3(p24, " "@, "v1"@, ", "@);
    g6(p28, " "@, "v2"@, " WHERE "@, "v1.ts >= ?1 AND v1.ts < ?2 AND v2.ts < ?2"@, " AND "@, "v1.c"@);
    g2(p35, " <> "@, "v2.c"@);
}

/// The statement that writes the unions of a batch.
proof fn lemma_edges_text(uf: Seq<char>)
    ensures
        native_edges(uf) == Statement::Add(quoted(uf), edge_columns(), edges_query()).text(),
{
    let u = quoted(uf);
    let q = edges_query();
    lemma_edge_columns();
    lemma_edge_items();
    let text = Statement::Add(u, edge_columns(), q).text();
    lemma_literals();
    assert(text
        == "INSERT INTO "@ + u + " ("@ + "c0, c1, ts"@ + ") "@ + ("SELECT "@ + "b.loser, b.winner, ?2"@ + " FROM "@ + ("native_cong_batch"@ + " "@ + "b"@)) + " ON CONFLICT DO NOTHING"@);
    let p1 = "INSERT INTO "@ + u;
    let p2 = p1 + " ("@;
    let p3 = p2 + "c0, c1, ts"@;
    let p4 = p3 + ") "@;
    g4(p4, "SELECT "@, "b.loser, b.winner, ?2"@, " FROM "@, ("native_cong_batch"@ + " "@ + "b"@));
    let p5 = p4 + "SELECT "@;
    let p6 = p5 + "b.loser, b.winner, ?2"@;
    let p7 = p6 + " FROM "@;
    g3(p7, "native_cong_batch"@, " "@, "b"@);
    let p8 = p7 + "native_cong_batch"@;
    let p9 = p8 + " "@;
    let p10 = p9 + "b"@;
    let p11 = p10 + " ON CONFLICT DO NOTHING"@;
    assert("INSERT INTO "@ == "INSERT INTO "@);
    g10(p1, " ("@, "c0, c1, ts"@, ") "@, "SELECT "@, "b.loser, b.winner, ?2"@, " FROM "@, "native_cong_batch"@, " "@, "b"@, " ON CONFLICT DO NOTHING"@);
}

/// The statement that deletes one side of the conflicts.
proof fn lemma_delete_text(view: Seq<char>, n: nat, side: Seq<char>)
    requires
        n > 0,
    ensures
        delete_side(view, n, side) == Statement::Delete(
            quoted(view),
            columns(n).push(column(n)),
            side_query(n, side),
        ).text(),
{
    let d = decimal(n);
    let v = quoted(view);
    lemma_batch_texts(n);
    let cols = columns(n);
    let k = joined(cols, ", "@);
    let keys = batch_keys(n).map_values(|i: Item| i.text());
    let e = joined(keys, ", "@);
    let q = side_query(n, side);
    lemma_joined_push(cols, column(n), ", "@);
    let last = "b"@ + "."@ + side;
    assert(q.items.map_values(|i: Item| i.text()) =~= keys.push(last));
    lemma_joined_push(keys, last, ", "@);
    let text = Statement::Delete(v, cols.push(column(n)), q).text();
    lemma_literals();
    assert(text
        == "DELETE FROM "@ + v + " WHERE ("@ + (k + ", "@ + ("c"@ + d)) + ") IN ("@ + ("SELECT "@ + (e + ", "@ + ("b"@ + "."@ + side)) + " FROM "@ + ("batch"@ + " "@ + "b"@)) + ")"@);
    let p1 = "DELETE FROM "@ + v;
    let p2 = p1 + " WHERE ("@;
    g3(p2, k, ", "@, ("c"@ + d));
    let p3 = p2 + k;
    let p4 = p3 + ", "@;
    g2(p4, "c"@, d);
    let p5 = p4 + "c"@;
    let p6 = p5 + d;
    let p7 = p6 + ") IN ("@;
    g4(p7, "SELECT "@, (e + ", "@ + ("b"@ + "."@ + side)), " FROM "@, ("batch"@ + " "@ + "b"@));
    let p8 = p7 + "SELECT "@;
    g3(p8, e, ", "@, ("b"@ + "."@ + side));
    let p9 = p8 + e;
    let p10 = p9 + ", "@;
    g3(p10, "b"@, "."@, side);
    let p11 = p10 + "b"@;
    let p12 = p11 + "."@;
    let p13 = p12 + side;
    let p14 = p13 + " FROM "@;
    g3(p14, "batch"@, " "@, "b"@);
    let p15 = p14 + "batch"@;
    let p16 = p15 + " "@;
    let p17 = p16 + "b"@;
    let p18 = p17 + ")"@;
    assert("DELETE FROM "@ == "DELETE FROM "@);
    g2(p3, ", "@, "c"@);
    g2(p6, ") IN ("@, "SELECT "@);
    g3(p9, ", "@, "b"@, "."@);
    g5(p13, " FROM "@, "batch"@, " "@, "b"@, ")"@);
}

/// The statement that writes the merged rows.
proof fn lemma_merged_text(view: Seq<char>, n: nat, merged: Seq<char>)
    requires
        n > 0,
    ensures
        insert_merged(view, n, merged) == Statement::Add(
            quoted(view),
            columns(n).push(column(n)).push("ts"@),
            merged_query(n, merged),
        ).text(),
{
    let d = decimal(n);
    let v = quoted(view);
    lemma_batch_texts(n);
    lemma_second_parameter();
    let cols = columns(n);
    let k = joined(cols, ", "@);
    let keys = batch_keys(n).map_values(|i: Item| i.text());
    let e = joined(keys, ", "@);
    let q = merged_query(n, merged);
    lemma_joined_push(cols, column(n), ", "@);
    lemma_joined_push(cols.push(column(n)), "ts"@, ", "@);
    assert(q.items.map_values(|i: Item| i.text()) =~= keys.push(merged).push("?2"@));
    lemma_joined_push(keys, merged, ", "@);
    lemma_joined_push(keys.push(merged), "?2"@, ", "@);
    let text = Statement::Add(v, cols.push(column(n)).push("ts"@), q).text();
    lemma_literals();
    assert(text
        == "INSERT INTO "@ + v + " ("@ + (k + ", "@ + ("c"@ + d) + ", "@ + "ts"@) + ") "@ + ("SELECT "@ + (e + ", "@ + merged + ", "@ + "?2"@) + " FROM "@ + ("batch"@ + " "@ + "b"@)) + " ON CONFLICT DO NOTHING"@);
    let p1 = "INSERT INTO "@ + v;
    let p2 = p1 + " ("@;
    g5(p2, k, ", "@, ("c"@ + d), ", "@, "ts"@);
    let p3 = p2 + k;
    let p4 = p3 + ", "@;
    g2(p4, "c"@, d);
    let p5 = p4 + "c"@;
    let p6 = p5 + d;
    let p7 = p6 + ", "@;
    let p8 = p7 + "ts"@;
    let p9 = p8 + ") "@;
    g4(p9, "SELECT "@, (e + ", "@ + merged + ", "@ + "?2"@), " FROM "@, ("batch"@ + " "@ + "b"@));
    let p10 = p9 + "SELECT "@;
    g5(p10, e, ", "@, merged, ", "@, "?2"@);
    let p11 = p10 + e;
    let p12 = p11 + ", "@;
    let p13 = p12 + merged;
    let p14 = p13 + ", "@;
    let p15 = p14 + "?2"@;
    let p16 = p15 + " FROM "@;
    g3(p16, "batch"@, " "@, "b"@);
    let p17 = p16 + "batch"@;
    let p18 = p17 + " "@;
    let p19 = p18 + "b"@;
    let p20 = p19 + " ON CONFLICT DO NOTHING"@;
    assert("INSERT INTO "@ == "INSERT INTO "@);
    g2(p3, ", "@, "c"@);
    g4(p6, ", "@, "ts"@, ") "@, "SELECT "@);
    g7(p13, ", "@, "?2"@, " FROM "@, "batch"@, " "@, "b"@, " ON CONFLICT DO NOTHING"@);
}

proof fn lemma_literals()
    ensures
        "CREATE OR REPLACE TEMP TABLE native_cong_batch AS SELECT "@ == "CREATE OR REPLACE TEMP TABLE "@ + "native_cong_batch"@ + " AS "@ + "SELECT "@,
        ", GREATEST(v1.c"@ == ", "@ + "GREATEST("@ + "v1.c"@,
        ", v2.c"@ == ", "@ + "v2.c"@,
        ") AS loser, LEAST(v1.c"@ == ")"@ + " AS "@ + "loser"@ + ", "@ + "LEAST("@ + "v1.c"@,
        ") AS winner FROM "@ == ")"@ + " AS "@ + "winner"@ + " FROM "@,
        " v1 JOIN "@ == " "@ + "v1"@ + " JOIN "@,
        " v2 ON "@ == " "@ + "v2"@ + " ON "@,
        " AND v1.c"@ == " AND "@ + "v1.c"@,
        " <> v2.c"@ == " <> "@ + "v2.c"@,
        " WHERE v1.ts >= ?1 AND v1.ts < ?2 AND v2.ts < ?2"@ == " WHERE "@ + "v1.ts >= ?1 AND v1.ts < ?2 AND v2.ts < ?2"@,
        "CREATE OR REPLACE TEMP TABLE batch AS SELECT "@ == "CREATE OR REPLACE TEMP TABLE "@ + "batch"@ + " AS "@ + "SELECT "@,
        ", v1.c"@ == ", "@ + "v1.c"@,
        " AS old, v2.c"@ == " AS "@ + "old"@ + ", "@ + "v2.c"@,
        " AS new FROM "@ == " AS "@ + "new"@ + " FROM "@,
        " > v2.c"@ == " > "@ + "v2.c"@,
        " WHERE v1.ts >= ?1 OR v2.ts >= ?1"@ == " WHERE "@ + "v1.ts >= ?1"@ + " OR "@ + "v2.ts >= ?1"@,
        " (c0, c1, ts) SELECT GREATEST(v1.c"@ == " ("@ + "c0, c1, ts"@ + ") "@ + "SELECT "@ + "GREATEST("@ + "v1.c"@,
        "), LEAST(v1.c"@ == ")"@ + ", "@ + "LEAST("@ + "v1.c"@,
        "), ?2 FROM "@ == ")"@ + ", "@ + "?2"@ + " FROM "@,
        " v1, "@ == " "@ + "v1"@ + ", "@,
        " v2 WHERE v1.ts >= ?1 AND v1.ts < ?2 AND v2.ts < ?2 AND v1.c"@ == " "@ + "v2"@ + " WHERE "@ + "v1.ts >= ?1 AND v1.ts < ?2 AND v2.ts < ?2"@ + " AND "@ + "v1.c"@,
        ", c"@ == ", "@ + "c"@,
        ") IN (SELECT "@ == ") IN ("@ + "SELECT "@,
        ", b."@ == ", "@ + "b"@ + "."@,
        " FROM batch b)"@ == " FROM "@ + "batch"@ + " "@ + "b"@ + ")"@,
        ", ts) SELECT "@ == ", "@ + "ts"@ + ") "@ + "SELECT "@,
        ", ?2 FROM batch b ON CONFLICT DO NOTHING"@ == ", "@ + "?2"@ + " FROM "@ + "batch"@ + " "@ + "b"@ + " ON CONFLICT DO NOTHING"@,
        " (c0, c1, ts) SELECT b.loser, b.winner, ?2 FROM native_cong_batch b ON CONFLICT DO NOTHING"@ == " ("@ + "c0, c1, ts"@ + ") "@ + "SELECT "@ + "b.loser, b.winner, ?2"@ + " FROM "@ + "native_cong_batch"@ + " "@ + "b"@ + " ON CONFLICT DO NOTHING"@,
{
    reveal_strlit(" ");
    reveal_strlit(" (");
    reveal_strlit(" (c0, c1, ts) SELECT GREATEST(v1.c");
    reveal_strlit(" (c0, c1, ts) SELECT b.loser, b.winner, ?2 FROM native_cong_batch b ON CONFLICT DO NOTHING");
    reveal_strlit(" <> ");
    reveal_strlit(" <> v2.c");
    reveal_strlit(" > ");
    reveal_strlit(" > v2.c");
    reveal_strlit(" AND ");
    reveal_strlit(" AND v1.c");
    reveal_strlit(" AS ");
    reveal_strlit(" AS new FROM ");
    reveal_strlit(" AS old, v2.c");
    reveal_strlit(" FROM ");
    reveal_strlit(" FROM batch b)");
    reveal_strlit(" JOIN ");
    reveal_strlit(" ON ");
    reveal_strlit(" ON CONFLICT DO NOTHING");
    reveal_strlit(" OR ");
    reveal_strlit(" WHERE ");
    reveal_strlit(" WHERE v1.ts >= ?1 AND v1.ts < ?2 AND v2.ts < ?2");
    reveal_strlit(" WHERE v1.ts >= ?1 OR v2.ts >= ?1");
    reveal_strlit(" v1 JOIN ");
    reveal_strlit(" v1, ");
    reveal_strlit(" v2 ON ");
    reveal_strlit(" v2 WHERE v1.ts >= ?1 AND v1.ts < ?2 AND v2.ts < ?2 AND v1.c");
    reveal_strlit(") ");
    reveal_strlit(") AS loser, LEAST(v1.c");
    reveal_strlit(") AS winner FROM ");
    reveal_strlit(") IN (");
    reveal_strlit(") IN (SELECT ");
    reveal_strlit(")");
    reveal_strlit("), ?2 FROM ");
    reveal_strlit("), LEAST(v1.c");
    reveal_strlit(", ");
    reveal_strlit(", ?2 FROM batch b ON CONFLICT DO NOTHING");
    reveal_strlit(", GREATEST(v1.c");
    reveal_strlit(", b.");
    reveal_strlit(", c");
    reveal_strlit(", ts) SELECT ");
    reveal_strlit(", v1.c");
    reveal_strlit(", v2.c");
    reveal_strlit(".");
    reveal_strlit("?2");
    reveal_strlit("CREATE OR REPLACE TEMP TABLE ");
    reveal_strlit("CREATE OR REPLACE TEMP TABLE batch AS SELECT ");
    reveal_strlit("CREATE OR REPLACE TEMP TABLE native_cong_batch AS SELECT ");
    reveal_strlit("GREATEST(");
    reveal_strlit("LEAST(");
    reveal_strlit("SELECT ");
    reveal_strlit("b");
    reveal_strlit("b.loser, b.winner, ?2");
    reveal_strlit("batch");
    reveal_strlit("c");
    reveal_strlit("c0, c1, ts");
    reveal_strlit("loser");
    reveal_strlit("native_cong_batch");
    reveal_strlit("new");
    reveal_strlit("old");
    reveal_strlit("ts");
    reveal_strlit("v1");
    reveal_strlit("v1.c");
    reveal_strlit("v1.ts >= ?1 AND v1.ts < ?2 AND v2.ts < ?2");
    reveal_strlit("v1.ts >= ?1");
    reveal_strlit("v2");
    reveal_strlit("v2.c");
    reveal_strlit("v2.ts >= ?1");
    reveal_strlit("winner");
    assert("CREATE OR REPLACE TEMP TABLE native_cong_batch AS SELECT "@ =~= "CREATE OR REPLACE TEMP TABLE "@ + "native_cong_batch"@ + " AS "@ + "SELECT "@);
    assert(", GREATEST(v1.c"@ =~= ", "@ + "GREATEST("@ + "v1.c"@);
    assert(", v2.c"@ =~= ", "@ + "v2.c"@);
    assert(") AS loser, LEAST(v1.c"@ =~= ")"@ + " AS "@ + "loser"@ + ", "@ + "LEAST("@ + "v1.c"@);
    assert(") AS winner FROM "@ =~= ")"@ + " AS "@ + "winner"@ + " FROM "@);
    assert(" v1 JOIN "@ =~= " "@ + "v1"@ + " JOIN "@);
    assert(" v2 ON "@ =~= " "@ + "v2"@ + " ON "@);
    assert(" AND v1.c"@ =~= " AND "@ + "v1.c"@);
    assert(" <> v2.c"@ =~= " <> "@ + "v2.c"@);
    assert(" WHERE v1.ts >= ?1 AND v1.ts < ?2 AND v2.ts < ?2"@ =~= " WHERE "@ + "v1.ts >= ?1 AND v1.ts < ?2 AND v2.ts < ?2"@);
    assert("CREATE OR REPLACE TEMP TABLE batch AS SELECT "@ =~= "CREATE OR REPLACE TEMP TABLE "@ + "batch"@ + " AS "@ + "SELECT "@);
    assert(", v1.c"@ =~= ", "@ + "v1.c"@);
    assert(" AS old, v2.c"@ =~= " AS "@ + "old"@ + ", "@ + "v2.c"@);
    assert(" AS new FROM "@ =~= " AS "@ + "new"@ + " FROM "@);
    assert(" > v2.c"@ =~= " > "@ + "v2.c"@);
    assert(" WHERE v1.ts >= ?1 OR v2.ts >= ?1"@ =~= " WHERE "@ + "v1.ts >= ?1"@ + " OR "@ + "v2.ts >= ?1"@);
    assert(" (c0, c1, ts) SELECT GREATEST(v1.c"@ =~= " ("@ + "c0, c1, ts"@ + ") "@ + "SELECT "@ + "GREATEST("@ + "v1.c"@);
    assert("), LEAST(v1.c"@ =~= ")"@ + ", "@ + "LEAST("@ + "v1.c"@);
    assert("), ?2 FROM "@ =~= ")"@ + ", "@ + "?2"@ + " FROM "@);
    assert(" v1, "@ =~= " "@ + "v1"@ + ", "@);
    assert(" v2 WHERE v1.ts >= ?1 AND v1.ts < ?2 AND v2.ts < ?2 AND v1.c"@ =~= " "@ + "v2"@ + " WHERE "@ + "v1.ts >= ?1 AND v1.ts < ?2 AND v2.ts < ?2"@ + " AND "@ + "v1.c"@);
    assert(", c"@ =~= ", "@ + "c"@);
    assert(") IN (SELECT "@ =~= ") IN ("@ + "SELECT "@);
    assert(", b."@ =~= ", "@ + "b"@ + "."@);
    assert(" FROM batch b)"@ =~= " FROM "@ + "batch"@ + " "@ + "b"@ + ")"@);
    assert(", ts) SELECT "@ =~= ", "@ + "ts"@ + ") "@ + "SELECT "@);
    assert(", ?2 FROM batch b ON CONFLICT DO NOTHING"@ =~= ", "@ + "?2"@ + " FROM "@ + "batch"@ + " "@ + "b"@ + " ON CONFLICT DO NOTHING"@);
    assert(" (c0, c1, ts) SELECT b.loser, b.winner, ?2 FROM native_cong_batch b ON CONFLICT DO NOTHING"@ =~= " ("@ + "c0, c1, ts"@ + ") "@ + "SELECT "@ + "b.loser, b.winner, ?2"@ + " FROM "@ + "native_cong_batch"@ + " "@ + "b"@ + " ON CONFLICT DO NOTHING"@);
}

proof fn g2(p: Seq<char>, x1: Seq<char>, x2: Seq<char>)
    ensures
        p + (x1 + x2) == p + x1 + x2,
{
    regroup(p, x1, x2);
}

proof fn g3(p: Seq<char>, x1: Seq<char>, x2: Seq<char>, x3: Seq<char>)
    ensures
        p + (x1 + x2 + x3) == p + x1 + x2 + x3,
{
    regroup(p, x1 + x2, x3);
    g2(p, x1, x2);
}

proof fn g4(p: Seq<char>, x1: Seq<char>, x2: Seq<char>, x3: Seq<char>, x4: Seq<char>)
    ensures
        p + (x1 + x2 + x3 + x4) == p + x1 + x2 + x3 + x4,
{
    regroup(p, x1 + x2 + x3, x4);
    g3(p, x1, x2, x3);
}

proof fn g5(p: Seq<char>, x1: Seq<char>, x2: Seq<char>, x3: Seq<char>, x4: Seq<char>, x5: Seq<char>)
    ensures
        p + (x1 + x2 + x3 + x4 + x5) == p + x1 + x2 + x3 + x4 + x5,
{
    regroup(p, x1 + x2 + x3 + x4, x5);
    g4(p, x1, x2, x3, x4);
}

proof fn g6(p: Seq<char>, x1: Seq<char>, x2: Seq<char>, x3: Seq<char>, x4: Seq<char>, x5: Seq<char>, x6: Seq<char>)
    ensures
        p + (x1 + x2 + x3 + x4 + x5 + x6) == p + x1 + x2 + x3 + x4 + x5 + x6,
{
    regroup(p, x1 + x2 + x3 + x4 + x5, x6);
    g5(p, x1, x2, x3, x4, x5);
}

proof fn g7(p: Seq<char>, x1: Seq<char>, x2: Seq<char>, x3: Seq<char>, x4: Seq<char>, x5: Seq<char>, x6: Seq<char>, x7: Seq<char>)
    ensures
        p + (x1 + x2 + x3 + x4 + x5 + x6 + x7) == p + x1 + x2 + x3 + x4 + x5 + x6 + x7,
{
    regroup(p, x1 + x2 + x3 + x4 + x5 + x6, x7);
    g6(p, x1, x2, x3, x4, x5, x6);
}

proof fn g8(p: Seq<char>, x1: Seq<char>, x2: Seq<char>, x3: Seq<char>, x4: Seq<char>, x5: Seq<char>, x6: Seq<char>, x7: Seq<char>, x8: Seq<char>)
    ensures
        p + (x1 + x2 + x3 + x4 + x5 + x6 + x7 + x8) == p + x1 + x2 + x3 + x4 + x5 + x6 + x7 + x8,
{
    regroup(p, x1 + x2 + x3 + x4 + x5 + x6 + x7, x8);
    g7(p, x1, x2, x3, x4, x5, x6, x7);
}

proof fn g9(p: Seq<char>, x1: Seq<char>, x2: Seq<char>, x3: Seq<char>, x4: Seq<char>, x5: Seq<char>, x6: Seq<char>, x7: Seq<char>, x8: Seq<char>, x9: Seq<char>)
    ensures
        p + (x1 + x2 + x3 + x4 + x5 + x6 + x7 + x8 + x9) == p + x1 + x2 + x3 + x4 + x5 + x6 + x7 + x8 + x9,
{
    regroup(p, x1 + x2 + x3 + x4 + x5 + x6 + x7 + x8, x9);
    g8(p, x1, x2, x3, x4, x5, x6, x7, x8);
}

proof fn g10(p: Seq<char>, x1: Seq<char>, x2: Seq<char>, x3: Seq<char>, x4: Seq<char>, x5: Seq<char>, x6: Seq<char>, x7: Seq<char>, x8: Seq<char>, x9: Seq<char>, x10: Seq<char>)
    ensures
        p + (x1 + x2 + x3 + x4 + x5 + x6 + x7 + x8 + x9 + x10) == p + x1 + x2 + x3 + x4 + x5 + x6 + x7 + x8 + x9 + x10,
{
    regroup(p, x1 + x2 + x3 + x4 + x5 + x6 + x7 + x8 + x9, x10);
    g9(p, x1, x2, x3, x4, x5, x6, x7, x8, x9);
}

// ---------------------------------------------------------------------------
// Which rows come together
// ---------------------------------------------------------------------------

/// Whether two rows have the same values in their first `n` columns.
pub open spec fn same_keys(r1: Named, r2: Named, n: nat) -> bool {
    forall|i: nat| #![trigger column(i)] i < n ==> r1(column(i)) == r2(column(i))
}

/// Whether a row came at or after `from` and before `to`.
pub open spec fn came(r: Named, from: int, to: int) -> bool {
    from <= r("ts"@) && r("ts"@) < to
}

/// Whether values are those of the first `n` columns of a row.
pub open spec fn begins_as(out: Seq<int>, r: Named, n: nat) -> bool {
    &&& n <= out.len()
    &&& forall|i: nat| #![trigger column(i)] i < n ==> out[i as int] == r(column(i))
}

proof fn lemma_two_rows(r1: Named, r2: Named)
    ensures
        two_rows("v1"@, r1, r2)("v1"@) == r1,
        two_rows("v1"@, r1, r2)("v2"@) == r2,
{
    reveal_strlit("v1");
    reveal_strlit("v2");
    assert("v1"@[1] != "v2"@[1]);
}

proof fn lemma_agree(n: nat, r1: Named, r2: Named, w: Setting)
    ensures
        all_hold(agree(n), two_rows("v1"@, r1, r2), w) <==> same_keys(r1, r2, n),
{
    let rows = two_rows("v1"@, r1, r2);
    lemma_two_rows(r1, r2);
    let cs = agree(n);
    assert forall|i: nat| i < n implies (#[trigger] cs[i as int]).holds(rows, w) == (r1(column(i))
        == r2(column(i))) by {}
    if all_hold(cs, rows, w) {
        assert forall|i: nat| #![trigger column(i)] i < n implies r1(column(i)) == r2(
            column(i),
        ) by {
            assert(cs[i as int].holds(rows, w));
        }
    }
    if same_keys(r1, r2, n) {
        assert forall|i: int| 0 <= i < cs.len() implies (#[trigger] cs[i]).holds(rows, w) by {
            let k = i as nat;
            assert(r1(column(k)) == r2(column(k)));
            assert(cs[k as int].holds(rows, w));
        }
    }
}

proof fn lemma_all_push(cs: Seq<Comparison>, c: Comparison, rows: spec_fn(Seq<char>) -> Named, w: Setting)
    ensures
        all_hold(cs.push(c), rows, w) <==> all_hold(cs, rows, w) && c.holds(rows, w),
{
    let more = cs.push(c);
    if all_hold(more, rows, w) {
        assert forall|i: int| 0 <= i < cs.len() implies (#[trigger] cs[i]).holds(rows, w) by {
            assert(more[i].holds(rows, w));
        }
        assert(more[cs.len() as int].holds(rows, w));
    }
    if all_hold(cs, rows, w) && c.holds(rows, w) {
        assert forall|i: int| 0 <= i < more.len() implies (#[trigger] more[i]).holds(rows, w) by {
            if i < cs.len() {
                assert(cs[i].holds(rows, w));
            }
        }
    }
}

proof fn lemma_all_concat(
    a: Seq<Comparison>,
    b: Seq<Comparison>,
    rows: spec_fn(Seq<char>) -> Named,
    w: Setting,
)
    ensures
        all_hold(a + b, rows, w) <==> all_hold(a, rows, w) && all_hold(b, rows, w),
{
    let all = a + b;
    if all_hold(all, rows, w) {
        assert forall|i: int| 0 <= i < a.len() implies (#[trigger] a[i]).holds(rows, w) by {
            assert(all[i].holds(rows, w));
        }
        assert forall|i: int| 0 <= i < b.len() implies (#[trigger] b[i]).holds(rows, w) by {
            assert(all[a.len() + i].holds(rows, w));
        }
    }
    if all_hold(a, rows, w) && all_hold(b, rows, w) {
        assert forall|i: int| 0 <= i < all.len() implies (#[trigger] all[i]).holds(rows, w) by {
            if i < a.len() {
                assert(a[i].holds(rows, w));
            } else {
                assert(b[i - a.len()].holds(rows, w));
            }
        }
    }
}

proof fn lemma_single(cs: Seq<Comparison>, rows: spec_fn(Seq<char>) -> Named, w: Setting)
    ensures
        condition_holds(seq![cs], rows, w) <==> all_hold(cs, rows, w),
{
    let c: Condition = seq![cs];
    assert(c[0] == cs);
    if condition_holds(c, rows, w) {
        let i = choose|i: int| 0 <= i < c.len() && all_hold(#[trigger] c[i], rows, w);
        assert(i == 0);
    }
}

proof fn lemma_window(r1: Named, r2: Named, w: Setting)
    ensures
        all_hold(window(), two_rows("v1"@, r1, r2), w) <==> came(r1, (w.params)(1), (w.params)(2))
            && r2("ts"@) < (w.params)(2),
        condition_holds(either(), two_rows("v1"@, r1, r2), w) <==> r1("ts"@) >= (w.params)(1)
            || r2("ts"@) >= (w.params)(1),
{
    let rows = two_rows("v1"@, r1, r2);
    lemma_two_rows(r1, r2);
    let cs = window();
    assert(cs[0] == time_at_least("v1"@, 1));
    assert(cs[1] == time_below("v1"@, 2));
    assert(cs[2] == time_below("v2"@, 2));
    if all_hold(cs, rows, w) {
        assert(cs[0].holds(rows, w) && cs[1].holds(rows, w) && cs[2].holds(rows, w));
    }
    if came(r1, (w.params)(1), (w.params)(2)) && r2("ts"@) < (w.params)(2) {
        assert forall|i: int| 0 <= i < cs.len() implies (#[trigger] cs[i]).holds(rows, w) by {
            assert(i == 0 || i == 1 || i == 2);
        }
    }
    let c = either();
    let a = seq![time_at_least("v1"@, 1)];
    let b = seq![time_at_least("v2"@, 1)];
    assert(c[0] == a && c[1] == b);
    assert(a[0].holds(rows, w) == (r1("ts"@) >= (w.params)(1)));
    assert(b[0].holds(rows, w) == (r2("ts"@) >= (w.params)(1)));
    assert(all_hold(a, rows, w) <==> a[0].holds(rows, w));
    assert(all_hold(b, rows, w) <==> b[0].holds(rows, w));
    if condition_holds(c, rows, w) {
        let i = choose|i: int| 0 <= i < c.len() && all_hold(#[trigger] c[i], rows, w);
        assert(i == 0 || i == 1);
    }
    if r1("ts"@) >= (w.params)(1) {
        assert(all_hold(c[0], rows, w));
    }
    if r2("ts"@) >= (w.params)(1) {
        assert(all_hold(c[1], rows, w));
    }
}

/// Two rows of a constructor's view with the same children and different ids, of which the first came
/// in the window and the second before its end.
pub open spec fn congruent(rows: Set<Named>, n: nat, from: int, to: int, r1: Named, r2: Named) -> bool {
    &&& rows.contains(r1)
    &&& rows.contains(r2)
    &&& same_keys(r1, r2, n)
    &&& r1(column(n)) != r2(column(n))
    &&& came(r1, from, to)
    &&& r2("ts"@) < to
}

/// The batch of a constructor's view holds, for two rows that agree on all children and have
/// different ids, the children, the greater id as the loser and the smaller one as the winner; rows
/// that differ in some child give nothing.
pub proof fn native_batch_pairs_congruent_rows(view: Seq<char>, n: nat)
    requires
        n > 0,
    ensures
        exists|q: Query|
            native_batch(view, n) == #[trigger] Statement::Collect("native_cong_batch"@, q).text()
                && q.items.len() == n + 2 && q.items[n as int].name == Some("loser"@)
                && q.items[n as int + 1].name == Some("winner"@) && (forall|i: nat|
                #![trigger column(i)]
                i < n ==> q.items[i as int].name == Some(column(i))) && (forall|
                db: Tables,
                w: Setting,
                out: Seq<int>,
            | #[trigger]
                q.gives(db, w, out) <==> exists|r1: Named, r2: Named| #[trigger]
                    congruent(db(quoted(view)), n, (w.params)(1), (w.params)(2), r1, r2) && out.len()
                        == n + 2 && begins_as(out, r1, n) && {
                        let (a, b) = (r1(column(n)), r2(column(n)));
                        &&& a > b ==> out[n as int] == a && out[n as int + 1] == b
                        &&& a < b ==> out[n as int] == b && out[n as int + 1] == a
                    }),
{
    let q = native_query(view, n);
    lemma_native_text(view, n);
    assert forall|i: nat| #![trigger column(i)] i < n implies q.items[i as int].name == Some(
        column(i),
    ) by {}
    assert forall|db: Tables, w: Setting, out: Seq<int>| #[trigger] q.gives(db, w, out) <==> exists|
        r1: Named,
        r2: Named,
    | #[trigger]
        congruent(db(quoted(view)), n, (w.params)(1), (w.params)(2), r1, r2) && out.len() == n + 2
            && begins_as(out, r1, n) && {
            let (a, b) = (r1(column(n)), r2(column(n)));
            &&& a > b ==> out[n as int] == a && out[n as int + 1] == b
            &&& a < b ==> out[n as int] == b && out[n as int + 1] == a
        } by {
        let rows = db(quoted(view));
        assert forall|r1: Named, r2: Named| #[trigger] q.takes(db, w, r1, r2) <==> congruent(
            rows,
            n,
            (w.params)(1),
            (w.params)(2),
            r1,
            r2,
        ) by {
            lemma_native_takes(view, n, db, w, r1, r2);
        }
        if q.gives(db, w, out) {
            let (r1, r2) = choose|r1: Named, r2: Named| #[trigger]
                q.takes(db, w, r1, r2) && out == q.items.map_values(
                    |i: Item| i.e.value(two_rows(q.first(), r1, r2), w),
                );
            lemma_two_rows(r1, r2);
            assert forall|i: nat| #![trigger column(i)] i < n implies out[i as int] == r1(
                column(i),
            ) by {
                assert(q.items[i as int] == keys_of(n)[i as int]);
            }
            assert(q.items[n as int].e == Expr::Greatest(v1(n), v2(n)));
            assert(q.items[n as int + 1].e == Expr::Least(v1(n), v2(n)));
            assert(congruent(rows, n, (w.params)(1), (w.params)(2), r1, r2));
        }
        if exists|r1: Named, r2: Named| #[trigger]
            congruent(rows, n, (w.params)(1), (w.params)(2), r1, r2) && out.len() == n + 2
                && begins_as(out, r1, n) && {
                let (a, b) = (r1(column(n)), r2(column(n)));
                &&& a > b ==> out[n as int] == a && out[n as int + 1] == b
                &&& a < b ==> out[n as int] == b && out[n as int + 1] == a
            } {
            let (r1, r2) = choose|r1: Named, r2: Named| #[trigger]
                congruent(rows, n, (w.params)(1), (w.params)(2), r1, r2) && out.len() == n + 2
                    && begins_as(out, r1, n) && {
                    let (a, b) = (r1(column(n)), r2(column(n)));
                    &&& a > b ==> out[n as int] == a && out[n as int + 1] == b
                    &&& a < b ==> out[n as int] == b && out[n as int + 1] == a
                };
            lemma_two_rows(r1, r2);
            let want = q.items.map_values(|i: Item| i.e.value(two_rows(q.first(), r1, r2), w));
            assert forall|i: int| 0 <= i < n + 2 implies out[i] == want[i] by {
                if i < n {
                    let k = i as nat;
                    assert(q.items[i] == keys_of(n)[i]);
                    assert(out[k as int] == r1(column(k)));
                } else if i == n {
                    assert(q.items[n as int].e == Expr::Greatest(v1(n), v2(n)));
                } else {
                    assert(q.items[n as int + 1].e == Expr::Least(v1(n), v2(n)));
                }
            }
            assert(out =~= want);
            assert(q.takes(db, w, r1, r2));
        }
    }
}

proof fn lemma_native_takes(
    view: Seq<char>,
    n: nat,
    db: Tables,
    w: Setting,
    r1: Named,
    r2: Named,
)
    ensures
        native_query(view, n).takes(db, w, r1, r2) <==> congruent(
            db(quoted(view)),
            n,
            (w.params)(1),
            (w.params)(2),
            r1,
            r2,
        ),
{
    let rows = two_rows("v1"@, r1, r2);
    lemma_two_rows(r1, r2);
    lemma_agree(n, r1, r2, w);
    lemma_window(r1, r2, w);
    let ne = Comparison { l: Expr::Col(v1(n)), rel: Rel::Ne, r: Expr::Col(v2(n)) };
    lemma_all_push(agree(n), ne, rows, w);
    lemma_single(agree(n).push(ne), rows, w);
    lemma_single(window(), rows, w);
}

/// The unions of a batch: for each of its rows one, of the loser with the winner, at the window's end.
pub proof fn native_edges_unite_each_pair(uf: Seq<char>)
    ensures
        exists|q: Query|
            native_edges(uf) == #[trigger] Statement::Add(
                quoted(uf),
                edge_columns(),
                q,
            ).text() && (forall|db: Tables, w: Setting, out: Seq<int>| #[trigger]
                q.gives(db, w, out) <==> exists|b: Named| #[trigger]
                    db("native_cong_batch"@).contains(b) && out == seq![
                        b("loser"@),
                        b("winner"@),
                        (w.params)(2),
                    ]),
{
    let q = edges_query();
    lemma_edges_text(uf);
    assert forall|db: Tables, w: Setting, out: Seq<int>| #[trigger] q.gives(db, w, out) <==> exists|
        b: Named,
    | #[trigger]
        db("native_cong_batch"@).contains(b) && out == seq![
            b("loser"@),
            b("winner"@),
            (w.params)(2),
        ] by {
        assert forall|b: Named| #[trigger] q.takes(db, w, b, b) implies q.items.map_values(
            |i: Item| i.e.value(two_rows(q.first(), b, b), w),
        ) == seq![b("loser"@), b("winner"@), (w.params)(2)] by {
            let got = q.items.map_values(|i: Item| i.e.value(two_rows(q.first(), b, b), w));
            assert(q.items[0] == of_batch("loser"@));
            assert(q.items[1] == of_batch("winner"@));
            assert(got =~= seq![b("loser"@), b("winner"@), (w.params)(2)]);
        }
        if q.gives(db, w, out) {
            let (r1, r2) = choose|r1: Named, r2: Named| #[trigger]
                q.takes(db, w, r1, r2) && out == q.items.map_values(
                    |i: Item| i.e.value(two_rows(q.first(), r1, r2), w),
                );
            assert(r1 == r2);
            assert(q.takes(db, w, r1, r1));
            assert(db("native_cong_batch"@).contains(r1));
        }
        if exists|b: Named| #[trigger]
            db("native_cong_batch"@).contains(b) && out == seq![
                b("loser"@),
                b("winner"@),
                (w.params)(2),
            ] {
            let b = choose|b: Named| #[trigger]
                db("native_cong_batch"@).contains(b) && out == seq![
                    b("loser"@),
                    b("winner"@),
                    (w.params)(2),
                ];
            assert(q.takes(db, w, b, b));
        }
    }
}

/// The unions of the inline pass: for two rows that agree on all keys and have different ids one, of
/// the greater id with the smaller one, at the window's end; rows that differ in some key give none.
pub proof fn inline_unions_pair_congruent_rows(pname: Seq<char>, view: Seq<char>, n: nat)
    requires
        n > 0,
    ensures
        exists|q: Query|
            inline_unions(pname, view, n) == #[trigger] Statement::Add(
                quoted(pname),
                edge_columns(),
                q,
            ).text() && (forall|db: Tables, w: Setting, out: Seq<int>| #[trigger]
                q.gives(db, w, out) <==> exists|r1: Named, r2: Named| #[trigger]
                    congruent(db(quoted(view)), n, (w.params)(1), (w.params)(2), r1, r2) && {
                        let (a, b) = (r1(column(n)), r2(column(n)));
                        &&& a > b ==> out == seq![a, b, (w.params)(2)]
                        &&& a < b ==> out == seq![b, a, (w.params)(2)]
                    }),
{
    let q = inline_query(view, n);
    lemma_inline_text(pname, view, n);
    assert forall|db: Tables, w: Setting, out: Seq<int>| #[trigger] q.gives(db, w, out) <==> exists|
        r1: Named,
        r2: Named,
    | #[trigger]
        congruent(db(quoted(view)), n, (w.params)(1), (w.params)(2), r1, r2) && {
            let (a, b) = (r1(column(n)), r2(column(n)));
            &&& a > b ==> out == seq![a, b, (w.params)(2)]
            &&& a < b ==> out == seq![b, a, (w.params)(2)]
        } by {
        let rows = db(quoted(view));
        assert forall|r1: Named, r2: Named| #[trigger] q.takes(db, w, r1, r2) <==> congruent(
            rows,
            n,
            (w.params)(1),
            (w.params)(2),
            r1,
            r2,
        ) by {
            lemma_inline_takes(view, n, db, w, r1, r2);
        }
        assert forall|r1: Named, r2: Named| #[trigger]
            congruent(rows, n, (w.params)(1), (w.params)(2), r1, r2) implies q.items.map_values(
            |i: Item| i.e.value(two_rows(q.first(), r1, r2), w),
        ) == if r1(column(n)) > r2(column(n)) {
            seq![r1(column(n)), r2(column(n)), (w.params)(2)]
        } else {
            seq![r2(column(n)), r1(column(n)), (w.params)(2)]
        } by {
            lemma_two_rows(r1, r2);
            let got = q.items.map_values(|i: Item| i.e.value(two_rows(q.first(), r1, r2), w));
            assert(q.items[0].e == Expr::Greatest(v1(n), v2(n)));
            assert(q.items[1].e == Expr::Least(v1(n), v2(n)));
            if r1(column(n)) > r2(column(n)) {
                assert(got =~= seq![r1(column(n)), r2(column(n)), (w.params)(2)]);
            } else {
                assert(got =~= seq![r2(column(n)), r1(column(n)), (w.params)(2)]);
            }
        }
        if q.gives(db, w, out) {
            let (r1, r2) = choose|r1: Named, r2: Named| #[trigger]
                q.takes(db, w, r1, r2) && out == q.items.map_values(
                    |i: Item| i.e.value(two_rows(q.first(), r1, r2), w),
                );
            assert(congruent(rows, n, (w.params)(1), (w.params)(2), r1, r2));
        }
        if exists|r1: Named, r2: Named| #[trigger]
            congruent(rows, n, (w.params)(1), (w.params)(2), r1, r2) && {
                let (a, b) = (r1(column(n)), r2(column(n)));
                &&& a > b ==> out == seq![a, b, (w.params)(2)]
                &&& a < b ==> out == seq![b, a, (w.params)(2)]
            } {
            let (r1, r2) = choose|r1: Named, r2: Named| #[trigger]
                congruent(rows, n, (w.params)(1), (w.params)(2), r1, r2) && {
                    let (a, b) = (r1(column(n)), r2(column(n)));
                    &&& a > b ==> out == seq![a, b, (w.params)(2)]
                    &&& a < b ==> out == seq![b, a, (w.params)(2)]
                };
            assert(q.takes(db, w, r1, r2));
        }
    }
}

proof fn lemma_inline_takes(
    view: Seq<char>,
    n: nat,
    db: Tables,
    w: Setting,
    r1: Named,
    r2: Named,
)
    ensures
        inline_query(view, n).takes(db, w, r1, r2) <==> congruent(
            db(quoted(view)),
            n,
            (w.params)(1),
            (w.params)(2),
            r1,
            r2,
        ),
{
    let rows = two_rows("v1"@, r1, r2);
    lemma_two_rows(r1, r2);
    lemma_agree(n, r1, r2, w);
    lemma_window(r1, r2, w);
    let ne = Comparison { l: Expr::Col(v1(n)), rel: Rel::Ne, r: Expr::Col(v2(n)) };
    lemma_all_push(window(), ne, rows, w);
    lemma_all_concat(window().push(ne), agree(n), rows, w);
    lemma_single(window().push(ne) + agree(n), rows, w);
}

/// Two rows of a view with the same key and different outputs, the first one the greater, of which one
/// came at or after `from`.
pub open spec fn conflicting(rows: Set<Named>, n: nat, from: int, r1: Named, r2: Named) -> bool {
    &&& rows.contains(r1)
    &&& rows.contains(r2)
    &&& same_keys(r1, r2, n)
    &&& r1(column(n)) > r2(column(n))
    &&& r1("ts"@) >= from || r2("ts"@) >= from
}

/// Whether a row of the batch is that of two rows of the view: their key, and their two outputs.
pub open spec fn stands_for(b: Named, n: nat, r1: Named, r2: Named) -> bool {
    &&& same_keys(b, r1, n)
    &&& b("old"@) == r1(column(n))
    &&& b("new"@) == r2(column(n))
}

/// A merge's batch holds just the pairs of rows of the view that agree on every key column and
/// differ in their output, with the greater output as the old one.
pub proof fn build_batch_pairs_conflicting_rows(view: Seq<char>, n: nat)
    requires
        n > 0,
    ensures
        exists|q: Query|
            build_batch(view, n) == #[trigger] Statement::Collect("batch"@, q).text()
                && q.items.len() == n + 2 && q.items[n as int].name == Some("old"@)
                && q.items[n as int + 1].name == Some("new"@) && (forall|i: nat|
                #![trigger column(i)]
                i < n ==> q.items[i as int].name == Some(column(i))) && (forall|
                db: Tables,
                w: Setting,
                out: Seq<int>,
            | #[trigger]
                q.gives(db, w, out) <==> exists|r1: Named, r2: Named| #[trigger]
                    conflicting(db(quoted(view)), n, (w.params)(1), r1, r2) && out.len() == n + 2
                        && begins_as(out, r1, n) && out[n as int] == r1(column(n)) && out[n as int + 1]
                        == r2(column(n))),
{
    let q = build_query(view, n);
    lemma_build_text(view, n);
    assert forall|i: nat| #![trigger column(i)] i < n implies q.items[i as int].name == Some(
        column(i),
    ) by {}
    assert forall|db: Tables, w: Setting, out: Seq<int>| #[trigger] q.gives(db, w, out) <==> exists|
        r1: Named,
        r2: Named,
    | #[trigger]
        conflicting(db(quoted(view)), n, (w.params)(1), r1, r2) && out.len() == n + 2 && begins_as(
            out,
            r1,
            n,
        ) && out[n as int] == r1(column(n)) && out[n as int + 1] == r2(column(n)) by {
        let rows = db(quoted(view));
        assert forall|r1: Named, r2: Named| #[trigger] q.takes(db, w, r1, r2) <==> conflicting(
            rows,
            n,
            (w.params)(1),
            r1,
            r2,
        ) by {
            lemma_build_takes(view, n, db, w, r1, r2);
        }
        if q.gives(db, w, out) {
            let (r1, r2) = choose|r1: Named, r2: Named| #[trigger]
                q.takes(db, w, r1, r2) && out == q.items.map_values(
                    |i: Item| i.e.value(two_rows(q.first(), r1, r2), w),
                );
            lemma_two_rows(r1, r2);
            assert forall|i: nat| #![trigger column(i)] i < n implies out[i as int] == r1(
                column(i),
            ) by {
                assert(q.items[i as int] == keys_of(n)[i as int]);
            }
            assert(q.items[n as int].e == Expr::Col(v1(n)));
            assert(q.items[n as int + 1].e == Expr::Col(v2(n)));
            assert(conflicting(rows, n, (w.params)(1), r1, r2));
        }
        if exists|r1: Named, r2: Named| #[trigger]
            conflicting(rows, n, (w.params)(1), r1, r2) && out.len() == n + 2 && begins_as(
                out,
                r1,
                n,
            ) && out[n as int] == r1(column(n)) && out[n as int + 1] == r2(column(n)) {
            let (r1, r2) = choose|r1: Named, r2: Named| #[trigger]
                conflicting(rows, n, (w.params)(1), r1, r2) && out.len() == n + 2 && begins_as(
                    out,
                    r1,
                    n,
                ) && out[n as int] == r1(column(n)) && out[n as int + 1] == r2(column(n));
            lemma_two_rows(r1, r2);
            let want = q.items.map_values(|i: Item| i.e.value(two_rows(q.first(), r1, r2), w));
            assert forall|i: int| 0 <= i < n + 2 implies out[i] == want[i] by {
                if i < n {
                    let k = i as nat;
                    assert(q.items[i] == keys_of(n)[i]);
                    assert(out[k as int] == r1(column(k)));
                } else if i == n {
                    assert(q.items[n as int].e == Expr::Col(v1(n)));
                } else {
                    assert(q.items[n as int + 1].e == Expr::Col(v2(n)));
                }
            }
            assert(out =~= want);
            assert(q.takes(db, w, r1, r2));
        }
    }
}

proof fn lemma_build_takes(
    view: Seq<char>,
    n: nat,
    db: Tables,
    w: Setting,
    r1: Named,
    r2: Named,
)
    ensures
        build_query(view, n).takes(db, w, r1, r2) <==> conflicting(
            db(quoted(view)),
            n,
            (w.params)(1),
            r1,
            r2,
        ),
{
    let rows = two_rows("v1"@, r1, r2);
    lemma_two_rows(r1, r2);
    lemma_agree(n, r1, r2, w);
    lemma_window(r1, r2, w);
    let gt = Comparison { l: Expr::Col(v1(n)), rel: Rel::Gt, r: Expr::Col(v2(n)) };
    lemma_all_push(agree(n), gt, rows, w);
    lemma_single(agree(n).push(gt), rows, w);
}

/// The values of the first `n + 1` columns of a row.
pub open spec fn whole(r: Named, n: nat) -> Seq<int> {
    Seq::new((n + 1) as nat, |i: int| r(column(i as nat)))
}

proof fn lemma_side_gives(n: nat, side: Seq<char>, db: Tables, w: Setting, out: Seq<int>)
    ensures
        side_query(n, side).gives(db, w, out) <==> exists|b: Named| #[trigger]
            db("batch"@).contains(b) && out.len() == n + 1 && begins_as(out, b, n) && out[n as int]
                == b(side),
{
    let q = side_query(n, side);
    if q.gives(db, w, out) {
        let (b, c) = choose|b: Named, c: Named| #[trigger]
            q.takes(db, w, b, c) && out == q.items.map_values(
                |i: Item| i.e.value(two_rows(q.first(), b, c), w),
            );
        assert forall|i: nat| #![trigger column(i)] i < n implies out[i as int] == b(column(i)) by {
            assert(q.items[i as int] == of_batch(column(i)));
        }
        assert(q.items[n as int] == of_batch(side));
        assert(db("batch"@).contains(b));
    }
    if exists|b: Named| #[trigger]
        db("batch"@).contains(b) && out.len() == n + 1 && begins_as(out, b, n) && out[n as int] == b(
            side,
        ) {
        let b = choose|b: Named| #[trigger]
            db("batch"@).contains(b) && out.len() == n + 1 && begins_as(out, b, n) && out[n as int]
                == b(side);
        let want = q.items.map_values(|i: Item| i.e.value(two_rows(q.first(), b, b), w));
        assert forall|i: int| 0 <= i < n + 1 implies out[i] == want[i] by {
            if i < n {
                let k = i as nat;
                assert(q.items[i] == of_batch(column(k)));
                assert(out[k as int] == b(column(k)));
            } else {
                assert(q.items[n as int] == of_batch(side));
            }
        }
        assert(out =~= want);
        assert(q.takes(db, w, b, b));
    }
}

/// A side's delete takes the rows whose key and output are those of a row of the batch.
pub proof fn deletes_take_the_rows_of_the_batch(view: Seq<char>, n: nat, side: Seq<char>)
    requires
        n > 0,
    ensures
        exists|q: Query|
            delete_side(view, n, side) == #[trigger] Statement::Delete(
                quoted(view),
                columns((n + 1) as nat),
                q,
            ).text() && (forall|db: Tables, w: Setting, r: Named|
                #![trigger q.gives(db, w, whole(r, n))]
                q.gives(db, w, whole(r, n)) <==> exists|b: Named| #[trigger]
                    db("batch"@).contains(b) && same_keys(b, r, n) && r(column(n)) == b(side)),
{
    let q = side_query(n, side);
    lemma_delete_text(view, n, side);
    assert(columns(n).push(column(n)) =~= columns((n + 1) as nat));
    assert forall|db: Tables, w: Setting, r: Named|
        #![trigger q.gives(db, w, whole(r, n))]
        q.gives(db, w, whole(r, n)) <==> exists|b: Named| #[trigger]
            db("batch"@).contains(b) && same_keys(b, r, n) && r(column(n)) == b(side) by {
        let out = whole(r, n);
        lemma_side_gives(n, side, db, w, out);
        assert forall|b: Named| begins_as(out, b, n) <==> #[trigger] same_keys(b, r, n) by {
            if begins_as(out, b, n) {
                assert forall|i: nat| #![trigger column(i)] i < n implies b(column(i)) == r(
                    column(i),
                ) by {
                    assert(out[i as int] == b(column(i)));
                }
            }
            if same_keys(b, r, n) {
                assert forall|i: nat| #![trigger column(i)] i < n implies out[i as int] == b(
                    column(i),
                ) by {
                    assert(b(column(i)) == r(column(i)));
                }
            }
        }
        if q.gives(db, w, out) {
            let b = choose|b: Named| #[trigger]
                db("batch"@).contains(b) && out.len() == n + 1 && begins_as(out, b, n) && out[n as int]
                    == b(side);
            assert(same_keys(b, r, n));
        }
        if exists|b: Named| #[trigger]
            db("batch"@).contains(b) && same_keys(b, r, n) && r(column(n)) == b(side) {
            let b = choose|b: Named| #[trigger]
                db("batch"@).contains(b) && same_keys(b, r, n) && r(column(n)) == b(side);
            assert(begins_as(out, b, n));
        }
    }
}

/// A row that a merge deletes, on either side, has the key of another row of the view with another
/// output; and both rows of every conflict are deleted. So a row whose key no other row has stays.
pub proof fn merges_delete_just_the_conflicts(
    rows: Set<Named>,
    batch: Set<Named>,
    n: nat,
    from: int,
    r: Named,
)
    requires
        forall|b: Named| #[trigger]
            batch.contains(b) ==> exists|r1: Named, r2: Named| #[trigger]
                conflicting(rows, n, from, r1, r2) && stands_for(b, n, r1, r2),
        forall|r1: Named, r2: Named| #[trigger]
            conflicting(rows, n, from, r1, r2) ==> exists|b: Named| #[trigger]
                batch.contains(b) && stands_for(b, n, r1, r2),
    ensures
        (exists|b: Named| #[trigger]
            batch.contains(b) && same_keys(b, r, n) && (r(column(n)) == b("old"@) || r(column(n))
                == b("new"@))) ==> exists|other: Named| #[trigger]
            rows.contains(other) && same_keys(other, r, n) && other(column(n)) != r(column(n)),
        forall|other: Named|
            #![trigger rows.contains(other)]
            rows.contains(r) && rows.contains(other) && same_keys(r, other, n) && r(column(n))
                != other(column(n)) && (r("ts"@) >= from || other("ts"@) >= from) ==> exists|
                b: Named,
            | #[trigger]
                batch.contains(b) && same_keys(b, r, n) && (r(column(n)) == b("old"@) || r(
                    column(n),
                ) == b("new"@)),
{
    if exists|b: Named| #[trigger]
        batch.contains(b) && same_keys(b, r, n) && (r(column(n)) == b("old"@) || r(column(n)) == b(
            "new"@,
        )) {
        let b = choose|b: Named| #[trigger]
            batch.contains(b) && same_keys(b, r, n) && (r(column(n)) == b("old"@) || r(column(n))
                == b("new"@));
        let (r1, r2) = choose|r1: Named, r2: Named| #[trigger]
            conflicting(rows, n, from, r1, r2) && stands_for(b, n, r1, r2);
        let other = if r(column(n)) == b("old"@) {
            r2
        } else {
            r1
        };
        assert forall|i: nat| #![trigger column(i)] i < n implies other(column(i)) == r(
            column(i),
        ) by {
            assert(b(column(i)) == r(column(i)));
            assert(b(column(i)) == r1(column(i)));
            assert(r1(column(i)) == r2(column(i)));
        }
        assert(rows.contains(other) && same_keys(other, r, n));
    }
    assert forall|other: Named|
        #![trigger rows.contains(other)]
        rows.contains(r) && rows.contains(other) && same_keys(r, other, n) && r(column(n)) != other(
            column(n),
        ) && (r("ts"@) >= from || other("ts"@) >= from) implies exists|b: Named| #[trigger]
        batch.contains(b) && same_keys(b, r, n) && (r(column(n)) == b("old"@) || r(column(n)) == b(
            "new"@,
        )) by {
        assert forall|i: nat| #![trigger column(i)] i < n implies other(column(i)) == r(
            column(i),
        ) by {
            assert(r(column(i)) == other(column(i)));
        }
        let (r1, r2) = if r(column(n)) > other(column(n)) {
            (r, other)
        } else {
            (other, r)
        };
        assert(conflicting(rows, n, from, r1, r2));
        let b = choose|b: Named| #[trigger] batch.contains(b) && stands_for(b, n, r1, r2);
        assert forall|i: nat| #![trigger column(i)] i < n implies b(column(i)) == r(column(i)) by {
            assert(b(column(i)) == r1(column(i)));
        }
        assert(batch.contains(b) && same_keys(b, r, n));
    }
}

/// A merge writes, for each row of the batch and no other, the row's key with the merged output, at
/// the window's end.
pub proof fn merged_rows_are_written_once(view: Seq<char>, n: nat, merged: Seq<char>)
    requires
        n > 0,
    ensures
        exists|q: Query|
            insert_merged(view, n, merged) == #[trigger] Statement::Add(
                quoted(view),
                columns((n + 1) as nat).push("ts"@),
                q,
            ).text() && (forall|db: Tables, w: Setting, out: Seq<int>| #[trigger]
                q.gives(db, w, out) <==> exists|b: Named| #[trigger]
                    db("batch"@).contains(b) && out.len() == n + 2 && begins_as(out, b, n)
                        && out[n as int] == (w.other)(merged, two_rows("b"@, b, b)) && out[n as int + 1]
                        == (w.params)(2)),
{
    let q = merged_query(n, merged);
    lemma_merged_text(view, n, merged);
    assert(columns(n).push(column(n)) =~= columns((n + 1) as nat));
    assert forall|db: Tables, w: Setting, out: Seq<int>| #[trigger] q.gives(db, w, out) <==> exists|
        b: Named,
    | #[trigger]
        db("batch"@).contains(b) && out.len() == n + 2 && begins_as(out, b, n) && out[n as int] == (
        w.other)(merged, two_rows("b"@, b, b)) && out[n as int + 1] == (w.params)(2) by {
        lemma_merged_gives(n, merged, db, w, out);
    }
}

proof fn lemma_merged_gives(n: nat, merged: Seq<char>, db: Tables, w: Setting, out: Seq<int>)
    ensures
        merged_query(n, merged).gives(db, w, out) <==> exists|b: Named| #[trigger]
            db("batch"@).contains(b) && out.len() == n + 2 && begins_as(out, b, n) && out[n as int]
                == (w.other)(merged, two_rows("b"@, b, b)) && out[n as int + 1] == (w.params)(2),
{
    let q = merged_query(n, merged);
    if q.gives(db, w, out) {
        let (b, c) = choose|b: Named, c: Named| #[trigger]
            q.takes(db, w, b, c) && out == q.items.map_values(
                |i: Item| i.e.value(two_rows(q.first(), b, c), w),
            );
        assert forall|i: nat| #![trigger column(i)] i < n implies out[i as int] == b(column(i)) by {
            assert(q.items[i as int] == of_batch(column(i)));
        }
        assert(q.items[n as int].e == Expr::Other(merged));
        assert(q.items[n as int + 1].e == Expr::Param(2));
        assert(db("batch"@).contains(b));
    }
    if exists|b: Named| #[trigger]
        db("batch"@).contains(b) && out.len() == n + 2 && begins_as(out, b, n) && out[n as int] == (
        w.other)(merged, two_rows("b"@, b, b)) && out[n as int + 1] == (w.params)(2) {
        let b = choose|b: Named| #[trigger]
            db("batch"@).contains(b) && out.len() == n + 2 && begins_as(out, b, n) && out[n as int]
                == (w.other)(merged, two_rows("b"@, b, b)) && out[n as int + 1] == (w.params)(2);
        let want = q.items.map_values(|i: Item| i.e.value(two_rows(q.first(), b, b), w));
        assert forall|i: int| 0 <= i < n + 2 implies out[i] == want[i] by {
            if i < n {
                let k = i as nat;
                assert(q.items[i] == of_batch(column(k)));
                assert(out[k as int] == b(column(k)));
            } else if i == n {
                assert(q.items[n as int].e == Expr::Other(merged));
            } else {
                assert(q.items[n as int + 1].e == Expr::Param(2));
            }
        }
        assert(out =~= want);
        assert(q.takes(db, w, b, b));
    }
}

} // verus!
