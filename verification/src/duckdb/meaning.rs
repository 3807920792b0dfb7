//! What statements mean on rows.
//!
//! A fragment of SQL as values: how a statement of it is written, and what it selects from the rows
//! of the tables. The laws on the statements of a pass say which rows they bring together.
use crate::text::{decimal, joined};
use vstd::prelude::*;

verus! {

/// A row: the value of each column, by its name.
pub type Named = spec_fn(Seq<char>) -> int;

/// The rows of each table, by the name under which a statement refers to it.
pub type Tables = spec_fn(Seq<char>) -> Set<Named>;

/// What a statement is run with: the values of its parameters, and those of expressions that are
/// not looked into, on the rows at hand.
pub struct Setting {
    pub params: spec_fn(nat) -> int,
    pub other: spec_fn(Seq<char>, spec_fn(Seq<char>) -> Named) -> int,
}

/// A column of one of the rows at hand.
pub struct ColRef {
    pub row: Seq<char>,
    pub name: Seq<char>,
}

/// An expression.
pub enum Expr {
    Col(ColRef),
    Greatest(ColRef, ColRef),
    Least(ColRef, ColRef),
    Param(nat),
    Other(Seq<char>),
}

/// How two values compare.
pub enum Rel {
    Eq,
    Ne,
    Lt,
    Gt,
    Ge,
}

/// A comparison.
pub struct Comparison {
    pub l: Expr,
    pub rel: Rel,
    pub r: Expr,
}

/// A condition: one of some alternatives, in each of which all the comparisons hold. `AND` binds
/// closer than `OR`.
pub type Condition = Seq<Seq<Comparison>>;

impl ColRef {
    pub open spec fn text(self) -> Seq<char> {
        self.row + "."@ + self.name
    }

    pub open spec fn value(self, rows: spec_fn(Seq<char>) -> Named) -> int {
        rows(self.row)(self.name)
    }
}

impl Expr {
    /// The expression as it is written.
    pub open spec fn text(self) -> Seq<char> {
        match self {
            Expr::Col(c) => c.text(),
            Expr::Greatest(a, b) => "GREATEST("@ + a.text() + ", "@ + b.text() + ")"@,
            Expr::Least(a, b) => "LEAST("@ + a.text() + ", "@ + b.text() + ")"@,
            Expr::Param(k) => "?"@ + decimal(k),
            Expr::Other(t) => t,
        }
    }

    /// The expression's value on the rows at hand.
    pub open spec fn value(self, rows: spec_fn(Seq<char>) -> Named, w: Setting) -> int {
        match self {
            Expr::Col(c) => c.value(rows),
            Expr::Greatest(a, b) => if a.value(rows) >= b.value(rows) {
                a.value(rows)
            } else {
                b.value(rows)
            },
            Expr::Least(a, b) => if a.value(rows) <= b.value(rows) {
                a.value(rows)
            } else {
                b.value(rows)
            },
            Expr::Param(k) => (w.params)(k),
            Expr::Other(t) => (w.other)(t, rows),
        }
    }
}

impl Comparison {
    pub open spec fn text(self) -> Seq<char> {
        let rel = match self.rel {
            Rel::Eq => " = "@,
            Rel::Ne => " <> "@,
            Rel::Lt => " < "@,
            Rel::Gt => " > "@,
            Rel::Ge => " >= "@,
        };
        self.l.text() + rel + self.r.text()
    }

    pub open spec fn holds(self, rows: spec_fn(Seq<char>) -> Named, w: Setting) -> bool {
        let a = self.l.value(rows, w);
        let b = self.r.value(rows, w);
        match self.rel {
            Rel::Eq => a == b,
            Rel::Ne => a != b,
            Rel::Lt => a < b,
            Rel::Gt => a > b,
            Rel::Ge => a >= b,
        }
    }
}

/// Comparisons that all have to hold, as they are written.
pub open spec fn all_text(cs: Seq<Comparison>) -> Seq<char> {
    joined(cs.map_values(|c: Comparison| c.text()), " AND "@)
}

/// A condition as it is written.
pub open spec fn condition_text(c: Condition) -> Seq<char> {
    joined(c.map_values(|cs: Seq<Comparison>| all_text(cs)), " OR "@)
}

/// Whether comparisons all hold.
pub open spec fn all_hold(
    cs: Seq<Comparison>,
    rows: spec_fn(Seq<char>) -> Named,
    w: Setting,
) -> bool {
    forall|i: int| 0 <= i < cs.len() ==> (#[trigger] cs[i]).holds(rows, w)
}

/// Whether a condition holds.
pub open spec fn condition_holds(
    c: Condition,
    rows: spec_fn(Seq<char>) -> Named,
    w: Setting,
) -> bool {
    exists|i: int| 0 <= i < c.len() && all_hold(#[trigger] c[i], rows, w)
}

/// A column of what is selected, and the name that it gets.
pub struct Item {
    pub e: Expr,
    pub name: Option<Seq<char>>,
}

impl Item {
    pub open spec fn text(self) -> Seq<char> {
        match self.name {
            Some(n) => self.e.text() + " AS "@ + n,
            None => self.e.text(),
        }
    }
}

/// The tables that rows are taken from: one, two that are joined on a condition, or two side by side.
pub enum From {
    One(Seq<char>, Seq<char>),
    Join(Seq<char>, Seq<char>, Seq<char>, Seq<char>, Condition),
    Both(Seq<char>, Seq<char>, Seq<char>, Seq<char>),
}

/// A query.
pub struct Query {
    pub items: Seq<Item>,
    pub from: From,
    pub filter: Option<Condition>,
}

/// The rows at hand, when the rows `r1` and `r2` go by these names.
pub open spec fn two_rows(a1: Seq<char>, r1: Named, r2: Named) -> spec_fn(Seq<char>) -> Named {
    |a: Seq<char>|
        if a == a1 {
            r1
        } else {
            r2
        }
}

impl Query {
    /// The query as it is written.
    pub open spec fn text(self) -> Seq<char> {
        let head = "SELECT "@ + joined(self.items.map_values(|i: Item| i.text()), ", "@) + " FROM "@;
        let from = match self.from {
            From::One(t, a) => t + " "@ + a,
            From::Join(t1, a1, t2, a2, on) => t1 + " "@ + a1 + " JOIN "@ + t2 + " "@ + a2 + " ON "@
                + condition_text(on),
            From::Both(t1, a1, t2, a2) => t1 + " "@ + a1 + ", "@ + t2 + " "@ + a2,
        };
        match self.filter {
            Some(c) => head + from + " WHERE "@ + condition_text(c),
            None => head + from,
        }
    }

    /// Whether the query may take the rows `r1` and `r2` together; a query on one table takes one
    /// row, which stands for both.
    pub open spec fn takes(self, db: Tables, w: Setting, r1: Named, r2: Named) -> bool {
        let (first, from) = match self.from {
            From::One(t, a) => (a, db(t).contains(r1) && r1 == r2),
            From::Join(t1, a1, t2, a2, on) => (
                a1,
                db(t1).contains(r1) && db(t2).contains(r2) && condition_holds(
                    on,
                    two_rows(a1, r1, r2),
                    w,
                ),
            ),
            From::Both(t1, a1, t2, a2) => (a1, db(t1).contains(r1) && db(t2).contains(r2)),
        };
        from && (self.filter matches Some(c) ==> condition_holds(c, two_rows(first, r1, r2), w))
    }

    /// The name of the first row at hand.
    pub open spec fn first(self) -> Seq<char> {
        match self.from {
            From::One(t, a) => a,
            From::Join(t1, a1, t2, a2, on) => a1,
            From::Both(t1, a1, t2, a2) => a1,
        }
    }

    /// Whether `out` is one of the rows that the query gives.
    pub open spec fn gives(self, db: Tables, w: Setting, out: Seq<int>) -> bool {
        exists|r1: Named, r2: Named| #[trigger]
            self.takes(db, w, r1, r2) && out == self.items.map_values(
                |i: Item| i.e.value(two_rows(self.first(), r1, r2), w),
            )
    }
}

/// A statement.
pub enum Statement {
    /// Makes a temporary table of what a query gives.
    Collect(Seq<char>, Query),
    /// Inserts what a query gives into the named columns of a table, unless it is there.
    Add(Seq<char>, Seq<Seq<char>>, Query),
    /// Deletes the rows whose named columns are among what a query gives.
    Delete(Seq<char>, Seq<Seq<char>>, Query),
}

impl Statement {
    /// The statement as it is written.
    pub open spec fn text(self) -> Seq<char> {
        match self {
            Statement::Collect(t, q) => "CREATE OR REPLACE TEMP TABLE "@ + t + " AS "@ + q.text(),
            Statement::Add(t, cols, q) => "INSERT INTO "@ + t + " ("@ + joined(cols, ", "@) + ") "@
                + q.text() + " ON CONFLICT DO NOTHING"@,
            Statement::Delete(t, cols, q) => "DELETE FROM "@ + t + " WHERE ("@ + joined(cols, ", "@)
                + ") IN ("@ + q.text() + ")"@,
        }
    }
}

/// The name of a column by its number.
pub open spec fn column(i: nat) -> Seq<char> {
    "c"@ + decimal(i)
}

/// Texts one behind another, however they are grouped.
pub broadcast proof fn regroup(a: Seq<char>, b: Seq<char>, c: Seq<char>)
    ensures
        #[trigger] (a + (b + c)) == (a + b) + c,
{
    assert((a + (b + c)) =~= (a + b) + c);
}

} // verus!
