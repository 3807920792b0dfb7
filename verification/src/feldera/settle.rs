//! Applying a round's writes: retractions first, then new rows, then the merge of
//! the rows that share a written key.
use crate::collections::{row_views, RowSet};
use crate::feldera::compile::{MergeMode, Row};
use crate::feldera::egraph::{table_ok, EGraph, EgState};
use crate::feldera::expr::lemma_push_contains;
use crate::feldera::head::{write_fits, write_views, writes_fit, Write, WriteView};
use crate::feldera::rebuild::clone_row;
use crate::feldera::table::{
    clone_prefix, is_written, merge_changes, merged, puts_fit, wins, TableState,
};
use vstd::prelude::*;

verus! {

/// The length of the first key that is retracted from function `f`.
pub open spec fn drop_len(ws: Seq<WriteView>, f: int) -> Option<nat>
    decreases ws.len(),
{
    if ws.len() == 0 {
        None
    } else {
        match drop_len(ws.drop_last(), f) {
            Some(n) => Some(n),
            None => match ws.last() {
                WriteView::Drop(g, key) => if g == f {
                    Some(key.len())
                } else {
                    None
                },
                WriteView::Put(_, _) => None,
            },
        }
    }
}

/// Whether a row of function `f` is retracted: its leading columns are a retracted
/// key. The first retraction says how many columns a key has.
pub open spec fn is_dropped(ws: Seq<WriteView>, f: int, row: Seq<u32>) -> bool {
    match drop_len(ws, f) {
        None => false,
        Some(n) => exists|i: int|
            0 <= i < ws.len() && ((#[trigger] ws[i]) matches WriteView::Drop(g, key) && g == f && key
                == row.take(n as int)),
    }
}

/// Whether a row is written to function `f`.
pub open spec fn is_put(ws: Seq<WriteView>, f: int, row: Seq<u32>) -> bool {
    exists|i: int|
        0 <= i < ws.len() && ((#[trigger] ws[i]) matches WriteView::Put(g, r) && g == f && r == row)
}

/// The rows of a function that are not retracted.
pub open spec fn after_drops(rows: Set<Seq<u32>>, ws: Seq<WriteView>, f: int) -> Set<Seq<u32>> {
    rows.filter(|r: Seq<u32>| !is_dropped(ws, f, r))
}

/// The rows that are written to function `f`, in order.
pub open spec fn puts_of(ws: Seq<WriteView>, f: int) -> Seq<Seq<u32>>
    decreases ws.len(),
{
    if ws.len() == 0 {
        Seq::empty()
    } else {
        let less = puts_of(ws.drop_last(), f);
        match ws.last() {
            WriteView::Put(g, row) => if g == f {
                less.push(row)
            } else {
                less
            },
            WriteView::Drop(_, _) => less,
        }
    }
}

/// The rows of a table after a round's writes.
pub open spec fn settled_rows(t: TableState, ws: Seq<WriteView>, f: int) -> Set<Seq<u32>> {
    merged(after_drops(t.rows, ws, f), puts_of(ws, f), t.info.arity, t.info.merge)
}

/// The state after a round's writes.
pub open spec fn settled(s: EgState, ws: Seq<WriteView>) -> EgState {
    EgState {
        tables: Seq::new(
            s.tables.len(),
            |f: int| TableState { rows: settled_rows(s.tables[f], ws, f), ..s.tables[f] },
        ),
        ..s
    }
}

/// Whether a round's writes change a table: a row is retracted, a row is new, or a
/// merge drops a row.
pub open spec fn table_changes(t: TableState, ws: Seq<WriteView>, f: int) -> bool {
    let kept = after_drops(t.rows, ws, f);
    kept != t.rows || merge_changes(kept, puts_of(ws, f), t.info.arity, t.info.merge)
}

/// Whether a round's writes change some table.
pub open spec fn some_table_changes(s: EgState, ws: Seq<WriteView>) -> bool {
    exists|f: int| 0 <= f < s.tables.len() && #[trigger] table_changes(s.tables[f], ws, f)
}

pub proof fn lemma_puts_of(ws: Seq<WriteView>, f: int, r: Seq<u32>)
    ensures
        puts_of(ws, f).contains(r) <==> is_put(ws, f, r),
    decreases ws.len(),
{
    if ws.len() > 0 {
        let less = ws.drop_last();
        let n = ws.len() - 1;
        lemma_puts_of(less, f, r);
        assert(ws.take(n) =~= less);
        assert(ws.take(n + 1) =~= ws);
        lemma_put_step(ws, n, f, r);
        match ws.last() {
            WriteView::Put(g, row) => {
                lemma_push_contains(puts_of(less, f), row);
            },
            WriteView::Drop(_, _) => {},
        }
    }
}

/// A row that is written stays unless its key gets another output: retracting its
/// key in the same round does not drop it.
pub proof fn put_wins_over_drop(s: EgState, ws: Seq<WriteView>, f: int, row: Seq<u32>)
    requires
        0 <= f < s.tables.len(),
        is_put(ws, f, row),
    ensures
        ({
            let t = s.tables[f];
            let kept = after_drops(t.rows, ws, f);
            settled(s, ws).tables[f].rows.contains(row) <==> {
                ||| t.info.merge == MergeMode::Relation
                ||| t.info.arity == 0
                ||| wins(kept, puts_of(ws, f), (t.info.arity - 1) as nat, t.info.merge, row)
            }
        }),
{
    let puts = puts_of(ws, f);
    lemma_puts_of(ws, f, row);
    let i = choose|i: int| 0 <= i < puts.len() && puts[i] == row;
    if s.tables[f].info.arity > 0 {
        let n = (s.tables[f].info.arity - 1) as nat;
        assert(puts[i].take(n as int) == row.take(n as int));
        assert(is_written(puts, n, row.take(n as int)));
    }
}

/// A function that no write names keeps its rows.
pub proof fn settle_keeps_other_tables(s: EgState, ws: Seq<WriteView>, f: int)
    requires
        0 <= f < s.tables.len(),
        forall|i: int|
            0 <= i < ws.len() ==> match #[trigger] ws[i] {
                WriteView::Put(g, r) => g != f,
                WriteView::Drop(g, r) => g != f,
            },
    ensures
        settled(s, ws).tables[f].rows == s.tables[f].rows,
{
    lemma_no_drop_len(ws, f);
    let rows = s.tables[f].rows;
    let t = s.tables[f];
    assert(after_drops(rows, ws, f) =~= rows);
    assert forall|r: Seq<u32>| !is_put(ws, f, r) by {}
    assert(puts_of(ws, f) =~= Seq::empty()) by {
        if puts_of(ws, f).len() > 0 {
            lemma_puts_of(ws, f, puts_of(ws, f)[0]);
        }
    }
    assert(settled_rows(t, ws, f) =~= rows);
}

proof fn lemma_no_drop_len(ws: Seq<WriteView>, f: int)
    requires
        forall|i: int|
            0 <= i < ws.len() ==> match #[trigger] ws[i] {
                WriteView::Put(g, r) => g != f,
                WriteView::Drop(g, r) => g != f,
            },
    ensures
        drop_len(ws, f) is None,
    decreases ws.len(),
{
    if ws.len() > 0 {
        let less = ws.drop_last();
        assert forall|i: int| 0 <= i < less.len() implies match #[trigger] less[i] {
            WriteView::Put(g, r) => g != f,
            WriteView::Drop(g, r) => g != f,
        } by {
            assert(less[i] == ws[i]);
        }
        assert(ws[ws.len() - 1] == ws.last());
        lemma_no_drop_len(less, f);
    }
}

// ---------------------------------------------------------------------------
// Retractions
// ---------------------------------------------------------------------------

/// The keys to retract from one function.
struct Drops {
    len: usize,
    keys: RowSet,
}

/// Whether `d` holds the keys that the writes retract from function `f`.
spec fn drops_are(d: Option<Drops>, ws: Seq<WriteView>, f: int) -> bool {
    match d {
        None => drop_len(ws, f) is None,
        Some(x) => {
            &&& drop_len(ws, f) == Some(x.len as nat)
            &&& forall|k: Seq<u32>| #[trigger]
                x.keys@.contains(k) <==> exists|i: int|
                    0 <= i < ws.len() && ((#[trigger] ws[i]) matches WriteView::Drop(g, key) && g
                        == f && key == k)
        },
    }
}

proof fn lemma_drop_step(ws: Seq<WriteView>, n: int, f: int, k: Seq<u32>)
    requires
        0 <= n < ws.len(),
    ensures
        (exists|i: int|
            0 <= i < n + 1 && ((#[trigger] ws.take(n + 1)[i]) matches WriteView::Drop(g, key) && g
                == f && key == k)) <==> (exists|i: int|
            0 <= i < n && ((#[trigger] ws.take(n)[i]) matches WriteView::Drop(g, key) && g == f
                && key == k)) || (ws[n] matches WriteView::Drop(g, key) && g == f && key == k),
{
    let a = ws.take(n);
    let b = ws.take(n + 1);
    assert(b[n] == ws[n]);
    if exists|i: int|
        0 <= i < n && ((#[trigger] a[i]) matches WriteView::Drop(g, key) && g == f && key == k) {
        let i = choose|i: int|
            0 <= i < n && ((#[trigger] a[i]) matches WriteView::Drop(g, key) && g == f && key == k);
        assert(b[i] == a[i]);
    }
    if exists|i: int|
        0 <= i < n + 1 && ((#[trigger] b[i]) matches WriteView::Drop(g, key) && g == f && key
            == k) {
        let i = choose|i: int|
            0 <= i < n + 1 && ((#[trigger] b[i]) matches WriteView::Drop(g, key) && g == f && key
                == k);
        if i < n {
            assert(a[i] == b[i]);
        }
    }
}

/// The keys to retract from each function.
fn collect_drops(eg: &EGraph, writes: &Vec<Write>) -> (drops: Vec<Option<Drops>>)
    requires
        writes_fit(eg@, write_views(writes@)),
    ensures
        drops@.len() == eg@.tables.len(),
        forall|f: int|
            0 <= f < drops@.len() ==> drops_are(#[trigger] drops@[f], write_views(writes@), f),
{
    let n: usize = eg.table_count();
    let ghost ws = write_views(writes@);
    let mut drops: Vec<Option<Drops>> = Vec::with_capacity(n);
    for k in 0..n
        invariant
            drops@.len() == k,
            forall|f: int| 0 <= f < k ==> (#[trigger] drops@[f]) is None,
    {
        drops.push(None);
    }
    assert(ws.take(0) =~= Seq::empty());
    for j in 0..writes.len()
        invariant
            n == eg@.tables.len(),
            ws == write_views(writes@),
            writes_fit(eg@, ws),
            drops@.len() == n,
            forall|f: int|
                0 <= f < n ==> drops_are(#[trigger] drops@[f], ws.take(j as int), f),
    {
        let ghost before = drops@;
        let ghost upto = ws.take(j + 1);
        proof {
            assert(upto.drop_last() =~= ws.take(j as int));
            assert(upto.last() == ws[j as int]);
            assert(ws[j as int] == writes@[j as int].view());
            assert(write_fits(eg@, ws[j as int]));
        }
        if let Write::Drop(f, key) = &writes[j] {
            let i: usize = f.rep as usize;
            if drops[i].is_none() {
                drops[i] = Some(Drops { len: key.len(), keys: RowSet::new() });
            }
            let ghost mid = drops@[i as int];
            if let Some(d) = &mut drops[i] {
                d.keys.insert(clone_row(key));
            }
        }
        proof {
            assert forall|f: int| 0 <= f < n implies drops_are(
                #[trigger] drops@[f],
                upto,
                f,
            ) by {
                assert(drops_are(before[f], ws.take(j as int), f));
                if drops@[f] is Some {
                    let x = drops@[f]->0;
                    assert forall|k: Seq<u32>| #[trigger] x.keys@.contains(k) <==> exists|i: int|
                        0 <= i < upto.len() && ((#[trigger] upto[i]) matches WriteView::Drop(
                            g,
                            key,
                        ) && g == f && key == k) by {
                        lemma_drop_step(ws, j as int, f, k);
                        if before[f] is None {
                            lemma_no_drop(ws.take(j as int), f, k);
                        }
                    }
                }
            }
        }
    }
    assert(ws.take(writes@.len() as int) =~= ws);
    drops
}

proof fn lemma_no_drop(ws: Seq<WriteView>, f: int, k: Seq<u32>)
    requires
        drop_len(ws, f) is None,
    ensures
        !(exists|i: int|
            0 <= i < ws.len() && ((#[trigger] ws[i]) matches WriteView::Drop(g, key) && g == f
                && key == k)),
    decreases ws.len(),
{
    if ws.len() > 0 {
        let less = ws.drop_last();
        lemma_no_drop(less, f, k);
        if exists|i: int|
            0 <= i < ws.len() && ((#[trigger] ws[i]) matches WriteView::Drop(g, key) && g == f
                && key == k) {
            let i = choose|i: int|
                0 <= i < ws.len() && ((#[trigger] ws[i]) matches WriteView::Drop(g, key) && g == f
                    && key == k);
            if i < less.len() {
                assert(less[i] == ws[i]);
            } else {
                assert(ws[i] == ws.last());
            }
        }
    }
}

/// Retracts rows of one function.
fn drop_rows(eg: &mut EGraph, f: usize, d: &Drops, Ghost(ws): Ghost<Seq<WriteView>>) -> (changed: bool)
    requires
        old(eg).wf(),
        f < old(eg)@.tables.len(),
        drops_are(Some(*d), ws, f as int),
        d.len <= old(eg)@.tables[f as int].info.arity,
    ensures
        final(eg).wf(),
        final(eg).runs() == old(eg).runs(),
        final(eg)@ == old(eg)@.with_rows(
            f as int,
            after_drops(old(eg)@.tables[f as int].rows, ws, f as int),
        ),
        changed == (final(eg)@.tables[f as int].rows != old(eg)@.tables[f as int].rows),
{
    let ghost s0 = eg@;
    let ghost rows0 = s0.tables[f as int].rows;
    let rows = eg.table(f).rows();
    let ghost rv = row_views(rows@);
    let n: usize = d.len;
    proof {
        eg.lemma_wf();
        assert(table_ok(s0.tables[f as int]));
        assert forall|k: int| 0 <= k < rows@.len() implies (#[trigger] rows@[k])@.len()
            == s0.tables[f as int].info.arity && rows0.contains(rows@[k]@) by {
            assert(rv[k] == rows@[k]@);
            assert(rv.to_set().contains(rv[k]));
        }
        assert(s0 =~= s0.with_rows(f as int, rows0));
    }
    let mut changed = false;
    for j in 0..rows.len()
        invariant
            s0 == old(eg)@,
            rows0 == s0.tables[f as int].rows,
            f < s0.tables.len(),
            n == d.len,
            n <= s0.tables[f as int].info.arity,
            drops_are(Some(*d), ws, f as int),
            rv == row_views(rows@),
            forall|k: int|
                0 <= k < rows@.len() ==> (#[trigger] rows@[k])@.len()
                    == s0.tables[f as int].info.arity && rows0.contains(rows@[k]@),
            eg.wf(),
            eg.runs() == old(eg).runs(),
            eg@ == s0.with_rows(f as int, eg@.tables[f as int].rows),
            forall|r: Seq<u32>| #[trigger]
                eg@.tables[f as int].rows.contains(r) <==> rows0.contains(r) && !(rv.take(
                    j as int,
                ).contains(r) && is_dropped(ws, f as int, r)),
            changed == (eg@.tables[f as int].rows != rows0),
    {
        let row = &rows[j];
        let key = clone_prefix(row, n);
        let ghost before = eg@.tables[f as int].rows;
        assert(rv[j as int] == row@);
        assert(rv.take(j + 1) =~= rv.take(j as int).push(row@));
        proof {
            lemma_push_contains(rv.take(j as int), row@);
        }
        let hit = d.keys.contains(&key);
        assert(hit == is_dropped(ws, f as int, row@));
        if hit {
            eg.remove_row(f, row);
            changed = true;
            assert(!eg@.tables[f as int].rows.contains(row@));
            assert(rows0.contains(row@));
            assert(eg@ =~= s0.with_rows(f as int, eg@.tables[f as int].rows));
        }
    }
    proof {
        assert(rv.take(rows@.len() as int) =~= rv);
        assert(eg@.tables[f as int].rows =~= after_drops(rows0, ws, f as int)) by {
            assert forall|r: Seq<u32>| eg@.tables[f as int].rows.contains(r) <==> after_drops(
                rows0,
                ws,
                f as int,
            ).contains(r) by {
                if rows0.contains(r) {
                    assert(rv.to_set().contains(r));
                }
            }
        }
    }
    changed
}

/// The tables of which the first `n` had their rows retracted.
spec fn dropped_upto(s: EgState, ws: Seq<WriteView>, n: int) -> EgState {
    EgState {
        tables: Seq::new(
            s.tables.len(),
            |f: int|
                if f < n {
                    TableState { rows: after_drops(s.tables[f].rows, ws, f), ..s.tables[f] }
                } else {
                    s.tables[f]
                },
        ),
        ..s
    }
}

fn apply_drops(eg: &mut EGraph, writes: &Vec<Write>) -> (changed: bool)
    requires
        old(eg).wf(),
        writes_fit(old(eg)@, write_views(writes@)),
    ensures
        final(eg).wf(),
        final(eg).runs() == old(eg).runs(),
        final(eg)@ == dropped_upto(
            old(eg)@,
            write_views(writes@),
            old(eg)@.tables.len() as int,
        ),
        changed <==> exists|f: int|
            0 <= f < old(eg)@.tables.len() && after_drops(
                (#[trigger] old(eg)@.tables[f]).rows,
                write_views(writes@),
                f,
            ) != old(eg)@.tables[f].rows,
{
    let ghost ws = write_views(writes@);
    let ghost s0 = eg@;
    let drops = collect_drops(eg, writes);
    let n: usize = eg.table_count();
    let mut changed = false;
    assert(eg@ =~= dropped_upto(s0, ws, 0));
    for f in 0..n
        invariant
            s0 == old(eg)@,
            n == s0.tables.len(),
            ws == write_views(writes@),
            writes_fit(s0, ws),
            drops@.len() == n,
            forall|f: int| 0 <= f < n ==> drops_are(#[trigger] drops@[f], ws, f),
            eg.wf(),
            eg.runs() == old(eg).runs(),
            eg@ == dropped_upto(s0, ws, f as int),
            changed <==> exists|g: int|
                0 <= g < f && after_drops((#[trigger] s0.tables[g]).rows, ws, g)
                    != s0.tables[g].rows,
    {
        let ghost before = changed;
        assert(drops_are(drops@[f as int], ws, f as int));
        match &drops[f] {
            Some(d) => {
                proof {
                    lemma_drop_len_fits(s0, ws, f as int);
                }
                let c = drop_rows(eg, f, d, Ghost(ws));
                if c {
                    changed = true;
                }
            },
            None => {
                assert(after_drops(s0.tables[f as int].rows, ws, f as int)
                    =~= s0.tables[f as int].rows);
            },
        }
        proof {
            assert(eg@ =~= dropped_upto(s0, ws, f + 1));
            if before {
                let g = choose|g: int|
                    0 <= g < f && after_drops((#[trigger] s0.tables[g]).rows, ws, g)
                        != s0.tables[g].rows;
                assert(after_drops(s0.tables[g].rows, ws, g) != s0.tables[g].rows);
            }
        }
    }
    changed
}

proof fn lemma_drop_len_fits(s: EgState, ws: Seq<WriteView>, f: int)
    requires
        writes_fit(s, ws),
        0 <= f < s.tables.len(),
    ensures
        drop_len(ws, f) matches Some(n) ==> n <= s.tables[f].info.arity,
    decreases ws.len(),
{
    if ws.len() > 0 {
        let less = ws.drop_last();
        assert forall|i: int| 0 <= i < less.len() implies write_fits(s, #[trigger] less[i]) by {
            assert(less[i] == ws[i]);
        }
        assert(write_fits(s, ws[ws.len() - 1]));
        lemma_drop_len_fits(s, less, f);
    }
}

// ---------------------------------------------------------------------------
// New rows
// ---------------------------------------------------------------------------

proof fn lemma_put_step(ws: Seq<WriteView>, n: int, f: int, r: Seq<u32>)
    requires
        0 <= n < ws.len(),
    ensures
        is_put(ws.take(n + 1), f, r) <==> is_put(ws.take(n), f, r) || (ws[n] matches WriteView::Put(
            g,
            row,
        ) && g == f && row == r),
{
    let a = ws.take(n);
    let b = ws.take(n + 1);
    assert(b[n] == ws[n]);
    if is_put(a, f, r) {
        let i = choose|i: int|
            0 <= i < a.len() && ((#[trigger] a[i]) matches WriteView::Put(g, row) && g == f && row
                == r);
        assert(b[i] == a[i]);
    }
    if is_put(b, f, r) {
        let i = choose|i: int|
            0 <= i < b.len() && ((#[trigger] b[i]) matches WriteView::Put(g, row) && g == f && row
                == r);
        if i < n {
            assert(a[i] == b[i]);
        }
    }
}

/// The rows that are written to each function, in order.
fn group_puts(eg: &EGraph, writes: &Vec<Write>) -> (r: Vec<Vec<Row>>)
    requires
        eg.wf(),
        writes_fit(eg@, write_views(writes@)),
    ensures
        r@.len() == eg@.tables.len(),
        forall|f: int|
            0 <= f < r@.len() ==> row_views((#[trigger] r@[f])@) == puts_of(
                write_views(writes@),
                f,
            ),
        forall|f: int|
            0 <= f < r@.len() ==> puts_fit(
                row_views((#[trigger] r@[f])@),
                eg@.tables[f].info.arity,
            ),
{
    let n: usize = eg.table_count();
    let ghost ws = write_views(writes@);
    let ghost s = eg@;
    let mut puts: Vec<Vec<Row>> = Vec::with_capacity(n);
    for k in 0..n
        invariant
            puts@.len() == k,
            forall|f: int| 0 <= f < k ==> (#[trigger] puts@[f])@ == Seq::<Row>::empty(),
    {
        puts.push(Vec::new());
    }
    proof {
        assert forall|f: int| 0 <= f < n implies row_views((#[trigger] puts@[f])@) == puts_of(
            ws.take(0),
            f,
        ) by {
            assert(row_views(puts@[f]@) =~= Seq::empty());
        }
    }
    for j in 0..writes.len()
        invariant
            n == s.tables.len(),
            ws == write_views(writes@),
            writes_fit(s, ws),
            puts@.len() == n,
            forall|f: int|
                0 <= f < n ==> row_views((#[trigger] puts@[f])@) == puts_of(ws.take(j as int), f),
            forall|f: int|
                0 <= f < n ==> puts_fit(row_views((#[trigger] puts@[f])@), s.tables[f].info.arity),
    {
        let ghost before = puts@;
        let ghost less = ws.take(j as int);
        let ghost upto = ws.take(j + 1);
        proof {
            assert(ws[j as int] == writes@[j as int].view());
            assert(write_fits(s, ws[j as int]));
            assert(upto.drop_last() =~= less);
            assert(upto.last() == ws[j as int]);
        }
        if let Write::Put(f, row) = &writes[j] {
            let i: usize = f.rep as usize;
            let ghost g = i as int;
            let copy = clone_row(row);
            puts[i].push(copy);
            assert(row_views(puts@[g]@) =~= row_views(before[g]@).push(row@));
        }
        proof {
            assert forall|f: int| 0 <= f < n implies row_views((#[trigger] puts@[f])@) == puts_of(
                upto,
                f,
            ) && puts_fit(row_views(puts@[f]@), s.tables[f].info.arity) by {
                assert(row_views(before[f]@) == puts_of(less, f));
                assert(puts_fit(row_views(before[f]@), s.tables[f].info.arity));
            }
        }
    }
    assert(ws.take(writes@.len() as int) =~= ws);
    puts
}

// ---------------------------------------------------------------------------
// Merges
// ---------------------------------------------------------------------------

/// The rows of a table once rows have been written to it.
spec fn merged_table(t: TableState, ws: Seq<WriteView>, f: int) -> Set<Seq<u32>> {
    merged(t.rows, puts_of(ws, f), t.info.arity, t.info.merge)
}

spec fn merged_upto(s: EgState, ws: Seq<WriteView>, n: int) -> EgState {
    EgState {
        tables: Seq::new(
            s.tables.len(),
            |f: int|
                if f < n {
                    TableState { rows: merged_table(s.tables[f], ws, f), ..s.tables[f] }
                } else {
                    s.tables[f]
                },
        ),
        ..s
    }
}

/// Whether the rows written to a table change it.
spec fn puts_change(t: TableState, ws: Seq<WriteView>, f: int) -> bool {
    merge_changes(t.rows, puts_of(ws, f), t.info.arity, t.info.merge)
}

fn apply_puts(eg: &mut EGraph, writes: &Vec<Write>) -> (changed: bool)
    requires
        old(eg).wf(),
        writes_fit(old(eg)@, write_views(writes@)),
    ensures
        final(eg).wf(),
        final(eg).runs() == old(eg).runs(),
        final(eg)@ == merged_upto(
            old(eg)@,
            write_views(writes@),
            old(eg)@.tables.len() as int,
        ),
        changed <==> exists|f: int|
            0 <= f < old(eg)@.tables.len() && puts_change(
                #[trigger] old(eg)@.tables[f],
                write_views(writes@),
                f,
            ),
{
    let ghost s0 = eg@;
    let ghost ws = write_views(writes@);
    let puts = group_puts(eg, writes);
    let n: usize = eg.table_count();
    let mut changed = false;
    assert(eg@ =~= merged_upto(s0, ws, 0));
    for f in 0..n
        invariant
            s0 == old(eg)@,
            n == s0.tables.len(),
            puts@.len() == n,
            forall|f: int| 0 <= f < n ==> row_views((#[trigger] puts@[f])@) == puts_of(ws, f),
            forall|f: int|
                0 <= f < n ==> puts_fit(row_views((#[trigger] puts@[f])@), s0.tables[f].info.arity),
            eg.wf(),
            eg.runs() == old(eg).runs(),
            eg@ == merged_upto(s0, ws, f as int),
            changed <==> exists|g: int|
                0 <= g < f && puts_change(#[trigger] s0.tables[g], ws, g),
    {
        let ghost before = changed;
        assert(eg@.tables[f as int] == s0.tables[f as int]);
        assert(row_views(puts@[f as int]@) == puts_of(ws, f as int));
        let c = eg.resolve_merge(f, &puts[f]);
        if c {
            changed = true;
            assert(puts_change(s0.tables[f as int], ws, f as int));
        }
        proof {
            assert(eg@ =~= merged_upto(s0, ws, f + 1));
            if before {
                let g = choose|g: int| 0 <= g < f && puts_change(#[trigger] s0.tables[g], ws, g);
                assert(puts_change(s0.tables[g], ws, g));
            }
        }
    }
    changed
}

/// Applies a round's writes, and says whether they changed a table.
pub fn settle(eg: &mut EGraph, writes: &Vec<Write>) -> (changed: bool)
    requires
        old(eg).wf(),
        writes_fit(old(eg)@, write_views(writes@)),
    ensures
        final(eg).wf(),
        final(eg).runs() == old(eg).runs(),
        final(eg)@ == settled(old(eg)@, write_views(writes@)),
        changed == some_table_changes(old(eg)@, write_views(writes@)),
{
    let ghost ws = write_views(writes@);
    let ghost s0 = eg@;
    let a = apply_drops(eg, writes);
    let ghost s1 = eg@;
    proof {
        assert forall|i: int| 0 <= i < ws.len() implies write_fits(s1, #[trigger] ws[i]) by {
            assert(write_fits(s0, ws[i]));
        }
    }
    let b = apply_puts(eg, writes);
    proof {
        assert forall|f: int| 0 <= f < s0.tables.len() implies eg@.tables[f] == #[trigger] settled(
            s0,
            ws,
        ).tables[f] by {
            assert(s1.tables[f].rows == after_drops(s0.tables[f].rows, ws, f));
        }
        assert(eg@.tables =~= settled(s0, ws).tables);
        assert(eg@ =~= settled(s0, ws));
        if a {
            let f = choose|f: int|
                0 <= f < s0.tables.len() && after_drops((#[trigger] s0.tables[f]).rows, ws, f)
                    != s0.tables[f].rows;
            assert(table_changes(s0.tables[f], ws, f));
        }
        if b {
            let f = choose|f: int|
                0 <= f < s1.tables.len() && puts_change(#[trigger] s1.tables[f], ws, f);
            assert(table_changes(s0.tables[f], ws, f));
        }
        if some_table_changes(s0, ws) {
            let f = choose|f: int|
                0 <= f < s0.tables.len() && #[trigger] table_changes(s0.tables[f], ws, f);
            assert(s1.tables[f].rows == after_drops(s0.tables[f].rows, ws, f));
            if after_drops(s0.tables[f].rows, ws, f) != s0.tables[f].rows {
                assert(a);
            } else {
                assert(puts_change(s1.tables[f], ws, f));
                assert(b);
            }
        }
    }
    a || b
}

} // verus!
