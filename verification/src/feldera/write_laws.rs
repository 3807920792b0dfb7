//! What a round's writes leave in the tables.
use crate::backend::{BaseValueId, ColumnTy, DefaultVal, FunctionConfig};
use crate::feldera::compile::MergeMode;
use crate::feldera::egraph::{info_of, EgState};
use crate::feldera::head::WriteView;
use crate::feldera::settle::{
    drop_len, is_dropped, is_put, lemma_puts_of, puts_of, settled, settled_rows, some_table_changes,
    table_changes,
};
use crate::feldera::table::{first_put, is_written, last_put, merged};
use vstd::prelude::*;

verus! {

// ---------------------------------------------------------------------------
// The merge of rows with one key
// ---------------------------------------------------------------------------

/// Whether two rows have the same key: all columns but the last.
pub open spec fn same_key(a: Seq<u32>, b: Seq<u32>, arity: nat) -> bool {
    a.take(arity - 1) == b.take(arity - 1)
}

/// Where the least output is kept, the row that stays for a written key has an output that no row of
/// the key is below, neither one that was there nor one that was written.
pub proof fn least_output_stays(
    kept: Set<Seq<u32>>,
    puts: Seq<Seq<u32>>,
    arity: nat,
    r: Seq<u32>,
    x: Seq<u32>,
    i: int,
)
    requires
        arity > 0,
        merged(kept, puts, arity, MergeMode::Min).contains(r),
        kept.contains(x) || puts.contains(x),
        same_key(r, x, arity),
        0 <= i < puts.len(),
        same_key(puts[i], r, arity),
    ensures
        r[arity - 1] <= x[arity - 1],
        kept.contains(r) || puts.contains(r),
{
    let n = (arity - 1) as nat;
    assert(puts[i].take(n as int) == r.take(n as int));
    assert(is_written(puts, n, r.take(n as int)));
    assert(kept.union(puts.to_set()).contains(x));
}

proof fn lemma_first(puts: Seq<Seq<u32>>, n: nat, i: int)
    requires
        0 <= i < puts.len(),
        forall|j: int| 0 <= j < i ==> (#[trigger] puts[j]).take(n as int) != puts[i].take(n as int),
    ensures
        first_put(puts, n, puts[i].take(n as int)) == Some(puts[i][n as int]),
    decreases puts.len(),
{
    let less = puts.drop_last();
    let key = puts[i].take(n as int);
    if i < less.len() {
        assert(less[i] == puts[i]);
        assert forall|j: int| 0 <= j < i implies (#[trigger] less[j]).take(n as int) != less[i].take(
            n as int,
        ) by {
            assert(less[j] == puts[j]);
        }
        lemma_first(less, n, i);
    } else {
        lemma_none_first(less, n, key);
        assert(puts.last() == puts[i]);
    }
}

proof fn lemma_none_first(puts: Seq<Seq<u32>>, n: nat, key: Seq<u32>)
    requires
        forall|j: int| 0 <= j < puts.len() ==> (#[trigger] puts[j]).take(n as int) != key,
    ensures
        first_put(puts, n, key) is None,
    decreases puts.len(),
{
    if puts.len() > 0 {
        let less = puts.drop_last();
        assert forall|j: int| 0 <= j < less.len() implies (#[trigger] less[j]).take(n as int)
            != key by {
            assert(less[j] == puts[j]);
        }
        lemma_none_first(less, n, key);
        assert(puts[puts.len() - 1].take(n as int) != key);
    }
}

proof fn lemma_last(puts: Seq<Seq<u32>>, n: nat, i: int)
    requires
        0 <= i < puts.len(),
        forall|j: int|
            i < j < puts.len() ==> (#[trigger] puts[j]).take(n as int) != puts[i].take(n as int),
    ensures
        last_put(puts, n, puts[i].take(n as int)) == Some(puts[i][n as int]),
    decreases puts.len(),
{
    let less = puts.drop_last();
    if i < less.len() {
        assert(less[i] == puts[i]);
        assert forall|j: int| i < j < less.len() implies (#[trigger] less[j]).take(n as int)
            != less[i].take(n as int) by {
            assert(less[j] == puts[j]);
        }
        lemma_last(less, n, i);
        assert(puts[puts.len() - 1].take(n as int) != puts[i].take(n as int));
    }
}

/// Where the old output is kept, the first row that is written for a key stays if there was none.
pub proof fn first_output_stays(kept: Set<Seq<u32>>, puts: Seq<Seq<u32>>, arity: nat, i: int)
    requires
        arity > 0,
        0 <= i < puts.len(),
        forall|x: Seq<u32>| #[trigger] kept.contains(x) ==> !same_key(x, puts[i], arity),
        forall|j: int| 0 <= j < i ==> !same_key(#[trigger] puts[j], puts[i], arity),
    ensures
        merged(kept, puts, arity, MergeMode::Old).contains(puts[i]),
{
    let n = (arity - 1) as nat;
    assert forall|j: int| 0 <= j < i implies (#[trigger] puts[j]).take(n as int) != puts[i].take(
        n as int,
    ) by {
        assert(!same_key(puts[j], puts[i], arity));
    }
    lemma_first(puts, n, i);
    assert(puts.contains(puts[i]));
    assert(!crate::feldera::table::has_key(kept, n, puts[i].take(n as int))) by {
        if crate::feldera::table::has_key(kept, n, puts[i].take(n as int)) {
            let x = choose|x: Seq<u32>| #[trigger]
                kept.contains(x) && x.take(n as int) == puts[i].take(n as int);
            assert(!same_key(x, puts[i], arity));
        }
    }
}

/// Where the new output is taken, the last row that is written for a key stays, whatever was there.
pub proof fn last_output_stays(kept: Set<Seq<u32>>, puts: Seq<Seq<u32>>, arity: nat, i: int)
    requires
        arity > 0,
        0 <= i < puts.len(),
        forall|j: int| i < j < puts.len() ==> !same_key(#[trigger] puts[j], puts[i], arity),
    ensures
        merged(kept, puts, arity, MergeMode::New).contains(puts[i]),
{
    let n = (arity - 1) as nat;
    assert forall|j: int| i < j < puts.len() implies (#[trigger] puts[j]).take(n as int)
        != puts[i].take(n as int) by {
        assert(!same_key(puts[j], puts[i], arity));
    }
    lemma_last(puts, n, i);
    assert(puts.contains(puts[i]));
}

/// A relation has the rows that were there and those that were written.
pub proof fn relations_keep_every_row(
    kept: Set<Seq<u32>>,
    puts: Seq<Seq<u32>>,
    arity: nat,
    r: Seq<u32>,
)
    ensures
        merged(kept, puts, arity, MergeMode::Relation).contains(r) <==> kept.contains(r)
            || puts.contains(r),
{
}

// ---------------------------------------------------------------------------
// A round's writes
// ---------------------------------------------------------------------------

/// Whether all retractions from a function have keys of one length.
pub open spec fn drops_alike(ws: Seq<WriteView>, f: int, n: nat) -> bool {
    forall|i: int|
        0 <= i < ws.len() ==> ((#[trigger] ws[i]) matches WriteView::Drop(g, key) ==> (g == f
            ==> key.len() == n))
}

/// Whether some write retracts a row: it begins with the key.
pub open spec fn is_retracted(ws: Seq<WriteView>, f: int, row: Seq<u32>) -> bool {
    exists|i: int|
        0 <= i < ws.len() && ((#[trigger] ws[i]) matches WriteView::Drop(g, key) && g == f
            && key.is_prefix_of(row))
}

proof fn lemma_drop_len(ws: Seq<WriteView>, f: int, n: nat)
    requires
        drops_alike(ws, f, n),
    ensures
        drop_len(ws, f) matches Some(m) ==> m == n,
        drop_len(ws, f) is None ==> forall|i: int|
            0 <= i < ws.len() ==> ((#[trigger] ws[i]) matches WriteView::Drop(g, key) ==> g != f),
    decreases ws.len(),
{
    if ws.len() > 0 {
        let less = ws.drop_last();
        assert forall|i: int| 0 <= i < less.len() implies ((#[trigger] less[i]) matches WriteView::Drop(
            g,
            key,
        ) ==> (g == f ==> key.len() == n)) by {
            assert(less[i] == ws[i]);
        }
        lemma_drop_len(less, f, n);
        assert(ws[ws.len() - 1] == ws.last());
        if drop_len(ws, f) is None {
            assert forall|i: int| 0 <= i < ws.len() implies ((#[trigger] ws[i]) matches WriteView::Drop(
                g,
                key,
            ) ==> g != f) by {
                if i < less.len() {
                    assert(less[i] == ws[i]);
                }
            }
        }
    }
}

proof fn lemma_dropped(ws: Seq<WriteView>, f: int, n: nat, row: Seq<u32>)
    requires
        drops_alike(ws, f, n),
        n <= row.len(),
    ensures
        is_dropped(ws, f, row) <==> is_retracted(ws, f, row),
{
    lemma_drop_len(ws, f, n);
    if is_dropped(ws, f, row) {
        let i = choose|i: int|
            0 <= i < ws.len() && ((#[trigger] ws[i]) matches WriteView::Drop(g, key) && g == f && key
                == row.take(n as int));
        if let WriteView::Drop(g, key) = ws[i] {
            assert(key =~= row.take(key.len() as int));
            assert(key.is_prefix_of(row));
        }
    }
    if is_retracted(ws, f, row) {
        let i = choose|i: int|
            0 <= i < ws.len() && ((#[trigger] ws[i]) matches WriteView::Drop(g, key) && g == f
                && key.is_prefix_of(row));
        if let WriteView::Drop(g, key) = ws[i] {
            assert(key.len() == n);
            assert(key =~= row.take(n as int));
        }
    }
}

/// A round's writes retract first: of a relation there are the rows that were there and are not
/// retracted, and those that are written, even if they are retracted too. Of a function there are, for
/// the keys that are not written, the rows that were there and are not retracted.
pub proof fn retractions_come_first(s: EgState, ws: Seq<WriteView>, f: int, n: nat, row: Seq<u32>)
    requires
        0 <= f < s.tables.len(),
        drops_alike(ws, f, n),
        n <= row.len(),
    ensures
        s.tables[f].info.merge == MergeMode::Relation ==> (settled(s, ws).tables[f].rows.contains(row)
            <==> (s.tables[f].rows.contains(row) && !is_retracted(ws, f, row)) || is_put(ws, f, row)),
        s.tables[f].info.arity > 0 && (forall|r: Seq<u32>| #[trigger]
            is_put(ws, f, r) ==> !same_key(r, row, s.tables[f].info.arity)) ==> (settled(
            s,
            ws,
        ).tables[f].rows.contains(row) <==> s.tables[f].rows.contains(row) && !is_retracted(
            ws,
            f,
            row,
        )),
{
    let t = s.tables[f];
    lemma_dropped(ws, f, n, row);
    lemma_puts_of(ws, f, row);
    let puts = puts_of(ws, f);
    if t.info.arity > 0 && (forall|r: Seq<u32>| #[trigger]
        is_put(ws, f, r) ==> !same_key(r, row, t.info.arity)) {
        let k = (t.info.arity - 1) as nat;
        assert(!is_written(puts, k, row.take(k as int))) by {
            if is_written(puts, k, row.take(k as int)) {
                let i = choose|i: int|
                    0 <= i < puts.len() && (#[trigger] puts[i]).take(k as int) == row.take(k as int);
                assert(puts.contains(puts[i]));
                lemma_puts_of(ws, f, puts[i]);
                assert(is_put(ws, f, puts[i]));
            }
        }
        if puts.contains(row) {
            assert(is_put(ws, f, row));
        }
    }
    assert(settled(s, ws).tables[f].rows == settled_rows(t, ws, f));
}

/// A round that reports no change leaves every table as it was; and a row of a relation that is new
/// is a change.
pub proof fn changes_are_reported(s: EgState, ws: Seq<WriteView>, f: int, row: Seq<u32>)
    requires
        0 <= f < s.tables.len(),
    ensures
        !some_table_changes(s, ws) ==> settled(s, ws).tables[f].rows == s.tables[f].rows,
        is_put(ws, f, row) && !s.tables[f].rows.contains(row) ==> some_table_changes(s, ws),
        s.tables[f].rows.contains(row) && is_dropped(ws, f, row) ==> some_table_changes(s, ws),
{
    let t = s.tables[f];
    let puts = puts_of(ws, f);
    let kept = crate::feldera::settle::after_drops(t.rows, ws, f);
    lemma_puts_of(ws, f, row);
    if !some_table_changes(s, ws) {
        assert(!table_changes(t, ws, f));
        assert(settled(s, ws).tables[f].rows == merged(kept, puts, t.info.arity, t.info.merge));
    }
    if is_put(ws, f, row) && !t.rows.contains(row) {
        let grown = kept.union(puts.to_set());
        assert(grown.contains(row) && !kept.contains(row));
        assert(table_changes(t, ws, f));
    }
    if t.rows.contains(row) && is_dropped(ws, f, row) {
        assert(!kept.contains(row));
        assert(table_changes(t, ws, f));
    }
}

// ---------------------------------------------------------------------------
// Registered functions
// ---------------------------------------------------------------------------

/// A function has an output unless it has no columns or its last one is of the unit type, and is a
/// relation otherwise. One that is declared to keep the old output does, and so does one that is to
/// take the new output; where outputs are united, or merged by a primitive, the least stays. One whose
/// default is the key itself answers so for a key that is missing.
pub proof fn functions_merge_as_declared(config: FunctionConfig, unit: Option<BaseValueId>)
    ensures
        ({
            let info = info_of(config, unit);
            let n = config.schema@.len() as int;
            let relation = n == 0 || (config.schema@[n - 1] matches ColumnTy::Base(b) && unit == Some(
                b,
            ));
            &&& info.arity == n && info.schema == config.schema@ && info.name == config.name@
            &&& info.has_output <==> !relation
            &&& relation ==> info.merge == MergeMode::Relation
            &&& !relation && config.merge is Old ==> info.merge == MergeMode::Old
            &&& !relation && config.merge is New ==> info.merge == MergeMode::New
            &&& !relation && (config.merge is UnionId || config.merge is UnionIntoUf
                || config.merge is Primitive) ==> info.merge == MergeMode::Min
            &&& !relation && config.merge is AssertEq ==> info.merge == MergeMode::Old
            &&& info.identity_on_miss <==> config.default == DefaultVal::Identity
        }),
{
}

} // verus!
