//! One table of the e-graph: its rows, its merge mode and what the union-find
//! path keeps beside them.
use crate::backend::ColumnTy;
use crate::collections::{row_views, KeyMap, RowSet};
use crate::feldera::compile::{MergeMode, Row};
use crate::feldera::expr::lemma_push_contains;
use crate::feldera::rebuild::clone_row;
use crate::feldera::rev_index::RevIndex;
use crate::feldera::uf::UfTable;
use std::rc::Rc;
use vstd::prelude::*;

verus! {

/// What is known of a registered function.
#[derive(Debug)]
pub struct RelationInfo {
    pub name: String,
    /// The number of columns, the output column included.
    pub arity: usize,
    pub schema: Vec<ColumnTy>,
    /// Whether the last column is an output.
    pub has_output: bool,
    pub merge: MergeMode,
    /// Whether a lookup on an absent key answers the key itself.
    pub identity_on_miss: bool,
}

/// What is known of a registered function, as a value.
#[verifier::ext_equal]
pub struct InfoState {
    pub name: Seq<char>,
    pub arity: nat,
    pub schema: Seq<ColumnTy>,
    pub has_output: bool,
    pub merge: MergeMode,
    pub identity_on_miss: bool,
}

impl RelationInfo {
    pub open spec fn state(&self) -> InfoState {
        InfoState {
            name: self.name@,
            arity: self.arity as nat,
            schema: self.schema@,
            has_output: self.has_output,
            merge: self.merge,
            identity_on_miss: self.identity_on_miss,
        }
    }
}

/// A union-find, as a value.
#[verifier::ext_equal]
pub struct UfState {
    pub find: spec_fn(i64) -> i64,
    pub pending: Seq<(i64, i64)>,
}

/// A table, as a value.
#[verifier::ext_equal]
pub struct TableState {
    pub info: InfoState,
    pub rows: Set<Seq<u32>>,
    /// The union-find that stands in for the rows of a union-find function.
    pub uf: Option<UfState>,
    /// The columns a rebuild canonicalizes, once they are known.
    pub view_cols: Option<Seq<usize>>,
    /// The ids that lost their leader and were not rebuilt on yet.
    pub displaced: Set<i64>,
}

/// Whether one of the columns `cols` of a row holds `v`.
pub open spec fn holds_in(cols: Seq<usize>, row: Seq<u32>, v: u32) -> bool {
    exists|i: int| 0 <= i < cols.len() && (#[trigger] cols[i]) < row.len() && row[cols[i] as int] == v
}

/// The reverse index of a view.
#[derive(Debug)]
pub struct ViewIndex {
    pub cols: Vec<usize>,
    pub rev: RevIndex,
}

/// A table.
#[derive(Debug)]
pub struct Table {
    info: RelationInfo,
    rows: Rc<RowSet>,
    uf: Option<UfTable>,
    view: Option<ViewIndex>,
    displaced: Vec<i64>,
}

/// Whether one of the rows has the key `key`, its first `n` columns.
pub open spec fn has_key(rows: Set<Seq<u32>>, n: nat, key: Seq<u32>) -> bool {
    exists|r: Seq<u32>| #[trigger] rows.contains(r) && r.take(n as int) == key
}

/// Whether one of the written rows has the key `key`.
pub open spec fn is_written(puts: Seq<Seq<u32>>, n: nat, key: Seq<u32>) -> bool {
    exists|i: int| 0 <= i < puts.len() && (#[trigger] puts[i]).take(n as int) == key
}

/// Whether `out` is the smallest output of the rows with the key `key`.
pub open spec fn is_least(rows: Set<Seq<u32>>, n: nat, key: Seq<u32>, out: u32) -> bool {
    &&& exists|r: Seq<u32>| #[trigger]
        rows.contains(r) && r.take(n as int) == key && r[n as int] == out
    &&& forall|r: Seq<u32>| #[trigger]
        rows.contains(r) && r.take(n as int) == key ==> out <= r[n as int]
}

/// The output of the first row that was written for the key `key`.
pub open spec fn first_put(puts: Seq<Seq<u32>>, n: nat, key: Seq<u32>) -> Option<u32>
    decreases puts.len(),
{
    if puts.len() == 0 {
        None
    } else {
        match first_put(puts.drop_last(), n, key) {
            Some(out) => Some(out),
            None => if puts.last().take(n as int) == key {
                Some(puts.last()[n as int])
            } else {
                None
            },
        }
    }
}

/// The output of the last row that was written for the key `key`.
pub open spec fn last_put(puts: Seq<Seq<u32>>, n: nat, key: Seq<u32>) -> Option<u32>
    decreases puts.len(),
{
    if puts.len() == 0 {
        None
    } else if puts.last().take(n as int) == key {
        Some(puts.last()[n as int])
    } else {
        last_put(puts.drop_last(), n, key)
    }
}

/// Whether a written key gets the output `out`. Under [`MergeMode::Old`] the output
/// that was there stays, and the first one written is taken where there was none;
/// where several rows of the key were loaded side by side, the smallest output is
/// the one that was there. Under [`MergeMode::New`] the last one written is taken,
/// and under [`MergeMode::Min`] the smallest of all.
pub open spec fn gets(
    kept: Set<Seq<u32>>,
    puts: Seq<Seq<u32>>,
    n: nat,
    mode: MergeMode,
    key: Seq<u32>,
    out: u32,
) -> bool {
    match mode {
        MergeMode::New => last_put(puts, n, key) == Some(out),
        MergeMode::Old => if has_key(kept, n, key) {
            is_least(kept, n, key, out)
        } else {
            first_put(puts, n, key) == Some(out)
        },
        _ => is_least(kept.union(puts.to_set()), n, key, out),
    }
}

/// Whether a row has the output that its key gets.
pub open spec fn wins(
    kept: Set<Seq<u32>>,
    puts: Seq<Seq<u32>>,
    n: nat,
    mode: MergeMode,
    row: Seq<u32>,
) -> bool {
    gets(kept, puts, n, mode, row.take(n as int), row[n as int])
}

/// The rows of a table that held `kept` when the rows `puts` have been written to
/// it, one after the other. Of the rows that share a written key only one stays.
/// A relation has no output, and keeps them all.
pub open spec fn merged(
    kept: Set<Seq<u32>>,
    puts: Seq<Seq<u32>>,
    arity: nat,
    mode: MergeMode,
) -> Set<Seq<u32>> {
    let grown = kept.union(puts.to_set());
    if mode == MergeMode::Relation || arity == 0 {
        grown
    } else {
        let n = (arity - 1) as nat;
        grown.filter(
            |r: Seq<u32>| is_written(puts, n, r.take(n as int)) ==> wins(kept, puts, n, mode, r),
        )
    }
}

/// Whether writing rows to a table that holds `kept` changes it: a row is new, or a
/// row is dropped.
pub open spec fn merge_changes(
    kept: Set<Seq<u32>>,
    puts: Seq<Seq<u32>>,
    arity: nat,
    mode: MergeMode,
) -> bool {
    let grown = kept.union(puts.to_set());
    grown != kept || merged(kept, puts, arity, mode) != grown
}

/// Whether all rows have `arity` columns.
pub open spec fn rows_fit(rows: Set<Seq<u32>>, arity: nat) -> bool {
    forall|r: Seq<u32>| #[trigger] rows.contains(r) ==> r.len() == arity
}

/// Whether all written rows have `arity` columns.
pub open spec fn puts_fit(puts: Seq<Seq<u32>>, arity: nat) -> bool {
    forall|i: int| 0 <= i < puts.len() ==> (#[trigger] puts[i]).len() == arity
}

proof fn lemma_put_found(puts: Seq<Seq<u32>>, n: nat, key: Seq<u32>)
    ensures
        first_put(puts, n, key) is Some <==> is_written(puts, n, key),
        last_put(puts, n, key) is Some <==> is_written(puts, n, key),
        first_put(puts, n, key) matches Some(out) ==> exists|i: int|
            0 <= i < puts.len() && (#[trigger] puts[i]).take(n as int) == key && puts[i][n as int]
                == out,
        last_put(puts, n, key) matches Some(out) ==> exists|i: int|
            0 <= i < puts.len() && (#[trigger] puts[i]).take(n as int) == key && puts[i][n as int]
                == out,
    decreases puts.len(),
{
    if puts.len() > 0 {
        let less = puts.drop_last();
        let last = puts.len() - 1;
        lemma_put_found(less, n, key);
        assert forall|i: int| 0 <= i < less.len() implies #[trigger] less[i] == puts[i] by {}
        if is_written(less, n, key) {
            let i = choose|i: int| 0 <= i < less.len() && (#[trigger] less[i]).take(n as int) == key;
            assert(puts[i].take(n as int) == key);
        }
        if is_written(puts, n, key) {
            let i = choose|i: int| 0 <= i < puts.len() && (#[trigger] puts[i]).take(n as int) == key;
            if i < last {
                assert(less[i].take(n as int) == key);
            }
        }
        match first_put(less, n, key) {
            Some(out) => {
                let i = choose|i: int|
                    0 <= i < less.len() && (#[trigger] less[i]).take(n as int) == key
                        && less[i][n as int] == out;
                assert(puts[i].take(n as int) == key);
            },
            None => {},
        }
        match last_put(less, n, key) {
            Some(out) => {
                let i = choose|i: int|
                    0 <= i < less.len() && (#[trigger] less[i]).take(n as int) == key
                        && less[i][n as int] == out;
                assert(puts[i].take(n as int) == key);
            },
            None => {},
        }
        assert(puts[last] == puts.last());
    }
}

proof fn lemma_written_row(puts: Seq<Seq<u32>>, n: nat, key: Seq<u32>)
    requires
        is_written(puts, n, key),
    ensures
        has_key(puts.to_set(), n, key),
{
    let i = choose|i: int| 0 <= i < puts.len() && (#[trigger] puts[i]).take(n as int) == key;
    assert(puts.contains(puts[i]));
    assert(puts.to_set().contains(puts[i]));
}

proof fn lemma_same_row(r1: Seq<u32>, r2: Seq<u32>, n: nat)
    requires
        r1.len() == n + 1,
        r2.len() == n + 1,
        r1.take(n as int) == r2.take(n as int),
        r1[n as int] == r2[n as int],
    ensures
        r1 == r2,
{
    assert forall|i: int| 0 <= i < n + 1 implies r1[i] == r2[i] by {
        if i < n {
            assert(r1.take(n as int)[i] == r1[i]);
            assert(r2.take(n as int)[i] == r2[i]);
        }
    }
    assert(r1 =~= r2);
}

/// After a merge no two rows share a written key.
pub proof fn merged_is_functional(
    kept: Set<Seq<u32>>,
    puts: Seq<Seq<u32>>,
    arity: nat,
    mode: MergeMode,
    r1: Seq<u32>,
    r2: Seq<u32>,
)
    requires
        rows_fit(kept, arity),
        puts_fit(puts, arity),
        arity > 0,
        mode != MergeMode::Relation,
        merged(kept, puts, arity, mode).contains(r1),
        merged(kept, puts, arity, mode).contains(r2),
        r1.take(arity - 1) == r2.take(arity - 1),
        is_written(puts, (arity - 1) as nat, r1.take(arity - 1)),
    ensures
        r1 == r2,
{
    lemma_same_row(r1, r2, (arity - 1) as nat);
}

/// A merge adds only what was written, and keeps every row whose key was not.
pub proof fn merged_keeps_untouched(
    kept: Set<Seq<u32>>,
    puts: Seq<Seq<u32>>,
    arity: nat,
    mode: MergeMode,
    r: Seq<u32>,
)
    requires
        arity > 0,
    ensures
        merged(kept, puts, arity, mode).contains(r) ==> kept.contains(r) || puts.contains(r),
        !is_written(puts, (arity - 1) as nat, r.take(arity - 1)) ==> (merged(
            kept,
            puts,
            arity,
            mode,
        ).contains(r) <==> kept.contains(r)),
{
    if puts.contains(r) {
        let i = choose|i: int| 0 <= i < puts.len() && puts[i] == r;
        assert(puts[i].take(arity - 1) == r.take(arity - 1));
    }
}

proof fn lemma_least_exists(rows: Set<Seq<u32>>, n: nat, key: Seq<u32>)
    requires
        rows.finite(),
        has_key(rows, n, key),
    ensures
        exists|out: u32| is_least(rows, n, key, out),
    decreases rows.len(),
{
    let r = choose|r: Seq<u32>| #[trigger] rows.contains(r) && r.take(n as int) == key;
    let rest = rows.remove(r);
    if has_key(rest, n, key) {
        lemma_least_exists(rest, n, key);
        let out = choose|out: u32| is_least(rest, n, key, out);
        let w = choose|w: Seq<u32>| #[trigger]
            rest.contains(w) && w.take(n as int) == key && w[n as int] == out;
        let best = if r[n as int] < out {
            r[n as int]
        } else {
            out
        };
        assert(rows.contains(w));
        assert forall|x: Seq<u32>| #[trigger]
            rows.contains(x) && x.take(n as int) == key implies best <= x[n as int] by {
            if x != r {
                assert(rest.contains(x));
            }
        }
        assert(is_least(rows, n, key, best));
    } else {
        assert forall|x: Seq<u32>| #[trigger]
            rows.contains(x) && x.take(n as int) == key implies r[n as int] <= x[n as int] by {
            if x != r {
                assert(rest.contains(x));
            }
        }
        assert(is_least(rows, n, key, r[n as int]));
    }
}

/// A key that some row has, or that was written, has a row after a merge.
pub proof fn merged_keeps_keys(
    kept: Set<Seq<u32>>,
    puts: Seq<Seq<u32>>,
    arity: nat,
    mode: MergeMode,
    r: Seq<u32>,
)
    requires
        kept.finite(),
        arity > 0,
        kept.contains(r) || puts.contains(r),
    ensures
        has_key(merged(kept, puts, arity, mode), (arity - 1) as nat, r.take(arity - 1)),
{
    let n = (arity - 1) as nat;
    let key = r.take(n as int);
    let m = merged(kept, puts, arity, mode);
    let grown = kept.union(puts.to_set());
    assert(grown.contains(r));
    if mode == MergeMode::Relation || !is_written(puts, n, key) {
        assert(m.contains(r));
    } else {
        lemma_put_found(puts, n, key);
        lemma_written_row(puts, n, key);
        let w = choose|w: Seq<u32>| #[trigger]
            puts.to_set().contains(w) && w.take(n as int) == key;
        assert(grown.contains(w));
        let out = if mode == MergeMode::New {
            last_put(puts, n, key)->0
        } else if mode == MergeMode::Old && !has_key(kept, n, key) {
            first_put(puts, n, key)->0
        } else if mode == MergeMode::Old {
            lemma_least_exists(kept, n, key);
            choose|out: u32| is_least(kept, n, key, out)
        } else {
            lemma_finite(puts);
            lemma_least_exists(grown, n, key);
            choose|out: u32| is_least(grown, n, key, out)
        };
        assert(gets(kept, puts, n, mode, key, out));
        if mode == MergeMode::Min || (mode == MergeMode::Old && has_key(kept, n, key)) {
            let from = if mode == MergeMode::Min {
                grown
            } else {
                kept
            };
            let x = choose|x: Seq<u32>| #[trigger]
                from.contains(x) && x.take(n as int) == key && x[n as int] == out;
            assert(grown.contains(x));
            assert(m.contains(x));
        } else {
            let i = choose|i: int|
                0 <= i < puts.len() && (#[trigger] puts[i]).take(n as int) == key
                    && puts[i][n as int] == out;
            assert(puts.contains(puts[i]));
            assert(grown.contains(puts[i]));
            assert(m.contains(puts[i]));
        }
    }
}

proof fn lemma_finite(puts: Seq<Seq<u32>>)
    ensures
        puts.to_set().finite(),
{
    vstd::seq_lib::seq_to_set_is_finite(puts);
}

/// Under [`MergeMode::Old`] a key that had one row keeps it, whatever is written.
pub proof fn old_keeps_what_is_there(
    kept: Set<Seq<u32>>,
    puts: Seq<Seq<u32>>,
    arity: nat,
    r: Seq<u32>,
)
    requires
        arity > 0,
        kept.contains(r),
        forall|x: Seq<u32>| #[trigger]
            kept.contains(x) && x.take(arity - 1) == r.take(arity - 1) ==> x == r,
    ensures
        merged(kept, puts, arity, MergeMode::Old).contains(r),
{
    let n = (arity - 1) as nat;
    assert(has_key(kept, n, r.take(n as int)));
    assert(is_least(kept, n, r.take(n as int), r[n as int]));
}

/// Under [`MergeMode::New`] the row that was written last stays.
pub proof fn new_takes_what_comes_last(kept: Set<Seq<u32>>, puts: Seq<Seq<u32>>, arity: nat)
    requires
        puts.len() > 0,
    ensures
        merged(kept, puts, arity, MergeMode::New).contains(puts.last()),
{
    assert(puts.contains(puts.last()));
}

/// Writing the same rows once more changes nothing.
pub proof fn merged_is_idempotent(
    kept: Set<Seq<u32>>,
    puts: Seq<Seq<u32>>,
    arity: nat,
    mode: MergeMode,
)
    requires
        kept.finite(),
        rows_fit(kept, arity),
        puts_fit(puts, arity),
    ensures
        merged(merged(kept, puts, arity, mode), puts, arity, mode) == merged(
            kept,
            puts,
            arity,
            mode,
        ),
{
    let m = merged(kept, puts, arity, mode);
    let again = merged(m, puts, arity, mode);
    let grown = kept.union(puts.to_set());
    if mode == MergeMode::Relation || arity == 0 {
        assert(again =~= m);
    } else {
        let n = (arity - 1) as nat;
        assert forall|r: Seq<u32>| #[trigger] again.contains(r) <==> m.contains(r) by {
            let key = r.take(n as int);
            if is_written(puts, n, key) && grown.contains(r) {
                lemma_written_row(puts, n, key);
                let w0 = choose|w: Seq<u32>| #[trigger]
                    puts.to_set().contains(w) && w.take(n as int) == key;
                assert(puts.contains(w0));
                merged_keeps_keys(kept, puts, arity, mode, w0);
                let w = choose|w: Seq<u32>| #[trigger] m.contains(w) && w.take(n as int) == key;
                assert(wins(kept, puts, n, mode, w));
                assert forall|x: Seq<u32>| #[trigger]
                    m.contains(x) && x.take(n as int) == key implies x == w by {
                    merged_is_functional(kept, puts, arity, mode, x, w);
                }
                assert(has_key(m, n, key));
                if mode == MergeMode::Min {
                    let all = m.union(puts.to_set());
                    assert(all.contains(w));
                    assert forall|x: Seq<u32>| #[trigger]
                        all.contains(x) && x.take(n as int) == key implies w[n as int]
                        <= x[n as int] by {
                        assert(grown.contains(x));
                    }
                    assert(is_least(all, n, key, w[n as int]));
                } else if mode == MergeMode::Old {
                    assert(is_least(m, n, key, w[n as int]));
                }
                assert(wins(m, puts, n, mode, w));
                if again.contains(r) {
                    assert(r[n as int] == w[n as int]);
                    assert(r.len() == arity) by {
                        lemma_grown_fits(kept, puts, arity, r);
                    }
                    lemma_grown_fits(kept, puts, arity, w);
                    lemma_same_row(r, w, n);
                }
            }
        }
        assert(again =~= m);
    }
}

pub proof fn lemma_grown_fits(kept: Set<Seq<u32>>, puts: Seq<Seq<u32>>, arity: nat, r: Seq<u32>)
    requires
        rows_fit(kept, arity),
        puts_fit(puts, arity),
        kept.union(puts.to_set()).contains(r),
    ensures
        r.len() == arity,
{
    if puts.to_set().contains(r) {
        let i = choose|i: int| 0 <= i < puts.len() && puts[i] == r;
        assert(puts[i].len() == arity);
    }
}

/// The output that each written key gets. `rows` are the rows that were there.
fn winners(rows: &Vec<Row>, puts: &Vec<Row>, inputs: usize, mode: MergeMode) -> (best: KeyMap)
    requires
        inputs < usize::MAX,
        mode != MergeMode::Relation,
        puts_fit(row_views(rows@), (inputs + 1) as nat),
        puts_fit(row_views(puts@), (inputs + 1) as nat),
    ensures
        forall|key: Seq<u32>| #[trigger]
            best@.contains_key(key) <==> is_written(row_views(puts@), inputs as nat, key),
        forall|key: Seq<u32>| #[trigger]
            best@.contains_key(key) ==> gets(
                row_views(rows@).to_set(),
                row_views(puts@),
                inputs as nat,
                mode,
                key,
                best@[key],
            ),
{
    let ghost rv = row_views(rows@);
    let ghost pv = row_views(puts@);
    let ghost n = inputs as nat;
    let ghost kept = rv.to_set();
    let mut keys = RowSet::new();
    for j in 0..puts.len()
        invariant
            pv == row_views(puts@),
            n == inputs,
            puts_fit(pv, n + 1),
            forall|key: Seq<u32>| #[trigger]
                keys@.contains(key) <==> is_written(pv.take(j as int), n, key),
    {
        assert(pv[j as int] == puts@[j as int]@);
        keys.insert(clone_prefix(&puts[j], inputs));
        proof {
            assert forall|key: Seq<u32>| #[trigger]
                keys@.contains(key) <==> is_written(pv.take(j + 1), n, key) by {
                lemma_written_step(pv, j as int, n, key);
            }
        }
    }
    assert(pv.take(puts@.len() as int) =~= pv);
    let mut best = KeyMap::new();
    let seeded = match mode {
        MergeMode::New => false,
        _ => true,
    };
    if seeded {
        for j in 0..rows.len()
            invariant
                rv == row_views(rows@),
                n == inputs,
                puts_fit(rv, n + 1),
                forall|key: Seq<u32>| #[trigger]
                    best@.contains_key(key) <==> keys@.contains(key) && has_key(
                        rv.take(j as int).to_set(),
                        n,
                        key,
                    ),
                forall|key: Seq<u32>| #[trigger]
                    best@.contains_key(key) ==> is_least(
                        rv.take(j as int).to_set(),
                        n,
                        key,
                        best@[key],
                    ),
        {
            assert(rv[j as int] == rows@[j as int]@);
            let ghost best0 = best@;
            let row = &rows[j];
            let key = clone_prefix(row, inputs);
            let out: u32 = row[inputs];
            let ghost k = key@;
            let wanted = keys.contains(&key);
            if wanted {
                let better = match best.get(&key) {
                    None => true,
                    Some(b) => out < b,
                };
                if better {
                    best.insert(key, out);
                }
            }
            proof {
                let less = rv.take(j as int).to_set();
                let upto = rv.take(j + 1).to_set();
                lemma_take_insert(rv, j as int);
                assert forall|q: Seq<u32>| #[trigger]
                    best@.contains_key(q) <==> keys@.contains(q) && has_key(upto, n, q) by {
                    lemma_key_step(less, rv[j as int], n, q);
                    assert(best0.contains_key(q) <==> keys@.contains(q) && has_key(less, n, q));
                }
                assert forall|q: Seq<u32>| #[trigger] best@.contains_key(q) implies is_least(
                    upto,
                    n,
                    q,
                    best@[q],
                ) by {
                    if best0.contains_key(q) {
                        lemma_least_step(less, rv[j as int], n, q, best0[q]);
                    } else {
                        assert(!has_key(less, n, q));
                        lemma_least_first(less, rv[j as int], n, q);
                    }
                }
            }
        }
        assert(rv.take(rows@.len() as int) =~= rv);
    }
    let ghost seed = best@;
    assert(kept.union(pv.take(0).to_set()) =~= kept);
    for j in 0..puts.len()
        invariant
            rv == row_views(rows@),
            pv == row_views(puts@),
            n == inputs,
            kept == rv.to_set(),
            puts_fit(pv, n + 1),
            mode != MergeMode::Relation,
            forall|key: Seq<u32>| #[trigger] keys@.contains(key) <==> is_written(pv, n, key),
            forall|key: Seq<u32>| #[trigger]
                seed.contains_key(key) <==> mode != MergeMode::New && keys@.contains(key) && has_key(
                    kept,
                    n,
                    key,
                ),
            forall|key: Seq<u32>| #[trigger]
                seed.contains_key(key) ==> is_least(kept, n, key, seed[key]),
            forall|key: Seq<u32>| #[trigger]
                best@.contains_key(key) <==> seed.contains_key(key) || is_written(
                    pv.take(j as int),
                    n,
                    key,
                ),
            forall|key: Seq<u32>| #[trigger]
                best@.contains_key(key) ==> gets(
                    kept,
                    pv.take(j as int),
                    n,
                    mode,
                    key,
                    best@[key],
                ),
    {
        let ghost best0 = best@;
        assert(pv[j as int] == puts@[j as int]@);
        let row = &puts[j];
        let key = clone_prefix(row, inputs);
        let out: u32 = row[inputs];
        let take = match best.get(&key) {
            None => true,
            Some(b) => match mode {
                MergeMode::New => true,
                MergeMode::Old => false,
                _ => out < b,
            },
        };
        let ghost k = key@;
        if take {
            best.insert(key, out);
        }
        proof {
            let less = pv.take(j as int);
            let upto = pv.take(j + 1);
            let x = pv[j as int];
            lemma_take_insert(pv, j as int);
            assert(upto.drop_last() =~= less);
            assert(upto.last() == x);
            assert(is_written(pv, n, k)) by {
                assert(pv[j as int].take(n as int) == k);
            }
            assert(keys@.contains(k));
            assert forall|q: Seq<u32>| #[trigger]
                best@.contains_key(q) <==> seed.contains_key(q) || is_written(upto, n, q) by {
                lemma_written_step(pv, j as int, n, q);
                assert(best0.contains_key(q) <==> seed.contains_key(q) || is_written(less, n, q));
            }
            assert forall|q: Seq<u32>| #[trigger] best@.contains_key(q) implies gets(
                kept,
                upto,
                n,
                mode,
                q,
                best@[q],
            ) by {
                lemma_put_found(less, n, q);
                let all = kept.union(less.to_set());
                assert(kept.union(upto.to_set()) =~= all.insert(x));
                if best0.contains_key(q) {
                    assert(gets(kept, less, n, mode, q, best0[q]));
                    if mode == MergeMode::Min {
                        lemma_least_step(all, x, n, q, best0[q]);
                    }
                } else {
                    assert(q == k);
                    if mode == MergeMode::Old || mode == MergeMode::Min {
                        assert(!has_key(kept, n, q)) by {
                            assert(keys@.contains(q));
                        }
                    }
                    if mode == MergeMode::Min {
                        assert(!has_key(all, n, q)) by {
                            if has_key(all, n, q) {
                                let r = choose|r: Seq<u32>| #[trigger]
                                    all.contains(r) && r.take(n as int) == q;
                                if kept.contains(r) {
                                    assert(has_key(kept, n, q));
                                } else {
                                    let i = choose|i: int| 0 <= i < less.len() && less[i] == r;
                                    assert(less[i].take(n as int) == q);
                                }
                            }
                        }
                        lemma_least_first(all, x, n, q);
                    }
                }
            }
        }
    }
    proof {
        assert(pv.take(puts@.len() as int) =~= pv);
        assert forall|key: Seq<u32>| #[trigger] best@.contains_key(key) <==> is_written(
            pv,
            n,
            key,
        ) by {
            if seed.contains_key(key) {
                assert(keys@.contains(key));
            }
        }
    }
    best
}

proof fn lemma_take_insert(s: Seq<Seq<u32>>, j: int)
    requires
        0 <= j < s.len(),
    ensures
        s.take(j + 1).to_set() == s.take(j).to_set().insert(s[j]),
{
    assert(s.take(j + 1) =~= s.take(j).push(s[j]));
    lemma_push_contains(s.take(j), s[j]);
    assert(s.take(j + 1).to_set() =~= s.take(j).to_set().insert(s[j]));
}

proof fn lemma_written_step(puts: Seq<Seq<u32>>, j: int, n: nat, key: Seq<u32>)
    requires
        0 <= j < puts.len(),
    ensures
        is_written(puts.take(j + 1), n, key) <==> is_written(puts.take(j), n, key)
            || puts[j].take(n as int) == key,
{
    let a = puts.take(j);
    let b = puts.take(j + 1);
    assert(b[j] == puts[j]);
    if is_written(a, n, key) {
        let i = choose|i: int| 0 <= i < a.len() && (#[trigger] a[i]).take(n as int) == key;
        assert(b[i] == a[i]);
    }
    if is_written(b, n, key) {
        let i = choose|i: int| 0 <= i < b.len() && (#[trigger] b[i]).take(n as int) == key;
        if i < j {
            assert(a[i] == b[i]);
        }
    }
}

proof fn lemma_key_step(rows: Set<Seq<u32>>, x: Seq<u32>, n: nat, key: Seq<u32>)
    ensures
        has_key(rows.insert(x), n, key) <==> has_key(rows, n, key) || x.take(n as int) == key,
{
    if has_key(rows, n, key) {
        let r = choose|r: Seq<u32>| #[trigger] rows.contains(r) && r.take(n as int) == key;
        assert(rows.insert(x).contains(r));
    }
    assert(rows.insert(x).contains(x));
    if has_key(rows.insert(x), n, key) {
        let r = choose|r: Seq<u32>| #[trigger]
            rows.insert(x).contains(r) && r.take(n as int) == key;
        if r != x {
            assert(rows.contains(r));
        }
    }
}

proof fn lemma_least_step(rows: Set<Seq<u32>>, x: Seq<u32>, n: nat, key: Seq<u32>, out: u32)
    requires
        is_least(rows, n, key, out),
    ensures
        is_least(
            rows.insert(x),
            n,
            key,
            if x.take(n as int) == key && x[n as int] < out {
                x[n as int]
            } else {
                out
            },
        ),
{
    let r = choose|r: Seq<u32>| #[trigger]
        rows.contains(r) && r.take(n as int) == key && r[n as int] == out;
    assert(rows.insert(x).contains(r));
    assert(rows.insert(x).contains(x));
}

proof fn lemma_least_first(rows: Set<Seq<u32>>, x: Seq<u32>, n: nat, key: Seq<u32>)
    requires
        !has_key(rows, n, key),
        x.take(n as int) == key,
    ensures
        is_least(rows.insert(x), n, key, x[n as int]),
{
    assert(rows.insert(x).contains(x));
    assert forall|r: Seq<u32>| #[trigger]
        rows.insert(x).contains(r) && r.take(n as int) == key implies x[n as int]
        <= r[n as int] by {
        if r != x {
            assert(rows.contains(r));
        }
    }
}

impl Table {
    pub closed spec fn state(&self) -> TableState {
        TableState {
            info: self.info.state(),
            rows: self.rows@,
            uf: match self.uf {
                Some(u) => Some(UfState { find: u.find(), pending: u.pending() }),
                None => None,
            },
            view_cols: match self.view {
                Some(v) => Some(v.cols@),
                None => None,
            },
            displaced: self.displaced@.to_set(),
        }
    }

    /// Rows have as many columns as the arity says, the reverse index files every
    /// row under the values of its view columns and nothing else, and the
    /// union-find is sound with no change of leader left in it.
    pub closed spec fn wf(&self) -> bool {
        &&& rows_fit(self.rows@, self.info.arity as nat)
        &&& self.info.schema@.len() == self.info.arity
        &&& (self.info.has_output ==> self.info.arity > 0)
        &&& (self.info.identity_on_miss ==> self.info.arity == 2)
        &&& match self.view {
            Some(v) => {
                &&& v.rev.wf()
                &&& forall|x: u32, r: Seq<u32>| #[trigger]
                    v.rev.under(x).contains(r) <==> self.rows@.contains(r) && holds_in(v.cols@, r, x)
            },
            None => true,
        }
        &&& match self.uf {
            Some(u) => {
                &&& u.wf()
                &&& u.displaced() == Seq::<i64>::empty()
                &&& self.info.arity == 2
            },
            None => true,
        }
    }

    /// What the invariant says of the state.
    pub broadcast proof fn lemma_wf(&self)
        requires
            #[trigger] self.wf(),
        ensures
            rows_fit(self.state().rows, self.state().info.arity),
            self.state().info.schema.len() == self.state().info.arity,
            self.state().info.has_output ==> self.state().info.arity > 0,
            self.state().info.identity_on_miss ==> self.state().info.arity == 2,
            self.state().uf is Some ==> self.state().info.arity == 2,
            self.state().info.arity <= usize::MAX,
            self.state().uf matches Some(u) ==> crate::feldera::uf::is_leader_fn(u.find),
    {
        if self.uf is Some {
            self.uf->0.lemma_leader_fn();
        }
    }

    /// An empty table.
    pub fn new(info: RelationInfo, with_uf: bool) -> (t: Table)
        requires
            info.schema@.len() == info.arity,
            info.has_output ==> info.arity > 0,
            info.identity_on_miss ==> info.arity == 2,
            with_uf ==> info.arity == 2,
        ensures
            t.wf(),
            t.state().info == info.state(),
            t.state().rows == Set::<Seq<u32>>::empty(),
            t.state().uf is Some <==> with_uf,
            t.state().uf matches Some(u) ==> u.pending == Seq::<(i64, i64)>::empty() && forall|x: i64|
                #[trigger] (u.find)(x) == x,
            t.state().view_cols is None,
            t.state().displaced == Set::<i64>::empty(),
    {
        let uf = if with_uf {
            Some(UfTable::new())
        } else {
            None
        };
        let t = Table {
            info,
            rows: Rc::new(RowSet::new()),
            uf,
            view: None,
            displaced: Vec::new(),
        };
        assert(t.state().displaced =~= Set::empty());
        t
    }

    pub fn info(&self) -> (i: &RelationInfo)
        ensures
            i.state() == self.state().info,
    {
        &self.info
    }

    pub fn arity(&self) -> (n: usize)
        ensures
            n == self.state().info.arity,
    {
        self.info.arity
    }

    pub fn has_uf(&self) -> (b: bool)
        ensures
            b == self.state().uf is Some,
    {
        self.uf.is_some()
    }

    pub fn is_view(&self) -> (b: bool)
        ensures
            b == self.state().view_cols is Some,
    {
        self.view.is_some()
    }

    /// How many rows there are.
    pub fn len(&self) -> (n: usize)
        ensures
            n == self.state().rows.len(),
    {
        self.rows.len()
    }

    pub fn contains(&self, row: &Row) -> (b: bool)
        ensures
            b == self.state().rows.contains(row@),
    {
        self.rows.contains(row)
    }

    /// Every row once, in some order.
    pub fn rows(&self) -> (v: Vec<Row>)
        ensures
            row_views(v@).no_duplicates(),
            row_views(v@).to_set() == self.state().rows,
    {
        self.rows.rows()
    }

    /// The rows as they are now.
    pub fn snapshot(&self) -> (s: Rc<RowSet>)
        ensures
            s@ == self.state().rows,
    {
        self.rows.clone()
    }

    /// Adds a row, and says whether it was new.
    pub fn insert(&mut self, row: Row) -> (b: bool)
        requires
            old(self).wf(),
            row@.len() == old(self).state().info.arity,
        ensures
            final(self).wf(),
            b == !old(self).state().rows.contains(row@),
            final(self).state() == (TableState {
                rows: old(self).state().rows.insert(row@),
                ..old(self).state()
            }),
    {
        let ghost rows0 = self.rows@;
        if let Some(v) = &mut self.view {
            let ghost v0 = *v;
            let n: usize = v.cols.len();
            for i in 0..n
                invariant
                    n == v.cols@.len(),
                    v.cols@ == v0.cols@,
                    v.rev.wf(),
                    forall|x: u32, r: Seq<u32>| #[trigger]
                        v.rev.under(x).contains(r) <==> v0.rev.under(x).contains(r) || (r == row@
                            && holds_in(v.cols@.take(i as int), r, x)),
            {
                let c: usize = v.cols[i];
                let ghost before = v.rev;
                if c < row.len() {
                    v.rev.insert(row[c], row.clone());
                }
                proof {
                    assert forall|x: u32, r: Seq<u32>| #[trigger]
                        v.rev.under(x).contains(r) <==> v0.rev.under(x).contains(r) || (r == row@
                            && holds_in(v.cols@.take(i + 1), r, x)) by {
                        lemma_holds_in_step(v.cols@, i as int, r, x);
                        assert(before.under(x).contains(r) <==> v0.rev.under(x).contains(r) || (r
                            == row@ && holds_in(v.cols@.take(i as int), r, x)));
                    }
                }
            }
            proof {
                assert(v.cols@.take(n as int) =~= v.cols@);
                assert forall|x: u32, r: Seq<u32>| #[trigger]
                    v.rev.under(x).contains(r) <==> rows0.insert(row@).contains(r) && holds_in(
                        v.cols@,
                        r,
                        x,
                    ) by {
                    assert(v0.rev.under(x).contains(r) <==> rows0.contains(r) && holds_in(
                        v0.cols@,
                        r,
                        x,
                    ));
                }
            }
        }
        let set = RowSet::make_mut(&mut self.rows);
        let b = set.insert(row);
        assert(self.state() =~= TableState {
            rows: old(self).state().rows.insert(row@),
            ..old(self).state()
        });
        b
    }

    /// Drops a row, and says whether it was there.
    pub fn remove(&mut self, row: &Row) -> (b: bool)
        requires
            old(self).wf(),
        ensures
            final(self).wf(),
            b == old(self).state().rows.contains(row@),
            final(self).state() == (TableState {
                rows: old(self).state().rows.remove(row@),
                ..old(self).state()
            }),
    {
        let ghost rows0 = self.rows@;
        if let Some(v) = &mut self.view {
            let ghost v0 = *v;
            let n: usize = v.cols.len();
            for i in 0..n
                invariant
                    n == v.cols@.len(),
                    v.cols@ == v0.cols@,
                    v.rev.wf(),
                    forall|x: u32, r: Seq<u32>| #[trigger]
                        v.rev.under(x).contains(r) <==> v0.rev.under(x).contains(r) && !(r == row@
                            && holds_in(v.cols@.take(i as int), r, x)),
            {
                let c: usize = v.cols[i];
                let ghost before = v.rev;
                if c < row.len() {
                    v.rev.remove(row[c], row);
                }
                proof {
                    assert forall|x: u32, r: Seq<u32>| #[trigger]
                        v.rev.under(x).contains(r) <==> v0.rev.under(x).contains(r) && !(r == row@
                            && holds_in(v.cols@.take(i + 1), r, x)) by {
                        lemma_holds_in_step(v.cols@, i as int, r, x);
                        assert(before.under(x).contains(r) <==> v0.rev.under(x).contains(r) && !(r
                            == row@ && holds_in(v.cols@.take(i as int), r, x)));
                    }
                }
            }
            proof {
                assert(v.cols@.take(n as int) =~= v.cols@);
                assert forall|x: u32, r: Seq<u32>| #[trigger]
                    v.rev.under(x).contains(r) <==> rows0.remove(row@).contains(r) && holds_in(
                        v.cols@,
                        r,
                        x,
                    ) by {
                    assert(v0.rev.under(x).contains(r) <==> rows0.contains(r) && holds_in(
                        v0.cols@,
                        r,
                        x,
                    ));
                }
            }
        }
        let set = RowSet::make_mut(&mut self.rows);
        let b = set.remove(row);
        assert(self.state() =~= TableState {
            rows: old(self).state().rows.remove(row@),
            ..old(self).state()
        });
        b
    }

    /// Drops every row. The columns of a view stay known.
    pub fn clear(&mut self)
        requires
            old(self).wf(),
        ensures
            final(self).wf(),
            final(self).state() == (TableState {
                rows: Set::<Seq<u32>>::empty(),
                ..old(self).state()
            }),
    {
        self.rows = Rc::new(RowSet::new());
        if let Some(v) = &mut self.view {
            v.rev = RevIndex::new();
        }
        assert(self.state() =~= TableState {
            rows: Set::<Seq<u32>>::empty(),
            ..old(self).state()
        });
    }

    /// Replaces the rows. The columns of a view stay known.
    pub fn set_rows(&mut self, rows: &Vec<Row>)
        requires
            old(self).wf(),
            forall|i: int|
                0 <= i < rows@.len() ==> (#[trigger] rows@[i])@.len()
                    == old(self).state().info.arity,
        ensures
            final(self).wf(),
            final(self).state() == (TableState {
                rows: row_views(rows@).to_set(),
                ..old(self).state()
            }),
    {
        self.clear();
        let ghost rv = row_views(rows@);
        assert(rv.take(0).to_set() =~= Set::empty());
        for i in 0..rows.len()
            invariant
                rv == row_views(rows@),
                forall|i: int|
                    0 <= i < rows@.len() ==> (#[trigger] rows@[i])@.len()
                        == old(self).state().info.arity,
                self.wf(),
                self.state() == (TableState {
                    rows: rv.take(i as int).to_set(),
                    ..old(self).state()
                }),
        {
            self.insert(clone_prefix(&rows[i], rows[i].len()));
            proof {
                assert(rows@[i as int]@.take(rows@[i as int]@.len() as int) =~= rows@[i as int]@);
                assert(rv[i as int] == rows@[i as int]@);
                assert(rv.take(i + 1) =~= rv.take(i as int).push(rv[i as int]));
                crate::feldera::expr::lemma_push_contains(rv.take(i as int), rv[i as int]);
                assert(rv.take(i + 1).to_set() =~= rv.take(i as int).to_set().insert(
                    rv[i as int],
                ));
            }
        }
        assert(rv.take(rows@.len() as int) =~= rv);
    }

    /// Makes the table a view with the given columns, and files its rows. A table
    /// that is a view already stays as it is.
    pub fn seed_view(&mut self, cols: &Vec<usize>)
        requires
            old(self).wf(),
        ensures
            final(self).wf(),
            final(self).state() == (if old(self).state().view_cols is Some {
                old(self).state()
            } else {
                TableState { view_cols: Some(cols@), ..old(self).state() }
            }),
    {
        if self.view.is_some() {
            return;
        }
        let rows = self.rows.rows();
        let mut rev = RevIndex::new();
        let n: usize = cols.len();
        let m: usize = rows.len();
        for j in 0..m
            invariant
                m == rows@.len(),
                n == cols@.len(),
                rev.wf(),
                forall|x: u32, r: Seq<u32>| #[trigger]
                    rev.under(x).contains(r) <==> (exists|k: int|
                        0 <= k < j && (#[trigger] rows@[k])@ == r) && holds_in(cols@, r, x),
        {
            let row = &rows[j];
            let ghost rev0 = rev;
            for i in 0..n
                invariant
                    n == cols@.len(),
                    j < m == rows@.len(),
                    *row == rows@[j as int],
                    rev.wf(),
                    forall|x: u32, r: Seq<u32>| #[trigger]
                        rev.under(x).contains(r) <==> rev0.under(x).contains(r) || (r == row@
                            && holds_in(cols@.take(i as int), r, x)),
            {
                let c: usize = cols[i];
                let ghost before = rev;
                if c < row.len() {
                    rev.insert(row[c], row.clone());
                }
                proof {
                    assert forall|x: u32, r: Seq<u32>| #[trigger]
                        rev.under(x).contains(r) <==> rev0.under(x).contains(r) || (r == row@
                            && holds_in(cols@.take(i + 1), r, x)) by {
                        lemma_holds_in_step(cols@, i as int, r, x);
                        assert(before.under(x).contains(r) <==> rev0.under(x).contains(r) || (r
                            == row@ && holds_in(cols@.take(i as int), r, x)));
                    }
                }
            }
            proof {
                assert(cols@.take(n as int) =~= cols@);
                assert forall|x: u32, r: Seq<u32>| #[trigger]
                    rev.under(x).contains(r) <==> (exists|k: int|
                        0 <= k < j + 1 && (#[trigger] rows@[k])@ == r) && holds_in(cols@, r, x) by {
                    if rev0.under(x).contains(r) {
                        let k = choose|k: int| 0 <= k < j && (#[trigger] rows@[k])@ == r;
                        assert(rows@[k]@ == r);
                    }
                    if r == row@ {
                        assert(rows@[j as int]@ == r);
                    }
                }
            }
        }
        proof {
            assert forall|r: Seq<u32>| self.rows@.contains(r) <==> (exists|k: int|
                0 <= k < m && (#[trigger] rows@[k])@ == r) by {
                assert(row_views(rows@).to_set().contains(r) <==> row_views(rows@).contains(r));
                if self.rows@.contains(r) {
                    let k = choose|k: int| 0 <= k < row_views(rows@).len() && row_views(rows@)[k] == r;
                    assert(rows@[k]@ == r);
                }
                if exists|k: int| 0 <= k < m && (#[trigger] rows@[k])@ == r {
                    let k = choose|k: int| 0 <= k < m && (#[trigger] rows@[k])@ == r;
                    assert(row_views(rows@)[k] == r);
                }
            }
        }
        self.view = Some(ViewIndex { cols: clone_cols(cols), rev });
        assert(self.state() =~= TableState { view_cols: Some(cols@), ..old(self).state() });
    }

    /// The rows of a view that hold `v` in one of its columns, each once.
    pub fn rows_holding(&self, v: u32) -> (rows: Vec<Row>)
        requires
            self.wf(),
            self.state().view_cols is Some,
        ensures
            row_views(rows@).no_duplicates(),
            forall|r: Seq<u32>| #[trigger]
                row_views(rows@).contains(r) <==> self.state().rows.contains(r) && holds_in(
                    self.state().view_cols->0,
                    r,
                    v,
                ),
    {
        match &self.view {
            Some(view) => {
                let rows = view.rev.rows(v);
                proof {
                    assert forall|r: Seq<u32>| #[trigger]
                        row_views(rows@).contains(r) <==> self.state().rows.contains(r) && holds_in(
                            self.state().view_cols->0,
                            r,
                            v,
                        ) by {
                        assert(row_views(rows@).to_set().contains(r) <==> row_views(
                            rows@,
                        ).contains(r));
                        assert(view.rev.under(v).contains(r) <==> self.rows@.contains(r)
                            && holds_in(view.cols@, r, v));
                    }
                }
                rows
            },
            None => Vec::new(),
        }
    }

    /// The leader of `x`; `x` itself where the table has no union-find.
    pub fn find(&self, x: i64) -> (l: i64)
        ensures
            l == (match self.state().uf {
                Some(u) => (u.find)(x),
                None => x,
            }),
    {
        match &self.uf {
            Some(u) => u.find_ro(x),
            None => x,
        }
    }

    /// Queues a union.
    pub fn enqueue_union(&mut self, a: i64, b: i64)
        requires
            old(self).wf(),
            old(self).state().uf is Some,
        ensures
            final(self).wf(),
            final(self).state() == (TableState {
                uf: Some(
                    UfState {
                        find: (old(self).state().uf->0).find,
                        pending: (old(self).state().uf->0).pending.push((a, b)),
                    },
                ),
                ..old(self).state()
            }),
    {
        if let Some(u) = &mut self.uf {
            u.enqueue_union(a, b);
        }
        assert(self.state() =~= TableState {
            uf: Some(
                UfState {
                    find: (old(self).state().uf->0).find,
                    pending: (old(self).state().uf->0).pending.push((a, b)),
                },
            ),
            ..old(self).state()
        });
    }

    /// Applies the queued unions and returns how many ids they gave another leader.
    /// Where `stash` is set the ids that lost their leader are added to those that
    /// wait for a rebuild.
    pub fn drain(&mut self, stash: bool) -> (n: usize)
        requires
            old(self).wf(),
        ensures
            final(self).wf(),
            final(self).state() == drained(old(self).state(), stash),
            moved(old(self).state().uf).finite(),
            n == moved(old(self).state().uf).len(),
    {
        let mut n: usize = 0;
        let ghost d0 = self.displaced@;
        let ghost mut lost: Seq<i64> = Seq::empty();
        if let Some(u) = &mut self.uf {
            let ghost u0 = *u;
            u.drain_pending();
            n = u.displaced_len();
            let mut drained = u.drain_displaced();
            let ghost dr = drained@;
            proof {
                lost = dr;
            }
            if stash {
                self.displaced.append(&mut drained);
                proof {
                    assert(self.displaced@ == d0 + dr);
                    assert forall|x: i64| #[trigger]
                        self.displaced@.contains(x) <==> d0.contains(x) || dr.contains(x) by {
                        lemma_add_contains(d0, dr, x);
                    }
                }
            }
            assert(self.uf->0.find() == crate::feldera::uf::after_unions(u0.find(), u0.pending()));
        }
        assert(self.state().uf =~= drained_uf(old(self).state().uf));
        proof {
            let gone = moved(old(self).state().uf);
            assert forall|x: i64| #[trigger] lost.contains(x) <==> gone.contains(x) by {}
            assert(lost.to_set() =~= gone);
            lost.unique_seq_to_set();
            if stash {
                assert(self.displaced@.to_set() =~= d0.to_set().union(gone));
            }
            assert(self.state() =~= drained(old(self).state(), stash));
        }
        n
    }

    /// The ids that wait for a rebuild.
    pub fn displaced(&self) -> (d: Vec<i64>)
        ensures
            d@.to_set() == self.state().displaced,
    {
        let mut d: Vec<i64> = Vec::with_capacity(self.displaced.len());
        for i in 0..self.displaced.len()
            invariant
                d@ =~= self.displaced@.take(i as int),
        {
            d.push(self.displaced[i]);
        }
        assert(self.displaced@.take(self.displaced@.len() as int) =~= self.displaced@);
        d
    }

    /// Takes the ids that wait for a rebuild.
    pub fn take_displaced(&mut self) -> (d: Vec<i64>)
        requires
            old(self).wf(),
        ensures
            final(self).wf(),
            d@.to_set() == old(self).state().displaced,
            final(self).state() == (TableState {
                displaced: Set::<i64>::empty(),
                ..old(self).state()
            }),
    {
        let mut d: Vec<i64> = Vec::new();
        std::mem::swap(&mut self.displaced, &mut d);
        assert(self.displaced@.to_set() =~= Set::empty());
        assert(self.state() =~= TableState {
            displaced: Set::<i64>::empty(),
            ..old(self).state()
        });
        d
    }

    /// Writes rows, one after the other, and merges those that share a written key.
    /// Says whether a row was new or was dropped.
    pub fn resolve_merge(&mut self, puts: &Vec<Row>) -> (changed: bool)
        requires
            old(self).wf(),
            puts_fit(row_views(puts@), old(self).state().info.arity),
        ensures
            final(self).wf(),
            final(self).state() == (TableState {
                rows: merged(
                    old(self).state().rows,
                    row_views(puts@),
                    old(self).state().info.arity,
                    old(self).state().info.merge,
                ),
                ..old(self).state()
            }),
            changed == merge_changes(
                old(self).state().rows,
                row_views(puts@),
                old(self).state().info.arity,
                old(self).state().info.merge,
            ),
    {
        let arity: usize = self.info.arity;
        let mode = self.info.merge;
        let ghost s0 = self.state();
        let ghost pv = row_views(puts@);
        let merges = arity > 0 && match mode {
            MergeMode::Relation => false,
            _ => true,
        };
        let inputs: usize = if arity > 0 {
            arity - 1
        } else {
            0
        };
        let ghost n = inputs as nat;
        let best = if merges {
            let rows = self.rows.rows();
            let ghost rv = row_views(rows@);
            assert(puts_fit(rv, arity as nat)) by {
                assert forall|i: int| 0 <= i < rv.len() implies (#[trigger] rv[i]).len() == arity by {
                    assert(rv.to_set().contains(rv[i]));
                }
            }
            winners(&rows, puts, inputs, mode)
        } else {
            KeyMap::new()
        };
        let mut changed = false;
        assert(s0.rows.union(pv.take(0).to_set()) =~= s0.rows);
        assert(self.state() =~= (TableState {
            rows: s0.rows.union(pv.take(0).to_set()),
            ..s0
        }));
        for j in 0..puts.len()
            invariant
                pv == row_views(puts@),
                puts_fit(pv, arity as nat),
                arity == s0.info.arity,
                self.wf(),
                self.state() == (TableState {
                    rows: s0.rows.union(pv.take(j as int).to_set()),
                    ..s0
                }),
                changed == (self.state().rows != s0.rows),
        {
            assert(pv[j as int] == puts@[j as int]@);
            let ghost before = self.state().rows;
            let new = self.insert(clone_row(&puts[j]));
            proof {
                lemma_take_insert(pv, j as int);
                assert(self.state().rows =~= s0.rows.union(pv.take(j + 1).to_set()));
                if new {
                    assert(self.state().rows.contains(pv[j as int]));
                    assert(!s0.rows.contains(pv[j as int]));
                } else {
                    assert(self.state().rows =~= before);
                }
                if changed && self.state().rows == s0.rows {
                    assert(before =~= s0.rows);
                }
            }
            if new {
                changed = true;
            }
        }
        assert(pv.take(puts@.len() as int) =~= pv);
        let ghost grown = s0.rows.union(pv.to_set());
        if merges {
            let rows = self.rows.rows();
            let ghost rv = row_views(rows@);
            let m: usize = rows.len();
            proof {
                assert forall|k: int| 0 <= k < m implies grown.contains((#[trigger] rows@[k])@) by {
                    assert(rv[k] == rows@[k]@);
                    assert(rv.to_set().contains(rv[k]));
                }
            }
            let mut dropped = false;
            for j in 0..m
                invariant
                    m == rows@.len(),
                    rv == row_views(rows@),
                    rv.no_duplicates(),
                    rv.to_set() == grown,
                    inputs == arity - 1,
                    n == inputs,
                    arity == s0.info.arity,
                    self.wf(),
                    self.state() == (TableState { rows: self.state().rows, ..s0 }),
                    forall|k: int| 0 <= k < m ==> (#[trigger] rows@[k])@.len() == arity,
                    forall|key: Seq<u32>| #[trigger]
                        best@.contains_key(key) <==> is_written(pv, n, key),
                    forall|key: Seq<u32>| #[trigger]
                        best@.contains_key(key) ==> gets(s0.rows, pv, n, mode, key, best@[key]),
                    forall|r: Seq<u32>| #[trigger]
                        self.state().rows.contains(r) <==> grown.contains(r) && !(exists|k: int|
                            0 <= k < j && (#[trigger] rows@[k])@ == r && is_written(
                                pv,
                                n,
                                r.take(n as int),
                            ) && !wins(s0.rows, pv, n, mode, r)),
                    dropped == (self.state().rows != grown),
            {
                let row = &rows[j];
                let key = clone_prefix(row, inputs);
                assert(rv[j as int] == rows@[j as int]@);
                assert(grown.contains(row@)) by {
                    assert(rv.to_set().contains(rv[j as int]));
                }
                let ghost before = self.state().rows;
                let drop = match best.get(&key) {
                    Some(b) => row[inputs] != b,
                    None => false,
                };
                proof {
                    assert(key@ == row@.take(n as int));
                    assert(drop == (is_written(pv, n, key@) && !wins(
                        s0.rows,
                        pv,
                        n,
                        mode,
                        row@,
                    )));
                }
                if drop {
                    self.remove(row);
                    dropped = true;
                    assert(!self.state().rows.contains(row@));
                }
                proof {
                    assert forall|r: Seq<u32>| #[trigger]
                        self.state().rows.contains(r) <==> grown.contains(r) && !(exists|k: int|
                            0 <= k < j + 1 && (#[trigger] rows@[k])@ == r && is_written(
                                pv,
                                n,
                                r.take(n as int),
                            ) && !wins(s0.rows, pv, n, mode, r)) by {
                        assert(before.contains(r) <==> grown.contains(r) && !(exists|k: int|
                            0 <= k < j && (#[trigger] rows@[k])@ == r && is_written(
                                pv,
                                n,
                                r.take(n as int),
                            ) && !wins(s0.rows, pv, n, mode, r)));
                        if drop && r == row@ {
                            assert(rows@[j as int]@ == r);
                        }
                    }
                }
            }
            proof {
                let want = merged(s0.rows, pv, s0.info.arity, mode);
                assert forall|r: Seq<u32>| #[trigger]
                    self.state().rows.contains(r) <==> want.contains(r) by {
                    if grown.contains(r) {
                        assert(rv.to_set().contains(r));
                        let q = choose|q: int| 0 <= q < rv.len() && rv[q] == r;
                        assert(rows@[q]@ == r);
                    }
                }
                assert(self.state().rows =~= want);
            }
            if dropped {
                changed = true;
            }
        }
        changed
    }
}

/// The leader of `x` in a union-find; `x` itself where there is none.
pub open spec fn uf_find(uf: Option<UfState>, x: i64) -> i64 {
    match uf {
        Some(u) => (u.find)(x),
        None => x,
    }
}

/// A union-find with its queued unions applied.
pub open spec fn drained_uf(uf: Option<UfState>) -> Option<UfState> {
    match uf {
        Some(u) => Some(
            UfState {
                find: crate::feldera::uf::after_unions(u.find, u.pending),
                pending: Seq::empty(),
            },
        ),
        None => None,
    }
}

/// The ids that lose their leader when the queued unions are applied.
pub open spec fn moved(uf: Option<UfState>) -> Set<i64> {
    Set::new(|x: i64| uf_find(drained_uf(uf), x) != uf_find(uf, x))
}

/// A table with its queued unions applied. Where `stash` is set the ids that lost
/// their leader wait for a rebuild, beside those that were waiting.
pub open spec fn drained(t: TableState, stash: bool) -> TableState {
    TableState {
        uf: drained_uf(t.uf),
        displaced: if stash {
            t.displaced.union(moved(t.uf))
        } else {
            t.displaced
        },
        ..t
    }
}

/// A copy of a list of columns.
pub fn clone_cols(cols: &Vec<usize>) -> (v: Vec<usize>)
    ensures
        v@ == cols@,
{
    let mut v: Vec<usize> = Vec::with_capacity(cols.len());
    for i in 0..cols.len()
        invariant
            v@ =~= cols@.take(i as int),
    {
        v.push(cols[i]);
    }
    assert(cols@.take(cols@.len() as int) =~= cols@);
    v
}

/// The first `n` columns of a row.
pub fn clone_prefix(row: &Row, n: usize) -> (v: Row)
    requires
        n <= row@.len(),
    ensures
        v@ == row@.take(n as int),
{
    let mut v: Vec<u32> = Vec::with_capacity(n);
    for i in 0..n
        invariant
            n <= row@.len(),
            v@ =~= row@.take(i as int),
    {
        v.push(row[i]);
    }
    v
}

proof fn lemma_holds_in_step(cols: Seq<usize>, i: int, row: Seq<u32>, v: u32)
    requires
        0 <= i < cols.len(),
    ensures
        holds_in(cols.take(i + 1), row, v) <==> holds_in(cols.take(i), row, v) || (cols[i]
            < row.len() && row[cols[i] as int] == v),
{
    let a = cols.take(i);
    let b = cols.take(i + 1);
    if holds_in(a, row, v) {
        let k = choose|k: int| 0 <= k < a.len() && (#[trigger] a[k]) < row.len() && row[a[k] as int] == v;
        assert(b[k] == a[k]);
    }
    if cols[i] < row.len() && row[cols[i] as int] == v {
        assert(b[i] == cols[i]);
    }
    if holds_in(b, row, v) {
        let k = choose|k: int| 0 <= k < b.len() && (#[trigger] b[k]) < row.len() && row[b[k] as int] == v;
        if k < i {
            assert(a[k] == b[k]);
        }
    }
}

/// What a concatenation contains.
pub proof fn lemma_add_contains<A>(a: Seq<A>, b: Seq<A>, x: A)
    ensures
        (a + b).contains(x) <==> a.contains(x) || b.contains(x),
{
    if a.contains(x) {
        let k = choose|k: int| 0 <= k < a.len() && a[k] == x;
        assert((a + b)[k] == x);
    }
    if b.contains(x) {
        let k = choose|k: int| 0 <= k < b.len() && b[k] == x;
        assert((a + b)[a.len() + k] == x);
    }
    if (a + b).contains(x) {
        let k = choose|k: int| 0 <= k < (a + b).len() && (a + b)[k] == x;
        if k < a.len() {
            assert(a[k] == x);
        } else {
            assert(b[k - a.len()] == x);
        }
    }
}

} // verus!
