//! The body join: matching rows against atoms, and the order in which atoms are
//! joined and guards applied.
//!
//! A plan is joined from left to right. The binding row carries the columns of
//! the variables bound so far; the others are zero.
use crate::backend::{ExternalFunctionId, FunctionId};
use crate::collections::{weighted_views, IdMap, WeightMap};
use crate::feldera::compile::Slot;
use crate::feldera::expr::Cond;
use crate::feldera::plan::{
    atom_bound, atom_views, is_col_map, occurs, vars_in, ArgSrc, AtomPlan, JoinPlan, PrimRet,
    PrimStep,
};
use crate::feldera::row::{bucket, col, get_col, padded, pick_width, set_col, Row};
use vstd::prelude::*;

verus! {

// ---------------------------------------------------------------------------
// Matching a row against an atom
// ---------------------------------------------------------------------------

/// Whether a row agrees with an atom's constants and with its repeated variables.
pub open spec fn row_matches(slots: Seq<Slot>, row: Seq<u32>) -> bool {
    &&& forall|i: int|
        0 <= i < slots.len() ==> ((#[trigger] slots[i]) matches Slot::Const(c) ==> col(row, i) == c)
    &&& forall|i: int, j: int|
        #![trigger slots[i], slots[j]]
        0 <= i < slots.len() && 0 <= j < slots.len() && slots[i] is Var && slots[i] == slots[j]
            ==> col(row, i) == col(row, j)
}

/// Whether a row agrees with the bound columns of a binding.
pub open spec fn row_agrees(
    slots: Seq<Slot>,
    row: Seq<u32>,
    order: Seq<u32>,
    bound: Seq<bool>,
    bind: Seq<u32>,
) -> bool {
    forall|i: int, c: int|
        #![trigger slots[i], order[c]]
        0 <= i < slots.len() && 0 <= c < order.len() && slots[i] == Slot::Var(order[c]) && bound[c]
            ==> col(bind, c) == col(row, i)
}

/// A binding with the columns of an atom's variables taken from a row.
pub open spec fn extended(
    bind: Seq<u32>,
    slots: Seq<Slot>,
    row: Seq<u32>,
    order: Seq<u32>,
) -> Seq<u32> {
    Seq::new(
        bind.len(),
        |c: int|
            if c < order.len() && slots.contains(Slot::Var(order[c])) {
                col(row, slots.index_of(Slot::Var(order[c])))
            } else {
                bind[c]
            },
    )
}

/// The binding of `width` columns with none bound.
pub open spec fn no_binding(width: nat) -> Seq<u32> {
    Seq::new(width, |c: int| 0)
}

/// The variables of an atom, each once, in order of their first occurrence.
pub open spec fn distinct_vars(slots: Seq<Slot>) -> Seq<u32>
    decreases slots.len(),
{
    if slots.len() == 0 {
        Seq::empty()
    } else {
        let before = distinct_vars(slots.drop_last());
        match slots.last() {
            Slot::Var(v) => if before.contains(v) {
                before
            } else {
                before.push(v)
            },
            Slot::Const(_) => before,
        }
    }
}

proof fn lemma_distinct_vars(slots: Seq<Slot>)
    ensures
        distinct_vars(slots).no_duplicates(),
        forall|v: u32| #[trigger]
            distinct_vars(slots).contains(v) <==> slots.contains(Slot::Var(v)),
    decreases slots.len(),
{
    if slots.len() > 0 {
        let less = slots.drop_last();
        lemma_distinct_vars(less);
        let before = distinct_vars(less);
        if let Slot::Var(v) = slots.last() {
            crate::feldera::expr::lemma_push_contains(before, v);
        }
        assert(slots =~= less.push(slots.last()));
        crate::feldera::expr::lemma_push_contains(less, slots.last());
    }
}

/// The variables of an atom, each once, in order of their first occurrence.
pub fn atom_vars(slots: &Vec<Slot>) -> (vars: Vec<u32>)
    ensures
        vars@ == distinct_vars(slots@),
{
    let mut out: Vec<u32> = Vec::new();
    assert(slots@.take(0) =~= Seq::empty());
    for i in 0..slots.len()
        invariant
            out@ == distinct_vars(slots@.take(i as int)),
    {
        let ghost upto = slots@.take(i + 1);
        assert(upto.drop_last() =~= slots@.take(i as int));
        assert(upto.last() == slots@[i as int]);
        if let Slot::Var(v) = slots[i] {
            if !contains_u32(&out, v) {
                out.push(v);
            }
        }
    }
    assert(slots@.take(slots@.len() as int) =~= slots@);
    out
}

fn contains_u32(v: &Vec<u32>, x: u32) -> (b: bool)
    ensures
        b == v@.contains(x),
{
    for i in 0..v.len()
        invariant
            forall|j: int| 0 <= j < i ==> v@[j] != x,
    {
        if v[i] == x {
            assert(v@[i as int] == x);
            return true;
        }
    }
    false
}

/// Marks the columns of an atom's variables as bound.
pub fn mark_bound(slots: &Vec<Slot>, var_order: &Vec<u32>, var_col: &IdMap, bound: &mut Vec<bool>)
    requires
        is_col_map(var_order@, var_col@),
        old(bound)@.len() == var_order@.len(),
    ensures
        final(bound)@.len() == var_order@.len(),
        forall|c: int|
            0 <= c < var_order@.len() ==> (#[trigger] final(bound)@[c] <==> old(bound)@[c]
                || slots@.contains(Slot::Var(var_order@[c]))),
{
    let ghost order = var_order@;
    for i in 0..slots.len()
        invariant
            order == var_order@,
            is_col_map(order, var_col@),
            bound@.len() == order.len(),
            old(bound)@.len() == order.len(),
            forall|c: int|
                0 <= c < order.len() ==> (#[trigger] bound@[c] <==> old(bound)@[c]
                    || slots@.take(i as int).contains(Slot::Var(order[c]))),
    {
        let ghost before = bound@;
        let ghost upto = slots@.take(i + 1);
        assert(upto =~= slots@.take(i as int).push(slots@[i as int]));
        if let Slot::Var(v) = slots[i] {
            match var_col.get(v) {
                Some(c) => {
                    assert(c < order.len() && order[c as int] == v) by {
                        let k = choose|k: int| 0 <= k < order.len() && order[k] == v;
                        assert(var_col@[order[k]] == k);
                    }
                    bound[c] = true;
                },
                None => {},
            }
        }
        proof {
            crate::feldera::expr::lemma_push_contains(slots@.take(i as int), slots@[i as int]);
            assert forall|c: int| 0 <= c < order.len() implies (#[trigger] bound@[c] <==> old(
                bound,
            )@[c] || upto.contains(Slot::Var(order[c]))) by {
                assert(before[c] <==> old(bound)@[c] || slots@.take(i as int).contains(
                    Slot::Var(order[c]),
                ));
                if slots@[i as int] == Slot::Var(order[c]) {
                    assert(var_col@[order[c]] == c);
                }
            }
        }
    }
    assert(slots@.take(slots@.len() as int) =~= slots@);
}

/// The columns of a row that a join goes by, packed from the left.
pub open spec fn key_cols(row: Seq<u32>, cols: Seq<usize>) -> Seq<u32> {
    cols.map_values(|c: usize| col(row, c as int))
}

/// The key of a row: the given columns, packed from the left.
pub fn join_key<R: Row>(r: &R, cols: &Vec<usize>) -> (k: R)
    requires
        cols@.len() <= R::WIDTH,
    ensures
        k.cols() == padded(key_cols(r.cols(), cols@), R::WIDTH as nat),
{
    let mut vals: Vec<u32> = Vec::with_capacity(cols.len());
    for i in 0..cols.len()
        invariant
            vals@ =~= key_cols(r.cols(), cols@).take(i as int),
    {
        vals.push(get_col(r, cols[i]));
    }
    assert(key_cols(r.cols(), cols@).take(cols@.len() as int) =~= key_cols(r.cols(), cols@));
    R::pack(vals.as_slice())
}

/// The first binding that a row gives, if it matches the atom.
pub fn bind_atom<R: Row>(
    r: &R,
    slots: &Vec<Slot>,
    var_order: &Vec<u32>,
    var_col: &IdMap,
) -> (b: Option<R>)
    requires
        is_col_map(var_order@, var_col@),
        vars_in(slots@, var_order@),
        var_order@.len() <= R::WIDTH,
    ensures
        b is Some <==> row_matches(slots@, r.cols()),
        b matches Some(out) ==> out.cols() == extended(
            no_binding(R::WIDTH as nat),
            slots@,
            r.cols(),
            var_order@,
        ),
{
    let ghost order = var_order@;
    let zero: Vec<u32> = Vec::new();
    let empty = R::pack(zero.as_slice());
    assert(empty.cols() =~= no_binding(R::WIDTH as nat));
    let mut bound: Vec<bool> = Vec::new();
    let mut n: usize = 0;
    while n < R::WIDTH
        invariant
            n <= R::WIDTH,
            bound@.len() == n,
            forall|c: int| 0 <= c < n ==> !(#[trigger] bound@[c]),
        decreases R::WIDTH - n,
    {
        bound.push(false);
        n = n + 1;
    }
    merge_atom_into(&empty, r, slots, var_order, var_col, &bound)
}

/// A binding extended by a row, if the row matches the atom and agrees with the
/// columns that are bound.
pub fn merge_atom_into<R: Row>(
    b: &R,
    r: &R,
    slots: &Vec<Slot>,
    var_order: &Vec<u32>,
    var_col: &IdMap,
    bound: &Vec<bool>,
) -> (o: Option<R>)
    requires
        is_col_map(var_order@, var_col@),
        vars_in(slots@, var_order@),
        var_order@.len() <= R::WIDTH,
        var_order@.len() <= bound@.len(),
    ensures
        o is Some <==> row_matches(slots@, r.cols()) && row_agrees(
            slots@,
            r.cols(),
            var_order@,
            bound@,
            b.cols(),
        ),
        o matches Some(out) ==> out.cols() == extended(b.cols(), slots@, r.cols(), var_order@),
{
    let ghost order = var_order@;
    let mut out = *b;
    // The first position of each variable that was seen.
    let mut local = IdMap::new();
    let ghost row = r.cols();
    proof {
        b.lemma_width();
        assert(slots@.take(0) =~= Seq::empty());
        assert(out.cols() =~= extended(b.cols(), slots@.take(0), row, order));
    }
    for i in 0..slots.len()
        invariant
            order == var_order@,
            is_col_map(order, var_col@),
            vars_in(slots@, order),
            order.len() <= R::WIDTH,
            order.len() <= bound@.len(),
            row == r.cols(),
            b.cols().len() == R::WIDTH,
            out.cols() == extended(b.cols(), slots@.take(i as int), row, order),
            row_matches(slots@.take(i as int), row),
            row_agrees(slots@.take(i as int), row, order, bound@, b.cols()),
            forall|v: u32| #[trigger]
                local@.contains_key(v) <==> slots@.take(i as int).contains(Slot::Var(v)),
            forall|v: u32| #[trigger]
                local@.contains_key(v) ==> local@[v] < i && slots@[local@[v] as int] == Slot::Var(v),
    {
        let ghost less = slots@.take(i as int);
        let ghost upto = slots@.take(i + 1);
        let ghost before = out.cols();
        let ghost s = slots@[i as int];
        proof {
            assert(upto =~= less.push(s));
            crate::feldera::expr::lemma_push_contains(less, s);
            out.lemma_width();
        }
        let val: u32 = get_col(r, i);
        match slots[i] {
            Slot::Const(c) => {
                if c != val {
                    proof {
                        assert(slots@[i as int] == Slot::Const(c));
                        assert(!row_matches(slots@, row));
                    }
                    return None;
                }
                proof {
                    lemma_step_const(b.cols(), less, s, row, order);
                }
            },
            Slot::Var(v) => {
                match local.get(v) {
                    Some(p) => {
                        let prev: u32 = get_col(r, p);
                        if prev != val {
                            assert(slots@[p as int] == slots@[i as int]);
                            assert(!row_matches(slots@, row));
                            return None;
                        }
                        proof {
                            assert(less[p as int] == Slot::Var(v));
                            lemma_step_repeat(b.cols(), less, s, row, order);
                        }
                    },
                    None => {
                        local.insert(v, i);
                        let c: usize = match var_col.get(v) {
                            Some(c) => c,
                            None => {
                                assert(order.contains(v));
                                return None;
                            },
                        };
                        proof {
                            assert(slots@[i as int] == Slot::Var(v));
                            assert(order.contains(v));
                            let k = choose|k: int| 0 <= k < order.len() && order[k] == v;
                            assert(var_col@[order[k]] == k);
                            assert(order[c as int] == v);
                        }
                        if bound[c] {
                            let have: u32 = get_col(&out, c);
                            assert(before[c as int] == b.cols()[c as int]);
                            if have != val {
                                proof {
                                    assert(slots@[i as int] == Slot::Var(order[c as int]));
                                    assert(!row_agrees(slots@, row, order, bound@, b.cols()));
                                }
                                return None;
                            }
                        } else {
                            out = set_col(out, c, val);
                        }
                        proof {
                            lemma_step_fresh(b.cols(), less, s, row, order, c as int);
                            assert(out.cols() =~= before.update(c as int, val));
                        }
                    },
                }
            },
        }
        proof {
            assert(upto[i as int] == s);
            assert forall|p: int, c: int|
                #![trigger upto[p], order[c]]
                0 <= p < upto.len() && 0 <= c < order.len() && upto[p] == Slot::Var(order[c])
                    && bound@[c] implies col(b.cols(), c) == col(row, p) by {
                if p < i {
                    assert(less[p] == upto[p]);
                } else {
                    // The column's variable is the one just read.
                    if less.contains(s) {
                        let q = choose|q: int| 0 <= q < less.len() && less[q] == s;
                        assert(less[q] == Slot::Var(order[c]));
                        assert(upto[q] == s);
                    } else {
                        assert(var_col@[order[c]] == c);
                    }
                }
            }
        }
    }
    assert(slots@.take(slots@.len() as int) =~= slots@);
    Some(out)
}

proof fn lemma_index_of_push(less: Seq<Slot>, s: Slot, x: Slot)
    requires
        less.contains(x),
    ensures
        less.push(s).contains(x),
        0 <= less.index_of(x) < less.len(),
        less[less.index_of(x)] == x,
        0 <= less.push(s).index_of(x) < less.len() + 1,
        less.push(s)[less.push(s).index_of(x)] == x,
{
    let k = choose|k: int| 0 <= k < less.len() && less[k] == x;
    assert(less.push(s)[k] == x);
    assert(less.push(s).contains(x));
}

proof fn lemma_step_const(
    bind: Seq<u32>,
    less: Seq<Slot>,
    s: Slot,
    row: Seq<u32>,
    order: Seq<u32>,
)
    requires
        s is Const,
        row_matches(less, row),
        s->Const_0 == col(row, less.len() as int),
    ensures
        extended(bind, less.push(s), row, order) == extended(bind, less, row, order),
        row_matches(less.push(s), row),
{
    let upto = less.push(s);
    lemma_row_matches_push(less, s, row);
    crate::feldera::expr::lemma_push_contains(less, s);
    assert forall|c: int| 0 <= c < bind.len() implies extended(bind, upto, row, order)[c]
        == extended(bind, less, row, order)[c] by {
        if c < order.len() && less.contains(Slot::Var(order[c])) {
            lemma_index_of_push(less, s, Slot::Var(order[c]));
            let p = less.index_of(Slot::Var(order[c]));
            let q = upto.index_of(Slot::Var(order[c]));
            assert(upto[p] == upto[q]);
        }
    }
    assert(extended(bind, upto, row, order) =~= extended(bind, less, row, order));
}

proof fn lemma_row_matches_push(less: Seq<Slot>, s: Slot, row: Seq<u32>)
    requires
        row_matches(less, row),
        s is Const ==> s->Const_0 == col(row, less.len() as int),
        s is Var ==> forall|q: int|
            0 <= q < less.len() && #[trigger] less[q] == s ==> col(row, q) == col(
                row,
                less.len() as int,
            ),
    ensures
        row_matches(less.push(s), row),
{
    let upto = less.push(s);
    assert forall|i: int| 0 <= i < upto.len() implies ((#[trigger] upto[i]) matches Slot::Const(c)
        ==> col(row, i) == c) by {
        if i < less.len() {
            assert(upto[i] == less[i]);
        }
    }
    assert forall|i: int, j: int|
        #![trigger upto[i], upto[j]]
        0 <= i < upto.len() && 0 <= j < upto.len() && upto[i] is Var && upto[i] == upto[j] implies col(
        row,
        i,
    ) == col(row, j) by {
        if i < less.len() {
            assert(upto[i] == less[i]);
        }
        if j < less.len() {
            assert(upto[j] == less[j]);
        }
    }
}

proof fn lemma_step_repeat(
    bind: Seq<u32>,
    less: Seq<Slot>,
    s: Slot,
    row: Seq<u32>,
    order: Seq<u32>,
)
    requires
        s is Var,
        row_matches(less, row),
        exists|q: int|
            0 <= q < less.len() && #[trigger] less[q] == s && col(row, q) == col(
                row,
                less.len() as int,
            ),
    ensures
        extended(bind, less.push(s), row, order) == extended(bind, less, row, order),
        row_matches(less.push(s), row),
{
    let upto = less.push(s);
    let q0 = choose|q: int|
        0 <= q < less.len() && #[trigger] less[q] == s && col(row, q) == col(row, less.len() as int);
    assert forall|q: int| 0 <= q < less.len() && #[trigger] less[q] == s implies col(row, q) == col(
        row,
        less.len() as int,
    ) by {
        assert(less[q] == less[q0]);
    }
    lemma_row_matches_push(less, s, row);
    crate::feldera::expr::lemma_push_contains(less, s);
    assert(less.contains(s));
    assert forall|c: int| 0 <= c < bind.len() implies extended(bind, upto, row, order)[c]
        == extended(bind, less, row, order)[c] by {
        if c < order.len() && less.contains(Slot::Var(order[c])) {
            lemma_index_of_push(less, s, Slot::Var(order[c]));
            let p = less.index_of(Slot::Var(order[c]));
            let q = upto.index_of(Slot::Var(order[c]));
            assert(upto[p] == upto[q]);
        }
    }
    assert(extended(bind, upto, row, order) =~= extended(bind, less, row, order));
}

proof fn lemma_step_fresh(
    bind: Seq<u32>,
    less: Seq<Slot>,
    s: Slot,
    row: Seq<u32>,
    order: Seq<u32>,
    c0: int,
)
    requires
        order.no_duplicates(),
        0 <= c0 < order.len() <= bind.len(),
        s == Slot::Var(order[c0]),
        !less.contains(s),
        row_matches(less, row),
    ensures
        extended(bind, less.push(s), row, order) == extended(bind, less, row, order).update(
            c0,
            col(row, less.len() as int),
        ),
        extended(bind, less, row, order)[c0] == bind[c0],
        row_matches(less.push(s), row),
{
    let upto = less.push(s);
    lemma_row_matches_push(less, s, row);
    crate::feldera::expr::lemma_push_contains(less, s);
    assert forall|c: int| 0 <= c < bind.len() implies extended(bind, upto, row, order)[c]
        == extended(bind, less, row, order).update(c0, col(row, less.len() as int))[c] by {
        if c == c0 {
            assert(upto[less.len() as int] == s);
            assert(upto.contains(s));
            let q = upto.index_of(s);
            assert(upto[q] == s);
            if q < less.len() {
                assert(less[q] == s);
            }
        } else if c < order.len() && less.contains(Slot::Var(order[c])) {
            lemma_index_of_push(less, s, Slot::Var(order[c]));
            let p = less.index_of(Slot::Var(order[c]));
            let q = upto.index_of(Slot::Var(order[c]));
            assert(upto[p] == upto[q]);
        }
    }
    assert(extended(bind, upto, row, order) =~= extended(bind, less, row, order).update(
        c0,
        col(row, less.len() as int),
    ));
}

// ---------------------------------------------------------------------------
// The order of the join
// ---------------------------------------------------------------------------

/// One atom's place in the join.
#[derive(Debug)]
pub struct JoinStage {
    /// The columns of the binding that the join goes by.
    pub left: Vec<usize>,
    /// The columns of the atom's row that they are joined with.
    pub right: Vec<usize>,
    /// The columns that are bound before the atom is joined.
    pub bound: Vec<bool>,
    /// The guards that are applied once it is joined.
    pub guards: Vec<usize>,
}

/// Whether one of the first `n` atoms binds column `c`.
pub open spec fn bound_by(plan: &JoinPlan, n: int, c: int) -> bool {
    exists|i: int|
        0 <= i < n && i < plan.atoms@.len() && (#[trigger] plan.atoms@[i]).slots@.contains(
            Slot::Var(plan.var_order@[c]),
        )
}

/// Whether the first `n` atoms bind every column that guard `g` reads.
pub open spec fn ready(plan: &JoinPlan, g: int, n: int) -> bool {
    forall|c: int| #[trigger] plan.guards@[g].reads(c) ==> bound_by(plan, n, c)
}

/// Whether `st` is the place of atom `i`: it is joined on the variables that are
/// bound already, and then the guards are applied that were not ready before.
pub open spec fn stage_is(plan: &JoinPlan, i: int, st: &JoinStage) -> bool {
    let slots = plan.atoms@[i].slots@;
    let order = plan.var_order@;
    &&& st.bound@.len() == order.len()
    &&& forall|c: int| 0 <= c < order.len() ==> (#[trigger] st.bound@[c] <==> bound_by(plan, i, c))
    &&& st.left@.len() == st.right@.len()
    &&& forall|k: int|
        #![trigger st.left@[k]]
        #![trigger st.right@[k]]
        0 <= k < st.left@.len() ==> {
            &&& st.left@[k] < order.len()
            &&& st.bound@[st.left@[k] as int]
            &&& st.right@[k] < slots.len()
            &&& slots[st.right@[k] as int] == Slot::Var(order[st.left@[k] as int])
            &&& forall|q: int| 0 <= q < st.right@[k] ==> #[trigger] slots[q] != slots[st.right@[k] as int]
        }
    &&& forall|k: int, l: int|
        #![trigger st.right@[k], st.right@[l]]
        0 <= k < l < st.right@.len() ==> st.right@[k] < st.right@[l]
    &&& forall|c: usize|
        c < order.len() && st.bound@[c as int] && slots.contains(Slot::Var(order[c as int]))
            ==> #[trigger] st.left@.contains(c)
    &&& forall|k: int, l: int|
        #![trigger st.guards@[k], st.guards@[l]]
        0 <= k < l < st.guards@.len() ==> st.guards@[k] < st.guards@[l]
    &&& forall|g: usize| #[trigger]
        st.guards@.contains(g) <==> g < plan.guards@.len() && ready(plan, g as int, i + 1) && (i == 0
            || !ready(plan, g as int, i))
}

/// Whether a guard reads columns that are bound only.
fn guard_ready(g: &Cond, bound: &Vec<bool>) -> (b: bool)
    requires
        forall|c: int| #[trigger] g.reads(c) ==> 0 <= c < bound@.len(),
    ensures
        b == forall|c: int| #[trigger] g.reads(c) ==> bound@[c],
{
    let mut cols: Vec<usize> = Vec::new();
    g.cols(&mut cols);
    for k in 0..cols.len()
        invariant
            forall|c: int| #[trigger] g.reads(c) ==> 0 <= c < bound@.len(),
            forall|c: usize| #[trigger] cols@.contains(c) <==> g.reads(c as int),
            forall|j: int| 0 <= j < k ==> bound@[(#[trigger] cols@[j]) as int],
    {
        let c: usize = cols[k];
        assert(cols@.contains(c));
        assert(g.reads(c as int));
        if !bound[c] {
            return false;
        }
    }
    let n: usize = bound.len();
    assert forall|c: int| #[trigger] g.reads(c) implies bound@[c] by {
        assert(0 <= c < n);
        assert(cols@.contains(c as usize));
        let j = choose|j: int| 0 <= j < cols@.len() && cols@[j] == c as usize;
        assert(bound@[cols@[j] as int]);
    }
    true
}

/// The places of a plan's atoms, from left to right.
pub fn join_stages(plan: &JoinPlan) -> (stages: Vec<JoinStage>)
    requires
        plan.wf(),
    ensures
        stages@.len() == plan.atoms@.len(),
        forall|i: int|
            0 <= i < stages@.len() ==> stage_is(plan, i, #[trigger] &stages@[i]),
{
    let n_vars: usize = plan.var_order.len();
    let mut bound: Vec<bool> = Vec::new();
    for c in 0..n_vars
        invariant
            bound@.len() == c,
            forall|k: int| 0 <= k < c ==> !(#[trigger] bound@[k]),
    {
        bound.push(false);
    }
    let mut stages: Vec<JoinStage> = Vec::new();
    for i in 0..plan.atoms.len()
        invariant
            plan.wf(),
            n_vars == plan.var_order@.len(),
            bound@.len() == n_vars,
            forall|c: int| 0 <= c < n_vars ==> (#[trigger] bound@[c] <==> bound_by(plan, i as int, c)),
            stages@.len() == i,
            forall|k: int| 0 <= k < i ==> stage_is(plan, k, #[trigger] &stages@[k]),
    {
        let slots = &plan.atoms[i].slots;
        let ghost order = plan.var_order@;
        let before = clone_bools(&bound);
        let (left, right) = shared_cols(slots, &plan.var_order, &plan.var_col, &before);
        mark_bound(slots, &plan.var_order, &plan.var_col, &mut bound);
        assert forall|c: int| 0 <= c < n_vars implies (#[trigger] bound@[c] <==> bound_by(
            plan,
            i + 1,
            c,
        )) by {
            if bound_by(plan, i as int, c) {
                let k = choose|k: int|
                    0 <= k < i && k < plan.atoms@.len() && (
                    #[trigger] plan.atoms@[k]).slots@.contains(Slot::Var(order[c]));
                assert(plan.atoms@[k].slots@.contains(Slot::Var(order[c])));
            }
            if plan.atoms@[i as int].slots@.contains(Slot::Var(order[c])) {
                assert(bound_by(plan, i + 1, c));
            }
            if bound_by(plan, i + 1, c) {
                let k = choose|k: int|
                    0 <= k < i + 1 && k < plan.atoms@.len() && (
                    #[trigger] plan.atoms@[k]).slots@.contains(Slot::Var(order[c]));
                if k < i {
                    assert(bound_by(plan, i as int, c));
                }
            }
        }
        let mut guards: Vec<usize> = Vec::new();
        for g in 0..plan.guards.len()
            invariant
                plan.wf(),
                n_vars == plan.var_order@.len(),
                i < plan.atoms@.len(),
                bound@.len() == n_vars,
                before@.len() == n_vars,
                forall|c: int|
                    0 <= c < n_vars ==> (#[trigger] before@[c] <==> bound_by(plan, i as int, c)),
                forall|c: int|
                    0 <= c < n_vars ==> (#[trigger] bound@[c] <==> bound_by(plan, i + 1, c)),
                forall|k: int, l: int|
                    #![trigger guards@[k], guards@[l]]
                    0 <= k < l < guards@.len() ==> guards@[k] < guards@[l],
                forall|x: usize| #[trigger]
                    guards@.contains(x) <==> x < g && ready(plan, x as int, i + 1) && (i == 0
                        || !ready(plan, x as int, i as int)),
        {
            let ghost guards0 = guards@;
            assert forall|c: int| #[trigger] plan.guards@[g as int].reads(c) implies 0 <= c
                < n_vars by {
                assert(atom_bound(plan, c));
            }
            let now = guard_ready(&plan.guards[g], &bound);
            let was = i > 0 && guard_ready(&plan.guards[g], &before);
            assert(now == ready(plan, g as int, i + 1));
            if i > 0 {
                assert(was == ready(plan, g as int, i as int));
            }
            if now && !was {
                guards.push(g);
                proof {
                    crate::feldera::expr::lemma_push_contains(guards0, g);
                    assert forall|k: int, l: int|
                        #![trigger guards@[k], guards@[l]]
                        0 <= k < l < guards@.len() implies guards@[k] < guards@[l] by {
                        if l == guards0.len() {
                            assert(guards0.contains(guards@[k])) by {
                                assert(guards0[k] == guards@[k]);
                            }
                        }
                    }
                }
            }
        }
        let stage = JoinStage { left, right, bound: before, guards };
        assert(stage_is(plan, i as int, &stage));
        stages.push(stage);
    }
    stages
}

fn clone_bools(v: &Vec<bool>) -> (r: Vec<bool>)
    ensures
        r@ == v@,
{
    let mut r: Vec<bool> = Vec::with_capacity(v.len());
    for i in 0..v.len()
        invariant
            r@ =~= v@.take(i as int),
    {
        r.push(v[i]);
    }
    assert(v@.take(v@.len() as int) =~= v@);
    r
}

/// The bound columns of an atom's variables, and the first position of each.
fn shared_cols(
    slots: &Vec<Slot>,
    var_order: &Vec<u32>,
    var_col: &IdMap,
    bound: &Vec<bool>,
) -> (r: (Vec<usize>, Vec<usize>))
    requires
        is_col_map(var_order@, var_col@),
        vars_in(slots@, var_order@),
        bound@.len() == var_order@.len(),
    ensures
        r.0@.len() == r.1@.len(),
        forall|k: int|
            #![trigger r.0@[k]]
            #![trigger r.1@[k]]
            0 <= k < r.0@.len() ==> {
                &&& r.0@[k] < var_order@.len()
                &&& bound@[r.0@[k] as int]
                &&& r.1@[k] < slots@.len()
                &&& slots@[r.1@[k] as int] == Slot::Var(var_order@[r.0@[k] as int])
                &&& forall|q: int| 0 <= q < r.1@[k] ==> #[trigger] slots@[q] != slots@[r.1@[k] as int]
            },
        forall|k: int, l: int|
            #![trigger r.1@[k], r.1@[l]]
            0 <= k < l < r.1@.len() ==> r.1@[k] < r.1@[l],
        forall|c: usize|
            c < var_order@.len() && bound@[c as int] && slots@.contains(
                Slot::Var(var_order@[c as int]),
            ) ==> #[trigger] r.0@.contains(c),
{
    let ghost order = var_order@;
    let mut left: Vec<usize> = Vec::new();
    let mut right: Vec<usize> = Vec::new();
    let mut seen = IdMap::new();
    for p in 0..slots.len()
        invariant
            order == var_order@,
            is_col_map(order, var_col@),
            vars_in(slots@, order),
            bound@.len() == order.len(),
            left@.len() == right@.len(),
            forall|v: u32| #[trigger]
                seen@.contains_key(v) <==> slots@.take(p as int).contains(Slot::Var(v)),
            forall|k: int|
                #![trigger left@[k]]
                #![trigger right@[k]]
                0 <= k < left@.len() ==> {
                    &&& left@[k] < order.len()
                    &&& bound@[left@[k] as int]
                    &&& right@[k] < p
                    &&& slots@[right@[k] as int] == Slot::Var(order[left@[k] as int])
                    &&& forall|q: int| 0 <= q < right@[k] ==> #[trigger] slots@[q] != slots@[right@[k] as int]
                },
            forall|k: int, l: int|
                #![trigger right@[k], right@[l]]
                0 <= k < l < right@.len() ==> right@[k] < right@[l],
            forall|c: usize|
                c < order.len() && bound@[c as int] && slots@.take(p as int).contains(
                    Slot::Var(order[c as int]),
                ) ==> #[trigger] left@.contains(c),
    {
        let ghost less = slots@.take(p as int);
        let ghost upto = slots@.take(p + 1);
        let ghost left0 = left@;
        assert(upto =~= less.push(slots@[p as int]));
        proof {
            crate::feldera::expr::lemma_push_contains(less, slots@[p as int]);
        }
        if let Slot::Var(v) = slots[p] {
            if seen.get(v).is_none() {
                seen.insert(v, p);
                match var_col.get(v) {
                    Some(c) => {
                        assert(c < order.len() && order[c as int] == v) by {
                            let k = choose|k: int| 0 <= k < order.len() && order[k] == v;
                            assert(var_col@[order[k]] == k);
                        }
                        assert forall|q: int| 0 <= q < p implies #[trigger] slots@[q] != slots@[p as int] by {
                            if slots@[q] == slots@[p as int] {
                                assert(less[q] == Slot::Var(v));
                                assert(less.contains(Slot::Var(v)));
                            }
                        }
                        if bound[c] {
                            left.push(c);
                            right.push(p);
                        }
                    },
                    None => {
                        assert(slots@[p as int] == Slot::Var(v));
                        assert(order.contains(v));
                    },
                }
            }
        }
        proof {
            assert forall|c: usize|
                c < order.len() && bound@[c as int] && upto.contains(
                    Slot::Var(order[c as int]),
                ) implies #[trigger] left@.contains(c) by {
                if less.contains(Slot::Var(order[c as int])) {
                    assert(left0.contains(c));
                    let k = choose|k: int| 0 <= k < left0.len() && left0[k] == c;
                    assert(left@[k] == c);
                } else {
                    assert(var_col@[order[c as int]] == c);
                    assert(left@[left0.len() as int] == c);
                }
            }
        }
    }
    assert(slots@.take(slots@.len() as int) =~= slots@);
    (left, right)
}

// ---------------------------------------------------------------------------
// What the join computes
// ---------------------------------------------------------------------------

/// The bindings after the first `n` atoms, where `rows` gives each function's rows.
pub open spec fn joined(
    plan: &JoinPlan,
    stages: Seq<JoinStage>,
    rows: spec_fn(FunctionId) -> Set<Seq<u32>>,
    width: nat,
    n: int,
) -> Set<Seq<u32>>
    decreases n,
{
    if n <= 0 {
        set![no_binding(width)]
    } else {
        let before = joined(plan, stages, rows, width, n - 1);
        let atom = plan.atoms@[n - 1];
        let st = stages[n - 1];
        Set::new(
            |x: Seq<u32>|
                exists|b: Seq<u32>, r: Seq<u32>|
                    #![trigger before.contains(b), rows(atom.func).contains(r)]
                    before.contains(b) && rows(atom.func).contains(r) && stage_gives(
                        plan,
                        atom.slots@,
                        &st,
                        b,
                        r,
                        x,
                    ),
        )
    }
}

/// Whether a stage makes binding `x` of binding `b` and row `r`.
pub open spec fn stage_gives(
    plan: &JoinPlan,
    slots: Seq<Slot>,
    st: &JoinStage,
    b: Seq<u32>,
    r: Seq<u32>,
    x: Seq<u32>,
) -> bool {
    &&& key_cols(b, st.left@) == key_cols(r, st.right@)
    &&& row_matches(slots, r)
    &&& row_agrees(slots, r, plan.var_order@, st.bound@, b)
    &&& x == extended(b, slots, r, plan.var_order@)
    &&& forall|k: int|
        0 <= k < st.guards@.len() ==> (plan.guards@[(#[trigger] st.guards@[k]) as int]).holds(x)
}

/// Whether a row agrees with an atom under a binding of all its variables.
pub open spec fn atom_holds(slots: Seq<Slot>, row: Seq<u32>, order: Seq<u32>, x: Seq<u32>) -> bool {
    &&& forall|p: int|
        0 <= p < slots.len() ==> ((#[trigger] slots[p]) matches Slot::Const(c) ==> col(row, p) == c)
    &&& forall|p: int, c: int|
        #![trigger slots[p], order[c]]
        0 <= p < slots.len() && 0 <= c < order.len() && slots[p] == Slot::Var(order[c]) ==> col(x, c)
            == col(row, p)
}

/// Whether `picked` holds a row for each of the first `n` atoms, and all of them
/// agree with binding `x`.
pub open spec fn picks(
    plan: &JoinPlan,
    rows: spec_fn(FunctionId) -> Set<Seq<u32>>,
    n: int,
    picked: Seq<Seq<u32>>,
    x: Seq<u32>,
) -> bool {
    &&& picked.len() == n
    &&& forall|i: int|
        0 <= i < n ==> rows(plan.atoms@[i].func).contains(#[trigger] picked[i]) && atom_holds(
            plan.atoms@[i].slots@,
            picked[i],
            plan.var_order@,
            x,
        )
}

/// Whether a binding satisfies the first `n` atoms and the guards that they make
/// ready, with zeros in the columns that they do not bind.
pub open spec fn satisfies(
    plan: &JoinPlan,
    rows: spec_fn(FunctionId) -> Set<Seq<u32>>,
    width: nat,
    n: int,
    x: Seq<u32>,
) -> bool {
    &&& x.len() == width
    &&& exists|picked: Seq<Seq<u32>>| #[trigger] picks(plan, rows, n, picked, x)
    &&& forall|c: int|
        0 <= c < width && !(c < plan.var_order@.len() && bound_by(plan, n, c)) ==> #[trigger] x[c]
            == 0
    &&& n > 0 ==> forall|g: int|
        0 <= g < plan.guards@.len() && ready(plan, g, n) ==> (#[trigger] plan.guards@[g]).holds(x)
}

proof fn lemma_bound_by_step(plan: &JoinPlan, n: int, c: int)
    requires
        0 <= n < plan.atoms@.len(),
    ensures
        bound_by(plan, n + 1, c) <==> bound_by(plan, n, c) || plan.atoms@[n].slots@.contains(
            Slot::Var(plan.var_order@[c]),
        ),
{
    if bound_by(plan, n, c) {
        let k = choose|k: int|
            0 <= k < n && k < plan.atoms@.len() && (#[trigger] plan.atoms@[k]).slots@.contains(
                Slot::Var(plan.var_order@[c]),
            );
        assert(plan.atoms@[k].slots@.contains(Slot::Var(plan.var_order@[c])));
    }
    if bound_by(plan, n + 1, c) {
        let k = choose|k: int|
            0 <= k < n + 1 && k < plan.atoms@.len() && (#[trigger] plan.atoms@[k]).slots@.contains(
                Slot::Var(plan.var_order@[c]),
            );
        assert(plan.atoms@[k].slots@.contains(Slot::Var(plan.var_order@[c])));
    }
}

/// The columns that `n` atoms bind keep their values when the next atom is joined.
proof fn lemma_extended_keeps(
    plan: &JoinPlan,
    st: &JoinStage,
    n: int,
    b: Seq<u32>,
    r: Seq<u32>,
    c: int,
)
    requires
        plan.wf(),
        0 <= n < plan.atoms@.len(),
        stage_is(plan, n, st),
        row_matches(plan.atoms@[n].slots@, r),
        row_agrees(plan.atoms@[n].slots@, r, plan.var_order@, st.bound@, b),
        plan.var_order@.len() <= b.len(),
        0 <= c < plan.var_order@.len(),
        bound_by(plan, n, c),
    ensures
        extended(b, plan.atoms@[n].slots@, r, plan.var_order@)[c] == b[c],
{
    let slots = plan.atoms@[n].slots@;
    assert(st.bound@[c]);
    if slots.contains(Slot::Var(plan.var_order@[c])) {
        let p = slots.index_of(Slot::Var(plan.var_order@[c]));
        assert(slots[p] == Slot::Var(plan.var_order@[c]));
    }
}

/// A guard that the first `n` atoms make ready holds alike on two bindings that
/// agree on the columns they bind.
proof fn lemma_guard_alike(plan: &JoinPlan, g: int, n: int, x: Seq<u32>, y: Seq<u32>)
    requires
        plan.wf(),
        0 <= g < plan.guards@.len(),
        ready(plan, g, n),
        x.len() == y.len(),
        plan.var_order@.len() <= x.len(),
        forall|c: int|
            0 <= c < plan.var_order@.len() && #[trigger] bound_by(plan, n, c) ==> x[c] == y[c],
    ensures
        plan.guards@[g].holds(x) == plan.guards@[g].holds(y),
{
    let cond = plan.guards@[g];
    assert forall|c: int| #[trigger] cond.reads(c) implies col(x, c) == col(y, c) by {
        assert(plan.guards@[g].reads(c));
        assert(atom_bound(plan, c));
        assert(bound_by(plan, n, c));
    }
    cond.holds_depends_on_reads(x, y);
}

proof fn lemma_joined_sound(
    plan: &JoinPlan,
    stages: Seq<JoinStage>,
    rows: spec_fn(FunctionId) -> Set<Seq<u32>>,
    width: nat,
    n: int,
    x: Seq<u32>,
)
    requires
        plan.wf(),
        plan.var_order@.len() <= width,
        0 <= n <= plan.atoms@.len(),
        stages.len() == plan.atoms@.len(),
        forall|i: int| 0 <= i < stages.len() ==> stage_is(plan, i, #[trigger] &stages[i]),
        joined(plan, stages, rows, width, n).contains(x),
    ensures
        satisfies(plan, rows, width, n, x),
    decreases n,
{
    let order = plan.var_order@;
    if n == 0 {
        assert(x == no_binding(width));
        assert(picks(plan, rows, 0, Seq::empty(), x));
    } else {
        let before = joined(plan, stages, rows, width, n - 1);
        let atom = plan.atoms@[n - 1];
        let slots = atom.slots@;
        let st = &stages[n - 1];
        assert(stage_is(plan, n - 1, st));
        let (b, r) = choose|b: Seq<u32>, r: Seq<u32>|
            #![trigger before.contains(b), rows(atom.func).contains(r)]
            before.contains(b) && rows(atom.func).contains(r) && stage_gives(
                plan,
                slots,
                st,
                b,
                r,
                x,
            );
        lemma_joined_sound(plan, stages, rows, width, n - 1, b);
        let picked = choose|picked: Seq<Seq<u32>>| #[trigger] picks(plan, rows, n - 1, picked, b);
        let more = picked.push(r);
        assert forall|c: int| 0 <= c < order.len() && #[trigger] bound_by(
            plan,
            n - 1,
            c,
        ) implies x[c] == b[c] by {
            lemma_extended_keeps(plan, st, n - 1, b, r, c);
        }
        assert(picks(plan, rows, n, more, x)) by {
            assert forall|i: int| 0 <= i < n implies rows(plan.atoms@[i].func).contains(
                #[trigger] more[i],
            ) && atom_holds(plan.atoms@[i].slots@, more[i], order, x) by {
                let si = plan.atoms@[i].slots@;
                if i < n - 1 {
                    assert(more[i] == picked[i]);
                    assert(atom_holds(si, picked[i], order, b));
                    assert forall|p: int, c: int|
                        #![trigger si[p], order[c]]
                        0 <= p < si.len() && 0 <= c < order.len() && si[p] == Slot::Var(
                            order[c],
                        ) implies col(x, c) == col(more[i], p) by {
                        assert(si.contains(Slot::Var(order[c])));
                        assert(bound_by(plan, n - 1, c));
                        assert(x[c] == b[c]);
                    }
                } else {
                    assert forall|p: int, c: int|
                        #![trigger si[p], order[c]]
                        0 <= p < si.len() && 0 <= c < order.len() && si[p] == Slot::Var(
                            order[c],
                        ) implies col(x, c) == col(more[i], p) by {
                        assert(si.contains(Slot::Var(order[c])));
                        let q = si.index_of(Slot::Var(order[c]));
                        assert(si[q] == si[p]);
                    }
                }
            }
        }
        assert forall|c: int|
            0 <= c < width && !(c < order.len() && bound_by(plan, n, c)) implies #[trigger] x[c]
            == 0 by {
            lemma_bound_by_step(plan, n - 1, c);
            assert(!(c < order.len() && bound_by(plan, n - 1, c)));
        }
        assert forall|g: int|
            0 <= g < plan.guards@.len() && ready(plan, g, n) implies (
        #[trigger] plan.guards@[g]).holds(x) by {
            if n - 1 > 0 && ready(plan, g, n - 1) {
                assert(plan.guards@[g].holds(b));
                lemma_guard_alike(plan, g, n - 1, x, b);
            } else {
                assert(g <= usize::MAX) by {
                    assert(plan.guards@.len() == plan.guards.len());
                }
                assert(st.guards@.contains(g as usize));
                let k = choose|k: int| 0 <= k < st.guards@.len() && st.guards@[k] == g as usize;
                assert(plan.guards@[st.guards@[k] as int].holds(x));
            }
        }
    }
}

proof fn lemma_joined_complete(
    plan: &JoinPlan,
    stages: Seq<JoinStage>,
    rows: spec_fn(FunctionId) -> Set<Seq<u32>>,
    width: nat,
    n: int,
    x: Seq<u32>,
)
    requires
        plan.wf(),
        plan.var_order@.len() <= width,
        0 <= n <= plan.atoms@.len(),
        stages.len() == plan.atoms@.len(),
        forall|i: int| 0 <= i < stages.len() ==> stage_is(plan, i, #[trigger] &stages[i]),
        satisfies(plan, rows, width, n, x),
    ensures
        joined(plan, stages, rows, width, n).contains(x),
    decreases n,
{
    let order = plan.var_order@;
    if n == 0 {
        assert forall|c: int| 0 <= c < width implies x[c] == 0 by {
            if c < order.len() && bound_by(plan, 0, c) {
            }
        }
        assert(x =~= no_binding(width));
    } else {
        let before = joined(plan, stages, rows, width, n - 1);
        let atom = plan.atoms@[n - 1];
        let slots = atom.slots@;
        let st = &stages[n - 1];
        assert(stage_is(plan, n - 1, st));
        let picked = choose|picked: Seq<Seq<u32>>| #[trigger] picks(plan, rows, n, picked, x);
        let r = picked[n - 1];
        assert(atom_holds(slots, r, order, x));
        // The binding without the columns that the last atom binds first.
        let b = Seq::new(
            width,
            |c: int|
                if c < order.len() && bound_by(plan, n - 1, c) {
                    x[c]
                } else {
                    0u32
                },
        );
        let fewer = picked.drop_last();
        assert(picks(plan, rows, n - 1, fewer, b)) by {
            assert forall|i: int| 0 <= i < n - 1 implies rows(plan.atoms@[i].func).contains(
                #[trigger] fewer[i],
            ) && atom_holds(plan.atoms@[i].slots@, fewer[i], order, b) by {
                assert(fewer[i] == picked[i]);
                let si = plan.atoms@[i].slots@;
                assert(atom_holds(si, picked[i], order, x));
                assert forall|p: int, c: int|
                    #![trigger si[p], order[c]]
                    0 <= p < si.len() && 0 <= c < order.len() && si[p] == Slot::Var(
                        order[c],
                    ) implies col(b, c) == col(fewer[i], p) by {
                    assert(si.contains(Slot::Var(order[c])));
                    assert(bound_by(plan, n - 1, c));
                }
            }
        }
        assert(satisfies(plan, rows, width, n - 1, b)) by {
            if n - 1 > 0 {
                assert forall|g: int|
                    0 <= g < plan.guards@.len() && ready(plan, g, n - 1) implies (
                #[trigger] plan.guards@[g]).holds(b) by {
                    assert(ready(plan, g, n)) by {
                        assert forall|c: int| #[trigger]
                            plan.guards@[g].reads(c) implies bound_by(plan, n, c) by {
                            assert(bound_by(plan, n - 1, c));
                            lemma_bound_by_step(plan, n - 1, c);
                        }
                    }
                    assert(plan.guards@[g].holds(x));
                    lemma_guard_alike(plan, g, n - 1, x, b);
                }
            }
        }
        lemma_joined_complete(plan, stages, rows, width, n - 1, b);
        assert(stage_gives(plan, slots, st, b, r, x)) by {
            assert forall|k: int| 0 <= k < st.left@.len() implies key_cols(b, st.left@)[k]
                == key_cols(r, st.right@)[k] by {
                let c = st.left@[k] as int;
                let p = st.right@[k] as int;
                assert(st.bound@[c]);
                assert(slots[p] == Slot::Var(order[c]));
                assert(col(x, c) == col(r, p));
            }
            assert(key_cols(b, st.left@) =~= key_cols(r, st.right@));
            assert(vars_in(slots, order));
            assert(row_matches(slots, r)) by {
                assert forall|i: int, j: int|
                    #![trigger slots[i], slots[j]]
                    0 <= i < slots.len() && 0 <= j < slots.len() && slots[i] is Var && slots[i]
                        == slots[j] implies col(r, i) == col(r, j) by {
                    let v = slots[i]->Var_0;
                    assert(order.contains(v));
                    let c = choose|c: int| 0 <= c < order.len() && order[c] == v;
                    assert(slots[i] == Slot::Var(order[c]));
                    assert(slots[j] == Slot::Var(order[c]));
                }
            }
            assert(row_agrees(slots, r, order, st.bound@, b)) by {
                assert forall|i: int, c: int|
                    #![trigger slots[i], order[c]]
                    0 <= i < slots.len() && 0 <= c < order.len() && slots[i] == Slot::Var(order[c])
                        && st.bound@[c] implies col(b, c) == col(r, i) by {
                    assert(bound_by(plan, n - 1, c));
                    assert(col(x, c) == col(r, i));
                }
            }
            let e = extended(b, slots, r, order);
            assert forall|c: int| 0 <= c < width implies x[c] == e[c] by {
                if c < order.len() {
                    lemma_bound_by_step(plan, n - 1, c);
                }
                if c < order.len() && slots.contains(Slot::Var(order[c])) {
                    let p = slots.index_of(Slot::Var(order[c]));
                    assert(slots[p] == Slot::Var(order[c]));
                    assert(col(x, c) == col(r, p));
                } else if c < order.len() && bound_by(plan, n - 1, c) {
                } else {
                    assert(!(c < order.len() && bound_by(plan, n, c)));
                }
            }
            assert(x =~= e);
            assert forall|k: int| 0 <= k < st.guards@.len() implies (
            plan.guards@[(#[trigger] st.guards@[k]) as int]).holds(x) by {
                assert(st.guards@.contains(st.guards@[k]));
            }
        }
        assert(before.contains(b));
        assert(rows(atom.func).contains(r)) by {
            assert(picked[n - 1] == r);
        }
    }
}

/// Whether a binding solves a plan's body: some row of each atom agrees with it,
/// every guard holds, and the columns beyond the atoms' variables are zero.
pub open spec fn solves(
    plan: &JoinPlan,
    rows: spec_fn(FunctionId) -> Set<Seq<u32>>,
    width: nat,
    x: Seq<u32>,
) -> bool {
    &&& x.len() == width
    &&& exists|picked: Seq<Seq<u32>>| #[trigger]
        picks(plan, rows, plan.atoms@.len() as int, picked, x)
    &&& forall|c: int|
        0 <= c < width && !(c < plan.var_order@.len() && occurs(
            atom_views(plan.atoms@),
            plan.var_order@[c],
        )) ==> #[trigger] x[c] == 0
    &&& forall|g: int| 0 <= g < plan.guards@.len() ==> (#[trigger] plan.guards@[g]).holds(x)
}

proof fn lemma_bound_by_all(plan: &JoinPlan, c: int)
    ensures
        bound_by(plan, plan.atoms@.len() as int, c) <==> occurs(
            atom_views(plan.atoms@),
            plan.var_order@[c],
        ),
{
    let v = plan.var_order@[c];
    let av = atom_views(plan.atoms@);
    if bound_by(plan, plan.atoms@.len() as int, c) {
        let k = choose|k: int|
            0 <= k < plan.atoms@.len() && (#[trigger] plan.atoms@[k]).slots@.contains(Slot::Var(v));
        let slots = plan.atoms@[k].slots@;
        let j = choose|j: int| 0 <= j < slots.len() && slots[j] == Slot::Var(v);
        assert(av[k].slots[j] == Slot::Var(v));
    }
    if occurs(av, v) {
        let (i, j) = choose|i: int, j: int|
            0 <= i < av.len() && 0 <= j < av[i].slots.len() && #[trigger] av[i].slots[j]
                == Slot::Var(v);
        assert(plan.atoms@[i].slots@[j] == Slot::Var(v));
        assert(plan.atoms@[i].slots@.contains(Slot::Var(v)));
    }
}

/// The join gives exactly the bindings that solve the body: every guard is applied
/// at some stage, and joining on the shared columns loses nothing.
pub proof fn join_is_exact(
    plan: &JoinPlan,
    stages: Seq<JoinStage>,
    rows: spec_fn(FunctionId) -> Set<Seq<u32>>,
    width: nat,
    x: Seq<u32>,
)
    requires
        plan.wf(),
        plan.var_order@.len() <= width,
        stages.len() == plan.atoms@.len(),
        forall|i: int| 0 <= i < stages.len() ==> stage_is(plan, i, #[trigger] &stages[i]),
    ensures
        joined(plan, stages, rows, width, plan.atoms@.len() as int).contains(x) <==> solves(
            plan,
            rows,
            width,
            x,
        ),
{
    let n = plan.atoms@.len() as int;
    assert forall|c: int| #[trigger] bound_by(plan, n, c) <==> occurs(
        atom_views(plan.atoms@),
        plan.var_order@[c],
    ) by {
        lemma_bound_by_all(plan, c);
    }
    assert forall|g: int| 0 <= g < plan.guards@.len() implies ready(plan, g, n) by {
        assert forall|c: int| #[trigger] plan.guards@[g].reads(c) implies bound_by(plan, n, c) by {
            assert(atom_bound(plan, c));
        }
    }
    if joined(plan, stages, rows, width, n).contains(x) {
        lemma_joined_sound(plan, stages, rows, width, n, x);
        assert forall|c: int|
            0 <= c < width && !(c < plan.var_order@.len() && occurs(
                atom_views(plan.atoms@),
                plan.var_order@[c],
            )) implies #[trigger] x[c] == 0 by {
            assert(!(c < plan.var_order@.len() && bound_by(plan, n, c)));
        }
    }
    if solves(plan, rows, width, x) {
        assert(satisfies(plan, rows, width, n, x));
        lemma_joined_complete(plan, stages, rows, width, n, x);
    }
}

// ---------------------------------------------------------------------------
// Calls after the join
// ---------------------------------------------------------------------------

/// The arguments of a call on a binding row.
pub open spec fn step_arg_vals(args: Seq<ArgSrc>, row: Seq<u32>) -> Seq<u32> {
    args.map_values(
        |a: ArgSrc|
            match a {
                ArgSrc::Col(c) => col(row, c as int),
                ArgSrc::Const(v) => v,
            },
    )
}

/// What a call makes of a binding row: the row is dropped if the primitive fails
/// or its result is not the asserted one.
pub open spec fn step_outcome(ret: PrimRet, row: Seq<u32>, result: Option<u32>) -> Option<Seq<u32>> {
    match result {
        None => None,
        Some(v) => match ret {
            PrimRet::Bind(c) => Some(
                if c < row.len() {
                    row.update(c as int, v)
                } else {
                    row
                },
            ),
            PrimRet::AssertCol(c) => if col(row, c as int) == v {
                Some(row)
            } else {
                None
            },
            PrimRet::AssertConst(k) => if k == v {
                Some(row)
            } else {
                None
            },
        },
    }
}

/// Whether a primitive may answer `result` to the given arguments.
pub open spec fn may_answer<F: Fn(ExternalFunctionId, &Vec<u32>) -> Option<u32>>(
    eval: F,
    id: ExternalFunctionId,
    args: Seq<u32>,
    result: Option<u32>,
) -> bool {
    exists|v: Vec<u32>| v@ == args && #[trigger] call_ensures(eval, (id, &v), result)
}

/// The arguments of a call on a binding row.
pub fn step_args<R: Row>(step: &PrimStep, row: &R) -> (args: Vec<u32>)
    ensures
        args@ == step_arg_vals(step.args@, row.cols()),
{
    let mut out: Vec<u32> = Vec::with_capacity(step.args.len());
    for i in 0..step.args.len()
        invariant
            out@ =~= step_arg_vals(step.args@, row.cols()).take(i as int),
    {
        let v: u32 = match step.args[i] {
            ArgSrc::Col(c) => get_col(row, c),
            ArgSrc::Const(v) => v,
        };
        out.push(v);
    }
    assert(step_arg_vals(step.args@, row.cols()).take(step.args@.len() as int) =~= step_arg_vals(
        step.args@,
        row.cols(),
    ));
    out
}

/// What a call's result makes of a binding row.
pub fn step_result<R: Row>(step: &PrimStep, row: &R, result: Option<u32>) -> (r: Option<R>)
    ensures
        match step_outcome(step.ret, row.cols(), result) {
            None => r is None,
            Some(cols) => r matches Some(out) && out.cols() == cols,
        },
{
    proof {
        row.lemma_width();
    }
    match result {
        None => None,
        Some(v) => match step.ret {
            PrimRet::Bind(c) => Some(set_col(*row, c, v)),
            PrimRet::AssertCol(c) => if get_col(row, c) == v {
                Some(*row)
            } else {
                None
            },
            PrimRet::AssertConst(k) => if k == v {
                Some(*row)
            } else {
                None
            },
        },
    }
}

/// Calls a primitive on a binding row.
pub fn apply_step<R: Row, F: Fn(ExternalFunctionId, &Vec<u32>) -> Option<u32>>(
    step: &PrimStep,
    row: &R,
    eval: &F,
) -> (r: Option<R>)
    requires
        forall|v: Vec<u32>| #[trigger] call_requires(*eval, (step.id, &v)),
    ensures
        exists|result: Option<u32>|
            #![trigger step_outcome(step.ret, row.cols(), result)]
            may_answer(*eval, step.id, step_arg_vals(step.args@, row.cols()), result) && match step_outcome(
                step.ret,
                row.cols(),
                result,
            ) {
                None => r is None,
                Some(cols) => r matches Some(out) && out.cols() == cols,
            },
{
    let args = step_args(step, row);
    let result: Option<u32> = eval(step.id, &args);
    assert(may_answer(*eval, step.id, step_arg_vals(step.args@, row.cols()), result));
    let r = step_result(step, row, result);
    assert(match step_outcome(step.ret, row.cols(), result) {
        None => r is None,
        Some(cols) => r matches Some(out) && out.cols() == cols,
    });
    r
}

// ---------------------------------------------------------------------------
// One circuit for a set of rules
// ---------------------------------------------------------------------------

/// The most variables that one of the plans has.
pub open spec fn most_vars(plans: Seq<(usize, JoinPlan)>) -> int
    decreases plans.len(),
{
    if plans.len() == 0 {
        0
    } else {
        let m = most_vars(plans.drop_last());
        let n = plans.last().1.var_order@.len() as int;
        if n > m {
            n
        } else {
            m
        }
    }
}

/// The row width for a set of plans: the smallest bucket that holds the variables
/// of each.
pub fn fused_width(plans: &Vec<(usize, JoinPlan)>) -> (w: usize)
    ensures
        w == bucket(most_vars(plans@)),
{
    let mut needed: usize = 0;
    let n: usize = plans.len();
    for i in 0..n
        invariant
            n == plans@.len(),
            needed == most_vars(plans@.take(i as int)),
    {
        assert(plans@.take(i + 1).drop_last() =~= plans@.take(i as int));
        assert(plans@.take(i + 1).last() == plans@[i as int]);
        let m: usize = plans[i].1.var_order.len();
        if m > needed {
            needed = m;
        }
    }
    assert(plans@.take(n as int) =~= plans@);
    pick_width(needed)
}

/// The functions that a set of plans reads, each once, in order of first use.
pub open spec fn read_funcs(plans: Seq<(usize, JoinPlan)>) -> Seq<FunctionId>
    decreases plans.len(),
{
    if plans.len() == 0 {
        Seq::empty()
    } else {
        add_funcs(read_funcs(plans.drop_last()), plans.last().1.atoms@)
    }
}

/// The functions with those of more atoms at the end, unless they are there.
pub open spec fn add_funcs(funcs: Seq<FunctionId>, atoms: Seq<AtomPlan>) -> Seq<FunctionId>
    decreases atoms.len(),
{
    if atoms.len() == 0 {
        funcs
    } else {
        let before = add_funcs(funcs, atoms.drop_last());
        if before.contains(atoms.last().func) {
            before
        } else {
            before.push(atoms.last().func)
        }
    }
}

/// The functions that a set of plans reads, each once, in order of first use.
pub fn fused_funcs(plans: &Vec<(usize, JoinPlan)>) -> (funcs: Vec<FunctionId>)
    ensures
        funcs@ == read_funcs(plans@),
{
    let mut funcs: Vec<FunctionId> = Vec::new();
    assert(plans@.take(0) =~= Seq::empty());
    for i in 0..plans.len()
        invariant
            funcs@ == read_funcs(plans@.take(i as int)),
    {
        let ghost upto = plans@.take(i + 1);
        assert(upto.drop_last() =~= plans@.take(i as int));
        assert(upto.last() == plans@[i as int]);
        let atoms = &plans[i].1.atoms;
        let ghost funcs0 = funcs@;
        assert(atoms@.take(0) =~= Seq::empty());
        for j in 0..atoms.len()
            invariant
                funcs@ == add_funcs(funcs0, atoms@.take(j as int)),
        {
            let ghost some = atoms@.take(j + 1);
            assert(some.drop_last() =~= atoms@.take(j as int));
            assert(some.last() == atoms@[j as int]);
            let f = atoms[j].func;
            if !contains_func(&funcs, f) {
                funcs.push(f);
            }
        }
        assert(atoms@.take(atoms@.len() as int) =~= atoms@);
    }
    assert(plans@.take(plans@.len() as int) =~= plans@);
    funcs
}

/// Whether a list of functions contains one.
pub fn contains_func(v: &Vec<FunctionId>, x: FunctionId) -> (b: bool)
    ensures
        b == v@.contains(x),
{
    for i in 0..v.len()
        invariant
            forall|j: int| 0 <= j < i ==> v@[j] != x,
    {
        if v[i] == x {
            assert(v@[i as int] == x);
            return true;
        }
    }
    false
}

/// Whether a plan reads one of the functions.
pub open spec fn reads_some(plan: &JoinPlan, funcs: Seq<FunctionId>) -> bool {
    exists|i: int| 0 <= i < plan.atoms@.len() && funcs.contains((#[trigger] plan.atoms@[i]).func)
}

/// Which plans are driven by changes of `funcs` alone: those that read one of them. What such a plan
/// gives for the changes of other functions is left out.
pub fn late_plans(plans: &Vec<(usize, JoinPlan)>, funcs: &Vec<FunctionId>) -> (late: Vec<bool>)
    ensures
        late@.len() == plans@.len(),
        forall|i: int|
            0 <= i < late@.len() ==> #[trigger] late@[i] == reads_some(&plans@[i].1, funcs@),
{
    let mut late: Vec<bool> = Vec::with_capacity(plans.len());
    for i in 0..plans.len()
        invariant
            late@.len() == i,
            forall|k: int|
                0 <= k < i ==> #[trigger] late@[k] == reads_some(&plans@[k].1, funcs@),
    {
        let plan = &plans[i].1;
        let mut b = false;
        for j in 0..plan.atoms.len()
            invariant
                b <==> exists|k: int|
                    0 <= k < j && funcs@.contains((#[trigger] plan.atoms@[k]).func),
        {
            if contains_func(funcs, plan.atoms[j].func) {
                b = true;
                assert(funcs@.contains(plan.atoms@[j as int].func));
            }
        }
        late.push(b);
    }
    late
}

/// Which changes a circuit is fed after the others: those of `funcs`.
pub fn late_deltas(
    deltas: &Vec<(FunctionId, Vec<(Vec<u32>, i64)>)>,
    funcs: &Vec<FunctionId>,
) -> (late: Vec<bool>)
    ensures
        late@.len() == deltas@.len(),
        forall|i: int|
            0 <= i < late@.len() ==> #[trigger] late@[i] == funcs@.contains(deltas@[i].0),
{
    let mut late: Vec<bool> = Vec::with_capacity(deltas.len());
    for i in 0..deltas.len()
        invariant
            late@.len() == i,
            forall|k: int|
                0 <= k < i ==> #[trigger] late@[k] == funcs@.contains(deltas@[k].0),
    {
        late.push(contains_func(funcs, deltas[i].0));
    }
    late
}

/// The first `n_vars` columns of a binding row.
pub fn read_binding<R: Row>(row: &R, n_vars: usize) -> (v: Vec<u32>)
    ensures
        v@ == Seq::new(n_vars as nat, |i: int| col(row.cols(), i)),
{
    let mut v: Vec<u32> = Vec::with_capacity(n_vars);
    for i in 0..n_vars
        invariant
            v@ =~= Seq::new(i as nat, |k: int| col(row.cols(), k)),
    {
        v.push(get_col(row, i));
    }
    v
}

/// The weights of bindings, added up over the steps of one run.
#[derive(Debug)]
pub struct BindingDelta {
    weights: WeightMap,
}

impl BindingDelta {
    /// The weight of a binding; zero for one that was never added.
    pub closed spec fn weight(&self, k: Seq<u32>) -> int {
        if self.weights@.contains_key(k) {
            self.weights@[k] as int
        } else {
            0
        }
    }

    /// No weights.
    pub fn new() -> (d: BindingDelta)
        ensures
            forall|k: Seq<u32>| #[trigger] d.weight(k) == 0,
    {
        BindingDelta { weights: WeightMap::new() }
    }

    /// Adds to the weight of a binding. Where the sum leaves the range of a weight,
    /// nothing is added and `false` is returned.
    pub fn add_weight(&mut self, binding: Vec<u32>, w: i64) -> (ok: bool)
        ensures
            ok <==> i64::MIN <= old(self).weight(binding@) + w <= i64::MAX,
            forall|k: Seq<u32>| #[trigger]
                final(self).weight(k) == (if ok && k == binding@ {
                    old(self).weight(k) + w
                } else {
                    old(self).weight(k)
                }),
    {
        let have: i64 = match self.weights.get(&binding) {
            Some(x) => x,
            None => 0,
        };
        match have.checked_add(w) {
            Some(sum) => {
                self.weights.insert(binding, sum);
                true
            },
            None => false,
        }
    }

    /// The bindings whose weight is not zero, each once.
    pub fn into_changes(self) -> (out: Vec<(Vec<u32>, i64)>)
        ensures
            weighted_views(out@).no_duplicates(),
            forall|k: Seq<u32>, w: i64|
                #![trigger weighted_views(out@).contains((k, w))]
                weighted_views(out@).contains((k, w)) <==> w != 0 && self.weight(k) == w,
    {
        let all = self.weights.into_entries();
        let ghost av = weighted_views(all@);
        let mut out: Vec<(Vec<u32>, i64)> = Vec::new();
        let mut rest = all;
        let ghost mut done: int = 0;
        while rest.len() > 0
            invariant
                av.no_duplicates(),
                0 <= done <= av.len(),
                weighted_views(rest@) =~= av.take(av.len() - done),
                weighted_views(out@).no_duplicates(),
                forall|x: (Seq<u32>, i64)| #[trigger]
                    weighted_views(out@).contains(x) <==> x.1 != 0 && exists|i: int|
                        av.len() - done <= i < av.len() && #[trigger] av[i] == x,
            decreases rest@.len(),
        {
            let ghost rest0 = rest@;
            let ghost out0 = weighted_views(out@);
            let ghost at = av.len() - done - 1;
            assert(weighted_views(rest@).len() == rest@.len());
            match rest.pop() {
                Some((k, w)) => {
                    let ghost x = (k@, w);
                    proof {
                        assert(weighted_views(rest0)[rest0.len() - 1] == x);
                        assert(av[at] == x);
                        assert(weighted_views(rest@) =~= weighted_views(rest0).drop_last());
                    }
                    if w != 0 {
                        proof {
                            if out0.contains(x) {
                                let i = choose|i: int|
                                    av.len() - done <= i < av.len() && #[trigger] av[i] == x;
                                assert(false);
                            }
                        }
                        out.push((k, w));
                        proof {
                            assert(weighted_views(out@) =~= out0.push(x));
                            crate::feldera::expr::lemma_push_contains(out0, x);
                        }
                    }
                    proof {
                        assert forall|y: (Seq<u32>, i64)| #[trigger]
                            weighted_views(out@).contains(y) <==> y.1 != 0 && exists|i: int|
                                av.len() - (done + 1) <= i < av.len() && #[trigger] av[i] == y by {
                            if out0.contains(y) {
                                let i = choose|i: int|
                                    av.len() - done <= i < av.len() && #[trigger] av[i] == y;
                                assert(av[i] == y);
                            }
                            if y.1 != 0 && exists|i: int|
                                av.len() - (done + 1) <= i < av.len() && #[trigger] av[i] == y {
                                let i = choose|i: int|
                                    av.len() - (done + 1) <= i < av.len() && #[trigger] av[i] == y;
                                if i > at {
                                    assert(out0.contains(y));
                                } else {
                                    assert(y == x);
                                }
                            }
                        }
                        done = done + 1;
                    }
                },
                None => {},
            }
        }
        proof {
            assert(weighted_views(rest@).len() == 0);
            assert forall|k: Seq<u32>, w: i64|
                #![trigger weighted_views(out@).contains((k, w))]
                weighted_views(out@).contains((k, w)) <==> w != 0 && self.weight(k) == w by {
                if av.contains((k, w)) {
                    let i = choose|i: int| 0 <= i < av.len() && av[i] == (k, w);
                    assert(av[i] == (k, w));
                }
            }
        }
        out
    }
}

} // verus!
