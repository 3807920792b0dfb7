//! Which primitives are decided on representations.
use crate::backend::{ColumnTy, FunctionId};
use crate::feldera::compile::{BodyOp, Slot};
use crate::feldera::egraph::EgState;
use crate::feldera::expr::RepKind;
use crate::feldera::plan::{
    atom_kinds, col_kind, inlinable, mode_of, op_of, operand_kind, orders, see_kinds,
};
use vstd::prelude::*;
use vstd::string::*;

verus! {

/// Whether a variable stands in a column of ids, in some atom of a body.
pub open spec fn is_id(s: EgState, body: Seq<BodyOp>, v: u32) -> bool {
    exists|i: int, c: int|
        #![trigger stands_at(body, i, c, v)]
        stands_at(body, i, c, v) && column_of(s, body[i], c) == Some(ColumnTy::Id)
}

/// Whether a variable stands, in some atom of a body, in a column whose values have one representation
/// each: an id, a truth value, an integer or a string.
pub open spec fn is_comparable(s: EgState, body: Seq<BodyOp>, v: u32) -> bool {
    exists|i: int, c: int|
        #![trigger stands_at(body, i, c, v)]
        stands_at(body, i, c, v) && match column_of(s, body[i], c) {
            Some(ColumnTy::Id) => true,
            Some(ColumnTy::Base(b)) => s.base.boolean == Some(b) || s.base.int == Some(b)
                || s.base.string == Some(b),
            None => false,
        }
}

/// Whether a variable stands in a column of an atom.
pub open spec fn stands_at(body: Seq<BodyOp>, i: int, c: int, v: u32) -> bool {
    0 <= i < body.len() && (body[i] matches BodyOp::Atom(a) && 0 <= c < a.slots@.len() && a.slots@[c]
        == Slot::Var(v))
}

/// The type of an atom's column.
pub open spec fn column_of(s: EgState, op: BodyOp, c: int) -> Option<ColumnTy> {
    match op {
        BodyOp::Atom(a) => s.col_ty(a.func.rep, c),
        _ => None,
    }
}

/// Whether an operation is a primitive with a name.
pub open spec fn is_named(s: EgState, op: BodyOp, name: Seq<char>) -> bool {
    op matches BodyOp::Prim { id, args, ret } && s.name_of(id.rep) == Some(name)
}

/// Whether an operation orders its operands.
pub open spec fn is_ordering(s: EgState, op: BodyOp) -> bool {
    is_named(s, op, "ordering-min"@) || is_named(s, op, "ordering-max"@)
}

/// Whether a variable is the result of a primitive before a place of the body.
pub open spec fn is_result(s: EgState, body: Seq<BodyOp>, n: int, v: u32, ordering: bool) -> bool {
    exists|j: int|
        0 <= j < n && j < body.len() && ((#[trigger] body[j]) matches BodyOp::Prim { id, args, ret }
            && ret == Slot::Var(v)) && (ordering ==> is_ordering(s, body[j]))
}

proof fn lemma_orders(s: EgState, op: BodyOp)
    ensures
        op matches BodyOp::Prim { id, args, ret } ==> (orders(op_of(s, id)) <==> is_ordering(s, op)),
{
    if let BodyOp::Prim { id, args, ret } = op {
        reveal_strlit("!=");
        reveal_strlit("bool-!=");
        reveal_strlit("or");
        reveal_strlit("guard");
        reveal_strlit("ordering-min");
        reveal_strlit("ordering-max");
        assert("!="@.len() == 2 && "bool-!="@.len() == 7 && "guard"@.len() == 5);
        assert("ordering-min"@.len() == 12 && "ordering-max"@.len() == 12 && "or"@.len() == 2);
        assert("ordering-min"@[10] == 'i' && "ordering-max"@[10] == 'a');
    }
}

/// What is known of a kind, by the atoms of a body.
spec fn kinds_seen(s: EgState, kinds: Map<u32, RepKind>, body: Seq<BodyOp>) -> bool {
    forall|v: u32| #[trigger]
        kinds.contains_key(v) ==> is_comparable(s, body, v) && (kinds[v] == RepKind::Order ==> is_id(
            s,
            body,
            v,
        ))
}

proof fn lemma_slots(
    s: EgState,
    kinds: Map<u32, RepKind>,
    body: Seq<BodyOp>,
    i: int,
    f: FunctionId,
    slots: Seq<Slot>,
)
    requires
        kinds_seen(s, kinds, body),
        0 <= i < body.len(),
        body[i] matches BodyOp::Atom(a) && a.func == f && slots.is_prefix_of(a.slots@),
    ensures
        kinds_seen(s, see_kinds(s, kinds, f, slots), body),
    decreases slots.len(),
{
    if slots.len() > 0 {
        let less = slots.drop_last();
        let c = slots.len() - 1;
        if let BodyOp::Atom(a) = body[i] {
            assert(slots =~= a.slots@.take(slots.len() as int));
            assert(less =~= a.slots@.take(less.len() as int));
            assert(a.slots@[c] == slots.last());
            lemma_slots(s, kinds, body, i, f, less);
            if let Slot::Var(v) = slots.last() {
                assert(stands_at(body, i, c, v));
                let before = see_kinds(s, kinds, f, less);
                let after = see_kinds(s, kinds, f, slots);
                assert(column_of(s, body[i], c) == s.col_ty(f.rep, c));
                assert forall|x: u32| #[trigger] after.contains_key(x) implies is_comparable(
                    s,
                    body,
                    x,
                ) && (after[x] == RepKind::Order ==> is_id(s, body, x)) by {
                    if x != v {
                        assert(before.contains_key(x) && after[x] == before[x]);
                    } else {
                        match col_kind(s, f, c) {
                            Some(RepKind::Order) => {
                                assert(is_id(s, body, v));
                                assert(is_comparable(s, body, v));
                            },
                            Some(RepKind::Equality) => {
                                assert(is_comparable(s, body, v));
                                if before.contains_key(v) {
                                    assert(after[v] == before[v]);
                                }
                            },
                            None => {
                                assert(before.contains_key(v));
                            },
                        }
                    }
                }
            }
        }
    }
}

proof fn lemma_kinds(s: EgState, body: Seq<BodyOp>, n: int)
    requires
        0 <= n <= body.len(),
    ensures
        kinds_seen(s, atom_kinds(s, body.take(n)), body),
    decreases n,
{
    if n > 0 {
        lemma_kinds(s, body, n - 1);
        let part = body.take(n);
        assert(part.drop_last() =~= body.take(n - 1));
        assert(part.last() == body[n - 1]);
        if let BodyOp::Atom(a) = body[n - 1] {
            assert(a.slots@.take(a.slots@.len() as int) =~= a.slots@);
            lemma_slots(s, atom_kinds(s, body.take(n - 1)), body, n - 1, a.func, a.slots@);
        }
    } else {
        assert(body.take(0) =~= Seq::empty());
    }
}

/// What is known of the results of primitives.
spec fn results_seen(s: EgState, prim_kinds: Map<u32, RepKind>, body: Seq<BodyOp>, n: int) -> bool {
    forall|v: u32| #[trigger]
        prim_kinds.contains_key(v) ==> is_result(s, body, n, v, false) && (prim_kinds[v]
            == RepKind::Order ==> is_result(s, body, n, v, true))
}

proof fn lemma_mode(s: EgState, kinds: Map<u32, RepKind>, body: Seq<BodyOp>, n: int)
    requires
        0 <= n <= body.len(),
        mode_of(s, kinds, body) matches Ok(m) && !m.calls,
    ensures
        mode_of(s, kinds, body.take(n)) matches Ok(m) && !m.calls && results_seen(
            s,
            m.prim_kinds,
            body,
            n,
        ),
    decreases n,
{
    lemma_mode_before(s, kinds, body, n);
    let m = mode_of(s, kinds, body.take(n))->Ok_0;
    if n == 0 {
        assert(body.take(0) =~= Seq::empty());
    } else {
        lemma_mode(s, kinds, body, n - 1);
        let part = body.take(n);
        assert(part.drop_last() =~= body.take(n - 1));
        assert(part.last() == body[n - 1]);
        let m0 = mode_of(s, kinds, body.take(n - 1))->Ok_0;
        assert forall|v: u32| #[trigger] m.prim_kinds.contains_key(v) implies is_result(
            s,
            body,
            n,
            v,
            false,
        ) && (m.prim_kinds[v] == RepKind::Order ==> is_result(s, body, n, v, true)) by {
            let own = body[n - 1] matches BodyOp::Prim { id, args, ret } && ret == Slot::Var(v);
            if own {
                lemma_orders(s, body[n - 1]);
                assert(is_result(s, body, n, v, false));
                if m.prim_kinds[v] == RepKind::Order {
                    assert(is_ordering(s, body[n - 1]));
                    assert(is_result(s, body, n, v, true));
                }
            } else {
                assert(m0.prim_kinds.contains_key(v) && m.prim_kinds[v] == m0.prim_kinds[v]);
                lemma_result_stays(s, body, n - 1, v, false);
                if m.prim_kinds[v] == RepKind::Order {
                    lemma_result_stays(s, body, n - 1, v, true);
                }
            }
        }
    }
}

proof fn lemma_result_stays(s: EgState, body: Seq<BodyOp>, n: int, v: u32, ordering: bool)
    requires
        is_result(s, body, n, v, ordering),
    ensures
        is_result(s, body, n + 1, v, ordering),
{
    let j = choose|j: int|
        0 <= j < n && j < body.len() && ((#[trigger] body[j]) matches BodyOp::Prim { id, args, ret }
            && ret == Slot::Var(v)) && (ordering ==> is_ordering(s, body[j]));
    assert(0 <= j < n + 1 && j < body.len());
    assert(body[j] is Prim);
}

proof fn lemma_mode_before(s: EgState, kinds: Map<u32, RepKind>, body: Seq<BodyOp>, n: int)
    requires
        0 <= n <= body.len(),
        mode_of(s, kinds, body) matches Ok(m) && !m.calls,
    ensures
        mode_of(s, kinds, body.take(n)) matches Ok(m) && !m.calls,
    decreases body.len() - n,
{
    if n == body.len() {
        assert(body.take(n) =~= body);
    } else {
        lemma_mode_before(s, kinds, body, n + 1);
        assert(body.take(n + 1).drop_last() =~= body.take(n));
    }
}

/// A body whose primitives are decided on representations orders only ids: each operand of
/// `ordering-min` and `ordering-max` is a variable in a column of ids, or the result of such a primitive
/// before it. Any other operand is a constant, a variable in a column whose values have one
/// representation each, or the result of a primitive before it.
pub proof fn only_ids_are_ordered_by_representation(s: EgState, body: Seq<BodyOp>, i: int, k: int)
    requires
        mode_of(s, atom_kinds(s, body), body) matches Ok(m) && !m.calls,
        0 <= i < body.len(),
        body[i] matches BodyOp::Prim { id, args, ret } && 0 <= k < args@.len(),
    ensures
        body[i] matches BodyOp::Prim { id, args, ret } && match args@[k] {
            Slot::Const(_) => !is_ordering(s, body[i]),
            Slot::Var(v) => if is_ordering(s, body[i]) {
                is_id(s, body, v) || is_result(s, body, i, v, true)
            } else {
                is_comparable(s, body, v) || is_result(s, body, i, v, false)
            },
        },
{
    let kinds = atom_kinds(s, body);
    lemma_mode(s, kinds, body, i);
    lemma_mode_before(s, kinds, body, i + 1);
    assert(body.take(i + 1).drop_last() =~= body.take(i));
    assert(body.take(i + 1).last() == body[i]);
    lemma_kinds(s, body, body.len() as int);
    assert(body.take(body.len() as int) =~= body);
    lemma_orders(s, body[i]);
    let m = mode_of(s, kinds, body.take(i))->Ok_0;
    if let BodyOp::Prim { id, args, ret } = body[i] {
        assert(inlinable(op_of(s, id), args@, m.prim_kinds, kinds));
        let kind = operand_kind(args@[k], m.prim_kinds, kinds);
        assert(kind is Some);
    }
}

} // verus!
