//! What a planned body means.
//!
//! A rule's body is a list of conditions on the values of its variables. The laws here say that a
//! plan's matches are just the values under which they all hold, each primitive by its name.
use crate::backend::ExternalFunctionId;
use crate::feldera::compile::{BodyOp, RuleIr, Slot};
use crate::feldera::egraph::EgState;
use crate::feldera::expr::RepKind;
use crate::feldera::join::{atom_holds, picks, solves, step_arg_vals};
use crate::feldera::matches::{after_steps, is_match, Answers, RowsOf};
use crate::feldera::plan::{
    arg_src, atom_kinds, atom_order, atom_views, atoms_of, bad_cond, lemma_atom_order, lower,
    lower_op, mode_of, occurs, op_of, plan_is, plan_of, some_cond, step_views, val_of, vars_in,
    ArgSrc, JoinPlan, Lowered, PrimOp, StepView,
};
use crate::feldera::row::{col, JOIN_WIDTH};
use vstd::prelude::*;
use vstd::string::*;

verus! {

/// Values for the variables of a body: a representation each, and for the results of tests whether
/// they hold.
pub struct Valuation {
    pub val: spec_fn(u32) -> u32,
    pub truth: spec_fn(u32) -> bool,
}

impl Valuation {
    /// The value of a slot.
    pub open spec fn at(self, slot: Slot) -> u32 {
        match slot {
            Slot::Const(c) => c,
            Slot::Var(v) => (self.val)(v),
        }
    }

    /// Whether the variable of a slot holds as a test.
    pub open spec fn holds(self, slot: Slot) -> bool {
        match slot {
            Slot::Const(_) => false,
            Slot::Var(v) => (self.truth)(v),
        }
    }
}

/// What a primitive of the given name says of its arguments and its result.
pub open spec fn says(name: Seq<char>, args: Seq<Slot>, ret: Slot, m: Valuation) -> bool {
    let a = m.at(args[0]);
    let b = m.at(args[1]);
    let c = m.at(ret);
    &&& name == "!="@ ==> args.len() == 2 && a != b
    &&& name == "bool-!="@ ==> args.len() == 2 && ret is Var && m.holds(ret) == (a != b)
    &&& name == "or"@ ==> ret is Var && m.holds(ret) == exists|i: int|
        0 <= i < args.len() && m.holds(#[trigger] args[i])
    &&& name == "guard"@ ==> args.len() == 1 && m.holds(args[0])
    &&& name == "ordering-min"@ ==> args.len() == 2 && c <= a && c <= b && (c == a || c == b)
    &&& name == "ordering-max"@ ==> args.len() == 2 && c >= a && c >= b && (c == a || c == b)
}

/// Whether a condition of a body holds. An atom holds where some row of its function has the values
/// of its slots.
pub open spec fn condition_holds(s: EgState, rows: RowsOf, op: BodyOp, m: Valuation) -> bool {
    match op {
        BodyOp::Atom(a) => exists|row: Seq<u32>| #[trigger]
            rows(a.func).contains(row) && forall|p: int|
                0 <= p < a.slots@.len() ==> col(row, p) == m.at(#[trigger] a.slots@[p]),
        BodyOp::Prim { id, args, ret } => s.name_of(id.rep) matches Some(n) && says(
            n,
            args@,
            ret,
            m,
        ),
        BodyOp::Differ(l, r) => m.at(l) != m.at(r),
    }
}

/// Whether values are those of a binding row.
pub open spec fn fits_row(m: Valuation, order: Seq<u32>, x: Seq<u32>) -> bool {
    forall|i: int| 0 <= i < order.len() ==> (m.val)(#[trigger] order[i]) == col(x, i)
}

/// Whether an operation computes a test.
pub open spec fn is_test(s: EgState, op: BodyOp) -> bool {
    op matches BodyOp::Prim { id, args, ret } && (s.name_of(id.rep) == Some("bool-!="@) || s.name_of(
        id.rep,
    ) == Some("or"@))
}

/// The result of a primitive.
pub open spec fn result_slot(op: BodyOp) -> Slot {
    match op {
        BodyOp::Prim { id, args, ret } => ret,
        _ => Slot::Const(0),
    }
}

/// Whether each test has a result variable of its own.
pub open spec fn tests_apart(s: EgState, body: Seq<BodyOp>) -> bool {
    forall|i: int, j: int|
        #![trigger body[i], body[j]]
        0 <= i < j < body.len() && is_test(s, body[i]) && is_test(s, body[j]) ==> result_slot(
            body[i],
        ) != result_slot(body[j])
}

proof fn lemma_names(s: EgState, id: ExternalFunctionId)
    ensures
        op_of(s, id) == PrimOp::Ne <==> s.name_of(id.rep) == Some("!="@),
        op_of(s, id) == PrimOp::BoolNe <==> s.name_of(id.rep) == Some("bool-!="@),
        op_of(s, id) == PrimOp::Or <==> s.name_of(id.rep) == Some("or"@),
        op_of(s, id) == PrimOp::Guard <==> s.name_of(id.rep) == Some("guard"@),
        op_of(s, id) == PrimOp::OrdMin <==> s.name_of(id.rep) == Some("ordering-min"@),
        op_of(s, id) == PrimOp::OrdMax <==> s.name_of(id.rep) == Some("ordering-max"@),
{
    reveal_strlit("!=");
    reveal_strlit("bool-!=");
    reveal_strlit("or");
    reveal_strlit("guard");
    reveal_strlit("ordering-min");
    reveal_strlit("ordering-max");
    assert("!="@[0] == '!' && "or"@[0] == 'o');
    assert("ordering-min"@[10] == 'i' && "ordering-max"@[10] == 'a');
    assert("!="@.len() == 2 && "bool-!="@.len() == 7 && "guard"@.len() == 5);
    assert("ordering-min"@.len() == 12 && "ordering-max"@.len() == 12 && "or"@.len() == 2);
}

/// Whether what has been planned agrees with values on a row.
spec fn agrees(st: Lowered, m: Valuation, x: Seq<u32>) -> bool {
    &&& forall|v: u32| #[trigger] st.vals.contains_key(v) ==> (st.vals[v])(x) == (m.val)(v)
    &&& forall|v: u32| #[trigger] st.conds.contains_key(v) ==> (st.conds[v])(x) == (m.truth)(v)
}

spec fn all_pass(guards: Seq<spec_fn(Seq<u32>) -> bool>, x: Seq<u32>) -> bool {
    forall|i: int| 0 <= i < guards.len() ==> (#[trigger] guards[i])(x)
}

proof fn lemma_pass_push(
    guards: Seq<spec_fn(Seq<u32>) -> bool>,
    g: spec_fn(Seq<u32>) -> bool,
    x: Seq<u32>,
)
    ensures
        all_pass(guards.push(g), x) <==> all_pass(guards, x) && g(x),
{
    let more = guards.push(g);
    if all_pass(more, x) {
        assert forall|i: int| 0 <= i < guards.len() implies (#[trigger] guards[i])(x) by {
            assert((more[i])(x));
        }
        assert((more[guards.len() as int])(x));
    }
    if all_pass(guards, x) && g(x) {
        assert forall|i: int| 0 <= i < more.len() implies (#[trigger] more[i])(x) by {
            if i < guards.len() {
                assert((guards[i])(x));
            }
        }
    }
}

/// The value of an operand, where it can be had, is that of the valuation.
proof fn lemma_val(
    st: Lowered,
    kinds: Map<u32, RepKind>,
    slot: Slot,
    need: bool,
    m: Valuation,
    x: Seq<u32>,
)
    requires
        agrees(st, m, x),
        fits_row(m, st.order, x),
    ensures
        val_of(st, kinds, slot, need) matches Some(f) ==> f(x) == m.at(slot),
        crate::feldera::plan::rep_of(st, slot) matches Some(f) ==> f(x) == m.at(slot),
{
    if let Slot::Var(v) = slot {
        if st.order.contains(v) {
            let i = st.order.index_of(v);
            assert(0 <= i < st.order.len() && st.order[i] == v);
        }
    }
}

proof fn lemma_bad_cond(
    conds: Map<u32, spec_fn(Seq<u32>) -> bool>,
    op: PrimOp,
    args: Seq<Slot>,
    i: int,
)
    requires
        bad_cond(conds, op, args) is None,
        0 <= i < args.len(),
    ensures
        args[i] matches Slot::Var(v) && conds.contains_key(v),
    decreases args.len(),
{
    if i < args.len() - 1 {
        lemma_bad_cond(conds, op, args.drop_last(), i);
        assert(args.drop_last()[i] == args[i]);
    }
}

/// One more primitive: what it says of the values, and what is planned for it, come to the same.
proof fn lemma_step(
    s: EgState,
    rows: RowsOf,
    kinds: Map<u32, RepKind>,
    st: Lowered,
    op: BodyOp,
    st2: Lowered,
    m: Valuation,
    x: Seq<u32>,
)
    requires
        lower_op(s, kinds, false, st, op) == Ok::<_, crate::feldera::plan::Ineligible>(st2),
        fits_row(m, st.order, x),
        agrees(st, m, x),
        is_test(s, op) ==> (result_slot(op) matches Slot::Var(v) ==> !st.conds.contains_key(v)),
    ensures
        !(op is Atom) ==> ((condition_holds(s, rows, op, m) && all_pass(st.guards, x)) <==> (agrees(
            st2,
            m,
            x,
        ) && all_pass(st2.guards, x))),
        op is Atom ==> agrees(st2, m, x) && st2.guards == st.guards,
        st2.order == st.order,
        forall|v: u32| #[trigger]
            st.vals.contains_key(v) ==> st2.vals.contains_key(v) && st2.vals[v] == st.vals[v],
        forall|v: u32| #[trigger]
            st.conds.contains_key(v) ==> st2.conds.contains_key(v) && st2.conds[v] == st.conds[v],
        forall|v: u32| #[trigger]
            st2.conds.contains_key(v) ==> st.conds.contains_key(v) || (is_test(s, op)
                && result_slot(op) == Slot::Var(v)),
{
    match op {
        BodyOp::Atom(a) => {},
        BodyOp::Differ(l, r) => {
            lemma_val(st, kinds, l, false, m, x);
            lemma_val(st, kinds, r, false, m, x);
            let fa = crate::feldera::plan::rep_of(st, l)->0;
            let fb = crate::feldera::plan::rep_of(st, r)->0;
            let g = |row: Seq<u32>| fa(row) != fb(row);
            lemma_pass_push(st.guards, g, x);
            assert(st2.guards == st.guards.push(g));
        },
        BodyOp::Prim { id, args, ret } => {
            lemma_names(s, id);
            let o = op_of(s, id);
            let a = args@;
            match o {
                PrimOp::Ne => {
                    lemma_val(st, kinds, a[0], false, m, x);
                    lemma_val(st, kinds, a[1], false, m, x);
                    let fa = val_of(st, kinds, a[0], false)->0;
                    let fb = val_of(st, kinds, a[1], false)->0;
                    let g = |row: Seq<u32>| fa(row) != fb(row);
                    lemma_pass_push(st.guards, g, x);
                    assert(st2.guards == st.guards.push(g));
                    lemma_says(s.name_of(id.rep)->0, o);
                },
                PrimOp::BoolNe => {
                    lemma_val(st, kinds, a[0], false, m, x);
                    lemma_val(st, kinds, a[1], false, m, x);
                    let rv = ret->Var_0;
                    lemma_says(s.name_of(id.rep)->0, o);
                    assert((st2.conds[rv])(x) == (m.at(a[0]) != m.at(a[1])));
                    assert(st2.conds.remove(rv) =~= st.conds);
                    lemma_cond_insert(st, st2, rv, m, x);
                },
                PrimOp::Or => {
                    let rv = ret->Var_0;
                    lemma_says(s.name_of(id.rep)->0, o);
                    assert(some_cond(st.conds, a)(x) == exists|i: int|
                        0 <= i < a.len() && m.holds(#[trigger] a[i])) by {
                        if some_cond(st.conds, a)(x) {
                            let i = choose|i: int|
                                0 <= i < a.len() && (#[trigger] a[i]) is Var && (
                                st.conds[a[i]->Var_0])(x);
                            lemma_bad_cond(st.conds, PrimOp::Or, a, i);
                            assert(m.holds(a[i]));
                        }
                        if exists|i: int| 0 <= i < a.len() && m.holds(#[trigger] a[i]) {
                            let i = choose|i: int| 0 <= i < a.len() && m.holds(#[trigger] a[i]);
                            lemma_bad_cond(st.conds, PrimOp::Or, a, i);
                            assert(a[i] is Var && (st.conds[a[i]->Var_0])(x));
                        }
                    }
                    assert((st2.conds[rv])(x) == some_cond(st.conds, a)(x));
                    assert(st2.conds.remove(rv) =~= st.conds);
                    lemma_cond_insert(st, st2, rv, m, x);
                },
                PrimOp::Guard => {
                    lemma_says(s.name_of(id.rep)->0, o);
                    let v = a[0]->Var_0;
                    lemma_pass_push(st.guards, st.conds[v], x);
                },
                PrimOp::OrdMin | PrimOp::OrdMax => {
                    lemma_says(s.name_of(id.rep)->0, o);
                    lemma_ordering(s, kinds, st, id, o, a, ret, st2, m, x);
                },
                PrimOp::Other => {},
            }
        },
    }
}

/// A name says nothing of other names.
proof fn lemma_says(name: Seq<char>, o: PrimOp)
    ensures
        name == "!="@ ==> name != "bool-!="@ && name != "or"@ && name != "guard"@ && name
            != "ordering-min"@ && name != "ordering-max"@,
        name == "bool-!="@ ==> name != "or"@ && name != "guard"@ && name != "ordering-min"@ && name
            != "ordering-max"@,
        name == "or"@ ==> name != "guard"@ && name != "ordering-min"@ && name != "ordering-max"@,
        name == "guard"@ ==> name != "ordering-min"@ && name != "ordering-max"@,
        name == "ordering-min"@ ==> name != "ordering-max"@,
{
    reveal_strlit("!=");
    reveal_strlit("bool-!=");
    reveal_strlit("or");
    reveal_strlit("guard");
    reveal_strlit("ordering-min");
    reveal_strlit("ordering-max");
    assert("!="@[0] == '!' && "or"@[0] == 'o');
    assert("ordering-min"@[10] == 'i' && "ordering-max"@[10] == 'a');
    assert("!="@.len() == 2 && "bool-!="@.len() == 7 && "guard"@.len() == 5);
    assert("ordering-min"@.len() == 12 && "ordering-max"@.len() == 12 && "or"@.len() == 2);
}

proof fn lemma_cond_insert(st: Lowered, st2: Lowered, rv: u32, m: Valuation, x: Seq<u32>)
    requires
        agrees(st, m, x),
        !st.conds.contains_key(rv),
        st2.conds.contains_key(rv),
        st2.conds.remove(rv) == st.conds,
        st2.vals == st.vals,
    ensures
        agrees(st2, m, x) <==> (st2.conds[rv])(x) == (m.truth)(rv),
        forall|v: u32| #[trigger]
            st.conds.contains_key(v) ==> st2.conds.contains_key(v) && st2.conds[v] == st.conds[v],
        forall|v: u32| #[trigger] st2.conds.contains_key(v) ==> st.conds.contains_key(v) || v == rv,
{
    assert forall|v: u32| #[trigger] st2.conds.contains_key(v) implies st.conds.contains_key(v) || v
        == rv by {
        if v != rv {
            assert(st2.conds.remove(rv).contains_key(v));
        }
    }
    assert forall|v: u32| #[trigger] st.conds.contains_key(v) implies st2.conds.contains_key(v)
        && st2.conds[v] == st.conds[v] by {
        assert(st2.conds.remove(rv).contains_key(v));
    }
    if (st2.conds[rv])(x) == (m.truth)(rv) {
        assert forall|v: u32| #[trigger] st2.conds.contains_key(v) implies (st2.conds[v])(x) == (
        m.truth)(v) by {
            if v != rv {
                assert(st.conds.contains_key(v));
            }
        }
    }
}

proof fn lemma_ordering(
    s: EgState,
    kinds: Map<u32, RepKind>,
    st: Lowered,
    id: ExternalFunctionId,
    o: PrimOp,
    a: Seq<Slot>,
    ret: Slot,
    st2: Lowered,
    m: Valuation,
    x: Seq<u32>,
)
    requires
        o == PrimOp::OrdMin || o == PrimOp::OrdMax,
        crate::feldera::plan::lower_inline(st, kinds, id, o, a, ret) == Ok::<
            _,
            crate::feldera::plan::Ineligible,
        >(st2),
        fits_row(m, st.order, x),
        agrees(st, m, x),
    ensures
        a.len() == 2,
        ({
            let (p, q, c) = (m.at(a[0]), m.at(a[1]), m.at(ret));
            let meant = if o == PrimOp::OrdMin {
                c <= p && c <= q && (c == p || c == q)
            } else {
                c >= p && c >= q && (c == p || c == q)
            };
            (meant && all_pass(st.guards, x)) <==> (agrees(st2, m, x) && all_pass(st2.guards, x))
        }),
        st2.order == st.order,
        st2.conds == st.conds,
        forall|v: u32| #[trigger]
            st.vals.contains_key(v) ==> st2.vals.contains_key(v) && st2.vals[v] == st.vals[v],
{
    lemma_val(st, kinds, a[0], true, m, x);
    lemma_val(st, kinds, a[1], true, m, x);
    lemma_val(st, kinds, ret, true, m, x);
    let fa = val_of(st, kinds, a[0], true)->0;
    let fb = val_of(st, kinds, a[1], true)->0;
    let e = |row: Seq<u32>|
        if o == PrimOp::OrdMin {
            crate::feldera::expr::min_rep(fa(row), fb(row))
        } else {
            crate::feldera::expr::max_rep(fa(row), fb(row))
        };
    match ret {
        Slot::Const(c) => {
            let g = |row: Seq<u32>| e(row) == c;
            lemma_pass_push(st.guards, g, x);
            assert(st2.guards == st.guards.push(g));
        },
        Slot::Var(rv) => {
            if st.order.contains(rv) {
                let r = val_of(st, kinds, ret, true)->0;
                let g = |row: Seq<u32>| e(row) == r(row);
                lemma_pass_push(st.guards, g, x);
                assert(st2.guards == st.guards.push(g));
            } else if st.vals.contains_key(rv) {
                let r = st.vals[rv];
                let g = |row: Seq<u32>| e(row) == r(row);
                lemma_pass_push(st.guards, g, x);
                assert(st2.guards == st.guards.push(g));
            } else {
                assert(st2.vals == st.vals.insert(rv, e));
                assert(st2.guards == st.guards);
                if e(x) == (m.val)(rv) {
                    assert forall|v: u32| #[trigger] st2.vals.contains_key(v) implies (st2.vals[v])(
                        x,
                    ) == (m.val)(v) by {
                        if v != rv {
                            assert(st.vals.contains_key(v));
                        }
                    }
                    assert(agrees(st2, m, x));
                } else {
                    assert(st2.vals.contains_key(rv));
                }
            }
        },
    }
}

/// Each test that has been planned is one of the body.
proof fn lemma_tests(s: EgState, kinds: Map<u32, RepKind>, order: Seq<u32>, body: Seq<BodyOp>)
    requires
        lower(s, kinds, false, order, body) is Ok,
    ensures
        forall|v: u32| #[trigger]
            (lower(s, kinds, false, order, body)->Ok_0).conds.contains_key(v) ==> exists|j: int|
                0 <= j < body.len() && is_test(s, #[trigger] body[j]) && result_slot(body[j])
                    == Slot::Var(v),
    decreases body.len(),
{
    if body.len() > 0 {
        let less = body.drop_last();
        lemma_tests(s, kinds, order, less);
        let st = lower(s, kinds, false, order, less)->Ok_0;
        let st2 = lower(s, kinds, false, order, body)->Ok_0;
        let op = body.last();
        let last = body.len() - 1;
        assert(body[last] == op);
        assert forall|v: u32| #[trigger] st2.conds.contains_key(v) implies exists|j: int|
            0 <= j < body.len() && is_test(s, #[trigger] body[j]) && result_slot(body[j])
                == Slot::Var(v) by {
            if st.conds.contains_key(v) {
                let j = choose|j: int|
                    0 <= j < less.len() && is_test(s, #[trigger] less[j]) && result_slot(less[j])
                        == Slot::Var(v);
                assert(body[j] == less[j]);
            } else {
                if let BodyOp::Prim { id, args, ret } = op {
                    lemma_names(s, id);
                }
                assert(is_test(s, body[last]) && result_slot(body[last]) == Slot::Var(v));
            }
        }
    }
}

/// A test's result variable is new.
proof fn lemma_new_test(
    s: EgState,
    kinds: Map<u32, RepKind>,
    order: Seq<u32>,
    body: Seq<BodyOp>,
    n: int,
)
    requires
        tests_apart(s, body),
        0 <= n < body.len(),
        lower(s, kinds, false, order, body.take(n)) is Ok,
        is_test(s, body[n]),
    ensures
        result_slot(body[n]) matches Slot::Var(v) ==> !(lower(
            s,
            kinds,
            false,
            order,
            body.take(n),
        )->Ok_0).conds.contains_key(v),
{
    let less = body.take(n);
    let st = lower(s, kinds, false, order, less)->Ok_0;
    lemma_tests(s, kinds, order, less);
    if let Slot::Var(v) = result_slot(body[n]) {
        if st.conds.contains_key(v) {
            let j = choose|j: int|
                0 <= j < less.len() && is_test(s, #[trigger] less[j]) && result_slot(less[j])
                    == Slot::Var(v);
            assert(less[j] == body[j]);
            assert(result_slot(body[j]) != result_slot(body[n]));
        }
    }
}

proof fn lemma_prefix_ok(
    s: EgState,
    kinds: Map<u32, RepKind>,
    calls: bool,
    order: Seq<u32>,
    body: Seq<BodyOp>,
    n: int,
)
    requires
        lower(s, kinds, calls, order, body) is Ok,
        0 <= n <= body.len(),
    ensures
        lower(s, kinds, calls, order, body.take(n)) is Ok,
    decreases body.len() - n,
{
    if n == body.len() {
        assert(body.take(n) =~= body);
    } else {
        lemma_prefix_ok(s, kinds, calls, order, body, n + 1);
        assert(body.take(n + 1).drop_last() =~= body.take(n));
    }
}

/// Values under which all conditions hold pass all guards.
proof fn lemma_values_pass(
    s: EgState,
    rows: RowsOf,
    kinds: Map<u32, RepKind>,
    order: Seq<u32>,
    body: Seq<BodyOp>,
    m: Valuation,
    x: Seq<u32>,
    n: int,
)
    requires
        lower(s, kinds, false, order, body) is Ok,
        tests_apart(s, body),
        fits_row(m, order, x),
        forall|i: int| 0 <= i < body.len() ==> condition_holds(s, rows, #[trigger] body[i], m),
        0 <= n <= body.len(),
    ensures
        lower(s, kinds, false, order, body.take(n)) is Ok,
        agrees(lower(s, kinds, false, order, body.take(n))->Ok_0, m, x),
        all_pass((lower(s, kinds, false, order, body.take(n))->Ok_0).guards, x),
        (lower(s, kinds, false, order, body.take(n))->Ok_0).order == order,
    decreases n,
{
    lemma_prefix_ok(s, kinds, false, order, body, n);
    if n == 0 {
        assert(body.take(0) =~= Seq::empty());
    } else {
        lemma_values_pass(s, rows, kinds, order, body, m, x, n - 1);
        let upto = body.take(n);
        assert(upto.drop_last() =~= body.take(n - 1));
        assert(upto.last() == body[n - 1]);
        let st = lower(s, kinds, false, order, body.take(n - 1))->Ok_0;
        let st2 = lower(s, kinds, false, order, upto)->Ok_0;
        if is_test(s, body[n - 1]) {
            lemma_new_test(s, kinds, order, body, n - 1);
        }
        lemma_step(s, rows, kinds, st, body[n - 1], st2, m, x);
        assert(condition_holds(s, rows, body[n - 1], m));
    }
}

/// What was planned first is still planned at the end.
proof fn lemma_stays(
    s: EgState,
    kinds: Map<u32, RepKind>,
    order: Seq<u32>,
    body: Seq<BodyOp>,
    n: int,
)
    requires
        lower(s, kinds, false, order, body) is Ok,
        tests_apart(s, body),
        0 <= n <= body.len(),
    ensures
        lower(s, kinds, false, order, body.take(n)) is Ok,
        ({
            let st = lower(s, kinds, false, order, body.take(n))->Ok_0;
            let end = lower(s, kinds, false, order, body)->Ok_0;
            &&& end.order == order
            &&& st.order == order
            &&& forall|v: u32| #[trigger]
                st.vals.contains_key(v) ==> end.vals.contains_key(v) && end.vals[v] == st.vals[v]
            &&& forall|v: u32| #[trigger]
                st.conds.contains_key(v) ==> end.conds.contains_key(v) && end.conds[v]
                    == st.conds[v]
            &&& st.guards.is_prefix_of(end.guards)
        }),
    decreases body.len() - n,
{
    lemma_prefix_ok(s, kinds, false, order, body, n);
    lemma_same_order(s, kinds, order, body.take(n));
    if n == body.len() {
        assert(body.take(n) =~= body);
    } else {
        lemma_stays(s, kinds, order, body, n + 1);
        let upto = body.take(n + 1);
        assert(upto.drop_last() =~= body.take(n));
        assert(upto.last() == body[n]);
        if is_test(s, body[n]) {
            lemma_new_test(s, kinds, order, body, n);
        }
        lemma_grows(
            s,
            kinds,
            lower(s, kinds, false, order, body.take(n))->Ok_0,
            body[n],
            lower(s, kinds, false, order, upto)->Ok_0,
        );
    }
}

/// What was planned before an operation is planned after it.
proof fn lemma_grows(
    s: EgState,
    kinds: Map<u32, RepKind>,
    st: Lowered,
    op: BodyOp,
    st2: Lowered,
)
    requires
        lower_op(s, kinds, false, st, op) == Ok::<_, crate::feldera::plan::Ineligible>(st2),
        is_test(s, op) ==> (result_slot(op) matches Slot::Var(v) ==> !st.conds.contains_key(v)),
    ensures
        forall|v: u32| #[trigger]
            st.vals.contains_key(v) ==> st2.vals.contains_key(v) && st2.vals[v] == st.vals[v],
        forall|v: u32| #[trigger]
            st.conds.contains_key(v) ==> st2.conds.contains_key(v) && st2.conds[v] == st.conds[v],
        st.guards.is_prefix_of(st2.guards),
{
    if let BodyOp::Prim { id, args, ret } = op {
        lemma_names(s, id);
    }
    assert(st2.guards.len() == st.guards.len() || st2.guards.drop_last() =~= st.guards);
    assert(st.guards =~= st2.guards.take(st.guards.len() as int));
}

proof fn lemma_same_order(s: EgState, kinds: Map<u32, RepKind>, order: Seq<u32>, body: Seq<BodyOp>)
    requires
        lower(s, kinds, false, order, body) is Ok,
    ensures
        (lower(s, kinds, false, order, body)->Ok_0).order == order,
        (lower(s, kinds, false, order, body)->Ok_0).steps.len() == 0,
        (lower(s, kinds, false, order, body)->Ok_0).atoms == atoms_of(body),
    decreases body.len(),
{
    if body.len() > 0 {
        lemma_same_order(s, kinds, order, body.drop_last());
    }
}

/// No value stands for a variable that has a column.
proof fn lemma_vals_apart(s: EgState, kinds: Map<u32, RepKind>, order: Seq<u32>, body: Seq<BodyOp>)
    requires
        lower(s, kinds, false, order, body) is Ok,
    ensures
        forall|v: u32| #[trigger]
            (lower(s, kinds, false, order, body)->Ok_0).vals.contains_key(v) ==> !order.contains(v),
    decreases body.len(),
{
    if body.len() > 0 {
        lemma_vals_apart(s, kinds, order, body.drop_last());
        lemma_same_order(s, kinds, order, body.drop_last());
    }
}

/// The values that a row and what is planned give the variables.
spec fn planned_values(st: Lowered, x: Seq<u32>) -> Valuation {
    Valuation {
        val: |v: u32|
            if st.order.contains(v) {
                col(x, st.order.index_of(v))
            } else if st.vals.contains_key(v) {
                (st.vals[v])(x)
            } else {
                0u32
            },
        truth: |v: u32| st.conds.contains_key(v) && (st.conds[v])(x),
    }
}

/// Under the values of a row that passes all guards, all conditions but the atoms hold.
proof fn lemma_pass_holds(
    s: EgState,
    rows: RowsOf,
    kinds: Map<u32, RepKind>,
    order: Seq<u32>,
    body: Seq<BodyOp>,
    x: Seq<u32>,
    n: int,
)
    requires
        lower(s, kinds, false, order, body) is Ok,
        tests_apart(s, body),
        order.no_duplicates(),
        all_pass((lower(s, kinds, false, order, body)->Ok_0).guards, x),
        0 <= n < body.len(),
        !(body[n] is Atom),
    ensures
        condition_holds(
            s,
            rows,
            body[n],
            planned_values(lower(s, kinds, false, order, body)->Ok_0, x),
        ),
{
    let end = lower(s, kinds, false, order, body)->Ok_0;
    let m = planned_values(end, x);
    lemma_stays(s, kinds, order, body, n);
    lemma_stays(s, kinds, order, body, n + 1);
    lemma_vals_apart(s, kinds, order, body);
    let st = lower(s, kinds, false, order, body.take(n))->Ok_0;
    let st2 = lower(s, kinds, false, order, body.take(n + 1))->Ok_0;
    assert(body.take(n + 1).drop_last() =~= body.take(n));
    assert(body.take(n + 1).last() == body[n]);
    assert(fits_row(m, order, x)) by {
        assert forall|i: int| 0 <= i < order.len() implies (m.val)(#[trigger] order[i]) == col(
            x,
            i,
        ) by {
            let k = order.index_of(order[i]);
            assert(order.contains(order[i]));
            assert(0 <= k < order.len() && order[k] == order[i]);
        }
    }
    assert(agrees(st, m, x));
    assert(agrees(st2, m, x));
    assert(all_pass(st2.guards, x)) by {
        assert forall|i: int| 0 <= i < st2.guards.len() implies (#[trigger] st2.guards[i])(x) by {
            assert(end.guards[i] == st2.guards[i]);
            assert((end.guards[i])(x));
        }
    }
    if is_test(s, body[n]) {
        lemma_new_test(s, kinds, order, body, n);
    }
    lemma_step(s, rows, kinds, st, body[n], st2, m, x);
}

/// Whether the values of some variables, of which those with a column are the row's, meet every
/// condition of a body.
pub open spec fn body_holds(
    s: EgState,
    rows: RowsOf,
    body: Seq<BodyOp>,
    order: Seq<u32>,
    x: Seq<u32>,
) -> bool {
    exists|m: Valuation| #[trigger]
        fits_row(m, order, x) && forall|i: int|
            0 <= i < body.len() ==> condition_holds(s, rows, #[trigger] body[i], m)
}

/// The atom at a place of the plan is one of the body, and each atom of the body is in the plan.
proof fn lemma_atoms(body: Seq<BodyOp>, i: int)
    requires
        0 <= i < atoms_of(body).len(),
    ensures
        exists|j: int|
            0 <= j < body.len() && ((#[trigger] body[j]) matches BodyOp::Atom(a) && a.func
                == atoms_of(body)[i].func && a.slots@ == atoms_of(body)[i].slots),
    decreases body.len(),
{
    let less = body.drop_last();
    let last = body.len() - 1;
    assert(body[last] == body.last());
    if i < atoms_of(less).len() {
        lemma_atoms(less, i);
        let j = choose|j: int|
            0 <= j < less.len() && ((#[trigger] less[j]) matches BodyOp::Atom(a) && a.func
                == atoms_of(less)[i].func && a.slots@ == atoms_of(less)[i].slots);
        assert(body[j] == less[j]);
    }
}

proof fn lemma_atom_planned(body: Seq<BodyOp>, j: int)
    requires
        0 <= j < body.len(),
        body[j] is Atom,
    ensures
        exists|i: int|
            0 <= i < atoms_of(body).len() && (body[j] matches BodyOp::Atom(a) && a.func
                == (#[trigger] atoms_of(body)[i]).func && a.slots@ == atoms_of(body)[i].slots),
    decreases body.len(),
{
    let less = body.drop_last();
    if j < body.len() - 1 {
        assert(less[j] == body[j]);
        lemma_atom_planned(less, j);
        let i = choose|i: int|
            0 <= i < atoms_of(less).len() && (less[j] matches BodyOp::Atom(a) && a.func
                == (#[trigger] atoms_of(less)[i]).func && a.slots@ == atoms_of(less)[i].slots);
        assert(atoms_of(body)[i] == atoms_of(less)[i]);
    } else {
        assert(body[j] == body.last());
        assert(atoms_of(body)[atoms_of(less).len() as int].func == atoms_of(body).last().func);
    }
}

/// A row has the values of an atom's slots, under the row's values, where the atom agrees with it.
proof fn lemma_atom_row(slots: Seq<Slot>, row: Seq<u32>, order: Seq<u32>, x: Seq<u32>, m: Valuation)
    requires
        fits_row(m, order, x),
        vars_in(slots, order),
    ensures
        atom_holds(slots, row, order, x) <==> forall|p: int|
            0 <= p < slots.len() ==> col(row, p) == m.at(#[trigger] slots[p]),
{
    if atom_holds(slots, row, order, x) {
        assert forall|p: int| 0 <= p < slots.len() implies col(row, p) == m.at(
            #[trigger] slots[p],
        ) by {
            if let Slot::Var(v) = slots[p] {
                assert(order.contains(v));
                let c = choose|c: int| 0 <= c < order.len() && order[c] == v;
                assert(slots[p] == Slot::Var(order[c]));
            }
        }
    }
    if forall|p: int| 0 <= p < slots.len() ==> col(row, p) == m.at(#[trigger] slots[p]) {
        assert forall|p: int, c: int|
            #![trigger slots[p], order[c]]
            0 <= p < slots.len() && 0 <= c < order.len() && slots[p] == Slot::Var(
                order[c],
            ) implies col(x, c) == col(row, p) by {
            assert(col(row, p) == m.at(slots[p]));
        }
    }
}

/// The matches of a planned join are just the rows whose values meet every condition of the body:
/// each atom has a row of its function, and each primitive says what its name says of the values. So
/// with `ordering-min` on `a` and `b` and the result `c`, `c` is at most `a` and at most `b` and one of
/// the two; with `ordering-max` it is at least both; and with `!=` they differ.
pub proof fn planned_joins_match_the_body(
    s: EgState,
    rule: RuleIr,
    plan: &JoinPlan,
    rows: RowsOf,
    x: Seq<u32>,
)
    requires
        plan_of(s, rule) matches Ok(st) && plan_is(plan, st),
        plan.wf(),
        mode_of(s, atom_kinds(s, rule.body@), rule.body@) matches Ok(m) && !m.calls,
        tests_apart(s, rule.body@),
    ensures
        plan.steps@.len() == 0,
        solves(plan, rows, plan.var_order@.len(), x) <==> x.len() == plan.var_order@.len()
            && body_holds(s, rows, rule.body@, plan.var_order@, x),
{
    let body = rule.body@;
    let kinds = atom_kinds(s, body);
    let order = atom_order(body);
    let st = plan_of(s, rule)->Ok_0;
    assert(lower(s, kinds, false, order, body) == Ok::<_, crate::feldera::plan::Ineligible>(st));
    lemma_same_order(s, kinds, order, body);
    lemma_atom_order(body);
    let n = order.len();
    let k = plan.atoms@.len() as int;
    let av = atom_views(plan.atoms@);
    assert(av == atoms_of(body));
    assert(step_views(plan.steps@).len() == plan.steps@.len());
    assert forall|i: int| 0 <= i < k implies #[trigger] av[i].func == plan.atoms@[i].func
        && av[i].slots == plan.atoms@[i].slots@ by {
        assert(av[i] == plan.atoms@[i].view());
    }
    assert(all_pass(st.guards, x) <==> forall|g: int|
        0 <= g < plan.guards@.len() ==> (#[trigger] plan.guards@[g]).holds(x)) by {
        if all_pass(st.guards, x) {
            assert forall|g: int| 0 <= g < plan.guards@.len() implies (
            #[trigger] plan.guards@[g]).holds(x) by {
                assert((st.guards[g])(x));
            }
        }
        if forall|g: int| 0 <= g < plan.guards@.len() ==> (#[trigger] plan.guards@[g]).holds(x) {
            assert forall|i: int| 0 <= i < st.guards.len() implies (#[trigger] st.guards[i])(x) by {
                assert(plan.guards@[i].holds(x));
            }
        }
    }
    if solves(plan, rows, n, x) {
        let m = planned_values(st, x);
        let picked = choose|picked: Seq<Seq<u32>>| #[trigger] picks(plan, rows, k, picked, x);
        assert(fits_row(m, order, x)) by {
            assert forall|i: int| 0 <= i < order.len() implies (m.val)(#[trigger] order[i]) == col(
                x,
                i,
            ) by {
                let j = order.index_of(order[i]);
                assert(order.contains(order[i]));
                assert(0 <= j < order.len() && order[j] == order[i]);
            }
        }
        assert forall|i: int| 0 <= i < body.len() implies condition_holds(
            s,
            rows,
            #[trigger] body[i],
            m,
        ) by {
            if let BodyOp::Atom(a) = body[i] {
                lemma_atom_planned(body, i);
                let j = choose|j: int|
                    0 <= j < atoms_of(body).len() && (body[i] matches BodyOp::Atom(a) && a.func
                        == (#[trigger] atoms_of(body)[j]).func && a.slots@
                        == atoms_of(body)[j].slots);
                assert(av[j].func == plan.atoms@[j].func);
                assert(rows(plan.atoms@[j].func).contains(picked[j]));
                assert(vars_in(plan.atoms@[j].slots@, plan.var_order@));
                lemma_atom_row(a.slots@, picked[j], order, x, m);
            } else {
                lemma_pass_holds(s, rows, kinds, order, body, x, i);
            }
        }
        assert(body_holds(s, rows, body, order, x));
    }
    if x.len() == n && body_holds(s, rows, body, order, x) {
        let m = choose|m: Valuation| #[trigger]
            fits_row(m, order, x) && forall|i: int|
                0 <= i < body.len() ==> condition_holds(s, rows, #[trigger] body[i], m);
        lemma_values_pass(s, rows, kinds, order, body, m, x, body.len() as int);
        assert(body.take(body.len() as int) =~= body);
        let picked = Seq::new(
            k as nat,
            |i: int|
                choose|row: Seq<u32>| #[trigger]
                    rows(plan.atoms@[i].func).contains(row) && atom_holds(
                        plan.atoms@[i].slots@,
                        row,
                        order,
                        x,
                    ),
        );
        assert forall|i: int| 0 <= i < k implies rows(plan.atoms@[i].func).contains(
            #[trigger] picked[i],
        ) && atom_holds(plan.atoms@[i].slots@, picked[i], plan.var_order@, x) by {
            lemma_atoms(body, i);
            let j = choose|j: int|
                0 <= j < body.len() && ((#[trigger] body[j]) matches BodyOp::Atom(a) && a.func
                    == atoms_of(body)[i].func && a.slots@ == atoms_of(body)[i].slots);
            assert(av[i].func == plan.atoms@[i].func);
            assert(condition_holds(s, rows, body[j], m));
            if let BodyOp::Atom(a) = body[j] {
                let row = choose|row: Seq<u32>| #[trigger]
                    rows(a.func).contains(row) && forall|p: int|
                        0 <= p < a.slots@.len() ==> col(row, p) == m.at(#[trigger] a.slots@[p]);
                assert(vars_in(plan.atoms@[i].slots@, plan.var_order@));
                lemma_atom_row(a.slots@, row, order, x, m);
                assert(rows(plan.atoms@[i].func).contains(row) && atom_holds(
                    plan.atoms@[i].slots@,
                    row,
                    order,
                    x,
                ));
            }
        }
        assert(picks(plan, rows, k, picked, x));
        assert forall|c: int|
            0 <= c < n && !(c < plan.var_order@.len() && occurs(
                atom_views(plan.atoms@),
                plan.var_order@[c],
            )) implies #[trigger] x[c] == 0 by {
            assert(order.contains(order[c]));
        }
    }
}

// ---------------------------------------------------------------------------
// Bodies whose primitives are called
// ---------------------------------------------------------------------------

/// Whether a condition of a body holds, where the primitives are called: a primitive answers its
/// result to its arguments.
pub open spec fn answered_holds(rows: RowsOf, answer: Answers, op: BodyOp, m: Valuation) -> bool {
    match op {
        BodyOp::Atom(a) => exists|row: Seq<u32>| #[trigger]
            rows(a.func).contains(row) && forall|p: int|
                0 <= p < a.slots@.len() ==> col(row, p) == m.at(#[trigger] a.slots@[p]),
        BodyOp::Prim { id, args, ret } => answer(
            id,
            Seq::new(args@.len(), |i: int| m.at(args@[i])),
        ) == Some(m.at(ret)),
        BodyOp::Differ(l, r) => m.at(l) != m.at(r),
    }
}

/// Whether values that fit the row meet every condition of a body whose primitives are called.
pub open spec fn answered_body_holds(
    rows: RowsOf,
    answer: Answers,
    body: Seq<BodyOp>,
    order: Seq<u32>,
    b: Seq<u32>,
) -> bool {
    exists|m: Valuation| #[trigger]
        fits_row(m, order, b) && forall|i: int|
            0 <= i < body.len() ==> answered_holds(rows, answer, #[trigger] body[i], m)
}

/// A row with zeros from a column on.
spec fn masked(b: Seq<u32>, k: int) -> Seq<u32> {
    Seq::new(
        b.len(),
        |i: int|
            if i < k {
                b[i]
            } else {
                0u32
            },
    )
}

/// The columns of a plan with calls: those of the atoms, then the results, each once.
proof fn lemma_call_order(s: EgState, kinds: Map<u32, RepKind>, order: Seq<u32>, body: Seq<BodyOp>)
    requires
        lower(s, kinds, true, order, body) is Ok,
        order.no_duplicates(),
    ensures
        (lower(s, kinds, true, order, body)->Ok_0).order.no_duplicates(),
        order.is_prefix_of((lower(s, kinds, true, order, body)->Ok_0).order),
        (lower(s, kinds, true, order, body)->Ok_0).guards.len() == 0,
        (lower(s, kinds, true, order, body)->Ok_0).atoms == atoms_of(body),
        forall|i: int| 0 <= i < body.len() ==> !((#[trigger] body[i]) is Differ),
    decreases body.len(),
{
    if body.len() > 0 {
        let less = body.drop_last();
        lemma_call_order(s, kinds, order, less);
        let st = lower(s, kinds, true, order, less)->Ok_0;
        let st2 = lower(s, kinds, true, order, body)->Ok_0;
        assert(st2.order == st.order || (st2.order =~= st.order.push(st2.order.last())
            && !st.order.contains(st2.order.last())));
        assert(order =~= st2.order.take(order.len() as int));
        assert forall|i: int| 0 <= i < body.len() implies !((#[trigger] body[i]) is Differ) by {
            if i < less.len() {
                assert(body[i] == less[i]);
            }
        }
    }
}

/// The calls of the first operations fill in just the results that their primitives answer.
proof fn lemma_calls(
    s: EgState,
    rows: RowsOf,
    answer: Answers,
    kinds: Map<u32, RepKind>,
    order: Seq<u32>,
    all: Seq<u32>,
    body: Seq<BodyOp>,
    m: Valuation,
    x: Seq<u32>,
    b: Seq<u32>,
)
    requires
        lower(s, kinds, true, order, body) is Ok,
        order.no_duplicates(),
        all.no_duplicates(),
        all.len() <= JOIN_WIDTH,
        (lower(s, kinds, true, order, body)->Ok_0).order.is_prefix_of(all),
        x.len() == all.len(),
        b.len() == all.len(),
        fits_row(m, all, b),
        x == masked(x, order.len() as int),
    ensures
        ({
            let st = lower(s, kinds, true, order, body)->Ok_0;
            let k = st.order.len() as int;
            let r = after_steps(st.steps, answer, x);
            &&& r matches Some(y) ==> y.len() == all.len() && y == masked(y, k)
            &&& r == Some(masked(b, k)) <==> x == masked(b, order.len() as int) && forall|i: int|
                0 <= i < body.len() && body[i] is Prim ==> answered_holds(
                    rows,
                    answer,
                    #[trigger] body[i],
                    m,
                )
        }),
    decreases body.len(),
{
    let st2 = lower(s, kinds, true, order, body)->Ok_0;
    if body.len() > 0 {
        let less = body.drop_last();
        let st = lower(s, kinds, true, order, less)->Ok_0;
        let k = st.order.len() as int;
        let k2 = st2.order.len() as int;
        let last = body.len() - 1;
        assert(body[last] == body.last());
        lemma_call_order(s, kinds, order, less);
        assert(st.order.is_prefix_of(all)) by {
            assert(st.order =~= st2.order.take(k));
            assert(st2.order =~= all.take(k2));
            assert(st.order =~= all.take(k));
        }
        lemma_calls(s, rows, answer, kinds, order, all, less, m, x, b);
        let before = after_steps(st.steps, answer, x);
        let all_less = forall|i: int|
            0 <= i < less.len() && less[i] is Prim ==> answered_holds(
                rows,
                answer,
                #[trigger] less[i],
                m,
            );
        let all_body = forall|i: int|
            0 <= i < body.len() && body[i] is Prim ==> answered_holds(
                rows,
                answer,
                #[trigger] body[i],
                m,
            );
        assert(all_body <==> all_less && (body[last] is Prim ==> answered_holds(
            rows,
            answer,
            body[last],
            m,
        ))) by {
            if all_body {
                assert forall|i: int| 0 <= i < less.len() && less[i] is Prim implies answered_holds(
                    rows,
                    answer,
                    #[trigger] less[i],
                    m,
                ) by {
                    assert(body[i] == less[i]);
                }
            }
            if all_less && (body[last] is Prim ==> answered_holds(rows, answer, body[last], m)) {
                assert forall|i: int| 0 <= i < body.len() && body[i] is Prim implies answered_holds(
                    rows,
                    answer,
                    #[trigger] body[i],
                    m,
                ) by {
                    if i < last {
                        assert(body[i] == less[i]);
                    }
                }
            }
        }
        if let BodyOp::Prim { id, args, ret } = body[last] {
            let step = st2.steps.last();
            assert(st2.steps.drop_last() =~= st.steps);
            let srcs = args@.map_values(|a: Slot| arg_src(st.order, a));
            assert(step.args == srcs);
            let vals = Seq::new(args@.len(), |i: int| m.at(args@[i]));
            if let Some(y) = before {
                if y == masked(b, k) {
                    assert(step_arg_vals(step.args, y) =~= vals) by {
                        assert forall|i: int| 0 <= i < args@.len() implies step_arg_vals(
                            step.args,
                            y,
                        )[i] == #[trigger] vals[i] by {
                            if let Slot::Var(v) = args@[i] {
                                assert(st.order.contains(v));
                                let c = st.order.index_of(v);
                                assert(0 <= c < k && st.order[c] == v);
                                assert(all[c] == v);
                                assert((m.val)(all[c]) == col(b, c));
                                assert(srcs[i] == ArgSrc::Col(c as usize));
                            } else {
                                assert(srcs[i] == arg_src(st.order, args@[i]));
                            }
                        }
                    }
                    match ret {
                        Slot::Const(c) => {},
                        Slot::Var(rv) => {
                            if st.order.contains(rv) {
                                let c = st.order.index_of(rv);
                                assert(0 <= c < k && st.order[c] == rv);
                                assert(all[c] == rv);
                                assert((m.val)(all[c]) == col(b, c));
                                assert(col(y, c) == col(b, c));
                            } else {
                                assert(st2.order == st.order.push(rv));
                                assert(st2.order[k] == rv);
                                assert(all[k] == rv);
                                assert((m.val)(all[k]) == col(b, k));
                                let got = answer(id, vals);
                                if let Some(v) = got {
                                    let z = y.update(k, v);
                                    assert(z =~= masked(z, k2));
                                    if v == b[k] {
                                        assert(z =~= masked(b, k2));
                                    } else {
                                        assert(z[k] == v && masked(b, k2)[k] == b[k]);
                                    }
                                }
                            }
                        },
                    }
                } else {
                    let got = answer(id, step_arg_vals(step.args, y));
                    if let Some(v) = got {
                        if ret is Var && !st.order.contains(ret->Var_0) {
                            let z = y.update(k, v);
                            assert(z =~= masked(z, k2));
                            if z == masked(b, k2) {
                                assert forall|i: int| 0 <= i < y.len() implies y[i] == #[trigger]
                                    masked(b, k)[i] by {
                                    assert(z[i] == masked(b, k2)[i]);
                                    assert(y[i] == masked(y, k)[i]);
                                }
                                assert(y =~= masked(b, k));
                            }
                        }
                    }
                }
            }
        } else {
            assert(st2.steps == st.steps && st2.order == st.order);
        }
    } else {
        assert(after_steps(st2.steps, answer, x) == Some(x));
    }
}

/// An atom agrees with a row on the columns of the atoms just if it agrees on all columns.
proof fn lemma_atom_prefix(
    slots: Seq<Slot>,
    row: Seq<u32>,
    order: Seq<u32>,
    all: Seq<u32>,
    x: Seq<u32>,
)
    requires
        order.is_prefix_of(all),
        all.no_duplicates(),
        vars_in(slots, order),
    ensures
        atom_holds(slots, row, order, x) <==> atom_holds(slots, row, all, x),
{
    if atom_holds(slots, row, order, x) {
        assert forall|p: int, c: int|
            #![trigger slots[p], all[c]]
            0 <= p < slots.len() && 0 <= c < all.len() && slots[p] == Slot::Var(
                all[c],
            ) implies col(x, c) == col(row, p) by {
            assert(order.contains(all[c]));
            let d = choose|d: int| 0 <= d < order.len() && order[d] == all[c];
            assert(all[d] == all[c]);
            assert(slots[p] == Slot::Var(order[c]));
        }
    }
    if atom_holds(slots, row, all, x) {
        assert forall|p: int, c: int|
            #![trigger slots[p], order[c]]
            0 <= p < slots.len() && 0 <= c < order.len() && slots[p] == Slot::Var(
                order[c],
            ) implies col(x, c) == col(row, p) by {
            assert(all[c] == order[c]);
        }
    }
}

/// The matches of a plan whose primitives are called after the join are just the bindings whose values
/// meet every condition of the body: each atom has a row of its function, and each primitive answers
/// its result to its arguments.
pub proof fn planned_calls_match_the_body(
    s: EgState,
    rule: RuleIr,
    plan: &JoinPlan,
    rows: RowsOf,
    answer: Answers,
    b: Seq<u32>,
)
    requires
        plan_of(s, rule) matches Ok(st) && plan_is(plan, st),
        plan.wf(),
        mode_of(s, atom_kinds(s, rule.body@), rule.body@) matches Ok(m) && m.calls,
    ensures
        is_match(plan, rows, answer, b) <==> b.len() == plan.var_order@.len()
            && answered_body_holds(rows, answer, rule.body@, plan.var_order@, b),
{
    let body = rule.body@;
    let kinds = atom_kinds(s, body);
    let order = atom_order(body);
    let st = plan_of(s, rule)->Ok_0;
    let all = plan.var_order@;
    assert(lower(s, kinds, true, order, body) == Ok::<_, crate::feldera::plan::Ineligible>(st));
    lemma_atom_order(body);
    lemma_call_order(s, kinds, order, body);
    let n = all.len();
    let a = order.len() as int;
    let k = plan.atoms@.len() as int;
    let av = atom_views(plan.atoms@);
    assert(av == atoms_of(body));
    assert forall|i: int| 0 <= i < k implies #[trigger] av[i].func == plan.atoms@[i].func
        && av[i].slots == plan.atoms@[i].slots@ && vars_in(plan.atoms@[i].slots@, order) by {
        assert(av[i] == plan.atoms@[i].view());
        assert forall|j: int| 0 <= j < plan.atoms@[i].slots@.len() implies ((
        #[trigger] plan.atoms@[i].slots@[j]) matches Slot::Var(v) ==> order.contains(v)) by {
            if let Slot::Var(v) = plan.atoms@[i].slots@[j] {
                assert(av[i].slots[j] == Slot::Var(v));
                assert(occurs(atoms_of(body), v));
            }
        }
    }
    assert forall|c: int| 0 <= c < n implies (occurs(av, #[trigger] all[c]) <==> c < a) by {
        if occurs(av, all[c]) {
            assert(order.contains(all[c]));
            let d = choose|d: int| 0 <= d < order.len() && order[d] == all[c];
            assert(all[d] == all[c]);
        }
        if c < a {
            assert(order[c] == all[c]);
            assert(order.contains(all[c]));
        }
    }
    if is_match(plan, rows, answer, b) {
        let x = choose|x: Seq<u32>| #[trigger]
            solves(plan, rows, n, x) && after_steps(step_views(plan.steps@), answer, x) == Some(b);
        let picked = choose|picked: Seq<Seq<u32>>| #[trigger] picks(plan, rows, k, picked, x);
        assert(x =~= masked(x, a)) by {
            assert forall|c: int| 0 <= c < n implies x[c] == masked(x, a)[c] by {
                assert(occurs(av, all[c]) <==> c < a);
            }
        }
        let m = Valuation {
            val: |v: u32| col(b, all.index_of(v)),
            truth: |v: u32| false,
        };
        assert(fits_row(m, all, b)) by {
            assert forall|i: int| 0 <= i < all.len() implies (m.val)(#[trigger] all[i]) == col(
                b,
                i,
            ) by {
                let j = all.index_of(all[i]);
                assert(all.contains(all[i]));
                assert(0 <= j < all.len() && all[j] == all[i]);
            }
        }
        lemma_call_lengths(st.steps, answer, x);
        lemma_calls(s, rows, answer, kinds, order, all, body, m, x, b);
        assert(masked(b, n as int) =~= b);
        assert(fits_row(m, order, x)) by {
            assert forall|i: int| 0 <= i < order.len() implies (m.val)(#[trigger] order[i]) == col(
                x,
                i,
            ) by {
                assert(all[i] == order[i]);
                assert(x[i] == masked(b, a)[i]);
            }
        }
        assert forall|i: int| 0 <= i < body.len() implies answered_holds(
            rows,
            answer,
            #[trigger] body[i],
            m,
        ) by {
            if let BodyOp::Atom(at) = body[i] {
                lemma_atom_planned(body, i);
                let j = choose|j: int|
                    0 <= j < atoms_of(body).len() && (body[i] matches BodyOp::Atom(a) && a.func
                        == (#[trigger] atoms_of(body)[j]).func && a.slots@
                        == atoms_of(body)[j].slots);
                assert(av[j].func == plan.atoms@[j].func);
                assert(rows(plan.atoms@[j].func).contains(picked[j]));
                lemma_atom_prefix(at.slots@, picked[j], order, all, x);
                lemma_atom_row(at.slots@, picked[j], order, x, m);
            }
        }
        assert(answered_body_holds(rows, answer, body, all, b));
    }
    if b.len() == n && answered_body_holds(rows, answer, body, all, b) {
        let m = choose|m: Valuation| #[trigger]
            fits_row(m, all, b) && forall|i: int|
                0 <= i < body.len() ==> answered_holds(rows, answer, #[trigger] body[i], m);
        let x = masked(b, a);
        assert(x =~= masked(x, a));
        lemma_calls(s, rows, answer, kinds, order, all, body, m, x, b);
        assert(masked(b, n as int) =~= b);
        assert(fits_row(m, order, x)) by {
            assert forall|i: int| 0 <= i < order.len() implies (m.val)(#[trigger] order[i]) == col(
                x,
                i,
            ) by {
                assert(all[i] == order[i]);
            }
        }
        let picked = Seq::new(
            k as nat,
            |i: int|
                choose|row: Seq<u32>| #[trigger]
                    rows(plan.atoms@[i].func).contains(row) && atom_holds(
                        plan.atoms@[i].slots@,
                        row,
                        all,
                        x,
                    ),
        );
        assert forall|i: int| 0 <= i < k implies rows(plan.atoms@[i].func).contains(
            #[trigger] picked[i],
        ) && atom_holds(plan.atoms@[i].slots@, picked[i], plan.var_order@, x) by {
            lemma_atoms(body, i);
            let j = choose|j: int|
                0 <= j < body.len() && ((#[trigger] body[j]) matches BodyOp::Atom(a) && a.func
                    == atoms_of(body)[i].func && a.slots@ == atoms_of(body)[i].slots);
            assert(av[i].func == plan.atoms@[i].func);
            assert(answered_holds(rows, answer, body[j], m));
            if let BodyOp::Atom(at) = body[j] {
                let row = choose|row: Seq<u32>| #[trigger]
                    rows(at.func).contains(row) && forall|p: int|
                        0 <= p < at.slots@.len() ==> col(row, p) == m.at(#[trigger] at.slots@[p]);
                lemma_atom_row(at.slots@, row, order, x, m);
                lemma_atom_prefix(at.slots@, row, order, all, x);
                assert(rows(plan.atoms@[i].func).contains(row) && atom_holds(
                    plan.atoms@[i].slots@,
                    row,
                    all,
                    x,
                ));
            }
        }
        assert(picks(plan, rows, k, picked, x));
        assert forall|c: int|
            0 <= c < n && !(c < plan.var_order@.len() && occurs(
                atom_views(plan.atoms@),
                plan.var_order@[c],
            )) implies #[trigger] x[c] == 0 by {
            assert(occurs(av, all[c]) <==> c < a);
        }
        assert(solves(plan, rows, n, x));
    }
}

/// Calls keep the width of a row.
proof fn lemma_call_lengths(steps: Seq<StepView>, answer: Answers, x: Seq<u32>)
    ensures
        after_steps(steps, answer, x) matches Some(y) ==> y.len() == x.len(),
    decreases steps.len(),
{
    if steps.len() > 0 {
        lemma_call_lengths(steps.drop_last(), answer, x);
    }
}

} // verus!
