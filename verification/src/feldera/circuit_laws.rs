//! How a rebuild's tables and the circuit's rows stand for each other.
use crate::backend::FunctionId;
use crate::feldera::circuit_rebuild::{
    atom_funcs, canon_rows, low, normalized, role_of, role_of_name, set_funcs, uf_of, uf_rows, uff_of,
    uff_rows, view_quad, view_row, views_of, RoleKind,
};
use crate::feldera::compile::{BodyOp, HeadOp, RuleIr};
use crate::text::occurs_in;
use vstd::prelude::*;
use vstd::string::*;

verus! {

/// A view row that goes into the circuit and comes back as it was is the same row: the arguments and
/// the output keep their places.
pub proof fn view_rows_come_back(tag: u64, row: Seq<u32>, arity: nat)
    requires
        0 < arity <= 3,
        row.len() == arity,
    ensures
        view_row(view_quad(tag, row, arity), arity) == row,
        view_quad(tag, row, arity).0 == tag,
        view_quad(tag, row, arity).3 == row[arity - 1],
{
    assert forall|x: u32| #[trigger] low(x as u64) == x by {
        assert((x as u64) as int % 0x1_0000_0000 == x as int);
    }
    assert(view_row(view_quad(tag, row, arity), arity) =~= row) by {
        assert(low(row[0] as u64) == row[0]);
        assert(low(row[arity - 1] as u64) == row[arity - 1]);
        if arity >= 3 {
            assert(low(row[1] as u64) == row[1]);
        }
    }
}

/// The rows of a view are those of the circuit with the view's tag, each with its arguments in their
/// order and then its output.
pub proof fn views_hold_their_canonical_rows(
    canon: Seq<(u64, u64, u64, u64)>,
    tag: u64,
    row: Seq<u32>,
)
    ensures
        canon_rows(canon, tag, 3).contains(row) <==> exists|i: int|
            0 <= i < canon.len() && (#[trigger] canon[i]).0 == tag && row == seq![
                low(canon[i].1),
                low(canon[i].2),
                low(canon[i].3),
            ],
        canon_rows(canon, tag, 2).contains(row) <==> exists|i: int|
            0 <= i < canon.len() && (#[trigger] canon[i]).0 == tag && row == seq![
                low(canon[i].1),
                low(canon[i].3),
            ],
        canon_rows(canon, tag, 1).contains(row) <==> exists|i: int|
            0 <= i < canon.len() && (#[trigger] canon[i]).0 == tag && row == seq![low(canon[i].3)],
{
}

/// Whether the circuit gives an id a leader.
pub open spec fn is_led(leaders: Seq<(u64, u64)>, x: u32, l: u32) -> bool {
    exists|i: int|
        0 <= i < leaders.len() && (#[trigger] leaders[i]).0 == x as u64 && leaders[i].1 == l as u64
}

/// Whether all ids of the circuit fit 32 bits.
pub open spec fn small(leaders: Seq<(u64, u64)>) -> bool {
    forall|i: int|
        0 <= i < leaders.len() ==> (#[trigger] leaders[i]).0 <= u32::MAX && leaders[i].1 <= u32::MAX
}

/// An index function has a row for each id, with its leader as the output; a parent relation has one,
/// the id first and then its leader, for each id that does not lead itself, and zeros behind them.
pub proof fn union_find_tables_hold_the_leaders(
    leaders: Seq<(u64, u64)>,
    arity: nat,
    x: u32,
    l: u32,
    row: Seq<u32>,
)
    requires
        small(leaders),
        arity >= 2,
    ensures
        uff_rows(leaders).contains(seq![x, l]) <==> is_led(leaders, x, l),
        row.len() == arity && row[0] == x && row[1] == l && (forall|i: int|
            2 <= i < arity ==> #[trigger] row[i] == 0) ==> (uf_rows(leaders, arity).contains(row)
            <==> is_led(leaders, x, l) && x != l),
{
    assert forall|y: u64| y <= u32::MAX implies #[trigger] low(y) == y by {
        assert(y as int % 0x1_0000_0000 == y as int);
    }
    let two = seq![x, l];
    if uff_rows(leaders).contains(two) {
        let i = choose|i: int|
            0 <= i < leaders.len() && two == crate::feldera::circuit_rebuild::uff_row(
                #[trigger] leaders[i],
            );
        assert(two[0] == low(leaders[i].0) && two[1] == low(leaders[i].1));
        assert(leaders[i].0 == x as u64);
    }
    if is_led(leaders, x, l) {
        let i = choose|i: int|
            0 <= i < leaders.len() && (#[trigger] leaders[i]).0 == x as u64 && leaders[i].1 == l as u64;
        assert(two =~= crate::feldera::circuit_rebuild::uff_row(leaders[i]));
    }
    if row.len() == arity && row[0] == x && row[1] == l && (forall|i: int|
        2 <= i < arity ==> #[trigger] row[i] == 0) {
        if uf_rows(leaders, arity).contains(row) {
            let i = choose|i: int|
                0 <= i < leaders.len() && (#[trigger] leaders[i]).0 != leaders[i].1 && row
                    == crate::feldera::circuit_rebuild::uf_row(leaders[i], arity);
            assert(row[0] == low(leaders[i].0) && row[1] == low(leaders[i].1));
            assert(leaders[i].0 == x as u64);
        }
        if is_led(leaders, x, l) && x != l {
            let i = choose|i: int|
                0 <= i < leaders.len() && (#[trigger] leaders[i]).0 == x as u64 && leaders[i].1
                    == l as u64;
            assert(row =~= crate::feldera::circuit_rebuild::uf_row(leaders[i], arity));
        }
    }
}

/// An edge has its lesser id first, whichever way it is given.
pub proof fn edges_have_no_direction(a: u64, b: u64)
    ensures
        normalized(a, b) == normalized(b, a),
        normalized(a, b).0 <= normalized(a, b).1,
        normalized(a, b) == (a, b) || normalized(a, b) == (b, a),
{
}

/// The role of a rule goes by what its name holds, the first of these that it does: the index of a
/// union-find, its update, the single parent, the congruence, the cleanup of merges.
pub proof fn roles_go_by_name(name: Seq<char>)
    ensures
        ({
            let index = occurs_in("uf_function_index"@, name);
            let update = occurs_in("uf_update"@, name);
            let single = occurs_in("singleparent"@, name);
            let congruence = occurs_in("congruence_rule"@, name);
            let cleanup = occurs_in("merge_cleanup"@, name) || occurs_in("merge_rule"@, name);
            let r = role_of_name(name);
            &&& r == Some(RoleKind::UfIndex) <==> index
            &&& r == Some(RoleKind::PathCompress) <==> update && !index
            &&& r == Some(RoleKind::SingleParent) <==> single && !update && !index
            &&& r == Some(RoleKind::Congruence) <==> congruence && !single && !update && !index
            &&& r == Some(RoleKind::Cleanup) <==> cleanup && !congruence && !single && !update
                && !index
        }),
{
}

proof fn lemma_set_funcs(head: Seq<HeadOp>, f: FunctionId)
    ensures
        set_funcs(head).contains(f) <==> exists|i: int|
            0 <= i < head.len() && ((#[trigger] head[i]) matches HeadOp::SetRow { func, slots } && func
                == f),
    decreases head.len(),
{
    if head.len() > 0 {
        let less = head.drop_last();
        let last = head.len() - 1;
        lemma_set_funcs(less, f);
        assert(head[last] == head.last());
        if let HeadOp::SetRow { func, slots } = head.last() {
            crate::feldera::expr::lemma_push_contains(set_funcs(less), func);
        }
        if set_funcs(less).contains(f) {
            let i = choose|i: int|
                0 <= i < less.len() && ((#[trigger] less[i]) matches HeadOp::SetRow { func, slots }
                    && func == f);
            assert(head[i] == less[i]);
        }
        if exists|i: int|
            0 <= i < head.len() && ((#[trigger] head[i]) matches HeadOp::SetRow { func, slots } && func
                == f) {
            let i = choose|i: int|
                0 <= i < head.len() && ((#[trigger] head[i]) matches HeadOp::SetRow { func, slots }
                    && func == f);
            if i < last {
                assert(less[i] == head[i]);
            }
        }
    }
}

/// Whether a head sets rows of a function.
pub open spec fn sets(head: Seq<HeadOp>, f: FunctionId) -> bool {
    exists|i: int|
        0 <= i < head.len() && ((#[trigger] head[i]) matches HeadOp::SetRow { func, slots } && func
            == f)
}

/// Whether a function is that of the first atom of a body.
pub open spec fn is_first_atom(body: Seq<BodyOp>, f: FunctionId) -> bool {
    exists|i: int|
        0 <= i < body.len() && ((#[trigger] body[i]) matches BodyOp::Atom(a) && a.func == f)
            && forall|j: int| 0 <= j < i ==> !((#[trigger] body[j]) is Atom)
}

proof fn lemma_first_atom(body: Seq<BodyOp>, f: FunctionId)
    requires
        is_first_atom(body, f),
    ensures
        atom_funcs(body).len() > 0,
        atom_funcs(body)[0] == f,
    decreases body.len(),
{
    let i = choose|i: int|
        0 <= i < body.len() && ((#[trigger] body[i]) matches BodyOp::Atom(a) && a.func == f)
            && forall|j: int| 0 <= j < i ==> !((#[trigger] body[j]) is Atom);
    let less = body.drop_last();
    if i < less.len() {
        assert(less[i] == body[i]);
        assert forall|j: int| 0 <= j < i implies !((#[trigger] less[j]) is Atom) by {
            assert(less[j] == body[j]);
        }
        lemma_first_atom(less, f);
    } else {
        assert(body.last() == body[i]);
        lemma_no_atoms(less);
    }
}

proof fn lemma_no_atoms(body: Seq<BodyOp>)
    requires
        forall|j: int| 0 <= j < body.len() ==> !((#[trigger] body[j]) is Atom),
    ensures
        atom_funcs(body).len() == 0,
    decreases body.len(),
{
    if body.len() > 0 {
        let less = body.drop_last();
        assert forall|j: int| 0 <= j < less.len() implies !((#[trigger] less[j]) is Atom) by {
            assert(less[j] == body[j]);
        }
        lemma_no_atoms(less);
        assert(!(body[body.len() - 1] is Atom));
    }
}

/// The tables of a rebuild's rules: a congruence rule reads a view first and sets the parent relations;
/// a cleanup reads a view first; the rules on a union-find read its parent relation first, and the one
/// for its index sets the index functions.
pub proof fn roles_find_their_tables(rule: RuleIr, first: FunctionId, f: FunctionId)
    requires
        is_first_atom(rule.body@, first),
    ensures
        role_of(rule) == role_of_name(rule.name@),
        role_of(rule) == Some(RoleKind::Congruence) ==> views_of(rule) == set![first] && (uf_of(
            rule,
        ).contains(f) <==> sets(rule.head@, f)) && uff_of(rule) == Set::<FunctionId>::empty(),
        role_of(rule) == Some(RoleKind::Cleanup) ==> views_of(rule) == set![first] && uf_of(rule)
            == Set::<FunctionId>::empty() && uff_of(rule) == Set::<FunctionId>::empty(),
        role_of(rule) == Some(RoleKind::UfIndex) ==> uf_of(rule) == set![first] && (uff_of(
            rule,
        ).contains(f) <==> sets(rule.head@, f)) && views_of(rule) == Set::<FunctionId>::empty(),
        role_of(rule) == Some(RoleKind::PathCompress) || role_of(rule) == Some(RoleKind::SingleParent)
            ==> uf_of(rule) == set![first] && views_of(rule) == Set::<FunctionId>::empty(),
{
    lemma_first_atom(rule.body@, first);
    lemma_set_funcs(rule.head@, f);
    let i = choose|i: int|
        0 <= i < rule.body@.len() && ((#[trigger] rule.body@[i]) matches BodyOp::Atom(a) && a.func
            == first) && forall|j: int| 0 <= j < i ==> !((#[trigger] rule.body@[j]) is Atom);
    assert(rule.body@[i] is Atom);
    assert(set_funcs(rule.head@).to_set().contains(f) <==> set_funcs(rule.head@).contains(f));
}

} // verus!
