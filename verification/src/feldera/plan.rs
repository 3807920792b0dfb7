//! Join plans: which columns a rule body's variables take, which of its
//! primitives are decided on representations inside the join, and which are
//! called after it.
use crate::backend::{ColumnTy, ExternalFunctionId, FunctionId};
use crate::collections::IdMap;
use crate::feldera::compile::{BodyOp, HeadOp, RuleIr, Slot};
use crate::feldera::egraph::{EGraph, EgState};
use crate::feldera::expr::{max_rep, min_rep, Cond, PureExpr, RepKind};
use crate::feldera::row::{col, JOIN_WIDTH};
use crate::text::str_eq;
use std::rc::Rc;
use vstd::prelude::*;

verus! {

/// The primitives that are recognized by name.
#[derive(Clone, Copy, Debug, PartialEq, Eq, Structural)]
pub enum PrimOp {
    /// `!=`: prunes unless the operands differ.
    Ne,
    /// `bool-!=`: whether the operands differ.
    BoolNe,
    /// `or`: whether some operand holds.
    Or,
    /// `guard`: prunes unless the operand holds.
    Guard,
    /// `ordering-min`: the smaller operand.
    OrdMin,
    /// `ordering-max`: the larger operand.
    OrdMax,
    /// Any other primitive.
    Other,
}

/// The primitive of a name.
pub open spec fn op_of_name(name: Option<Seq<char>>) -> PrimOp {
    match name {
        None => PrimOp::Other,
        Some(n) => if n == "!="@ {
            PrimOp::Ne
        } else if n == "bool-!="@ {
            PrimOp::BoolNe
        } else if n == "or"@ {
            PrimOp::Or
        } else if n == "guard"@ {
            PrimOp::Guard
        } else if n == "ordering-min"@ {
            PrimOp::OrdMin
        } else if n == "ordering-max"@ {
            PrimOp::OrdMax
        } else {
            PrimOp::Other
        },
    }
}

/// The primitive of an id.
pub open spec fn op_of(s: EgState, id: ExternalFunctionId) -> PrimOp {
    op_of_name(s.name_of(id.rep))
}

/// The primitive of a name.
pub fn classify_name(name: Option<&str>) -> (op: PrimOp)
    ensures
        op == op_of_name(
            match name {
                Some(n) => Some(n@),
                None => None,
            },
        ),
{
    match name {
        None => PrimOp::Other,
        Some(n) => if str_eq(n, "!=") {
            PrimOp::Ne
        } else if str_eq(n, "bool-!=") {
            PrimOp::BoolNe
        } else if str_eq(n, "or") {
            PrimOp::Or
        } else if str_eq(n, "guard") {
            PrimOp::Guard
        } else if str_eq(n, "ordering-min") {
            PrimOp::OrdMin
        } else if str_eq(n, "ordering-max") {
            PrimOp::OrdMax
        } else {
            PrimOp::Other
        },
    }
}

/// Where a call reads an argument.
#[derive(Clone, Copy, Debug, PartialEq, Eq, Structural)]
pub enum ArgSrc {
    /// A column of the binding row.
    Col(usize),
    /// A constant.
    Const(u32),
}

/// What is done with a call's result.
#[derive(Clone, Copy, Debug, PartialEq, Eq, Structural)]
pub enum PrimRet {
    /// It is put in a new column.
    Bind(usize),
    /// It has to equal a column.
    AssertCol(usize),
    /// It has to equal a constant.
    AssertConst(u32),
}

/// A primitive that is called on each row the join gives.
#[derive(Clone, Debug)]
pub struct PrimStep {
    pub id: ExternalFunctionId,
    pub args: Vec<ArgSrc>,
    pub ret: PrimRet,
}

/// A call, as a value.
#[verifier::ext_equal]
pub struct StepView {
    pub id: ExternalFunctionId,
    pub args: Seq<ArgSrc>,
    pub ret: PrimRet,
}

impl PrimStep {
    pub open spec fn view(&self) -> StepView {
        StepView { id: self.id, args: self.args@, ret: self.ret }
    }
}

/// A table atom of a plan.
#[derive(Clone, Debug)]
pub struct AtomPlan {
    pub func: FunctionId,
    pub slots: Vec<Slot>,
}

/// A table atom of a plan, as a value.
#[verifier::ext_equal]
pub struct AtomView {
    pub func: FunctionId,
    pub slots: Seq<Slot>,
}

impl AtomPlan {
    pub open spec fn view(&self) -> AtomView {
        AtomView { func: self.func, slots: self.slots@ }
    }
}

/// How a rule body is joined.
#[derive(Debug)]
pub struct JoinPlan {
    /// The variable of each column of the binding row.
    pub var_order: Vec<u32>,
    /// The column of each variable.
    pub var_col: IdMap,
    pub atoms: Vec<AtomPlan>,
    /// The conditions that prune rows inside the join.
    pub guards: Vec<Rc<Cond>>,
    /// The calls that follow the join. There are none where there are guards.
    pub steps: Vec<PrimStep>,
}

/// Whether `cols` gives each variable of `order` its position.
pub open spec fn is_col_map(order: Seq<u32>, cols: Map<u32, usize>) -> bool {
    &&& order.no_duplicates()
    &&& forall|v: u32| #[trigger] cols.contains_key(v) <==> order.contains(v)
    &&& forall|i: int|
        0 <= i < order.len() ==> cols.contains_key(#[trigger] order[i]) && cols[order[i]] == i
}

/// Whether every variable of the slots has a column.
pub open spec fn vars_in(slots: Seq<Slot>, order: Seq<u32>) -> bool {
    forall|i: int|
        0 <= i < slots.len() ==> ((#[trigger] slots[i]) matches Slot::Var(v) ==> order.contains(v))
}

impl JoinPlan {
    /// The number of variables.
    pub fn n_vars(&self) -> (n: usize)
        ensures
            n == self.var_order@.len(),
    {
        self.var_order.len()
    }

    /// The variable of each column.
    pub fn var_order(&self) -> (v: &[u32])
        ensures
            v@ == self.var_order@,
    {
        self.var_order.as_slice()
    }

    /// The plan's shape: the variables fit a row, every atom's variables have a
    /// column, and guards read columns that the atoms bind.
    pub open spec fn wf(&self) -> bool {
        &&& is_col_map(self.var_order@, self.var_col@)
        &&& 0 < self.atoms@.len()
        &&& self.var_order@.len() <= JOIN_WIDTH
        &&& forall|i: int|
            0 <= i < self.atoms@.len() ==> (#[trigger] self.atoms@[i]).slots@.len() <= JOIN_WIDTH
                && vars_in(self.atoms@[i].slots@, self.var_order@)
        &&& forall|i: int, c: int|
            #![trigger self.guards@[i].reads(c)]
            0 <= i < self.guards@.len() && self.guards@[i].reads(c) ==> atom_bound(self, c)
    }
}

/// Whether column `c` holds a variable of some atom.
pub open spec fn atom_bound(plan: &JoinPlan, c: int) -> bool {
    &&& 0 <= c < plan.var_order@.len()
    &&& occurs(atom_views(plan.atoms@), plan.var_order@[c])
}

/// The atoms of a plan, as values.
pub open spec fn atom_views(atoms: Seq<AtomPlan>) -> Seq<AtomView> {
    atoms.map_values(|a: AtomPlan| a.view())
}

/// The calls of a plan, as values.
pub open spec fn step_views(steps: Seq<PrimStep>) -> Seq<StepView> {
    steps.map_values(|p: PrimStep| p.view())
}

/// Whether `v` is a variable of some atom.
pub open spec fn occurs(atoms: Seq<AtomView>, v: u32) -> bool {
    exists|i: int, j: int|
        0 <= i < atoms.len() && 0 <= j < atoms[i].slots.len() && #[trigger] atoms[i].slots[j]
            == Slot::Var(v)
}

/// Why a rule has no join plan.
#[derive(Clone, Copy, Debug, PartialEq, Eq, Structural)]
pub enum Ineligible {
    /// A body primitive is not recognized and not known to be pure.
    ImpurePrim(ExternalFunctionId),
    /// An atom has too many columns.
    AtomTooWide(usize),
    /// An argument of a called primitive is not bound.
    CallArgUnbound(ExternalFunctionId),
    /// A recognized primitive has the wrong number of operands.
    BadArity(PrimOp, usize),
    /// The operand at a position cannot be compared on representations.
    NotComparable(PrimOp, usize),
    /// The operand at a position cannot be ordered on representations.
    NotOrdered(PrimOp, usize),
    /// The result cannot be compared with an ordered expression.
    RetNotOrdered(PrimOp),
    /// The result has to be a variable.
    RetNotVar(PrimOp),
    /// An operand is no condition that an earlier primitive computed.
    NotACond(PrimOp),
    /// A condition is expected where a constant is given.
    ConstOperand(PrimOp),
    /// A guard on two values stands beside a primitive that is called after the join.
    DifferBesideCall,
    /// A primitive is not recognized.
    Unrecognized(ExternalFunctionId),
    /// The head reads a result that is not in the binding row.
    EscapesToHead,
    /// The body has no table atom.
    NoAtoms,
    /// There are too many variables.
    TooManyVars(usize),
}

// ---------------------------------------------------------------------------
// The columns of the variables
// ---------------------------------------------------------------------------

/// The order with `v` at its end, unless it is there.
pub open spec fn see(order: Seq<u32>, v: u32) -> Seq<u32> {
    if order.contains(v) {
        order
    } else {
        order.push(v)
    }
}

/// The order with the variables of the slots, in their order.
pub open spec fn see_slots(order: Seq<u32>, slots: Seq<Slot>) -> Seq<u32>
    decreases slots.len(),
{
    if slots.len() == 0 {
        order
    } else {
        let before = see_slots(order, slots.drop_last());
        match slots.last() {
            Slot::Var(v) => see(before, v),
            Slot::Const(_) => before,
        }
    }
}

/// The variables of the body's atoms, in order of their first occurrence.
pub open spec fn atom_order(body: Seq<BodyOp>) -> Seq<u32>
    decreases body.len(),
{
    if body.len() == 0 {
        Seq::empty()
    } else {
        let before = atom_order(body.drop_last());
        match body.last() {
            BodyOp::Atom(a) => see_slots(before, a.slots@),
            _ => before,
        }
    }
}

/// Which operations on a column's representations agree with those on its values.
pub open spec fn col_kind(s: EgState, f: FunctionId, c: int) -> Option<RepKind> {
    match s.col_ty(f.rep, c) {
        Some(ColumnTy::Id) => Some(RepKind::Order),
        Some(ColumnTy::Base(b)) => if s.base.boolean == Some(b) || s.base.int == Some(b)
            || s.base.string == Some(b) {
            Some(RepKind::Equality)
        } else {
            None
        },
        None => None,
    }
}

/// The kinds with one more occurrence of `v`: an ordered one wins.
pub open spec fn see_kind(kinds: Map<u32, RepKind>, v: u32, k: Option<RepKind>) -> Map<
    u32,
    RepKind,
> {
    match k {
        Some(RepKind::Order) => kinds.insert(v, RepKind::Order),
        Some(RepKind::Equality) => if kinds.contains_key(v) {
            kinds
        } else {
            kinds.insert(v, RepKind::Equality)
        },
        None => kinds,
    }
}

/// The kinds with the occurrences in an atom's slots.
pub open spec fn see_kinds(
    s: EgState,
    kinds: Map<u32, RepKind>,
    f: FunctionId,
    slots: Seq<Slot>,
) -> Map<u32, RepKind>
    decreases slots.len(),
{
    if slots.len() == 0 {
        kinds
    } else {
        let before = see_kinds(s, kinds, f, slots.drop_last());
        match slots.last() {
            Slot::Var(v) => see_kind(before, v, col_kind(s, f, slots.len() - 1)),
            Slot::Const(_) => before,
        }
    }
}

/// The kinds of the variables of the body's atoms.
pub open spec fn atom_kinds(s: EgState, body: Seq<BodyOp>) -> Map<u32, RepKind>
    decreases body.len(),
{
    if body.len() == 0 {
        Map::empty()
    } else {
        let before = atom_kinds(s, body.drop_last());
        match body.last() {
            BodyOp::Atom(a) => see_kinds(s, before, a.func, a.slots@),
            _ => before,
        }
    }
}

proof fn lemma_see_slots(order: Seq<u32>, slots: Seq<Slot>)
    requires
        order.no_duplicates(),
    ensures
        see_slots(order, slots).no_duplicates(),
        order.len() <= see_slots(order, slots).len(),
        forall|v: u32| order.contains(v) ==> #[trigger] see_slots(order, slots).contains(v),
        vars_in(slots, see_slots(order, slots)),
        forall|v: u32| #[trigger]
            see_slots(order, slots).contains(v) ==> order.contains(v) || exists|i: int|
                0 <= i < slots.len() && #[trigger] slots[i] == Slot::Var(v),
    decreases slots.len(),
{
    if slots.len() > 0 {
        let less = slots.drop_last();
        lemma_see_slots(order, less);
        let before = see_slots(order, less);
        let after = see_slots(order, slots);
        if let Slot::Var(v) = slots.last() {
            crate::feldera::expr::lemma_push_contains(before, v);
        }
        assert forall|i: int| 0 <= i < slots.len() implies ((#[trigger] slots[i]) matches Slot::Var(
            v,
        ) ==> after.contains(v)) by {
            if i < less.len() {
                assert(less[i] == slots[i]);
            }
        }
        assert forall|v: u32| #[trigger] after.contains(v) implies order.contains(v) || exists|
            i: int,
        |
            0 <= i < slots.len() && #[trigger] slots[i] == Slot::Var(v) by {
            if before.contains(v) && !order.contains(v) {
                let i = choose|i: int| 0 <= i < less.len() && #[trigger] less[i] == Slot::Var(v);
                assert(slots[i] == Slot::Var(v));
            } else if !before.contains(v) {
                assert(slots[slots.len() - 1] == Slot::Var(v));
            }
        }
    }
}

/// The table atoms of a body.
pub open spec fn atoms_of(body: Seq<BodyOp>) -> Seq<AtomView>
    decreases body.len(),
{
    if body.len() == 0 {
        Seq::empty()
    } else {
        let before = atoms_of(body.drop_last());
        match body.last() {
            BodyOp::Atom(a) => before.push(AtomView { func: a.func, slots: a.slots@ }),
            _ => before,
        }
    }
}

proof fn lemma_occurs_push(atoms: Seq<AtomView>, a: AtomView, v: u32)
    ensures
        occurs(atoms.push(a), v) <==> occurs(atoms, v) || exists|j: int|
            0 <= j < a.slots.len() && #[trigger] a.slots[j] == Slot::Var(v),
{
    let more = atoms.push(a);
    if occurs(atoms, v) {
        let (i, j) = choose|i: int, j: int|
            0 <= i < atoms.len() && 0 <= j < atoms[i].slots.len() && #[trigger] atoms[i].slots[j]
                == Slot::Var(v);
        assert(more[i].slots[j] == Slot::Var(v));
    }
    if exists|j: int| 0 <= j < a.slots.len() && #[trigger] a.slots[j] == Slot::Var(v) {
        let j = choose|j: int| 0 <= j < a.slots.len() && #[trigger] a.slots[j] == Slot::Var(v);
        assert(more[atoms.len() as int].slots[j] == Slot::Var(v));
    }
    if occurs(more, v) {
        let (i, j) = choose|i: int, j: int|
            0 <= i < more.len() && 0 <= j < more[i].slots.len() && #[trigger] more[i].slots[j]
                == Slot::Var(v);
        if i < atoms.len() {
            assert(atoms[i].slots[j] == Slot::Var(v));
        } else {
            assert(a.slots[j] == Slot::Var(v));
        }
    }
}

/// The columns of a body's variables are those of its atoms, each once.
pub proof fn lemma_atom_order(body: Seq<BodyOp>)
    ensures
        atom_order(body).no_duplicates(),
        forall|v: u32| #[trigger] atom_order(body).contains(v) <==> occurs(atoms_of(body), v),
    decreases body.len(),
{
    if body.len() > 0 {
        let less = body.drop_last();
        lemma_atom_order(less);
        if let BodyOp::Atom(a) = body.last() {
            lemma_see_slots(atom_order(less), a.slots@);
            let av = AtomView { func: a.func, slots: a.slots@ };
            assert forall|v: u32| #[trigger] atom_order(body).contains(v) <==> occurs(
                atoms_of(body),
                v,
            ) by {
                lemma_occurs_push(atoms_of(less), av, v);
                assert(atom_order(less).contains(v) <==> occurs(atoms_of(less), v));
                if exists|j: int| 0 <= j < av.slots.len() && #[trigger] av.slots[j] == Slot::Var(
                    v,
                ) {
                    let j = choose|j: int|
                        0 <= j < av.slots.len() && #[trigger] av.slots[j] == Slot::Var(v);
                    assert(a.slots@[j] == Slot::Var(v));
                }
            }
        }
    }
}

// ---------------------------------------------------------------------------
// Inside the join, or called after it
// ---------------------------------------------------------------------------

/// Whether a primitive orders its operands.
pub open spec fn orders(op: PrimOp) -> bool {
    op == PrimOp::OrdMin || op == PrimOp::OrdMax
}

/// The kind of an operand: a constant can be compared, a variable is as an
/// earlier primitive or an atom left it.
pub open spec fn operand_kind(
    slot: Slot,
    prim_kinds: Map<u32, RepKind>,
    kinds: Map<u32, RepKind>,
) -> Option<RepKind> {
    match slot {
        Slot::Const(_) => Some(RepKind::Equality),
        Slot::Var(v) => if prim_kinds.contains_key(v) {
            Some(prim_kinds[v])
        } else if kinds.contains_key(v) {
            Some(kinds[v])
        } else {
            None
        },
    }
}

/// Whether a recognized primitive can be decided on representations.
pub open spec fn inlinable(
    op: PrimOp,
    args: Seq<Slot>,
    prim_kinds: Map<u32, RepKind>,
    kinds: Map<u32, RepKind>,
) -> bool {
    forall|i: int|
        0 <= i < args.len() ==> {
            let k = operand_kind(#[trigger] args[i], prim_kinds, kinds);
            &&& k is Some
            &&& orders(op) ==> k == Some(RepKind::Order)
        }
}

/// The kind of a recognized primitive's result.
pub open spec fn result_kind(
    op: PrimOp,
    args: Seq<Slot>,
    prim_kinds: Map<u32, RepKind>,
    kinds: Map<u32, RepKind>,
) -> RepKind {
    if orders(op) && exists|i: int|
        0 <= i < args.len() && operand_kind(#[trigger] args[i], prim_kinds, kinds) == Some(
            RepKind::Order,
        ) {
        RepKind::Order
    } else {
        RepKind::Equality
    }
}

/// Where a body's primitives are evaluated.
#[verifier::ext_equal]
pub struct Mode {
    /// Whether they are called after the join.
    pub calls: bool,
    /// The kinds of the recognized primitives' results.
    pub prim_kinds: Map<u32, RepKind>,
}

/// The mode of a body: its primitives are called unless all of them are recognized
/// and can be decided on representations. One that is called has to be pure.
pub open spec fn mode_of(s: EgState, kinds: Map<u32, RepKind>, body: Seq<BodyOp>) -> Result<
    Mode,
    Ineligible,
>
    decreases body.len(),
{
    if body.len() == 0 {
        Ok(Mode { calls: false, prim_kinds: Map::empty() })
    } else {
        match mode_of(s, kinds, body.drop_last()) {
            Err(e) => Err(e),
            Ok(m) => match body.last() {
                BodyOp::Atom(_) | BodyOp::Differ(_, _) => Ok(m),
                BodyOp::Prim { id, args, ret } => {
                    let op = op_of(s, id);
                    if op == PrimOp::Other {
                        if s.pure_prims.contains(id.rep) {
                            Ok(Mode { calls: true, ..m })
                        } else {
                            Err(Ineligible::ImpurePrim(id))
                        }
                    } else {
                        Ok(
                            Mode {
                                calls: m.calls || !inlinable(op, args@, m.prim_kinds, kinds),
                                prim_kinds: match ret {
                                    Slot::Var(rv) => m.prim_kinds.insert(
                                        rv,
                                        result_kind(op, args@, m.prim_kinds, kinds),
                                    ),
                                    Slot::Const(_) => m.prim_kinds,
                                },
                            },
                        )
                    }
                },
            },
        }
    }
}

// ---------------------------------------------------------------------------
// Lowering
// ---------------------------------------------------------------------------

/// What has been planned of a body.
pub struct Lowered {
    pub order: Seq<u32>,
    pub atoms: Seq<AtomView>,
    /// The values that primitives compute, by variable.
    pub vals: Map<u32, spec_fn(Seq<u32>) -> u32>,
    /// The conditions that primitives compute, by variable.
    pub conds: Map<u32, spec_fn(Seq<u32>) -> bool>,
    pub guards: Seq<spec_fn(Seq<u32>) -> bool>,
    pub steps: Seq<StepView>,
}

/// The value of an operand on a binding row, if it can be had: a primitive's
/// result, a constant, or a column of a suitable kind.
pub open spec fn val_of(
    st: Lowered,
    kinds: Map<u32, RepKind>,
    slot: Slot,
    need_order: bool,
) -> Option<spec_fn(Seq<u32>) -> u32> {
    match slot {
        Slot::Const(c) => Some(|row: Seq<u32>| c),
        Slot::Var(v) => if st.vals.contains_key(v) {
            Some(st.vals[v])
        } else if st.order.contains(v) && kinds.contains_key(v) && (need_order ==> kinds[v]
            == RepKind::Order) {
            Some(|row: Seq<u32>| col(row, st.order.index_of(v)))
        } else {
            None
        },
    }
}

/// The first operand that is no condition, if any.
pub open spec fn bad_cond(
    conds: Map<u32, spec_fn(Seq<u32>) -> bool>,
    op: PrimOp,
    args: Seq<Slot>,
) -> Option<Ineligible>
    decreases args.len(),
{
    if args.len() == 0 {
        None
    } else {
        match bad_cond(conds, op, args.drop_last()) {
            Some(e) => Some(e),
            None => match args.last() {
                Slot::Const(_) => Some(Ineligible::ConstOperand(op)),
                Slot::Var(v) => if conds.contains_key(v) {
                    None
                } else {
                    Some(Ineligible::NotACond(op))
                },
            },
        }
    }
}

/// Whether some of the conditions of the operands holds.
pub open spec fn some_cond(
    conds: Map<u32, spec_fn(Seq<u32>) -> bool>,
    args: Seq<Slot>,
) -> spec_fn(Seq<u32>) -> bool {
    |row: Seq<u32>|
        exists|i: int|
            0 <= i < args.len() && (#[trigger] args[i]) is Var && conds[args[i]->Var_0](row)
}

/// The plan with a primitive that is decided on representations.
pub open spec fn lower_inline(
    st: Lowered,
    kinds: Map<u32, RepKind>,
    id: ExternalFunctionId,
    op: PrimOp,
    args: Seq<Slot>,
    ret: Slot,
) -> Result<Lowered, Ineligible> {
    match op {
        PrimOp::Ne | PrimOp::BoolNe => if args.len() != 2 {
            Err(Ineligible::BadArity(op, args.len() as usize))
        } else if val_of(st, kinds, args[0], false) is None {
            Err(Ineligible::NotComparable(op, 0))
        } else if val_of(st, kinds, args[1], false) is None {
            Err(Ineligible::NotComparable(op, 1))
        } else {
            let a = val_of(st, kinds, args[0], false)->0;
            let b = val_of(st, kinds, args[1], false)->0;
            let cond = |row: Seq<u32>| a(row) != b(row);
            if op == PrimOp::Ne {
                Ok(Lowered { guards: st.guards.push(cond), ..st })
            } else {
                match ret {
                    Slot::Var(rv) => Ok(Lowered { conds: st.conds.insert(rv, cond), ..st }),
                    Slot::Const(_) => Err(Ineligible::RetNotVar(op)),
                }
            }
        },
        PrimOp::Or => match bad_cond(st.conds, op, args) {
            Some(e) => Err(e),
            None => match ret {
                Slot::Var(rv) => Ok(
                    Lowered { conds: st.conds.insert(rv, some_cond(st.conds, args)), ..st },
                ),
                Slot::Const(_) => Err(Ineligible::RetNotVar(op)),
            },
        },
        PrimOp::Guard => if args.len() != 1 {
            Err(Ineligible::BadArity(op, args.len() as usize))
        } else {
            match args[0] {
                Slot::Const(_) => Err(Ineligible::ConstOperand(op)),
                Slot::Var(v) => if st.conds.contains_key(v) {
                    Ok(Lowered { guards: st.guards.push(st.conds[v]), ..st })
                } else {
                    Err(Ineligible::NotACond(op))
                },
            }
        },
        PrimOp::OrdMin | PrimOp::OrdMax => if args.len() != 2 {
            Err(Ineligible::BadArity(op, args.len() as usize))
        } else if val_of(st, kinds, args[0], true) is None {
            Err(Ineligible::NotOrdered(op, 0))
        } else if val_of(st, kinds, args[1], true) is None {
            Err(Ineligible::NotOrdered(op, 1))
        } else {
            let a = val_of(st, kinds, args[0], true)->0;
            let b = val_of(st, kinds, args[1], true)->0;
            let expr = |row: Seq<u32>|
                if op == PrimOp::OrdMin {
                    min_rep(a(row), b(row))
                } else {
                    max_rep(a(row), b(row))
                };
            match ret {
                Slot::Const(c) => Ok(
                    Lowered { guards: st.guards.push(|row: Seq<u32>| expr(row) == c), ..st },
                ),
                Slot::Var(rv) => if st.order.contains(rv) {
                    match val_of(st, kinds, ret, true) {
                        None => Err(Ineligible::RetNotOrdered(op)),
                        Some(r) => Ok(
                            Lowered {
                                guards: st.guards.push(|row: Seq<u32>| expr(row) == r(row)),
                                ..st
                            },
                        ),
                    }
                } else if st.vals.contains_key(rv) {
                    let r = st.vals[rv];
                    Ok(
                        Lowered {
                            guards: st.guards.push(|row: Seq<u32>| expr(row) == r(row)),
                            ..st
                        },
                    )
                } else {
                    Ok(Lowered { vals: st.vals.insert(rv, expr), ..st })
                },
            }
        },
        PrimOp::Other => Err(Ineligible::Unrecognized(id)),
    }
}

/// Where a bound argument is read.
pub open spec fn arg_src(order: Seq<u32>, slot: Slot) -> ArgSrc {
    match slot {
        Slot::Const(c) => ArgSrc::Const(c),
        Slot::Var(v) => ArgSrc::Col(order.index_of(v) as usize),
    }
}

/// The plan with a primitive that is called after the join.
pub open spec fn lower_call(
    st: Lowered,
    id: ExternalFunctionId,
    args: Seq<Slot>,
    ret: Slot,
) -> Result<Lowered, Ineligible> {
    if !vars_in(args, st.order) {
        Err(Ineligible::CallArgUnbound(id))
    } else {
        let srcs = args.map_values(|a: Slot| arg_src(st.order, a));
        let (order, r) = match ret {
            Slot::Const(c) => (st.order, PrimRet::AssertConst(c)),
            Slot::Var(rv) => if st.order.contains(rv) {
                (st.order, PrimRet::AssertCol(st.order.index_of(rv) as usize))
            } else {
                (st.order.push(rv), PrimRet::Bind(st.order.len() as usize))
            },
        };
        Ok(Lowered { order, steps: st.steps.push(StepView { id, args: srcs, ret: r }), ..st })
    }
}

/// The value of a slot on a binding row, if it can be had: a primitive's result, a
/// constant or a column.
pub open spec fn rep_of(st: Lowered, slot: Slot) -> Option<spec_fn(Seq<u32>) -> u32> {
    match slot {
        Slot::Const(c) => Some(|row: Seq<u32>| c),
        Slot::Var(v) => if st.vals.contains_key(v) {
            Some(st.vals[v])
        } else if st.order.contains(v) {
            Some(|row: Seq<u32>| col(row, st.order.index_of(v)))
        } else {
            None
        },
    }
}

/// The plan with a guard that drops the matches on which two values are equal.
pub open spec fn lower_differ(st: Lowered, calls: bool, l: Slot, r: Slot) -> Result<
    Lowered,
    Ineligible,
> {
    if calls {
        Err(Ineligible::DifferBesideCall)
    } else if rep_of(st, l) is None {
        Err(Ineligible::NotComparable(PrimOp::Ne, 0))
    } else if rep_of(st, r) is None {
        Err(Ineligible::NotComparable(PrimOp::Ne, 1))
    } else {
        let a = rep_of(st, l)->0;
        let b = rep_of(st, r)->0;
        Ok(Lowered { guards: st.guards.push(|row: Seq<u32>| a(row) != b(row)), ..st })
    }
}

/// The plan with one more operation of the body.
pub open spec fn lower_op(
    s: EgState,
    kinds: Map<u32, RepKind>,
    calls: bool,
    st: Lowered,
    op: BodyOp,
) -> Result<Lowered, Ineligible> {
    match op {
        BodyOp::Atom(a) => if a.slots@.len() > JOIN_WIDTH {
            Err(Ineligible::AtomTooWide(a.slots@.len() as usize))
        } else {
            Ok(
                Lowered {
                    atoms: st.atoms.push(AtomView { func: a.func, slots: a.slots@ }),
                    ..st
                },
            )
        },
        BodyOp::Prim { id, args, ret } => if calls {
            lower_call(st, id, args@, ret)
        } else {
            lower_inline(st, kinds, id, op_of(s, id), args@, ret)
        },
        BodyOp::Differ(l, r) => lower_differ(st, calls, l, r),
    }
}

/// The plan of a body whose variables have the columns `order`.
pub open spec fn lower(
    s: EgState,
    kinds: Map<u32, RepKind>,
    calls: bool,
    order: Seq<u32>,
    body: Seq<BodyOp>,
) -> Result<Lowered, Ineligible>
    decreases body.len(),
{
    if body.len() == 0 {
        Ok(
            Lowered {
                order,
                atoms: Seq::empty(),
                vals: Map::empty(),
                conds: Map::empty(),
                guards: Seq::empty(),
                steps: Seq::empty(),
            },
        )
    } else {
        match lower(s, kinds, calls, order, body.drop_last()) {
            Err(e) => Err(e),
            Ok(st) => lower_op(s, kinds, calls, st, body.last()),
        }
    }
}

/// The variables that slots refer to.
pub open spec fn slot_vars(slots: Seq<Slot>) -> Seq<u32>
    decreases slots.len(),
{
    if slots.len() == 0 {
        Seq::empty()
    } else {
        match slots.last() {
            Slot::Var(v) => slot_vars(slots.drop_last()).push(v),
            Slot::Const(_) => slot_vars(slots.drop_last()),
        }
    }
}

/// The variables that a head operation refers to.
pub open spec fn head_op_vars(op: HeadOp) -> Seq<u32> {
    match op {
        HeadOp::SetRow { func, slots } => slot_vars(slots@),
        HeadOp::Remove { func, slots } => slot_vars(slots@),
        HeadOp::Subsume { func, slots } => slot_vars(slots@),
        HeadOp::Lookup { func, args, ret } => slot_vars(args@).push(ret),
        HeadOp::Call { id, args, ret } => slot_vars(args@).push(ret),
        HeadOp::Union { l, r } => slot_vars(seq![l, r]),
        HeadOp::Panic(_) => Seq::empty(),
    }
}

/// The variables that a head refers to.
pub open spec fn head_ops_vars(head: Seq<HeadOp>) -> Seq<u32>
    decreases head.len(),
{
    if head.len() == 0 {
        Seq::empty()
    } else {
        head_ops_vars(head.drop_last()) + head_op_vars(head.last())
    }
}

/// Whether the head reads a primitive's result that has no column.
pub open spec fn escapes(st: Lowered, vars: Seq<u32>) -> bool {
    exists|i: int|
        0 <= i < vars.len() && (st.vals.contains_key(#[trigger] vars[i]) || st.conds.contains_key(
            vars[i],
        )) && !st.order.contains(vars[i])
}

/// What the plan of a rule is, or why it has none.
pub open spec fn plan_of(s: EgState, rule: RuleIr) -> Result<Lowered, Ineligible> {
    let body = rule.body@;
    let kinds = atom_kinds(s, body);
    match mode_of(s, kinds, body) {
        Err(e) => Err(e),
        Ok(m) => match lower(s, kinds, m.calls, atom_order(body), body) {
            Err(e) => Err(e),
            Ok(st) => if escapes(st, head_ops_vars(rule.head@)) {
                Err(Ineligible::EscapesToHead)
            } else if st.atoms.len() == 0 {
                Err(Ineligible::NoAtoms)
            } else if st.order.len() > JOIN_WIDTH {
                Err(Ineligible::TooManyVars(st.order.len() as usize))
            } else {
                Ok(st)
            },
        },
    }
}

/// Whether a plan is the one that was stated.
pub open spec fn plan_is(plan: &JoinPlan, st: Lowered) -> bool {
    &&& plan.var_order@ == st.order
    &&& atom_views(plan.atoms@) == st.atoms
    &&& step_views(plan.steps@) == st.steps
    &&& guards_are(plan.guards@, st.guards)
}

/// Whether conditions hold where the stated ones do.
pub open spec fn guards_are(
    guards: Seq<Rc<Cond>>,
    stated: Seq<spec_fn(Seq<u32>) -> bool>,
) -> bool {
    &&& guards.len() == stated.len()
    &&& forall|i: int, row: Seq<u32>|
        #![trigger guards[i].holds(row)]
        0 <= i < guards.len() ==> guards[i].holds(row) == (stated[i])(row)
}

// ---------------------------------------------------------------------------
// Planning
// ---------------------------------------------------------------------------

/// The variables that slots refer to, appended.
fn push_slot_vars(slots: &Vec<Slot>, out: &mut Vec<u32>)
    ensures
        final(out)@ == old(out)@ + slot_vars(slots@),
{
    assert(slots@.take(0) =~= Seq::empty());
    for i in 0..slots.len()
        invariant
            out@ =~= old(out)@ + slot_vars(slots@.take(i as int)),
    {
        let ghost upto = slots@.take(i + 1);
        assert(upto.drop_last() =~= slots@.take(i as int));
        assert(upto.last() == slots@[i as int]);
        if let Slot::Var(v) = slots[i] {
            out.push(v);
        }
    }
    assert(slots@.take(slots@.len() as int) =~= slots@);
}

/// The variables that a rule's head refers to.
pub fn head_vars(rule: &RuleIr) -> (vars: Vec<u32>)
    ensures
        vars@ == head_ops_vars(rule.head@),
{
    let mut out: Vec<u32> = Vec::new();
    let ghost head = rule.head@;
    assert(head.take(0) =~= Seq::empty());
    for i in 0..rule.head.len()
        invariant
            head == rule.head@,
            out@ =~= head_ops_vars(head.take(i as int)),
    {
        let ghost upto = head.take(i + 1);
        let ghost before = out@;
        assert(upto.drop_last() =~= head.take(i as int));
        assert(upto.last() == head[i as int]);
        match &rule.head[i] {
            HeadOp::SetRow { func: _, slots } => {
                push_slot_vars(slots, &mut out);
            },
            HeadOp::Remove { func: _, slots } => {
                push_slot_vars(slots, &mut out);
            },
            HeadOp::Subsume { func: _, slots } => {
                push_slot_vars(slots, &mut out);
            },
            HeadOp::Lookup { func: _, args, ret } => {
                push_slot_vars(args, &mut out);
                out.push(*ret);
            },
            HeadOp::Call { id: _, args, ret } => {
                push_slot_vars(args, &mut out);
                out.push(*ret);
            },
            HeadOp::Union { l, r } => {
                let mut two: Vec<Slot> = Vec::new();
                two.push(*l);
                two.push(*r);
                push_slot_vars(&two, &mut out);
                assert(two@ =~= seq![*l, *r]);
            },
            HeadOp::Panic(_) => {},
        }
        assert(out@ =~= before + head_op_vars(head[i as int]));
    }
    assert(head.take(rule.head@.len() as int) =~= head);
    out
}

/// Kinds as the map that the planner keeps: one for an ordered kind.
pub open spec fn kinds_are(m: Map<u32, usize>, kinds: Map<u32, RepKind>) -> bool {
    &&& forall|v: u32| #[trigger] m.contains_key(v) <==> kinds.contains_key(v)
    &&& forall|v: u32| #[trigger]
        m.contains_key(v) ==> m[v] == (if kinds[v] == RepKind::Order {
            1usize
        } else {
            0usize
        })
}

/// The kind of a column.
fn column_kind(eg: &EGraph, f: FunctionId, c: usize) -> (k: Option<RepKind>)
    ensures
        k == col_kind(eg@, f, c as int),
{
    let base = eg.base_types();
    match eg.col_ty(f, c) {
        Some(ColumnTy::Id) => Some(RepKind::Order),
        Some(ColumnTy::Base(b)) => {
            let is_bool = match base.boolean {
                Some(x) => x == b,
                None => false,
            };
            let is_int = match base.int {
                Some(x) => x == b,
                None => false,
            };
            let is_string = match base.string {
                Some(x) => x == b,
                None => false,
            };
            if is_bool || is_int || is_string {
                Some(RepKind::Equality)
            } else {
                None
            }
        },
        None => None,
    }
}

/// A variable's column, which it gets where it has none.
fn see_var(order: &mut Vec<u32>, cols: &mut IdMap, v: u32) -> (c: usize)
    requires
        is_col_map(old(order)@, old(cols)@),
    ensures
        is_col_map(final(order)@, final(cols)@),
        final(order)@ == see(old(order)@, v),
        c == final(cols)@[v],
        final(cols)@.contains_key(v),
{
    match cols.get(v) {
        Some(c) => c,
        None => {
            let c: usize = order.len();
            cols.insert(v, c);
            order.push(v);
            proof {
                crate::feldera::expr::lemma_push_contains(old(order)@, v);
                assert forall|i: int| 0 <= i < order@.len() implies cols@.contains_key(
                    #[trigger] order@[i],
                ) && cols@[order@[i]] == i by {
                    if i < old(order)@.len() {
                        assert(order@[i] == old(order)@[i]);
                        assert(old(order)@.contains(old(order)@[i]));
                    }
                }
            }
            c
        },
    }
}

/// The columns and kinds of the variables of the body's atoms.
fn scan_atoms(eg: &EGraph, rule: &RuleIr) -> (r: (Vec<u32>, IdMap, IdMap))
    ensures
        r.0@ == atom_order(rule.body@),
        is_col_map(r.0@, r.1@),
        kinds_are(r.2@, atom_kinds(eg@, rule.body@)),
{
    let mut order: Vec<u32> = Vec::new();
    let mut cols = IdMap::new();
    let mut kinds = IdMap::new();
    let ghost body = rule.body@;
    assert(body.take(0) =~= Seq::empty());
    for i in 0..rule.body.len()
        invariant
            body == rule.body@,
            order@ == atom_order(body.take(i as int)),
            is_col_map(order@, cols@),
            kinds_are(kinds@, atom_kinds(eg@, body.take(i as int))),
    {
        let ghost upto = body.take(i + 1);
        assert(upto.drop_last() =~= body.take(i as int));
        assert(upto.last() == body[i as int]);
        match &rule.body[i] {
            BodyOp::Atom(atom) => {
                let ghost order0 = order@;
                let ghost slots = atom.slots@;
                let ghost k0 = atom_kinds(eg@, body.take(i as int));
                assert(slots.take(0) =~= Seq::empty());
                for c in 0..atom.slots.len()
                    invariant
                        slots == atom.slots@,
                        order@ == see_slots(order0, slots.take(c as int)),
                        is_col_map(order@, cols@),
                        kinds_are(kinds@, see_kinds(eg@, k0, atom.func, slots.take(c as int))),
                {
                    let ghost some = slots.take(c + 1);
                    assert(some.drop_last() =~= slots.take(c as int));
                    assert(some.last() == slots[c as int]);
                    if let Slot::Var(v) = atom.slots[c] {
                        see_var(&mut order, &mut cols, v);
                        match column_kind(eg, atom.func, c) {
                            Some(RepKind::Order) => {
                                kinds.insert(v, 1);
                            },
                            Some(RepKind::Equality) => {
                                if kinds.get(v).is_none() {
                                    kinds.insert(v, 0);
                                }
                            },
                            None => {},
                        }
                    }
                }
                assert(slots.take(slots.len() as int) =~= slots);
            },
            _ => {},
        }
    }
    assert(body.take(rule.body@.len() as int) =~= body);
    (order, cols, kinds)
}

/// The kind of an operand.
fn kind_of_operand(slot: &Slot, prim_kinds: &IdMap, kinds: &IdMap) -> (k: Option<usize>)
    ensures
        forall|pk: Map<u32, RepKind>, ak: Map<u32, RepKind>|
            #![trigger operand_kind(*slot, pk, ak)]
            kinds_are(prim_kinds@, pk) && kinds_are(kinds@, ak) ==> k == (match operand_kind(
                *slot,
                pk,
                ak,
            ) {
                Some(RepKind::Order) => Some(1usize),
                Some(RepKind::Equality) => Some(0usize),
                None => None,
            }),
{
    match slot {
        Slot::Const(_) => Some(0),
        Slot::Var(v) => match prim_kinds.get(*v) {
            Some(k) => Some(k),
            None => kinds.get(*v),
        },
    }
}

/// Whether the body's primitives are called after the join.
fn decide_mode(eg: &EGraph, rule: &RuleIr, kinds: &IdMap) -> (r: Result<bool, Ineligible>)
    requires
        eg.wf(),
        kinds_are(kinds@, atom_kinds(eg@, rule.body@)),
    ensures
        match mode_of(eg@, atom_kinds(eg@, rule.body@), rule.body@) {
            Ok(m) => r == Ok::<bool, Ineligible>(m.calls),
            Err(e) => r == Err::<bool, Ineligible>(e),
        },
{
    let ghost ak = atom_kinds(eg@, rule.body@);
    let ghost body = rule.body@;
    let mut calls = false;
    let mut prim_kinds = IdMap::new();
    assert(body.take(0) =~= Seq::empty());
    for i in 0..rule.body.len()
        invariant
            eg.wf(),
            body == rule.body@,
            kinds_are(kinds@, ak),
            ak == atom_kinds(eg@, rule.body@),
            mode_of(eg@, ak, body.take(i as int)) is Ok,
            mode_of(eg@, ak, body.take(i as int))->Ok_0.calls == calls,
            kinds_are(prim_kinds@, mode_of(eg@, ak, body.take(i as int))->Ok_0.prim_kinds),
    {
        let ghost upto = body.take(i + 1);
        assert(upto.drop_last() =~= body.take(i as int));
        assert(upto.last() == body[i as int]);
        let ghost m = mode_of(eg@, ak, body.take(i as int))->Ok_0;
        if let BodyOp::Prim { id, args, ret } = &rule.body[i] {
            let op = classify_name(eg.prim_name(*id));
            assert(op == op_of(eg@, *id));
            if let PrimOp::Other = op {
                if !eg.is_pure_prim(*id) {
                    proof {
                        lemma_mode_err(eg@, ak, body, i + 1);
                    }
                    return Err(Ineligible::ImpurePrim(*id));
                }
                calls = true;
            } else {
                let need_order = match op {
                    PrimOp::OrdMin => true,
                    PrimOp::OrdMax => true,
                    _ => false,
                };
                let mut inline = true;
                let mut out: usize = 0;
                for j in 0..args.len()
                    invariant
                        need_order == orders(op),
                        kinds_are(kinds@, ak),
                        kinds_are(prim_kinds@, m.prim_kinds),
                        inline == inlinable(op, args@.take(j as int), m.prim_kinds, ak),
                        out == (if result_kind(op, args@.take(j as int), m.prim_kinds, ak)
                            == RepKind::Order {
                            1usize
                        } else {
                            0usize
                        }),
                {
                    let ghost some = args@.take(j + 1);
                    let ghost less = args@.take(j as int);
                    assert(some[j as int] == args@[j as int]);
                    let k = kind_of_operand(&args[j], &prim_kinds, kinds);
                    let ghost gk = operand_kind(args@[j as int], m.prim_kinds, ak);
                    match k {
                        Some(x) => {
                            if need_order {
                                if x == 1 {
                                    out = 1;
                                } else {
                                    inline = false;
                                }
                            }
                        },
                        None => {
                            inline = false;
                        },
                    }
                    proof {
                        assert forall|q: int| 0 <= q < less.len() implies less[q] == #[trigger] some[q] by {}
                        if inlinable(op, some, m.prim_kinds, ak) {
                            assert forall|q: int| 0 <= q < less.len() implies ({
                                let k = operand_kind(#[trigger] less[q], m.prim_kinds, ak);
                                &&& k is Some
                                &&& orders(op) ==> k == Some(RepKind::Order)
                            }) by {
                                assert(some[q] == less[q]);
                            }
                        }
                        if exists|q: int|
                            0 <= q < less.len() && operand_kind(
                                #[trigger] less[q],
                                m.prim_kinds,
                                ak,
                            ) == Some(RepKind::Order) {
                            let q = choose|q: int|
                                0 <= q < less.len() && operand_kind(
                                    #[trigger] less[q],
                                    m.prim_kinds,
                                    ak,
                                ) == Some(RepKind::Order);
                            assert(operand_kind(some[q], m.prim_kinds, ak) == Some(RepKind::Order));
                        }
                        if exists|q: int|
                            0 <= q < some.len() && operand_kind(
                                #[trigger] some[q],
                                m.prim_kinds,
                                ak,
                            ) == Some(RepKind::Order) {
                            let q = choose|q: int|
                                0 <= q < some.len() && operand_kind(
                                    #[trigger] some[q],
                                    m.prim_kinds,
                                    ak,
                                ) == Some(RepKind::Order);
                            if q < j {
                                assert(operand_kind(less[q], m.prim_kinds, ak) == Some(
                                    RepKind::Order,
                                ));
                            }
                        }
                    }
                }
                assert(args@.take(args@.len() as int) =~= args@);
                if !inline {
                    calls = true;
                }
                if let Slot::Var(rv) = ret {
                    prim_kinds.insert(*rv, out);
                }
            }
        }
    }
    assert(body.take(rule.body@.len() as int) =~= body);
    Ok(calls)
}

proof fn lemma_mode_err(s: EgState, kinds: Map<u32, RepKind>, body: Seq<BodyOp>, n: int)
    requires
        0 <= n <= body.len(),
        mode_of(s, kinds, body.take(n)) is Err,
    ensures
        mode_of(s, kinds, body) == mode_of(s, kinds, body.take(n)),
    decreases body.len() - n,
{
    if n == body.len() {
        assert(body.take(n) =~= body);
    } else {
        let more = body.take(n + 1);
        assert(more.drop_last() =~= body.take(n));
        lemma_mode_err(s, kinds, body, n + 1);
    }
}

proof fn lemma_lower_err(
    s: EgState,
    kinds: Map<u32, RepKind>,
    calls: bool,
    order: Seq<u32>,
    body: Seq<BodyOp>,
    n: int,
)
    requires
        0 <= n <= body.len(),
        lower(s, kinds, calls, order, body.take(n)) is Err,
    ensures
        lower(s, kinds, calls, order, body) == lower(s, kinds, calls, order, body.take(n)),
    decreases body.len() - n,
{
    if n == body.len() {
        assert(body.take(n) =~= body);
    } else {
        let more = body.take(n + 1);
        assert(more.drop_last() =~= body.take(n));
        lemma_lower_err(s, kinds, calls, order, body, n + 1);
    }
}

/// What the planner has built of a plan.
struct Lowering {
    order: Vec<u32>,
    cols: IdMap,
    kinds: IdMap,
    atoms: Vec<AtomPlan>,
    /// The place of each computed value in `exprs`.
    vals: IdMap,
    exprs: Vec<Rc<PureExpr>>,
    /// The place of each computed condition in `tests`.
    conds: IdMap,
    tests: Vec<Rc<Cond>>,
    guards: Vec<Rc<Cond>>,
    steps: Vec<PrimStep>,
    /// The number of columns that the atoms bind.
    n_atom_vars: Ghost<nat>,
}

impl Lowering {
    spec fn wf(&self) -> bool {
        &&& is_col_map(self.order@, self.cols@)
        &&& self.n_atom_vars@ <= self.order@.len()
        &&& forall|v: u32| #[trigger] self.vals@.contains_key(v) ==> self.vals@[v] < self.exprs@.len()
        &&& forall|v: u32| #[trigger]
            self.conds@.contains_key(v) ==> self.conds@[v] < self.tests@.len()
        &&& forall|i: int, c: int|
            #![trigger self.exprs@[i].reads(c)]
            0 <= i < self.exprs@.len() && self.exprs@[i].reads(c) ==> 0 <= c < self.n_atom_vars@
        &&& forall|i: int, c: int|
            #![trigger self.tests@[i].reads(c)]
            0 <= i < self.tests@.len() && self.tests@[i].reads(c) ==> 0 <= c < self.n_atom_vars@
        &&& forall|i: int, c: int|
            #![trigger self.guards@[i].reads(c)]
            0 <= i < self.guards@.len() && self.guards@[i].reads(c) ==> 0 <= c < self.n_atom_vars@
    }

    spec fn is(&self, st: Lowered, kinds: Map<u32, RepKind>) -> bool {
        &&& self.wf()
        &&& kinds_are(self.kinds@, kinds)
        &&& self.order@ == st.order
        &&& atom_views(self.atoms@) == st.atoms
        &&& step_views(self.steps@) == st.steps
        &&& guards_are(self.guards@, st.guards)
        &&& forall|v: u32| #[trigger] self.vals@.contains_key(v) <==> st.vals.contains_key(v)
        &&& forall|v: u32, row: Seq<u32>|
            #![trigger (st.vals[v])(row)]
            self.vals@.contains_key(v) ==> self.exprs@[self.vals@[v] as int].value(row)
                == (st.vals[v])(row)
        &&& forall|v: u32| #[trigger] self.conds@.contains_key(v) <==> st.conds.contains_key(v)
        &&& forall|v: u32, row: Seq<u32>|
            #![trigger (st.conds[v])(row)]
            self.conds@.contains_key(v) ==> self.tests@[self.conds@[v] as int].holds(row)
                == (st.conds[v])(row)
    }

    /// The expression of an operand, if it can be had.
    fn val_of(
        &self,
        slot: &Slot,
        need_order: bool,
        Ghost(st): Ghost<Lowered>,
        Ghost(kinds): Ghost<Map<u32, RepKind>>,
    ) -> (r: Option<Rc<PureExpr>>)
        requires
            self.is(st, kinds),
            self.n_atom_vars@ == self.order@.len(),
        ensures
            r is Some <==> val_of(st, kinds, *slot, need_order) is Some,
            r matches Some(e) ==> forall|row: Seq<u32>| #[trigger]
                e.value(row) == (val_of(st, kinds, *slot, need_order)->0)(row),
            r matches Some(e) ==> forall|c: int| #[trigger]
                e.reads(c) ==> 0 <= c < self.n_atom_vars@,
    {
        match slot {
            Slot::Const(c) => Some(Rc::new(PureExpr::Const(*c))),
            Slot::Var(v) => {
                match self.vals.get(*v) {
                    Some(p) => {
                        let e = self.exprs[p].clone();
                        proof {
                            assert forall|row: Seq<u32>| #[trigger]
                                e.value(row) == (val_of(st, kinds, *slot, need_order)->0)(
                                row,
                            ) by {
                                assert(e.value(row) == (st.vals[*v])(row));
                            }
                            assert forall|c: int| #[trigger] e.reads(c) implies 0 <= c
                                < self.n_atom_vars@ by {
                                assert(self.exprs@[p as int].reads(c));
                            }
                        }
                        Some(e)
                    },
                    None => {
                        match self.cols.get(*v) {
                            None => None,
                            Some(c) => {
                                proof {
                                    let k = choose|k: int|
                                        0 <= k < self.order@.len() && self.order@[k] == *v;
                                    assert(self.order@[k] == *v);
                                    assert(st.order.index_of(*v) == c);
                                }
                                match self.kinds.get(*v) {
                                    Some(k) => if k == 1 || !need_order {
                                        Some(Rc::new(PureExpr::Col(c)))
                                    } else {
                                        None
                                    },
                                    None => None,
                                }
                            },
                        }
                    },
                }
            },
        }
    }
}

impl Lowering {
    /// Adds a condition that prunes rows.
    fn push_guard(&mut self, g: Rc<Cond>)
        requires
            old(self).wf(),
            forall|c: int| #[trigger] g.reads(c) ==> 0 <= c < old(self).n_atom_vars@,
        ensures
            final(self).wf(),
            *final(self) == (Lowering { guards: final(self).guards, ..*old(self) }),
            final(self).guards@ == old(self).guards@.push(g),
    {
        self.guards.push(g);
        assert forall|i: int, c: int|
            #![trigger self.guards@[i].reads(c)]
            0 <= i < self.guards@.len() && self.guards@[i].reads(c) implies 0 <= c
            < self.n_atom_vars@ by {
            if i < old(self).guards@.len() {
                assert(old(self).guards@[i].reads(c));
            } else {
                assert(g.reads(c));
            }
        }
    }

    /// Records the condition that a primitive computes.
    fn set_cond(&mut self, v: u32, g: Rc<Cond>)
        requires
            old(self).wf(),
            forall|c: int| #[trigger] g.reads(c) ==> 0 <= c < old(self).n_atom_vars@,
        ensures
            final(self).wf(),
            *final(self) == (Lowering {
                conds: final(self).conds,
                tests: final(self).tests,
                ..*old(self)
            }),
            final(self).tests@ == old(self).tests@.push(g),
            final(self).conds@ == old(self).conds@.insert(v, final(self).conds@[v]),
            final(self).conds@[v] == old(self).tests@.len(),
    {
        self.conds.insert(v, self.tests.len());
        self.tests.push(g);
        assert forall|i: int, c: int|
            #![trigger self.tests@[i].reads(c)]
            0 <= i < self.tests@.len() && self.tests@[i].reads(c) implies 0 <= c
            < self.n_atom_vars@ by {
            if i < old(self).tests@.len() {
                assert(old(self).tests@[i].reads(c));
            } else {
                assert(g.reads(c));
            }
        }
    }

    /// Records the value that a primitive computes.
    fn set_val(&mut self, v: u32, e: Rc<PureExpr>)
        requires
            old(self).wf(),
            forall|c: int| #[trigger] e.reads(c) ==> 0 <= c < old(self).n_atom_vars@,
        ensures
            final(self).wf(),
            *final(self) == (Lowering {
                vals: final(self).vals,
                exprs: final(self).exprs,
                ..*old(self)
            }),
            final(self).exprs@ == old(self).exprs@.push(e),
            final(self).vals@ == old(self).vals@.insert(v, final(self).vals@[v]),
            final(self).vals@[v] == old(self).exprs@.len(),
    {
        self.vals.insert(v, self.exprs.len());
        self.exprs.push(e);
        assert forall|i: int, c: int|
            #![trigger self.exprs@[i].reads(c)]
            0 <= i < self.exprs@.len() && self.exprs@[i].reads(c) implies 0 <= c
            < self.n_atom_vars@ by {
            if i < old(self).exprs@.len() {
                assert(old(self).exprs@[i].reads(c));
            } else {
                assert(e.reads(c));
            }
        }
    }

    proof fn lemma_guard(
        &self,
        before: &Lowering,
        g: Rc<Cond>,
        st: Lowered,
        kinds: Map<u32, RepKind>,
        f: spec_fn(Seq<u32>) -> bool,
    )
        requires
            before.is(st, kinds),
            self.wf(),
            *self == (Lowering { guards: self.guards, ..*before }),
            self.guards@ == before.guards@.push(g),
            forall|row: Seq<u32>| #[trigger] g.holds(row) == f(row),
        ensures
            self.is(Lowered { guards: st.guards.push(f), ..st }, kinds),
    {
        let st2 = Lowered { guards: st.guards.push(f), ..st };
        assert forall|i: int, row: Seq<u32>|
            #![trigger self.guards@[i].holds(row)]
            0 <= i < self.guards@.len() implies self.guards@[i].holds(row) == (st2.guards[i])(
            row,
        ) by {
            if i < before.guards@.len() {
                assert(before.guards@[i].holds(row) == (st.guards[i])(row));
            } else {
                assert(g.holds(row) == f(row));
            }
        }
        assert forall|v: u32, row: Seq<u32>|
            #![trigger (st2.vals[v])(row)]
            self.vals@.contains_key(v) implies self.exprs@[self.vals@[v] as int].value(row) == (
        st2.vals[v])(row) by {
            assert((st.vals[v])(row) == (st2.vals[v])(row));
        }
        assert forall|v: u32, row: Seq<u32>|
            #![trigger (st2.conds[v])(row)]
            self.conds@.contains_key(v) implies self.tests@[self.conds@[v] as int].holds(row) == (
        st2.conds[v])(row) by {
            assert((st.conds[v])(row) == (st2.conds[v])(row));
        }
    }

    proof fn lemma_cond(
        &self,
        before: &Lowering,
        rv: u32,
        g: Rc<Cond>,
        st: Lowered,
        kinds: Map<u32, RepKind>,
        f: spec_fn(Seq<u32>) -> bool,
    )
        requires
            before.is(st, kinds),
            self.wf(),
            *self == (Lowering { conds: self.conds, tests: self.tests, ..*before }),
            self.tests@ == before.tests@.push(g),
            self.conds@ == before.conds@.insert(rv, self.conds@[rv]),
            self.conds@[rv] == before.tests@.len(),
            forall|row: Seq<u32>| #[trigger] g.holds(row) == f(row),
        ensures
            self.is(Lowered { conds: st.conds.insert(rv, f), ..st }, kinds),
    {
        let st2 = Lowered { conds: st.conds.insert(rv, f), ..st };
        assert forall|v: u32, row: Seq<u32>|
            #![trigger (st2.conds[v])(row)]
            self.conds@.contains_key(v) implies self.tests@[self.conds@[v] as int].holds(row) == (
        st2.conds[v])(row) by {
            if v == rv {
                assert(g.holds(row) == f(row));
            } else {
                assert(before.conds@.contains_key(v));
                assert((st.conds[v])(row) == (st2.conds[v])(row));
            }
        }
        assert forall|v: u32, row: Seq<u32>|
            #![trigger (st2.vals[v])(row)]
            self.vals@.contains_key(v) implies self.exprs@[self.vals@[v] as int].value(row) == (
        st2.vals[v])(row) by {
            assert((st.vals[v])(row) == (st2.vals[v])(row));
        }
        assert(guards_are(self.guards@, st2.guards));
    }

    proof fn lemma_val(
        &self,
        before: &Lowering,
        rv: u32,
        e: Rc<PureExpr>,
        st: Lowered,
        kinds: Map<u32, RepKind>,
        f: spec_fn(Seq<u32>) -> u32,
    )
        requires
            before.is(st, kinds),
            self.wf(),
            *self == (Lowering { vals: self.vals, exprs: self.exprs, ..*before }),
            self.exprs@ == before.exprs@.push(e),
            self.vals@ == before.vals@.insert(rv, self.vals@[rv]),
            self.vals@[rv] == before.exprs@.len(),
            forall|row: Seq<u32>| #[trigger] e.value(row) == f(row),
        ensures
            self.is(Lowered { vals: st.vals.insert(rv, f), ..st }, kinds),
    {
        let st2 = Lowered { vals: st.vals.insert(rv, f), ..st };
        assert forall|v: u32, row: Seq<u32>|
            #![trigger (st2.vals[v])(row)]
            self.vals@.contains_key(v) implies self.exprs@[self.vals@[v] as int].value(row) == (
        st2.vals[v])(row) by {
            if v == rv {
                assert(e.value(row) == f(row));
            } else {
                assert(before.vals@.contains_key(v));
                assert((st.vals[v])(row) == (st2.vals[v])(row));
            }
        }
        assert forall|v: u32, row: Seq<u32>|
            #![trigger (st2.conds[v])(row)]
            self.conds@.contains_key(v) implies self.tests@[self.conds@[v] as int].holds(row) == (
        st2.conds[v])(row) by {
            assert((st.conds[v])(row) == (st2.conds[v])(row));
        }
        assert(guards_are(self.guards@, st2.guards));
    }

    /// Plans `!=` and `bool-!=`.
    fn lower_ne(
        &mut self,
        id: ExternalFunctionId,
        op: PrimOp,
        args: &Vec<Slot>,
        ret: &Slot,
        Ghost(st): Ghost<Lowered>,
        Ghost(kinds): Ghost<Map<u32, RepKind>>,
    ) -> (r: Result<(), Ineligible>)
        requires
            old(self).is(st, kinds),
            old(self).n_atom_vars@ == old(self).order@.len(),
            op == PrimOp::Ne || op == PrimOp::BoolNe,
        ensures
            match lower_inline(st, kinds, id, op, args@, *ret) {
                Ok(st2) => r is Ok && final(self).is(st2, kinds),
                Err(e) => r == Err::<(), Ineligible>(e),
            },
            final(self).n_atom_vars@ == old(self).n_atom_vars@,
            final(self).order@ == old(self).order@,
    {
        if args.len() != 2 {
            return Err(Ineligible::BadArity(op, args.len()));
        }
        let a = match self.val_of(&args[0], false, Ghost(st), Ghost(kinds)) {
            Some(e) => e,
            None => {
                return Err(Ineligible::NotComparable(op, 0));
            },
        };
        let b = match self.val_of(&args[1], false, Ghost(st), Ghost(kinds)) {
            Some(e) => e,
            None => {
                return Err(Ineligible::NotComparable(op, 1));
            },
        };
        let ghost fa = val_of(st, kinds, args@[0], false)->0;
        let ghost fb = val_of(st, kinds, args@[1], false)->0;
        let ghost f = |row: Seq<u32>| fa(row) != fb(row);
        let ghost before = *self;
        let g = Rc::new(Cond::Ne(own_expr(a), own_expr(b)));
        assert forall|row: Seq<u32>| #[trigger] g.holds(row) == f(row) by {
            assert(a.value(row) == fa(row));
            assert(b.value(row) == fb(row));
        }
        assert forall|c: int| #[trigger] g.reads(c) implies 0 <= c < self.n_atom_vars@ by {
            assert(a.reads(c) || b.reads(c));
        }
        if let PrimOp::Ne = op {
            self.push_guard(g);
            proof {
                self.lemma_guard(&before, g, st, kinds, f);
            }
            Ok(())
        } else {
            match ret {
                Slot::Var(rv) => {
                    self.set_cond(*rv, g);
                    proof {
                        self.lemma_cond(&before, *rv, g, st, kinds, f);
                    }
                    Ok(())
                },
                Slot::Const(_) => Err(Ineligible::RetNotVar(op)),
            }
        }
    }

    /// The expression of a slot, if it can be had.
    fn rep_of(
        &self,
        slot: &Slot,
        Ghost(st): Ghost<Lowered>,
        Ghost(kinds): Ghost<Map<u32, RepKind>>,
    ) -> (r: Option<Rc<PureExpr>>)
        requires
            self.is(st, kinds),
            self.n_atom_vars@ == self.order@.len(),
        ensures
            r is Some <==> rep_of(st, *slot) is Some,
            r matches Some(e) ==> forall|row: Seq<u32>| #[trigger]
                e.value(row) == (rep_of(st, *slot)->0)(row),
            r matches Some(e) ==> forall|c: int| #[trigger]
                e.reads(c) ==> 0 <= c < self.n_atom_vars@,
    {
        match slot {
            Slot::Const(c) => Some(Rc::new(PureExpr::Const(*c))),
            Slot::Var(v) => match self.vals.get(*v) {
                Some(p) => {
                    let e = self.exprs[p].clone();
                    proof {
                        assert forall|row: Seq<u32>| #[trigger]
                            e.value(row) == (rep_of(st, *slot)->0)(row) by {
                            assert(e.value(row) == (st.vals[*v])(row));
                        }
                        assert forall|c: int| #[trigger] e.reads(c) implies 0 <= c
                            < self.n_atom_vars@ by {
                            assert(self.exprs@[p as int].reads(c));
                        }
                    }
                    Some(e)
                },
                None => match self.cols.get(*v) {
                    None => None,
                    Some(c) => {
                        proof {
                            let k = choose|k: int|
                                0 <= k < self.order@.len() && self.order@[k] == *v;
                            assert(self.order@[k] == *v);
                            assert(st.order.index_of(*v) == c);
                        }
                        Some(Rc::new(PureExpr::Col(c)))
                    },
                },
            },
        }
    }

    /// Plans a guard on two values.
    fn lower_differ(
        &mut self,
        l: &Slot,
        r: &Slot,
        Ghost(st): Ghost<Lowered>,
        Ghost(kinds): Ghost<Map<u32, RepKind>>,
    ) -> (done: Result<(), Ineligible>)
        requires
            old(self).is(st, kinds),
            old(self).n_atom_vars@ == old(self).order@.len(),
        ensures
            match lower_differ(st, false, *l, *r) {
                Ok(st2) => done is Ok && final(self).is(st2, kinds),
                Err(e) => done == Err::<(), Ineligible>(e),
            },
            final(self).n_atom_vars@ == old(self).n_atom_vars@,
            final(self).order@ == old(self).order@,
    {
        let a = match self.rep_of(l, Ghost(st), Ghost(kinds)) {
            Some(e) => e,
            None => {
                return Err(Ineligible::NotComparable(PrimOp::Ne, 0));
            },
        };
        let b = match self.rep_of(r, Ghost(st), Ghost(kinds)) {
            Some(e) => e,
            None => {
                return Err(Ineligible::NotComparable(PrimOp::Ne, 1));
            },
        };
        let ghost fa = rep_of(st, *l)->0;
        let ghost fb = rep_of(st, *r)->0;
        let ghost f = |row: Seq<u32>| fa(row) != fb(row);
        let ghost before = *self;
        let g = Rc::new(Cond::Ne(own_expr(a), own_expr(b)));
        assert forall|row: Seq<u32>| #[trigger] g.holds(row) == f(row) by {
            assert(a.value(row) == fa(row));
            assert(b.value(row) == fb(row));
        }
        assert forall|c: int| #[trigger] g.reads(c) implies 0 <= c < self.n_atom_vars@ by {
            assert(a.reads(c) || b.reads(c));
        }
        self.push_guard(g);
        proof {
            self.lemma_guard(&before, g, st, kinds, f);
        }
        Ok(())
    }

    /// Plans `or`.
    fn lower_or(
        &mut self,
        id: ExternalFunctionId,
        args: &Vec<Slot>,
        ret: &Slot,
        Ghost(st): Ghost<Lowered>,
        Ghost(kinds): Ghost<Map<u32, RepKind>>,
    ) -> (r: Result<(), Ineligible>)
        requires
            old(self).is(st, kinds),
        ensures
            match lower_inline(st, kinds, id, PrimOp::Or, args@, *ret) {
                Ok(st2) => r is Ok && final(self).is(st2, kinds),
                Err(e) => r == Err::<(), Ineligible>(e),
            },
            final(self).n_atom_vars@ == old(self).n_atom_vars@,
            final(self).order@ == old(self).order@,
    {
        let mut cs: Vec<Rc<Cond>> = Vec::with_capacity(args.len());
        let ghost before = *self;
        assert(args@.take(0) =~= Seq::empty());
        for i in 0..args.len()
            invariant
                *self == before,
                before.is(st, kinds),
                before == *old(self),
                bad_cond(st.conds, PrimOp::Or, args@.take(i as int)) is None,
                cs@.len() == i,
                forall|j: int|
                    0 <= j < i ==> (#[trigger] args@[j]) is Var && st.conds.contains_key(
                        args@[j]->Var_0,
                    ),
                forall|j: int, row: Seq<u32>|
                    #![trigger cs@[j].holds(row)]
                    0 <= j < i ==> cs@[j].holds(row) == (st.conds[args@[j]->Var_0])(row),
                forall|j: int, c: int|
                    #![trigger cs@[j].reads(c)]
                    0 <= j < i && cs@[j].reads(c) ==> 0 <= c < before.n_atom_vars@,
        {
            let ghost upto = args@.take(i + 1);
            assert(upto.drop_last() =~= args@.take(i as int));
            assert(upto.last() == args@[i as int]);
            match args[i] {
                Slot::Const(_) => {
                    proof {
                        lemma_bad_cond(st.conds, PrimOp::Or, args@, i + 1);
                    }
                    return Err(Ineligible::ConstOperand(PrimOp::Or));
                },
                Slot::Var(v) => match self.conds.get(v) {
                    None => {
                        proof {
                            lemma_bad_cond(st.conds, PrimOp::Or, args@, i + 1);
                        }
                        return Err(Ineligible::NotACond(PrimOp::Or));
                    },
                    Some(p) => {
                        let ghost cs0 = cs@;
                        cs.push(self.tests[p].clone());
                        proof {
                            assert forall|j: int, row: Seq<u32>|
                                #![trigger cs@[j].holds(row)]
                                0 <= j < i + 1 implies cs@[j].holds(row) == (
                            st.conds[args@[j]->Var_0])(row) by {
                                if j < i {
                                    assert(cs0[j].holds(row) == (st.conds[args@[j]->Var_0])(row));
                                }
                            }
                            assert forall|j: int, c: int|
                                #![trigger cs@[j].reads(c)]
                                0 <= j < i + 1 && cs@[j].reads(c) implies 0 <= c
                                < before.n_atom_vars@ by {
                                if j < i {
                                    assert(cs0[j].reads(c));
                                } else {
                                    assert(before.tests@[p as int].reads(c));
                                }
                            }
                        }
                    },
                },
            }
        }
        assert(args@.take(args@.len() as int) =~= args@);
        match ret {
            Slot::Var(rv) => {
                let ghost f = some_cond(st.conds, args@);
                let g = Rc::new(Cond::Or(cs));
                proof {
                    assert forall|row: Seq<u32>| #[trigger] g.holds(row) == f(row) by {
                        if g.holds(row) {
                            let j = choose|j: int|
                                0 <= j < cs@.len() && (#[trigger] cs@[j]).holds(row);
                            assert(args@[j] is Var && st.conds[args@[j]->Var_0](row));
                        }
                        if f(row) {
                            let j = choose|j: int|
                                0 <= j < args@.len() && (#[trigger] args@[j]) is Var
                                    && st.conds[args@[j]->Var_0](row);
                            assert(cs@[j].holds(row));
                        }
                    }
                    assert forall|c: int| #[trigger] g.reads(c) implies 0 <= c
                        < before.n_atom_vars@ by {
                        let j = choose|j: int|
                            0 <= j < cs@.len() && (#[trigger] cs@[j]).reads(c);
                        assert(cs@[j].reads(c));
                    }
                }
                self.set_cond(*rv, g);
                proof {
                    self.lemma_cond(&before, *rv, g, st, kinds, f);
                }
                Ok(())
            },
            Slot::Const(_) => Err(Ineligible::RetNotVar(PrimOp::Or)),
        }
    }

    /// Plans `guard`.
    fn lower_guard(
        &mut self,
        id: ExternalFunctionId,
        args: &Vec<Slot>,
        ret: &Slot,
        Ghost(st): Ghost<Lowered>,
        Ghost(kinds): Ghost<Map<u32, RepKind>>,
    ) -> (r: Result<(), Ineligible>)
        requires
            old(self).is(st, kinds),
        ensures
            match lower_inline(st, kinds, id, PrimOp::Guard, args@, *ret) {
                Ok(st2) => r is Ok && final(self).is(st2, kinds),
                Err(e) => r == Err::<(), Ineligible>(e),
            },
            final(self).n_atom_vars@ == old(self).n_atom_vars@,
            final(self).order@ == old(self).order@,
    {
        if args.len() != 1 {
            return Err(Ineligible::BadArity(PrimOp::Guard, args.len()));
        }
        match args[0] {
            Slot::Const(_) => Err(Ineligible::ConstOperand(PrimOp::Guard)),
            Slot::Var(v) => match self.conds.get(v) {
                None => Err(Ineligible::NotACond(PrimOp::Guard)),
                Some(p) => {
                    let ghost before = *self;
                    let g = self.tests[p].clone();
                    let ghost f = st.conds[v];
                    proof {
                        assert forall|row: Seq<u32>| #[trigger] g.holds(row) == f(row) by {
                            assert(before.tests@[p as int].holds(row) == (st.conds[v])(row));
                        }
                        assert forall|c: int| #[trigger] g.reads(c) implies 0 <= c
                            < before.n_atom_vars@ by {
                            assert(before.tests@[p as int].reads(c));
                        }
                    }
                    self.push_guard(g);
                    proof {
                        self.lemma_guard(&before, g, st, kinds, f);
                    }
                    Ok(())
                },
            },
        }
    }

    /// Plans `ordering-min` and `ordering-max`.
    fn lower_ordering(
        &mut self,
        id: ExternalFunctionId,
        op: PrimOp,
        args: &Vec<Slot>,
        ret: &Slot,
        Ghost(st): Ghost<Lowered>,
        Ghost(kinds): Ghost<Map<u32, RepKind>>,
    ) -> (r: Result<(), Ineligible>)
        requires
            old(self).is(st, kinds),
            old(self).n_atom_vars@ == old(self).order@.len(),
            op == PrimOp::OrdMin || op == PrimOp::OrdMax,
        ensures
            match lower_inline(st, kinds, id, op, args@, *ret) {
                Ok(st2) => r is Ok && final(self).is(st2, kinds),
                Err(e) => r == Err::<(), Ineligible>(e),
            },
            final(self).n_atom_vars@ == old(self).n_atom_vars@,
            final(self).order@ == old(self).order@,
    {
        if args.len() != 2 {
            return Err(Ineligible::BadArity(op, args.len()));
        }
        let a = match self.val_of(&args[0], true, Ghost(st), Ghost(kinds)) {
            Some(e) => e,
            None => {
                return Err(Ineligible::NotOrdered(op, 0));
            },
        };
        let b = match self.val_of(&args[1], true, Ghost(st), Ghost(kinds)) {
            Some(e) => e,
            None => {
                return Err(Ineligible::NotOrdered(op, 1));
            },
        };
        let ghost fa = val_of(st, kinds, args@[0], true)->0;
        let ghost fb = val_of(st, kinds, args@[1], true)->0;
        let ghost f = |row: Seq<u32>|
            if op == PrimOp::OrdMin {
                min_rep(fa(row), fb(row))
            } else {
                max_rep(fa(row), fb(row))
            };
        let ghost before = *self;
        let e = if let PrimOp::OrdMin = op {
            PureExpr::Min(a, b)
        } else {
            PureExpr::Max(a, b)
        };
        assert forall|row: Seq<u32>| #[trigger] e.value(row) == f(row) by {
            assert(a.value(row) == fa(row));
            assert(b.value(row) == fb(row));
        }
        assert forall|c: int| #[trigger] e.reads(c) implies 0 <= c < self.n_atom_vars@ by {
            assert(a.reads(c) || b.reads(c));
        }
        match ret {
            Slot::Const(c) => {
                let ghost h = |row: Seq<u32>| f(row) == *c;
                let k = PureExpr::Const(*c);
                let g = Rc::new(Cond::Eq(e, k));
                assert forall|row: Seq<u32>| #[trigger] g.holds(row) == h(row) by {
                    assert(e.value(row) == f(row));
                }
                assert forall|c: int| #[trigger] g.reads(c) implies 0 <= c < self.n_atom_vars@ by {
                    assert(e.reads(c) || k.reads(c));
                }
                self.push_guard(g);
                proof {
                    self.lemma_guard(&before, g, st, kinds, h);
                }
                Ok(())
            },
            Slot::Var(rv) => {
                if self.cols.get(*rv).is_some() {
                    match self.val_of(ret, true, Ghost(st), Ghost(kinds)) {
                        None => Err(Ineligible::RetNotOrdered(op)),
                        Some(re) => {
                            let ghost fr = val_of(st, kinds, *ret, true)->0;
                            self.push_eq(e, re, Ghost(f), Ghost(fr), Ghost(st), Ghost(kinds));
                            Ok(())
                        },
                    }
                } else {
                    match self.vals.get(*rv) {
                        Some(p) => {
                            let re = self.exprs[p].clone();
                            let ghost fr = st.vals[*rv];
                            proof {
                                assert forall|row: Seq<u32>| #[trigger] re.value(row) == fr(
                                    row,
                                ) by {
                                    assert(before.exprs@[p as int].value(row) == (st.vals[*rv])(
                                        row,
                                    ));
                                }
                                assert forall|c: int| #[trigger] re.reads(c) implies 0 <= c
                                    < before.n_atom_vars@ by {
                                    assert(before.exprs@[p as int].reads(c));
                                }
                            }
                            self.push_eq(e, re, Ghost(f), Ghost(fr), Ghost(st), Ghost(kinds));
                            Ok(())
                        },
                        None => {
                            let re = Rc::new(e);
                            self.set_val(*rv, re);
                            proof {
                                self.lemma_val(&before, *rv, re, st, kinds, f);
                            }
                            Ok(())
                        },
                    }
                }
            },
        }
    }

    /// Adds the condition that two expressions are equal.
    fn push_eq(
        &mut self,
        e: PureExpr,
        r: Rc<PureExpr>,
        Ghost(fe): Ghost<spec_fn(Seq<u32>) -> u32>,
        Ghost(fr): Ghost<spec_fn(Seq<u32>) -> u32>,
        Ghost(st): Ghost<Lowered>,
        Ghost(kinds): Ghost<Map<u32, RepKind>>,
    )
        requires
            old(self).is(st, kinds),
            forall|row: Seq<u32>| #[trigger] e.value(row) == fe(row),
            forall|row: Seq<u32>| #[trigger] r.value(row) == fr(row),
            forall|c: int| #[trigger] e.reads(c) ==> 0 <= c < old(self).n_atom_vars@,
            forall|c: int| #[trigger] r.reads(c) ==> 0 <= c < old(self).n_atom_vars@,
        ensures
            final(self).is(
                Lowered { guards: st.guards.push(|row: Seq<u32>| fe(row) == fr(row)), ..st },
                kinds,
            ),
            final(self).n_atom_vars@ == old(self).n_atom_vars@,
            final(self).order@ == old(self).order@,
    {
        let ghost before = *self;
        let ghost h = |row: Seq<u32>| fe(row) == fr(row);
        let g = Rc::new(Cond::Eq(e, own_expr(r)));
        assert forall|row: Seq<u32>| #[trigger] g.holds(row) == h(row) by {
            assert(e.value(row) == fe(row));
            assert(r.value(row) == fr(row));
        }
        assert forall|c: int| #[trigger] g.reads(c) implies 0 <= c < self.n_atom_vars@ by {
            assert(e.reads(c) || r.reads(c));
        }
        self.push_guard(g);
        proof {
            self.lemma_guard(&before, g, st, kinds, h);
        }
    }

    /// Plans a primitive that is called after the join.
    fn lower_call(
        &mut self,
        id: ExternalFunctionId,
        args: &Vec<Slot>,
        ret: &Slot,
        Ghost(st): Ghost<Lowered>,
        Ghost(kinds): Ghost<Map<u32, RepKind>>,
    ) -> (r: Result<(), Ineligible>)
        requires
            old(self).is(st, kinds),
        ensures
            match lower_call(st, id, args@, *ret) {
                Ok(st2) => r is Ok && final(self).is(st2, kinds),
                Err(e) => r == Err::<(), Ineligible>(e),
            },
            final(self).n_atom_vars@ == old(self).n_atom_vars@,
    {
        let ghost before = *self;
        let mut srcs: Vec<ArgSrc> = Vec::with_capacity(args.len());
        let ghost want = args@.map_values(|a: Slot| arg_src(st.order, a));
        for i in 0..args.len()
            invariant
                *self == before,
                before.is(st, kinds),
                before == *old(self),
                want == args@.map_values(|a: Slot| arg_src(st.order, a)),
                vars_in(args@.take(i as int), st.order),
                srcs@ =~= want.take(i as int),
        {
            match args[i] {
                Slot::Const(c) => {
                    srcs.push(ArgSrc::Const(c));
                },
                Slot::Var(v) => match self.cols.get(v) {
                    Some(c) => {
                        proof {
                            let k = choose|k: int|
                                0 <= k < before.order@.len() && before.order@[k] == v;
                            assert(before.order@[k] == v);
                            assert(st.order.index_of(v) == c);
                        }
                        srcs.push(ArgSrc::Col(c));
                    },
                    None => {
                        assert(args@[i as int] == Slot::Var(v));
                        return Err(Ineligible::CallArgUnbound(id));
                    },
                },
            }
            assert forall|j: int| 0 <= j < i + 1 implies ((
            #[trigger] args@.take(i + 1)[j]) matches Slot::Var(v) ==> st.order.contains(v)) by {
                if j < i {
                    assert(args@.take(i as int)[j] == args@.take(i + 1)[j]);
                }
            }
        }
        assert(args@.take(args@.len() as int) =~= args@);
        assert(want.take(args@.len() as int) =~= want);
        let pr = match ret {
            Slot::Const(c) => PrimRet::AssertConst(*c),
            Slot::Var(rv) => match self.cols.get(*rv) {
                Some(c) => {
                    proof {
                        let k = choose|k: int|
                            0 <= k < before.order@.len() && before.order@[k] == *rv;
                        assert(before.order@[k] == *rv);
                        assert(st.order.index_of(*rv) == c);
                    }
                    PrimRet::AssertCol(c)
                },
                None => {
                    let c: usize = see_var(&mut self.order, &mut self.cols, *rv);
                    assert(self.order@[c as int] == *rv) by {
                        assert(self.order@[st.order.len() as int] == *rv);
                    }
                    PrimRet::Bind(c)
                },
            },
        };
        let step = PrimStep { id, args: srcs, ret: pr };
        self.steps.push(step);
        proof {
            let st2 = lower_call(st, id, args@, *ret)->Ok_0;
            assert(step_views(self.steps@) =~= st2.steps) by {
                assert(step.view() =~= StepView { id, args: want, ret: pr });
            }
            assert forall|v: u32, row: Seq<u32>|
                #![trigger (st2.vals[v])(row)]
                self.vals@.contains_key(v) implies self.exprs@[self.vals@[v] as int].value(row) == (
            st2.vals[v])(row) by {
                assert((st.vals[v])(row) == (st2.vals[v])(row));
            }
            assert forall|v: u32, row: Seq<u32>|
                #![trigger (st2.conds[v])(row)]
                self.conds@.contains_key(v) implies self.tests@[self.conds@[v] as int].holds(row)
                == (st2.conds[v])(row) by {
                assert((st.conds[v])(row) == (st2.conds[v])(row));
            }
            assert(guards_are(self.guards@, st2.guards));
        }
        Ok(())
    }
}

/// An expression as a value of its own.
fn own_expr(e: Rc<PureExpr>) -> (r: PureExpr)
    ensures
        r == *e,
{
    match &*e {
        PureExpr::Col(c) => PureExpr::Col(*c),
        PureExpr::Const(v) => PureExpr::Const(*v),
        PureExpr::Min(a, b) => PureExpr::Min(a.clone(), b.clone()),
        PureExpr::Max(a, b) => PureExpr::Max(a.clone(), b.clone()),
    }
}

proof fn lemma_bad_cond(
    conds: Map<u32, spec_fn(Seq<u32>) -> bool>,
    op: PrimOp,
    args: Seq<Slot>,
    n: int,
)
    requires
        0 <= n <= args.len(),
        bad_cond(conds, op, args.take(n)) is Some,
    ensures
        bad_cond(conds, op, args) == bad_cond(conds, op, args.take(n)),
    decreases args.len() - n,
{
    if n == args.len() {
        assert(args.take(n) =~= args);
    } else {
        let more = args.take(n + 1);
        assert(more.drop_last() =~= args.take(n));
        lemma_bad_cond(conds, op, args, n + 1);
    }
}

/// A copy of a list of slots.
pub fn clone_slots(slots: &Vec<Slot>) -> (v: Vec<Slot>)
    ensures
        v@ == slots@,
{
    let mut v: Vec<Slot> = Vec::with_capacity(slots.len());
    for i in 0..slots.len()
        invariant
            v@ =~= slots@.take(i as int),
    {
        v.push(slots[i]);
    }
    assert(slots@.take(slots@.len() as int) =~= slots@);
    v
}

proof fn lemma_lower(
    s: EgState,
    kinds: Map<u32, RepKind>,
    calls: bool,
    order: Seq<u32>,
    body: Seq<BodyOp>,
)
    requires
        lower(s, kinds, calls, order, body) is Ok,
    ensures
        ({
            let st = lower(s, kinds, calls, order, body)->Ok_0;
            &&& order.len() <= st.order.len()
            &&& st.order.take(order.len() as int) == order
            &&& !calls ==> st.order == order
            &&& calls ==> st.guards.len() == 0
            &&& st.atoms == atoms_of(body)
            &&& forall|i: int|
                0 <= i < st.atoms.len() ==> (#[trigger] st.atoms[i]).slots.len() <= JOIN_WIDTH
        }),
    decreases body.len(),
{
    if body.len() > 0 {
        lemma_lower(s, kinds, calls, order, body.drop_last());
        let st0 = lower(s, kinds, calls, order, body.drop_last())->Ok_0;
        let st = lower(s, kinds, calls, order, body)->Ok_0;
        assert(st.order.take(order.len() as int) =~= st0.order.take(order.len() as int));
    } else {
        assert(order.take(order.len() as int) =~= order);
    }
}

/// The join plan of a rule, or why it has none. The body's primitives are decided
/// inside the join where representations suffice for all of them; else they are
/// called after it, and all of them have to be pure.
pub fn plan_join(eg: &EGraph, rule: &RuleIr) -> (r: Result<JoinPlan, Ineligible>)
    requires
        eg.wf(),
    ensures
        match plan_of(eg@, *rule) {
            Ok(st) => r matches Ok(plan) && plan_is(&plan, st),
            Err(e) => r == Err::<JoinPlan, Ineligible>(e),
        },
        r matches Ok(plan) ==> plan.wf(),
        r matches Ok(plan) ==> plan.guards@.len() == 0 || plan.steps@.len() == 0,
{
    let (order, cols, kinds) = scan_atoms(eg, rule);
    let ghost body = rule.body@;
    let ghost ak = atom_kinds(eg@, body);
    let ghost order0 = order@;
    let calls = match decide_mode(eg, rule, &kinds) {
        Ok(c) => c,
        Err(e) => {
            return Err(e);
        },
    };
    let mut low = Lowering {
        order,
        cols,
        kinds,
        atoms: Vec::new(),
        vals: IdMap::new(),
        exprs: Vec::new(),
        conds: IdMap::new(),
        tests: Vec::new(),
        guards: Vec::new(),
        steps: Vec::new(),
        n_atom_vars: Ghost(order0.len()),
    };
    proof {
        assert(body.take(0) =~= Seq::empty());
        let st0 = lower(eg@, ak, calls, order0, body.take(0))->Ok_0;
        assert(atom_views(low.atoms@) =~= st0.atoms);
        assert(step_views(low.steps@) =~= st0.steps);
        assert(guards_are(low.guards@, st0.guards));
    }
    for i in 0..rule.body.len()
        invariant
            eg.wf(),
            body == rule.body@,
            ak == atom_kinds(eg@, body),
            lower(eg@, ak, calls, order0, body.take(i as int)) is Ok,
            low.is(lower(eg@, ak, calls, order0, body.take(i as int))->Ok_0, ak),
            low.n_atom_vars@ == order0.len(),
            !calls ==> low.order@ == order0,
            mode_of(eg@, ak, body) is Ok,
            mode_of(eg@, ak, body)->Ok_0.calls == calls,
            order0 == atom_order(body),
    {
        let ghost upto = body.take(i + 1);
        assert(upto.drop_last() =~= body.take(i as int));
        assert(upto.last() == body[i as int]);
        let ghost st = lower(eg@, ak, calls, order0, body.take(i as int))->Ok_0;
        match &rule.body[i] {
            BodyOp::Atom(atom) => {
                if atom.slots.len() > JOIN_WIDTH {
                    proof {
                        lemma_lower_err(eg@, ak, calls, order0, body, i + 1);
                    }
                    return Err(Ineligible::AtomTooWide(atom.slots.len()));
                }
                let ghost before = low;
                let ap = AtomPlan { func: atom.func, slots: clone_slots(&atom.slots) };
                low.atoms.push(ap);
                proof {
                    let st2 = Lowered {
                        atoms: st.atoms.push(AtomView { func: atom.func, slots: atom.slots@ }),
                        ..st
                    };
                    assert(atom_views(low.atoms@) =~= st2.atoms) by {
                        assert(ap.view() =~= AtomView { func: atom.func, slots: atom.slots@ });
                    }
                    assert forall|v: u32, row: Seq<u32>|
                        #![trigger (st2.vals[v])(row)]
                        low.vals@.contains_key(v) implies low.exprs@[low.vals@[v] as int].value(row)
                        == (st2.vals[v])(row) by {
                        assert((st.vals[v])(row) == (st2.vals[v])(row));
                    }
                    assert forall|v: u32, row: Seq<u32>|
                        #![trigger (st2.conds[v])(row)]
                        low.conds@.contains_key(v) implies low.tests@[low.conds@[v] as int].holds(
                        row,
                    ) == (st2.conds[v])(row) by {
                        assert((st.conds[v])(row) == (st2.conds[v])(row));
                    }
                    assert(guards_are(low.guards@, st2.guards));
                    assert(low.is(st2, ak));
                }
            },
            BodyOp::Prim { id, args, ret } => {
                let done = if calls {
                    low.lower_call(*id, args, ret, Ghost(st), Ghost(ak))
                } else {
                    let op = classify_name(eg.prim_name(*id));
                    assert(op == op_of(eg@, *id));
                    match op {
                        PrimOp::Ne => low.lower_ne(*id, op, args, ret, Ghost(st), Ghost(ak)),
                        PrimOp::BoolNe => low.lower_ne(*id, op, args, ret, Ghost(st), Ghost(ak)),
                        PrimOp::Or => low.lower_or(*id, args, ret, Ghost(st), Ghost(ak)),
                        PrimOp::Guard => low.lower_guard(*id, args, ret, Ghost(st), Ghost(ak)),
                        PrimOp::OrdMin => low.lower_ordering(
                            *id,
                            op,
                            args,
                            ret,
                            Ghost(st),
                            Ghost(ak),
                        ),
                        PrimOp::OrdMax => low.lower_ordering(
                            *id,
                            op,
                            args,
                            ret,
                            Ghost(st),
                            Ghost(ak),
                        ),
                        PrimOp::Other => Err(Ineligible::Unrecognized(*id)),
                    }
                };
                if let Err(e) = done {
                    proof {
                        lemma_lower_err(eg@, ak, calls, order0, body, i + 1);
                    }
                    return Err(e);
                }
            },
            BodyOp::Differ(l, r) => {
                let done = if calls {
                    Err(Ineligible::DifferBesideCall)
                } else {
                    low.lower_differ(l, r, Ghost(st), Ghost(ak))
                };
                if let Err(e) = done {
                    proof {
                        lemma_lower_err(eg@, ak, calls, order0, body, i + 1);
                    }
                    return Err(e);
                }
            },
        }
    }
    assert(body.take(rule.body@.len() as int) =~= body);
    let ghost st = lower(eg@, ak, calls, order0, body)->Ok_0;
    let hv = head_vars(rule);
    for i in 0..hv.len()
        invariant
            hv@ == head_ops_vars(rule.head@),
            low.is(st, ak),
            body == rule.body@,
            ak == atom_kinds(eg@, body),
            order0 == atom_order(body),
            mode_of(eg@, ak, body) is Ok,
            mode_of(eg@, ak, body)->Ok_0.calls == calls,
            lower(eg@, ak, calls, order0, body) == Ok::<Lowered, Ineligible>(st),
            forall|j: int|
                0 <= j < i ==> !((st.vals.contains_key(#[trigger] hv@[j]) || st.conds.contains_key(
                    hv@[j],
                )) && !st.order.contains(hv@[j])),
    {
        let v: u32 = hv[i];
        if (low.vals.get(v).is_some() || low.conds.get(v).is_some()) && low.cols.get(v).is_none() {
            assert(escapes(st, hv@));
            return Err(Ineligible::EscapesToHead);
        }
    }
    assert(!escapes(st, hv@));
    assert(low.atoms@.len() == st.atoms.len());
    if low.atoms.len() == 0 {
        return Err(Ineligible::NoAtoms);
    }
    if low.order.len() > JOIN_WIDTH {
        return Err(Ineligible::TooManyVars(low.order.len()));
    }
    let plan = JoinPlan {
        var_order: low.order,
        var_col: low.cols,
        atoms: low.atoms,
        guards: low.guards,
        steps: low.steps,
    };
    proof {
        lemma_lower(eg@, ak, calls, order0, body);
        if !calls {
            lemma_steps(eg@, ak, calls, order0, body);
        }
        lemma_atom_order(body);
        assert forall|v: u32| order0.contains(v) implies #[trigger] plan.var_order@.contains(v) by {
            let k = choose|k: int| 0 <= k < order0.len() && order0[k] == v;
            assert(plan.var_order@.take(order0.len() as int)[k] == v);
            assert(plan.var_order@[k] == v);
        }
        assert forall|i: int| 0 <= i < plan.atoms@.len() implies (#[trigger] plan.atoms@[i]).slots@.len()
            <= JOIN_WIDTH && vars_in(plan.atoms@[i].slots@, plan.var_order@) by {
            assert(atom_views(plan.atoms@)[i] == plan.atoms@[i].view());
            assert forall|j: int| 0 <= j < plan.atoms@[i].slots@.len() implies ((
            #[trigger] plan.atoms@[i].slots@[j]) matches Slot::Var(v) ==> plan.var_order@.contains(
                v,
            )) by {
                if let Slot::Var(v) = plan.atoms@[i].slots@[j] {
                    assert(atoms_of(body)[i].slots[j] == Slot::Var(v));
                    assert(occurs(atoms_of(body), v));
                }
            }
        }
        assert forall|i: int, c: int|
            #![trigger plan.guards@[i].reads(c)]
            0 <= i < plan.guards@.len() && plan.guards@[i].reads(c) implies atom_bound(
            &plan,
            c,
        ) by {
            assert(0 <= c < order0.len());
            assert(plan.var_order@.take(order0.len() as int)[c] == order0[c]);
            assert(order0.contains(order0[c]));
        }
    }
    Ok(plan)
}

proof fn lemma_steps(
    s: EgState,
    kinds: Map<u32, RepKind>,
    calls: bool,
    order: Seq<u32>,
    body: Seq<BodyOp>,
)
    requires
        lower(s, kinds, calls, order, body) is Ok,
        !calls,
    ensures
        (lower(s, kinds, calls, order, body)->Ok_0).steps.len() == 0,
    decreases body.len(),
{
    if body.len() > 0 {
        lemma_steps(s, kinds, calls, order, body.drop_last());
    }
}

} // verus!
