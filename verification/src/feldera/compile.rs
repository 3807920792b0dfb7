//! Rule IR and the row representation.
use crate::backend::{reps, ExternalFunctionId, FunctionId, QueryEntry, Value};
use vstd::prelude::*;

verus! {

/// The largest number of columns of a relation.
pub const MAX_ARITY: usize = 64;

/// A row: one value representation for each column.
pub type Row = Vec<u32>;

/// How a function resolves two rows that share their key columns.
#[derive(Clone, Copy, Debug, PartialEq, Eq, Structural)]
pub enum MergeMode {
    /// The whole row is the key: nothing to resolve.
    Relation,
    /// Keep the old value.
    Old,
    /// Keep the new value.
    New,
    /// Keep the numerically smallest value.
    Min,
}

/// The row that holds `vals`.
pub fn pack_row(vals: &[Value]) -> (row: Row)
    requires
        vals@.len() <= MAX_ARITY,
    ensures
        row@ == reps(vals@),
{
    let mut row: Vec<u32> = Vec::with_capacity(vals.len());
    for i in 0..vals.len()
        invariant
            row@ == reps(vals@).take(i as int),
    {
        row.push(vals[i].rep);
        assert(reps(vals@).take(i + 1) =~= reps(vals@).take(i as int).push(vals@[i as int].rep));
    }
    assert(reps(vals@).take(vals@.len() as int) =~= reps(vals@));
    row
}

/// Column `i` of a row.
pub fn row_col(r: &Row, i: usize) -> (v: u32)
    requires
        i < r@.len(),
    ensures
        v == r@[i as int],
{
    r[i]
}

/// The values of the first `arity` columns of a row.
pub fn unpack_row(r: &Row, arity: usize) -> (vals: Vec<Value>)
    requires
        arity <= r@.len(),
    ensures
        vals@.len() == arity,
        reps(vals@) == r@.take(arity as int),
{
    let mut vals: Vec<Value> = Vec::with_capacity(arity);
    for i in 0..arity
        invariant
            arity <= r@.len(),
            vals@.len() == i,
            reps(vals@) =~= r@.take(i as int),
    {
        let ghost before = vals@;
        vals.push(Value { rep: row_col(r, i) });
        assert(reps(vals@) =~= reps(before).push(r@[i as int]));
        assert(r@.take(i + 1) =~= r@.take(i as int).push(r@[i as int]));
    }
    vals
}

/// Unpacking a packed row gives back the values that were packed.
pub proof fn unpack_of_pack(vals: Seq<Value>, row: Seq<u32>, out: Seq<Value>)
    requires
        row == reps(vals),
        out.len() == row.len(),
        reps(out) == row.take(row.len() as int),
    ensures
        out == vals,
{
    assert forall|i: int| 0 <= i < vals.len() implies out[i] == vals[i] by {
        assert(reps(out)[i] == out[i].rep);
        assert(reps(vals)[i] == vals[i].rep);
    }
    assert(out =~= vals);
}

/// A column of a body atom or a head action: a variable or a constant.
#[derive(Clone, Copy, Debug, PartialEq, Eq, Structural)]
pub enum Slot {
    Var(u32),
    Const(u32),
}

/// The slot that an entry stands for.
pub open spec fn slot_of_entry(e: QueryEntry) -> Slot {
    match e {
        QueryEntry::Var(v) => Slot::Var(v.id.rep),
        QueryEntry::Const { val, ty } => Slot::Const(val.rep),
    }
}

/// The slots that a sequence of entries stands for.
pub open spec fn slots_of_entries(entries: Seq<QueryEntry>) -> Seq<Slot> {
    entries.map_values(|e: QueryEntry| slot_of_entry(e))
}

impl Slot {
    /// The slot of an entry: its variable's id, or its constant's representation.
    pub fn from_entry(e: &QueryEntry) -> (s: Slot)
        ensures
            s == slot_of_entry(*e),
    {
        match e {
            QueryEntry::Var(v) => Slot::Var(v.id.rep()),
            QueryEntry::Const { val, .. } => Slot::Const(val.rep()),
        }
    }
}

/// The slots of a list of entries.
pub fn slots_from_entries(entries: &[QueryEntry]) -> (slots: Vec<Slot>)
    ensures
        slots@ == slots_of_entries(entries@),
{
    let mut slots: Vec<Slot> = Vec::with_capacity(entries.len());
    for i in 0..entries.len()
        invariant
            slots@ =~= slots_of_entries(entries@).take(i as int),
    {
        slots.push(Slot::from_entry(&entries[i]));
    }
    assert(slots_of_entries(entries@).take(entries@.len() as int) =~= slots_of_entries(entries@));
    slots
}

/// A body atom: a function with one slot for each column.
#[derive(Clone, Debug)]
pub struct BodyAtom {
    pub func: FunctionId,
    pub slots: Vec<Slot>,
}

impl BodyAtom {
    pub fn from_entries(func: FunctionId, entries: &[QueryEntry]) -> (a: BodyAtom)
        ensures
            a.func == func,
            a.slots@ == slots_of_entries(entries@),
    {
        BodyAtom { func, slots: slots_from_entries(entries) }
    }
}

/// One operation of a rule body, in order.
#[derive(Clone, Debug)]
pub enum BodyOp {
    /// Match the rows of a table.
    Atom(BodyAtom),
    /// Evaluate a primitive: `ret` is bound to the result, or has to equal it.
    Prim { id: ExternalFunctionId, args: Vec<Slot>, ret: Slot },
    /// Keep the match only where the two values differ.
    Differ(Slot, Slot),
}

/// One operation of a rule head, in order.
#[derive(Clone, Debug)]
pub enum HeadOp {
    /// Write a full row.
    SetRow { func: FunctionId, slots: Vec<Slot> },
    /// Retract the rows whose leading columns are the slots.
    Remove { func: FunctionId, slots: Vec<Slot> },
    /// Subsume a row.
    Subsume { func: FunctionId, slots: Vec<Slot> },
    /// Bind `ret` to the output of `func` at `args`; the row is made if absent.
    Lookup { func: FunctionId, args: Vec<Slot>, ret: u32 },
    /// Bind `ret` to the result of a primitive.
    Call { id: ExternalFunctionId, args: Vec<Slot>, ret: u32 },
    /// Merge two ids.
    Union { l: Slot, r: Slot },
    /// Fail with a message.
    Panic(String),
}

/// A rule: its body and head operations.
#[derive(Clone, Debug)]
pub struct RuleIr {
    pub name: String,
    pub body: Vec<BodyOp>,
    pub head: Vec<HeadOp>,
}

/// The value of a slot: a constant's own, or what `get` answers for a variable.
pub fn slot_lookup<F: Fn(u32) -> Option<u32>>(s: &Slot, get: &F) -> (r: Option<u32>)
    requires
        *s matches Slot::Var(v) ==> call_requires(*get, (v,)),
    ensures
        *s matches Slot::Const(c) ==> r == Some(c),
        *s matches Slot::Var(v) ==> call_ensures(*get, (v,), r),
{
    match s {
        Slot::Var(v) => get(*v),
        Slot::Const(c) => Some(*c),
    }
}

/// The value of a slot under a set of bindings.
pub open spec fn slot_val(s: Slot, env: Map<u32, u32>) -> Option<u32> {
    match s {
        Slot::Const(c) => Some(c),
        Slot::Var(v) => if env.contains_key(v) { Some(env[v]) } else { None },
    }
}

/// The values of slots that are all bound.
pub open spec fn slots_vals(slots: Seq<Slot>, env: Map<u32, u32>) -> Seq<u32> {
    slots.map_values(|s: Slot| slot_val(s, env)->0)
}

} // verus!
