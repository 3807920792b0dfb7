//! Identifiers, schemas, merge functions and query entries shared by the backends.
use vstd::prelude::*;

verus! {

/// An interned value; only its representation is visible to a backend.
#[derive(Clone, Copy, Debug, PartialEq, Eq, Hash, PartialOrd, Ord, Structural)]
pub struct Value {
    pub rep: u32,
}

impl Value {
    pub fn new(rep: u32) -> (v: Value)
        ensures
            v.rep == rep,
    {
        Value { rep }
    }

    pub fn rep(&self) -> (r: u32)
        ensures
            r == self.rep,
    {
        self.rep
    }
}

/// The representations of a sequence of values.
pub open spec fn reps(vals: Seq<Value>) -> Seq<u32> {
    vals.map_values(|v: Value| v.rep)
}

/// A rule.
#[derive(Clone, Copy, Debug, PartialEq, Eq, Hash, PartialOrd, Ord, Structural)]
pub struct RuleId {
    pub rep: u32,
}

impl RuleId {
    pub fn new(rep: u32) -> (v: RuleId)
        ensures
            v.rep == rep,
    {
        RuleId { rep }
    }

    pub fn rep(&self) -> (r: u32)
        ensures
            r == self.rep,
    {
        self.rep
    }
}

/// A function, relation or constructor.
#[derive(Clone, Copy, Debug, PartialEq, Eq, Hash, PartialOrd, Ord, Structural)]
pub struct FunctionId {
    pub rep: u32,
}

impl FunctionId {
    pub fn new(rep: u32) -> (v: FunctionId)
        ensures
            v.rep == rep,
    {
        FunctionId { rep }
    }

    pub fn rep(&self) -> (r: u32)
        ensures
            r == self.rep,
    {
        self.rep
    }
}

/// A variable of a query.
#[derive(Clone, Copy, Debug, PartialEq, Eq, Hash, PartialOrd, Ord, Structural)]
pub struct VariableId {
    pub rep: u32,
}

impl VariableId {
    pub fn new(rep: u32) -> (v: VariableId)
        ensures
            v.rep == rep,
    {
        VariableId { rep }
    }

    pub fn rep(&self) -> (r: u32)
        ensures
            r == self.rep,
    {
        self.rep
    }
}

/// A primitive (an external function).
#[derive(Clone, Copy, Debug, PartialEq, Eq, Hash, PartialOrd, Ord, Structural)]
pub struct ExternalFunctionId {
    pub rep: u32,
}

impl ExternalFunctionId {
    pub fn new(rep: u32) -> (v: ExternalFunctionId)
        ensures
            v.rep == rep,
    {
        ExternalFunctionId { rep }
    }

    pub fn rep(&self) -> (r: u32)
        ensures
            r == self.rep,
    {
        self.rep
    }
}

/// A base type (a type whose values are interned).
#[derive(Clone, Copy, Debug, PartialEq, Eq, Hash, PartialOrd, Ord, Structural)]
pub struct BaseValueId {
    pub rep: u32,
}

impl BaseValueId {
    pub fn new(rep: u32) -> (v: BaseValueId)
        ensures
            v.rep == rep,
    {
        BaseValueId { rep }
    }

    pub fn rep(&self) -> (r: u32)
        ensures
            r == self.rep,
    {
        self.rep
    }
}

/// The type of a column: an eq-sort (or container) id, or a base type.
#[derive(Clone, Copy, Debug, PartialEq, Eq, Hash, Structural)]
pub enum ColumnTy {
    Id,
    Base(BaseValueId),
}

/// How a lookup on an absent key behaves.
#[derive(Clone, Copy, Debug, PartialEq, Eq, Structural)]
pub enum DefaultVal {
    /// Mint a fresh id.
    FreshId,
    /// Fail the run.
    Fail,
    /// Insert a constant.
    Const(Value),
    /// Answer the single key itself and insert nothing.
    Identity,
}

/// The proof constructors a proof-carrying union-find function composes with.
#[derive(Clone, Copy, Debug, PartialEq, Eq, Structural)]
pub struct UfProofConfig {
    /// `(Trans Proof Proof) -> Proof`.
    pub trans: FunctionId,
    /// `(Sym Proof) -> Proof`.
    pub sym: FunctionId,
}

/// How two rows that share a key are merged into one.
#[derive(Debug)]
pub enum MergeFn {
    /// The two values have to agree.
    AssertEq,
    /// Union the two output ids in the global union-find.
    UnionId,
    /// Union the two output ids in the named function's union-find.
    UnionIntoUf(FunctionId),
    /// Write the union as an edge of a relational parent table.
    UnionIntoParentTable { parent_table: FunctionId, unit: Value },
    /// Union the two e-classes and compose the edge's proof.
    UnionIntoUfWithProof {
        uf: FunctionId,
        trans: FunctionId,
        sym: FunctionId,
        eclass_col: usize,
        proof_col: usize,
    },
    /// The proof that belongs to the smaller e-class.
    EclassMinProof { eclass_col: usize, proof_col: usize },
    /// Apply a primitive to the results of the argument merges.
    Primitive(ExternalFunctionId, Vec<MergeFn>),
    /// Look up a function at the results of the argument merges.
    Function(FunctionId, Vec<MergeFn>),
    /// Keep the old value.
    Old,
    /// Keep the new value.
    New,
    /// The old row's value column.
    OldCol(usize),
    /// The new row's value column.
    NewCol(usize),
    /// Key column of the colliding row.
    KeyCol(usize),
    /// A constant.
    Const(Value),
    /// One merge for each value column.
    Columns(Vec<MergeFn>),
    /// Insert a row into another table.
    TableInsert(FunctionId, Vec<MergeFn>),
    /// Evaluate in order; the last one is the value.
    Sequence(Vec<MergeFn>),
    /// Mint a term of a constructor with the given children and value columns.
    Construct(FunctionId, Vec<MergeFn>, Vec<MergeFn>),
    /// `then` where `a` and `b` agree, `els` where they differ.
    IfEq { a: Box<MergeFn>, b: Box<MergeFn>, then: Box<MergeFn>, els: Box<MergeFn> },
}

/// The properties of a function that is registered with a backend.
#[derive(Debug)]
pub struct FunctionConfig {
    /// One type for each column; the last one is the output.
    pub schema: Vec<ColumnTy>,
    pub default: DefaultVal,
    pub merge: MergeFn,
    pub name: String,
    pub can_subsume: bool,
}

/// A variable with an optional display name.
#[derive(Clone, Debug)]
pub struct Variable {
    pub id: VariableId,
    pub name: Option<String>,
}

impl Variable {
    /// The unnamed variable `id`.
    pub fn from_id(id: VariableId) -> (v: Variable)
        ensures
            v.id == id,
            v.name is None,
    {
        Variable { id, name: None }
    }
}

/// A variable or a typed constant in a rule.
#[derive(Clone, Debug)]
pub enum QueryEntry {
    Var(Variable),
    Const { val: Value, ty: ColumnTy },
}

impl QueryEntry {
    /// The entry that refers to `var`.
    pub fn from_variable(var: Variable) -> (e: QueryEntry)
        ensures
            e == QueryEntry::Var(var),
    {
        QueryEntry::Var(var)
    }
}

} // verus!
