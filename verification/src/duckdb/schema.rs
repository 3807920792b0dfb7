//! The tables: column types, merge modes and what is known of a registered function.
use crate::backend::MergeFn;
use vstd::prelude::*;

verus! {

/// The type of a column.
#[derive(Clone, Copy, Debug, PartialEq, Eq, Structural)]
pub enum ColumnTy {
    I64,
    Bool,
    F64,
    Str,
    /// Two integers in one column.
    PairI64,
}

impl ColumnTy {
    /// The type's name in SQL.
    pub open spec fn text(self) -> Seq<char> {
        match self {
            ColumnTy::I64 => "BIGINT"@,
            ColumnTy::Bool => "BOOLEAN"@,
            ColumnTy::F64 => "DOUBLE"@,
            ColumnTy::Str => "VARCHAR"@,
            ColumnTy::PairI64 => "STRUCT(first BIGINT, second BIGINT)"@,
        }
    }

    /// The type's name in SQL.
    pub fn sql(self) -> (s: &'static str)
        ensures
            s@ == self.text(),
    {
        match self {
            ColumnTy::I64 => "BIGINT",
            ColumnTy::Bool => "BOOLEAN",
            ColumnTy::F64 => "DOUBLE",
            ColumnTy::Str => "VARCHAR",
            ColumnTy::PairI64 => "STRUCT(first BIGINT, second BIGINT)",
        }
    }
}

/// How the outputs of two rows with the same inputs become one.
#[derive(Clone, Debug)]
pub enum MergeMode {
    /// The first one stays.
    Old,
    /// The last one stays.
    New,
    /// The smaller one stays.
    Min,
    /// A SQL expression over the existing row and the incoming one.
    Fold(String),
}

/// What a merge mode holds.
pub enum MergeModeView {
    Old,
    New,
    Min,
    Fold(Seq<char>),
}

impl View for MergeMode {
    type V = MergeModeView;

    open spec fn view(&self) -> MergeModeView {
        match *self {
            MergeMode::Old => MergeModeView::Old,
            MergeMode::New => MergeModeView::New,
            MergeMode::Min => MergeModeView::Min,
            MergeMode::Fold(s) => MergeModeView::Fold(s@),
        }
    }
}

/// What is known of a registered function.
#[derive(Debug)]
pub struct FunctionInfo {
    /// The columns: the inputs, then the output or id, if any.
    pub cols: Vec<ColumnTy>,
    /// How many columns are inputs.
    pub inputs_len: usize,
    /// The merge mode; none for relations and constructors.
    pub merge: Option<MergeMode>,
    /// Whether the last column is an id that the constructor mints.
    pub eq_sort_ctor: bool,
    /// The find function of the union-find that stands in for the table.
    pub native_uf_udf: Option<String>,
    /// The table that takes the unions of rows with equal inputs.
    pub eq_sort_pname: Option<String>,
    /// Whether a missing key reads as the key itself.
    pub identity_on_miss: bool,
    /// The merge of a view whose conflicts are resolved between iterations.
    pub merge_tree: Option<MergeFn>,
    /// The union-find table that takes the view's congruences.
    pub native_congruence_uf: Option<String>,
}

/// What an optional text holds.
pub open spec fn opt_text(o: Option<String>) -> Option<Seq<char>> {
    match o {
        Some(s) => Some(s@),
        None => None,
    }
}

/// What an optional merge mode holds.
pub open spec fn opt_mode(o: Option<MergeMode>) -> Option<MergeModeView> {
    match o {
        Some(m) => Some(m@),
        None => None,
    }
}

/// What a function's description holds.
#[verifier::ext_equal]
pub struct InfoView {
    pub cols: Seq<ColumnTy>,
    pub inputs_len: nat,
    pub merge: Option<MergeModeView>,
    pub eq_sort_ctor: bool,
    pub native_uf_udf: Option<Seq<char>>,
    pub eq_sort_pname: Option<Seq<char>>,
    pub identity_on_miss: bool,
    pub merge_tree: Option<MergeFn>,
    pub native_congruence_uf: Option<Seq<char>>,
}

impl View for FunctionInfo {
    type V = InfoView;

    open spec fn view(&self) -> InfoView {
        InfoView {
            cols: self.cols@,
            inputs_len: self.inputs_len as nat,
            merge: opt_mode(self.merge),
            eq_sort_ctor: self.eq_sort_ctor,
            native_uf_udf: opt_text(self.native_uf_udf),
            eq_sort_pname: opt_text(self.eq_sort_pname),
            identity_on_miss: self.identity_on_miss,
            merge_tree: self.merge_tree,
            native_congruence_uf: opt_text(self.native_congruence_uf),
        }
    }
}

impl InfoView {
    /// How many columns the primary key covers: the inputs, where a conflict updates the output;
    /// all of them, where rows that differ in the last column stand side by side.
    pub open spec fn key_width(self) -> nat {
        if self.merge is Some && !self.eq_sort_ctor && self.merge_tree is None {
            self.inputs_len
        } else {
            self.cols.len()
        }
    }
}

impl FunctionInfo {
    /// How many columns there are.
    pub fn arity(&self) -> (n: usize)
        ensures
            n == self@.cols.len(),
    {
        self.cols.len()
    }

    /// Whether there is an output column.
    pub fn has_output(&self) -> (b: bool)
        ensures
            b == (self@.merge is Some),
    {
        self.merge.is_some()
    }

    /// How many columns the primary key covers.
    pub fn key_width(&self) -> (n: usize)
        ensures
            n == self@.key_width(),
    {
        if self.merge.is_some() && !self.eq_sort_ctor && self.merge_tree.is_none() {
            self.inputs_len
        } else {
            self.cols.len()
        }
    }

    /// A relation: every column is an input.
    pub fn relation(cols: Vec<ColumnTy>, pname: Option<String>) -> (i: FunctionInfo)
        ensures
            i@ == (InfoView {
                cols: cols@,
                inputs_len: cols@.len(),
                merge: None,
                eq_sort_ctor: false,
                native_uf_udf: None,
                eq_sort_pname: opt_text(pname),
                identity_on_miss: false,
                merge_tree: None,
                native_congruence_uf: None,
            }),
    {
        let inputs_len: usize = cols.len();
        FunctionInfo {
            cols,
            inputs_len,
            merge: None,
            eq_sort_ctor: false,
            native_uf_udf: None,
            eq_sort_pname: pname,
            identity_on_miss: false,
            merge_tree: None,
            native_congruence_uf: None,
        }
    }
}

} // verus!
