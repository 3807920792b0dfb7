//! Conditions on a row that are decided on value representations alone.
use crate::feldera::row::{col, get_col, Row};
use std::rc::Rc;
use vstd::prelude::*;

verus! {

/// Which operations on a column's representation agree with those on its value.
#[derive(Clone, Copy, Debug, PartialEq, Eq, Structural)]
pub enum RepKind {
    /// An id column: order and equality both agree.
    Order,
    /// An injectively interned base type: equality agrees, order does not.
    Equality,
}

/// An expression over a row's columns.
#[derive(Clone, Debug)]
pub enum PureExpr {
    /// A column.
    Col(usize),
    /// A constant.
    Const(u32),
    /// The smaller of two.
    Min(Rc<PureExpr>, Rc<PureExpr>),
    /// The larger of two.
    Max(Rc<PureExpr>, Rc<PureExpr>),
}

/// A condition on a row's columns.
#[derive(Clone, Debug)]
pub enum Cond {
    /// The two differ.
    Ne(PureExpr, PureExpr),
    /// The two are equal.
    Eq(PureExpr, PureExpr),
    /// Some of them hold.
    Or(Vec<Rc<Cond>>),
}

/// The smaller of two representations.
pub open spec fn min_rep(a: u32, b: u32) -> u32 {
    if a <= b {
        a
    } else {
        b
    }
}

/// The larger of two representations.
pub open spec fn max_rep(a: u32, b: u32) -> u32 {
    if a <= b {
        b
    } else {
        a
    }
}

impl PureExpr {
    /// The value on a row.
    pub open spec fn value(self, row: Seq<u32>) -> u32
        decreases self,
    {
        match self {
            PureExpr::Col(c) => col(row, c as int),
            PureExpr::Const(v) => v,
            PureExpr::Min(a, b) => min_rep(a.value(row), b.value(row)),
            PureExpr::Max(a, b) => max_rep(a.value(row), b.value(row)),
        }
    }

    /// Whether column `c` is read.
    pub open spec fn reads(self, c: int) -> bool
        decreases self,
    {
        match self {
            PureExpr::Col(i) => i == c,
            PureExpr::Const(v) => false,
            PureExpr::Min(a, b) => a.reads(c) || b.reads(c),
            PureExpr::Max(a, b) => a.reads(c) || b.reads(c),
        }
    }

    /// The value on a row.
    pub fn eval<R: Row>(&self, row: &R) -> (v: u32)
        ensures
            v == self.value(row.cols()),
        decreases self,
    {
        match self {
            PureExpr::Col(c) => get_col(row, *c),
            PureExpr::Const(v) => *v,
            PureExpr::Min(a, b) => {
                let x: u32 = a.eval(row);
                let y: u32 = b.eval(row);
                if x <= y {
                    x
                } else {
                    y
                }
            },
            PureExpr::Max(a, b) => {
                let x: u32 = a.eval(row);
                let y: u32 = b.eval(row);
                if x <= y {
                    y
                } else {
                    x
                }
            },
        }
    }

    /// Appends the columns that are read.
    pub fn cols(&self, out: &mut Vec<usize>)
        ensures
            old(out)@.len() <= final(out)@.len(),
            final(out)@.take(old(out)@.len() as int) == old(out)@,
            forall|c: usize| #[trigger]
                final(out)@.contains(c) <==> old(out)@.contains(c) || self.reads(c as int),
        decreases self,
    {
        match self {
            PureExpr::Col(c) => {
                out.push(*c);
                proof {
                    lemma_push_contains(old(out)@, *c);
                    assert(out@.take(old(out)@.len() as int) =~= old(out)@);
                }
            },
            PureExpr::Const(_) => {
                assert(out@.take(old(out)@.len() as int) =~= old(out)@);
            },
            PureExpr::Min(a, b) | PureExpr::Max(a, b) => {
                a.cols(out);
                let ghost mid = out@;
                b.cols(out);
                assert(out@.take(old(out)@.len() as int) =~= mid.take(old(out)@.len() as int));
            },
        }
    }

    /// The value depends only on the columns that are read.
    pub proof fn value_depends_on_reads(&self, r1: Seq<u32>, r2: Seq<u32>)
        requires
            forall|c: int| #[trigger] self.reads(c) ==> col(r1, c) == col(r2, c),
        ensures
            self.value(r1) == self.value(r2),
        decreases self,
    {
        match self {
            PureExpr::Col(c) => {
                assert(self.reads(c as int));
            },
            PureExpr::Const(v) => {},
            PureExpr::Min(a, b) | PureExpr::Max(a, b) => {
                assert forall|c: int| #[trigger] a.reads(c) implies col(r1, c) == col(r2, c) by {
                    assert(self.reads(c));
                }
                assert forall|c: int| #[trigger] b.reads(c) implies col(r1, c) == col(r2, c) by {
                    assert(self.reads(c));
                }
                a.value_depends_on_reads(r1, r2);
                b.value_depends_on_reads(r1, r2);
            },
        }
    }
}

/// What pushing one item does to what a sequence contains.
pub proof fn lemma_push_contains<A>(s: Seq<A>, a: A)
    ensures
        forall|x: A| #[trigger] s.push(a).contains(x) <==> s.contains(x) || x == a,
{
    assert forall|x: A| #[trigger] s.push(a).contains(x) <==> s.contains(x) || x == a by {
        if s.contains(x) {
            let k = choose|k: int| 0 <= k < s.len() && s[k] == x;
            assert(s.push(a)[k] == x);
        }
        if x == a {
            assert(s.push(a)[s.len() as int] == x);
        }
        if s.push(a).contains(x) {
            let k = choose|k: int| 0 <= k < s.push(a).len() && s.push(a)[k] == x;
            if k < s.len() {
                assert(s[k] == x);
            }
        }
    }
}

impl Cond {
    /// Whether it holds on a row.
    pub open spec fn holds(self, row: Seq<u32>) -> bool
        decreases self,
    {
        match self {
            Cond::Ne(a, b) => a.value(row) != b.value(row),
            Cond::Eq(a, b) => a.value(row) == b.value(row),
            Cond::Or(cs) => exists|i: int| 0 <= i < cs@.len() && (#[trigger] cs@[i]).holds(row),
        }
    }

    /// Whether column `c` is read.
    pub open spec fn reads(self, c: int) -> bool
        decreases self,
    {
        match self {
            Cond::Ne(a, b) => a.reads(c) || b.reads(c),
            Cond::Eq(a, b) => a.reads(c) || b.reads(c),
            Cond::Or(cs) => exists|i: int| 0 <= i < cs@.len() && (#[trigger] cs@[i]).reads(c),
        }
    }

    /// Whether it holds on a row.
    pub fn eval<R: Row>(&self, row: &R) -> (b: bool)
        ensures
            b == self.holds(row.cols()),
        decreases self,
    {
        match self {
            Cond::Ne(a, b) => a.eval(row) != b.eval(row),
            Cond::Eq(a, b) => a.eval(row) == b.eval(row),
            Cond::Or(cs) => {
                for i in 0..cs.len()
                    invariant
                        self is Or,
                        *cs == self->Or_0,
                        forall|j: int| 0 <= j < i ==> !(#[trigger] cs@[j]).holds(row.cols()),
                {
                    proof {
                        assert(decreases_to!(self => cs@[i as int]));
                    }
                    if cs[i].eval(row) {
                        return true;
                    }
                }
                false
            },
        }
    }

    /// Appends the columns that are read.
    pub fn cols(&self, out: &mut Vec<usize>)
        ensures
            old(out)@.len() <= final(out)@.len(),
            final(out)@.take(old(out)@.len() as int) == old(out)@,
            forall|c: usize| #[trigger]
                final(out)@.contains(c) <==> old(out)@.contains(c) || self.reads(c as int),
        decreases self,
    {
        match self {
            Cond::Ne(a, b) | Cond::Eq(a, b) => {
                a.cols(out);
                let ghost mid = out@;
                b.cols(out);
                assert(out@.take(old(out)@.len() as int) =~= mid.take(old(out)@.len() as int));
            },
            Cond::Or(cs) => {
                assert(out@.take(old(out)@.len() as int) =~= old(out)@);
                for i in 0..cs.len()
                    invariant
                        self is Or,
                        *cs == self->Or_0,
                        old(out)@.len() <= out@.len(),
                        out@.take(old(out)@.len() as int) == old(out)@,
                        forall|c: usize| #[trigger]
                            out@.contains(c) <==> old(out)@.contains(c) || (exists|j: int|
                                0 <= j < i && (#[trigger] cs@[j]).reads(c as int)),
                {
                    proof {
                        assert(decreases_to!(self => cs@[i as int]));
                    }
                    let ghost mid = out@;
                    cs[i].cols(out);
                    proof {
                        assert(out@.take(old(out)@.len() as int) =~= mid.take(
                            old(out)@.len() as int,
                        ));
                        assert forall|c: usize| #[trigger]
                            out@.contains(c) <==> old(out)@.contains(c) || (exists|j: int|
                                0 <= j < i + 1 && (#[trigger] cs@[j]).reads(c as int)) by {
                            if mid.contains(c) && !old(out)@.contains(c) {
                                let j = choose|j: int|
                                    0 <= j < i && (#[trigger] cs@[j]).reads(c as int);
                                assert(cs@[j].reads(c as int));
                            }
                            if cs@[i as int].reads(c as int) {
                                assert(out@.contains(c));
                            }
                        }
                    }
                }
            },
        }
    }

    /// Whether it holds depends only on the columns that are read.
    pub proof fn holds_depends_on_reads(&self, r1: Seq<u32>, r2: Seq<u32>)
        requires
            forall|c: int| #[trigger] self.reads(c) ==> col(r1, c) == col(r2, c),
        ensures
            self.holds(r1) == self.holds(r2),
        decreases self,
    {
        match self {
            Cond::Ne(a, b) | Cond::Eq(a, b) => {
                assert forall|c: int| #[trigger] a.reads(c) implies col(r1, c) == col(r2, c) by {
                    assert(self.reads(c));
                }
                assert forall|c: int| #[trigger] b.reads(c) implies col(r1, c) == col(r2, c) by {
                    assert(self.reads(c));
                }
                a.value_depends_on_reads(r1, r2);
                b.value_depends_on_reads(r1, r2);
            },
            Cond::Or(cs) => {
                assert forall|i: int| 0 <= i < cs@.len() implies (#[trigger] cs@[i]).holds(r1)
                    == cs@[i].holds(r2) by {
                    assert(decreases_to!(self => cs@[i]));
                    assert forall|c: int| #[trigger] cs@[i].reads(c) implies col(r1, c) == col(
                        r2,
                        c,
                    ) by {
                        assert(self.reads(c));
                    }
                    cs@[i].holds_depends_on_reads(r1, r2);
                }
            },
        }
    }
}

} // verus!
