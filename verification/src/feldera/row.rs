//! Fixed-width rows.
//!
//! A circuit carries rows of one fixed width. The width is the smallest of a few
//! buckets that holds the columns in use, and unused columns are zero.
use vstd::prelude::*;

verus! {

/// The widest bucket.
pub const MAX_WIDTH: usize = 32;

/// The largest number of variables, or of an atom's columns, in a join.
pub const JOIN_WIDTH: usize = 32;

/// The smallest bucket that holds so many columns; the widest one if none does.
pub open spec fn bucket(needed: int) -> int {
    if needed <= 8 {
        8
    } else if needed <= 16 {
        16
    } else {
        32
    }
}

/// The smallest bucket that holds `needed` columns; the widest one if none does.
pub fn pick_width(needed: usize) -> (w: usize)
    ensures
        w == bucket(needed as int),
{
    if needed <= 8 {
        8
    } else if needed <= 16 {
        16
    } else {
        MAX_WIDTH
    }
}

/// Column `i` of a row of columns; zero outside the row.
pub open spec fn col(cols: Seq<u32>, i: int) -> u32 {
    if 0 <= i < cols.len() {
        cols[i]
    } else {
        0
    }
}

/// `vals`, padded with zeros to `width` columns.
pub open spec fn padded(vals: Seq<u32>, width: nat) -> Seq<u32> {
    Seq::new(width, |i: int| col(vals, i))
}

/// A row of a fixed number of columns.
pub trait Row: Sized + Copy {
    /// The number of columns.
    const WIDTH: usize;

    /// The columns.
    spec fn cols(&self) -> Seq<u32>;

    /// A row has as many columns as its width says, and at most [`MAX_WIDTH`].
    proof fn lemma_width(&self)
        ensures
            self.cols().len() == Self::WIDTH,
    ;

    /// Widths are those of the buckets.
    proof fn lemma_bucket()
        ensures
            Self::WIDTH <= MAX_WIDTH,
    ;

    /// The row of `vals`, padded with zeros.
    fn pack(vals: &[u32]) -> (r: Self)
        requires
            vals@.len() <= Self::WIDTH,
        ensures
            r.cols() == padded(vals@, Self::WIDTH as nat),
    ;

    /// Column `i`; zero outside the row.
    fn get(&self, i: usize) -> (v: u32)
        ensures
            v == col(self.cols(), i as int),
    ;

    /// The row with column `i` set to `v`; unchanged if there is no such column.
    fn set(self, i: usize, v: u32) -> (r: Self)
        ensures
            r.cols() == (if i < Self::WIDTH {
                self.cols().update(i as int, v)
            } else {
                self.cols()
            }),
    ;
}

/// A row of eight columns.
#[derive(Clone, Copy, Debug)]
pub struct Row8 {
    cols: [u32; 8],
}

/// A row of sixteen columns.
#[derive(Clone, Copy, Debug)]
pub struct Row16 {
    cols: [u32; 16],
}

/// A row of thirty-two columns.
#[derive(Clone, Copy, Debug)]
pub struct Row32 {
    cols: [u32; 32],
}

impl Row for Row8 {
    const WIDTH: usize = 8;

    closed spec fn cols(&self) -> Seq<u32> {
        self.cols@
    }

    proof fn lemma_width(&self) {
    }

    proof fn lemma_bucket() {
    }

    fn pack(vals: &[u32]) -> (r: Self) {
        let mut cols: [u32; 8] = [0; 8];
        for i in 0..vals.len()
            invariant
                vals@.len() <= 8,
                cols@ =~= padded(vals@.take(i as int), 8),
        {
            cols[i] = vals[i];
        }
        assert(vals@.take(vals@.len() as int) =~= vals@);
        Row8 { cols }
    }

    fn get(&self, i: usize) -> (v: u32) {
        if i < 8 {
            self.cols[i]
        } else {
            0
        }
    }

    fn set(self, i: usize, v: u32) -> (r: Self) {
        let mut r = self;
        if i < 8 {
            r.cols[i] = v;
        }
        r
    }
}

impl Row for Row16 {
    const WIDTH: usize = 16;

    closed spec fn cols(&self) -> Seq<u32> {
        self.cols@
    }

    proof fn lemma_width(&self) {
    }

    proof fn lemma_bucket() {
    }

    fn pack(vals: &[u32]) -> (r: Self) {
        let mut cols: [u32; 16] = [0; 16];
        for i in 0..vals.len()
            invariant
                vals@.len() <= 16,
                cols@ =~= padded(vals@.take(i as int), 16),
        {
            cols[i] = vals[i];
        }
        assert(vals@.take(vals@.len() as int) =~= vals@);
        Row16 { cols }
    }

    fn get(&self, i: usize) -> (v: u32) {
        if i < 16 {
            self.cols[i]
        } else {
            0
        }
    }

    fn set(self, i: usize, v: u32) -> (r: Self) {
        let mut r = self;
        if i < 16 {
            r.cols[i] = v;
        }
        r
    }
}

impl Row for Row32 {
    const WIDTH: usize = 32;

    closed spec fn cols(&self) -> Seq<u32> {
        self.cols@
    }

    proof fn lemma_width(&self) {
    }

    proof fn lemma_bucket() {
    }

    fn pack(vals: &[u32]) -> (r: Self) {
        let mut cols: [u32; 32] = [0; 32];
        for i in 0..vals.len()
            invariant
                vals@.len() <= 32,
                cols@ =~= padded(vals@.take(i as int), 32),
        {
            cols[i] = vals[i];
        }
        assert(vals@.take(vals@.len() as int) =~= vals@);
        Row32 { cols }
    }

    fn get(&self, i: usize) -> (v: u32) {
        if i < 32 {
            self.cols[i]
        } else {
            0
        }
    }

    fn set(self, i: usize, v: u32) -> (r: Self) {
        let mut r = self;
        if i < 32 {
            r.cols[i] = v;
        }
        r
    }
}

/// The row of `vals`, padded with zeros.
pub fn pack_row<R: Row>(vals: &[u32]) -> (r: R)
    requires
        vals@.len() <= R::WIDTH,
    ensures
        r.cols() == padded(vals@, R::WIDTH as nat),
{
    R::pack(vals)
}

/// Column `i` of a row; zero outside the row.
pub fn get_col<R: Row>(r: &R, i: usize) -> (v: u32)
    ensures
        v == col(r.cols(), i as int),
{
    r.get(i)
}

/// The row with column `i` set to `v`; unchanged if there is no such column.
pub fn set_col<R: Row>(r: R, i: usize, v: u32) -> (out: R)
    ensures
        out.cols() == (if i < R::WIDTH {
            r.cols().update(i as int, v)
        } else {
            r.cols()
        }),
{
    r.set(i, v)
}

/// Reading a packed row gives back the columns that were packed.
pub proof fn get_of_pack(vals: Seq<u32>, width: nat, i: int)
    requires
        vals.len() <= width,
        0 <= i < vals.len(),
    ensures
        col(padded(vals, width), i) == vals[i],
{
}

} // verus!
