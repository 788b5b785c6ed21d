//! Rows of k-quantized matrices inside a mapped weight file.
use crate::config::product;
use crate::q4k::{
    q4k_dot, q4k_dot_int, q4k_dot_split, q4k_int_value, q4k_split_value, q4k_value,
};
use crate::q6k::{
    q6k_dot, q6k_dot_int, q6k_dot_split, q6k_int_value, q6k_split_value, q6k_value,
};
use crate::scalar::Scalar;
use vstd::arithmetic::mul::{lemma_mul_inequality, lemma_mul_is_distributive_add_other_way};
use vstd::prelude::*;
use vstd::slice::slice_subrange;

verus! {

/// Type number of Q4_K tensors.
pub const TYPE_Q4_K: u32 = 12;

/// Type number of Q6_K tensors.
pub const TYPE_Q6_K: u32 = 14;

/// A k-quantized matrix: where it starts in the weight file, its type number,
/// its columns and the bytes of a row.
#[derive(Clone, Copy)]
pub struct KMat {
    pub off: usize,
    pub ttype: u32,
    pub cols: usize,
    pub bpr: usize,
}

/// How many levels of the activations share a scale, and how the products are added
/// up.
#[derive(Clone, Copy, PartialEq, Eq, Structural, Debug)]
pub enum Grain {
    /// A block of 32, in a single chain of sums.
    Block,
    /// A block of 32, in several chains of sums.
    Split,
    /// A whole super-block of 256, over which products are accumulated in integers.
    Super,
}

impl Grain {
    /// The number of levels that share a scale.
    pub open spec fn width(&self) -> int {
        match self {
            Grain::Block | Grain::Split => 32,
            Grain::Super => 256,
        }
    }

    /// The number of levels that share a scale.
    pub fn levels(&self) -> (n: usize)
        ensures
            n == self.width(),
    {
        match self {
            Grain::Block | Grain::Split => 32,
            Grain::Super => 256,
        }
    }
}

/// A tensor of this type number is no k-quantized matrix.
#[derive(Clone, Copy, PartialEq, Eq, Structural, Debug)]
pub struct UnsupportedType {
    pub ttype: u32,
}

/// The bytes of a row of `cols` columns.
pub open spec fn row_bytes(ttype: u32, cols: int) -> int {
    if ttype == TYPE_Q4_K {
        cols / 256 * 144
    } else {
        cols / 256 * 210
    }
}

impl KMat {
    /// The type is a k-quantized one and the row length follows from it.
    pub open spec fn wf(&self) -> bool {
        &&& self.ttype == TYPE_Q4_K || self.ttype == TYPE_Q6_K
        &&& self.bpr == row_bytes(self.ttype, self.cols as int)
    }

    /// The bytes of row `r` in the weight file.
    pub open spec fn row(&self, blob: Seq<u8>, r: int) -> Seq<u8> {
        blob.subrange(self.off + r * self.bpr, self.off + r * self.bpr + self.bpr)
    }

    /// Row `r` lies inside the weight file.
    pub open spec fn holds_row(&self, blob: Seq<u8>, r: int) -> bool {
        self.off + r * self.bpr + self.bpr <= blob.len()
    }

    /// The first `rows` rows lie inside a weight file of `len` bytes.
    pub open spec fn has_rows(&self, len: int, rows: int) -> bool {
        self.off + rows * self.bpr <= len
    }

    /// Whether the matrix has this many columns, and this many rows inside a weight
    /// file of `len` bytes.
    pub fn fits(&self, len: usize, rows: usize, cols: usize) -> (r: bool)
        ensures
            r == (self.wf() && self.cols == cols && self.has_rows(len as int, rows as int)),
    {
        if self.ttype != TYPE_Q4_K && self.ttype != TYPE_Q6_K {
            return false;
        }
        let bytes: usize = if self.ttype == TYPE_Q4_K {
            144
        } else {
            210
        };
        self.bpr as u128 == product(self.cols / 256, bytes) && self.cols == cols && self.off as u128
            + product(rows, self.bpr) <= len as u128
    }

    /// A matrix of the given type and columns at byte `off`.
    pub fn new(off: usize, ttype: u32, cols: usize) -> (r: Result<KMat, UnsupportedType>)
        ensures
            r is Ok <==> ttype == TYPE_Q4_K || ttype == TYPE_Q6_K,
            r matches Ok(m) ==> m.wf() && m.off == off && m.ttype == ttype && m.cols == cols,
            r matches Err(e) ==> e.ttype == ttype,
    {
        if ttype == TYPE_Q4_K {
            Ok(KMat { off, ttype, cols, bpr: cols / 256 * 144 })
        } else if ttype == TYPE_Q6_K {
            Ok(KMat { off, ttype, cols, bpr: cols / 256 * 210 })
        } else {
            Err(UnsupportedType { ttype })
        }
    }

    /// Where row `r` starts.
    pub fn row_start(&self, blob: &[u8], r: usize) -> (s: usize)
        requires
            self.holds_row(blob@, r as int),
        ensures
            s == self.off + r * self.bpr,
            s + self.bpr <= blob.len(),
    {
        assert(0 <= r * self.bpr) by (nonlinear_arith)
            requires
                0 <= r,
                0 <= self.bpr,
        ;
        assert(blob@.len() == blob.len());
        self.off + r * self.bpr
    }

    /// The value of row `r` times the activations.
    pub open spec fn row_value<S: Scalar>(
        &self,
        blob: Seq<u8>,
        r: int,
        x: Seq<i8>,
        xs: Seq<S>,
        xsum: Seq<i32>,
        grain: Grain,
    ) -> S {
        let (row, n) = (self.row(blob, r), self.cols as int / 256);
        match grain {
            Grain::Block => if self.ttype == TYPE_Q4_K {
                q4k_value(row, x, xs, xsum, self.cols as int)
            } else {
                q6k_value(row, x, xs, n * 16)
            },
            Grain::Split => if self.ttype == TYPE_Q4_K {
                q4k_split_value(row, x, xs, xsum, self.cols as int)
            } else {
                q6k_split_value(row, x, xs, n * 4)
            },
            Grain::Super => if self.ttype == TYPE_Q4_K {
                q4k_int_value(row, x, xs, xsum, n)
            } else {
                q6k_int_value(row, x, xs, n)
            },
        }
    }

    /// Row `r` times activations that carry their scales by the grain and come with
    /// their sums by 32.
    pub fn dot<S: Scalar>(
        &self,
        blob: &[u8],
        r: usize,
        xq: &[i8],
        xs: &[S],
        xsum: &[i32],
        grain: Grain,
    ) -> (v: S)
        requires
            self.wf(),
            self.holds_row(blob@, r as int),
            xq.len() >= self.cols / 256 * 256,
            xs.len() >= self.cols / 256 * 256 / grain.width(),
            xsum.len() >= self.cols / 256 * 8,
        ensures
            v == self.row_value(blob@, r as int, xq@, xs@, xsum@, grain),
    {
        let s: usize = self.row_start(blob, r);
        let row = slice_subrange(blob, s, s + self.bpr);
        match grain {
            Grain::Block => if self.ttype == TYPE_Q4_K {
                q4k_dot(row, xq, xs, xsum, self.cols)
            } else {
                q6k_dot(row, xq, xs, self.cols)
            },
            Grain::Split => if self.ttype == TYPE_Q4_K {
                q4k_dot_split(row, xq, xs, xsum, self.cols)
            } else {
                q6k_dot_split(row, xq, xs, self.cols)
            },
            Grain::Super => if self.ttype == TYPE_Q4_K {
                q4k_dot_int(row, xq, xs, xsum, self.cols)
            } else {
                q6k_dot_int(row, xq, xs, self.cols)
            },
        }
    }
}

/// Each of a matrix's rows lies inside the weight file where all of them do.
pub proof fn rows_are_held(m: KMat, blob: Seq<u8>, rows: int, r: int)
    requires
        m.has_rows(blob.len() as int, rows),
        0 <= r < rows,
    ensures
        m.holds_row(blob, r),
{
    lemma_mul_inequality(r + 1, rows, m.bpr as int);
    lemma_mul_is_distributive_add_other_way(m.bpr as int, r, 1);
}

} // verus!
