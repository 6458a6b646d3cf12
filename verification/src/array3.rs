//! A dense three-dimensional array indexed by (row, column, channel), stored
//! row-major in a flat vector. This is the carrier for images, kernels,
//! gradient fields and edge masks.

use vstd::prelude::*;

verus! {

/// The mathematical view of a three-dimensional array: its shape together
/// with the flattened row-major contents.
#[verifier::ext_equal]
pub struct GridSpec<T> {
    pub rows: int,
    pub cols: int,
    pub chans: int,
    pub data: Seq<T>,
}

impl<T> GridSpec<T> {
    /// The flat contents match the shape.
    pub open spec fn wf(self) -> bool {
        &&& self.rows >= 0
        &&& self.cols >= 0
        &&& self.chans >= 0
        &&& self.data.len() == self.rows * self.cols * self.chans
    }

    /// Flat index of the element at (r, c, ch).
    pub open spec fn idx(self, r: int, c: int, ch: int) -> int {
        (r * self.cols + c) * self.chans + ch
    }

    /// The element at (r, c, ch).
    pub open spec fn val(self, r: int, c: int, ch: int) -> T {
        self.data[self.idx(r, c, ch)]
    }

    /// (r, c) names a pixel of the grid.
    pub open spec fn in_grid(self, r: int, c: int) -> bool {
        0 <= r < self.rows && 0 <= c < self.cols
    }

    /// (r, c, ch) names an element of the grid.
    pub open spec fn in_bounds(self, r: int, c: int, ch: int) -> bool {
        self.in_grid(r, c) && 0 <= ch < self.chans
    }

    /// Both grids have the same shape.
    pub open spec fn same_shape(self, other: GridSpec<T>) -> bool {
        self.rows == other.rows && self.cols == other.cols && self.chans == other.chans
    }
}

/// An in-bounds coordinate has a flat index inside the data, and the
/// row-major prefix computations stay in bounds as well.
pub proof fn lemma_idx_bound<T>(g: GridSpec<T>, r: int, c: int, ch: int)
    requires
        g.wf(),
        g.in_bounds(r, c, ch),
    ensures
        0 <= g.idx(r, c, ch) < g.data.len(),
        r * g.cols + c < g.rows * g.cols,
        0 <= r * g.cols <= r * g.cols + c,
        (r * g.cols + c) * g.chans + ch < g.rows * g.cols * g.chans,
        r * g.cols + c <= (r * g.cols + c) * g.chans + ch,
{
    assert((r * g.cols + c < g.rows * g.cols) && 0 <= r * g.cols && ((r * g.cols + c) * g.chans
        + ch < g.rows * g.cols * g.chans) && r * g.cols + c <= (r * g.cols + c) * g.chans + ch)
        by (nonlinear_arith)
        requires
            0 <= r < g.rows,
            0 <= c < g.cols,
            0 <= ch < g.chans,
    ;
}

/// Distinct in-bounds coordinates have distinct flat indices.
pub proof fn lemma_idx_injective<T>(g: GridSpec<T>, r1: int, c1: int, ch1: int, r2: int, c2: int, ch2: int)
    requires
        g.wf(),
        g.in_bounds(r1, c1, ch1),
        g.in_bounds(r2, c2, ch2),
        g.idx(r1, c1, ch1) == g.idx(r2, c2, ch2),
    ensures
        r1 == r2 && c1 == c2 && ch1 == ch2,
{
    assert(r1 == r2 && c1 == c2 && ch1 == ch2) by (nonlinear_arith)
        requires
            0 <= r1 < g.rows,
            0 <= c1 < g.cols,
            0 <= ch1 < g.chans,
            0 <= r2 < g.rows,
            0 <= c2 < g.cols,
            0 <= ch2 < g.chans,
            (r1 * g.cols + c1) * g.chans + ch1 == (r2 * g.cols + c2) * g.chans + ch2,
    ;
}

/// The sum of a sequence of fixed-point values, as a mathematical integer.
pub open spec fn seq_sum(s: Seq<i64>) -> int
    decreases s.len(),
{
    if s.len() == 0 {
        0
    } else {
        seq_sum(s.drop_last()) + s.last()
    }
}

/// Appending an element adds it to the sum.
pub proof fn lemma_seq_sum_push(s: Seq<i64>, x: i64)
    ensures
        seq_sum(s.push(x)) == seq_sum(s) + x,
{
    assert(s.push(x).drop_last() =~= s);
    assert(s.push(x).last() == x);
}

/// A constant sequence sums to its length times the constant.
pub proof fn lemma_seq_sum_constant(s: Seq<i64>, v: i64)
    requires
        forall|t: int| 0 <= t < s.len() ==> s[t] == v,
    ensures
        seq_sum(s) == s.len() * v,
    decreases s.len(),
{
    if s.len() == 0 {
    } else {
        lemma_seq_sum_constant(s.drop_last(), v);
        assert(seq_sum(s) == (s.len() - 1) * v + v);
        assert((s.len() - 1) * v + v == s.len() * v) by (nonlinear_arith);
    }
}

/// A dense (rows x cols x channels) array stored row-major.
#[derive(Clone, Debug)]
pub struct Array3<T> {
    /// Number of rows.
    pub rows: usize,
    /// Number of columns.
    pub cols: usize,
    /// Number of channels per pixel.
    pub channels: usize,
    /// Flattened contents: index `(r * cols + c) * channels + ch`.
    pub data: Vec<T>,
}

impl<T> View for Array3<T> {
    type V = GridSpec<T>;

    open spec fn view(&self) -> GridSpec<T> {
        GridSpec {
            rows: self.rows as int,
            cols: self.cols as int,
            chans: self.channels as int,
            data: self.data@,
        }
    }
}

impl<T: Copy> Array3<T> {
    /// An array of the given shape with every element equal to `value`.
    pub fn filled(rows: usize, cols: usize, channels: usize, value: T) -> (a: Array3<T>)
        requires
            rows * cols <= usize::MAX,
            rows * cols * channels <= usize::MAX,
        ensures
            a@.wf(),
            a@.rows == rows && a@.cols == cols && a@.chans == channels,
            forall|t: int| 0 <= t < a@.data.len() ==> a@.data[t] == value,
            forall|r: int, c: int, ch: int|
                a@.in_bounds(r, c, ch) ==> #[trigger] a@.val(r, c, ch) == value,
    {
        proof {
            assert(rows * cols * channels == (rows * cols) * channels) by (nonlinear_arith);
        }
        let n: usize = rows * cols * channels;
        let mut data: Vec<T> = Vec::new();
        let mut i: usize = 0;
        while i < n
            invariant
                i <= n,
                data@.len() == i,
                forall|t: int| 0 <= t < i ==> data@[t] == value,
            decreases n - i,
        {
            data.push(value);
            i = i + 1;
        }
        let a = Array3 { rows, cols, channels, data };
        proof {
            assert forall|r: int, c: int, ch: int| a@.in_bounds(r, c, ch) implies #[trigger] a@.val(
                r,
                c,
                ch,
            ) == value by {
                lemma_idx_bound(a@, r, c, ch);
            }
        }
        a
    }

    /// Wrap flat row-major data in an array of the given shape.
    pub fn from_data(rows: usize, cols: usize, channels: usize, data: Vec<T>) -> (a: Array3<T>)
        requires
            data@.len() == rows * cols * channels,
        ensures
            a@.wf(),
            a@.rows == rows && a@.cols == cols && a@.chans == channels,
            a@.data == data@,
    {
        Array3 { rows, cols, channels, data }
    }

    /// Read the element at (r, c, ch).
    pub fn elem(&self, r: usize, c: usize, ch: usize) -> (v: T)
        requires
            self@.wf(),
            self@.in_bounds(r as int, c as int, ch as int),
        ensures
            v == self@.val(r as int, c as int, ch as int),
    {
        let _len: usize = self.data.len();
        proof {
            lemma_idx_bound(self@, r as int, c as int, ch as int);
        }
        self.data[(r * self.cols + c) * self.channels + ch]
    }

    /// Overwrite the element at (r, c, ch).
    pub fn set_elem(&mut self, r: usize, c: usize, ch: usize, v: T)
        requires
            old(self)@.wf(),
            old(self)@.in_bounds(r as int, c as int, ch as int),
        ensures
            final(self)@.wf(),
            final(self)@.same_shape(old(self)@),
            final(self)@.data == old(self)@.data.update(
                old(self)@.idx(r as int, c as int, ch as int),
                v,
            ),
            final(self)@.val(r as int, c as int, ch as int) == v,
            forall|r2: int, c2: int, ch2: int|
                old(self)@.in_bounds(r2, c2, ch2) && !(r2 == r && c2 == c && ch2 == ch)
                    ==> #[trigger] final(self)@.val(r2, c2, ch2) == old(self)@.val(r2, c2, ch2),
    {
        let _len: usize = self.data.len();
        proof {
            lemma_idx_bound(self@, r as int, c as int, ch as int);
        }
        let ghost pre = self@;
        let i: usize = (r * self.cols + c) * self.channels + ch;
        self.data.set(i, v);
        proof {
            assert forall|r2: int, c2: int, ch2: int|
                pre.in_bounds(r2, c2, ch2) && !(r2 == r && c2 == c && ch2 == ch)
                    implies #[trigger] self@.val(r2, c2, ch2) == pre.val(r2, c2, ch2) by {
                lemma_idx_bound(pre, r2, c2, ch2);
                if pre.idx(r2, c2, ch2) == pre.idx(r as int, c as int, ch as int) {
                    lemma_idx_injective(
                        pre,
                        r2,
                        c2,
                        ch2,
                        r as int,
                        c as int,
                        ch as int,
                    );
                }
            }
        }
    }
}

impl Array3<i64> {
    /// Shape and contents coincide with those of `other`.
    pub fn same_as(&self, other: &Array3<i64>) -> (r: bool)
        ensures
            r <==> (self@.same_shape(other@) && self@.data =~= other@.data),
    {
        if self.rows != other.rows || self.cols != other.cols || self.channels != other.channels {
            return false;
        }
        if self.data.len() != other.data.len() {
            return false;
        }
        let n: usize = self.data.len();
        let mut i: usize = 0;
        while i < n
            invariant
                i <= n,
                n == self.data.len(),
                n == other.data.len(),
                forall|t: int| 0 <= t < i ==> self@.data[t] == other@.data[t],
            decreases n - i,
        {
            if self.data[i] != other.data[i] {
                return false;
            }
            i = i + 1;
        }
        true
    }
}

impl Array3<bool> {
    /// Shape and contents coincide with those of `other`.
    pub fn same_mask(&self, other: &Array3<bool>) -> (r: bool)
        ensures
            r <==> (self@.same_shape(other@) && self@.data =~= other@.data),
    {
        if self.rows != other.rows || self.cols != other.cols || self.channels != other.channels {
            return false;
        }
        if self.data.len() != other.data.len() {
            return false;
        }
        let n: usize = self.data.len();
        let mut i: usize = 0;
        while i < n
            invariant
                i <= n,
                n == self.data.len(),
                n == other.data.len(),
                forall|t: int| 0 <= t < i ==> self@.data[t] == other@.data[t],
            decreases n - i,
        {
            if self.data[i] != other.data[i] {
                return false;
            }
            i = i + 1;
        }
        true
    }
}

} // verus!
