//! Boundary padding strategies for convolution: no padding, padding with a
//! constant, and padding with zero. A strategy resolves a value for any
//! integer coordinate, including out-of-bounds ones.

use vstd::prelude::*;
use crate::array3::{Array3, GridSpec};

verus! {

/// A policy for resolving pixel values outside the array bounds.
#[derive(Copy, Clone, Debug, PartialEq, Eq, Structural, Hash)]
pub enum Padding {
    /// Do not pad: out-of-bounds queries have no value, and whole-array
    /// padding leaves the array unchanged.
    NoPadding,
    /// Out-of-bounds queries resolve to the given constant.
    ConstantPadding(i64),
    /// Out-of-bounds queries resolve to zero.
    ZeroPadding,
}

impl Padding {
    /// Whether the strategy produces values for out-of-bounds coordinates.
    pub open spec fn will_pad_s(self) -> bool {
        !(self is NoPadding)
    }

    /// The value used for out-of-bounds coordinates (zero when no padding
    /// applies; that case is never relied upon).
    pub open spec fn fill_s(self) -> i64 {
        match self {
            Padding::NoPadding => 0,
            Padding::ConstantPadding(v) => v,
            Padding::ZeroPadding => 0,
        }
    }

    /// The value seen at (r, c, ch) through this strategy: the element itself
    /// in bounds, the fill value outside.
    pub open spec fn resolve_s(self, g: GridSpec<i64>, r: int, c: int, ch: int) -> i64 {
        if g.in_bounds(r, c, ch) {
            g.val(r, c, ch)
        } else {
            self.fill_s()
        }
    }

    /// Whether the strategy returns a value for (r, c, ch).
    pub fn will_pad(&self) -> (b: bool)
        ensures
            b == self.will_pad_s(),
    {
        match self {
            Padding::NoPadding => false,
            _ => true,
        }
    }

    /// Resolve a single channel value at a possibly out-of-bounds coordinate.
    /// Returns `None` exactly when the strategy does not pad and the
    /// coordinate falls outside the array.
    pub fn get_value(&self, image: &Array3<i64>, r: isize, c: isize, ch: usize) -> (v: Option<i64>)
        requires
            image@.wf(),
        ensures
            image@.in_bounds(r as int, c as int, ch as int) ==> v == Some(
                image@.val(r as int, c as int, ch as int),
            ),
            !image@.in_bounds(r as int, c as int, ch as int) ==> v == if self.will_pad_s() {
                Some(self.fill_s())
            } else {
                None::<i64>
            },
    {
        let in_b: bool = r >= 0 && c >= 0 && (r as i128) < (image.rows as i128) && (c as i128)
            < (image.cols as i128) && (ch as i128) < (image.channels as i128);
        if in_b {
            Some(image.elem(r as usize, c as usize, ch))
        } else {
            match self {
                Padding::NoPadding => None,
                Padding::ConstantPadding(v) => Some(*v),
                Padding::ZeroPadding => Some(0),
            }
        }
    }

    /// Resolve a whole pixel at a possibly out-of-bounds coordinate: all its
    /// channel values in order. Returns `None` exactly when the strategy does
    /// not pad and the coordinate falls outside the grid.
    pub fn get_pixel(&self, image: &Array3<i64>, r: isize, c: isize) -> (v: Option<Vec<i64>>)
        requires
            image@.wf(),
        ensures
            match v {
                Some(px) => {
                    &&& px@.len() == image@.chans
                    &&& forall|ch: int|
                        0 <= ch < image@.chans ==> px@[ch] == self.resolve_s(
                            image@,
                            r as int,
                            c as int,
                            ch,
                        )
                    &&& image@.in_grid(r as int, c as int) || self.will_pad_s()
                },
                None => !self.will_pad_s() && !image@.in_grid(r as int, c as int),
            },
    {
        let in_g: bool = r >= 0 && c >= 0 && (r as i128) < (image.rows as i128) && (c as i128)
            < (image.cols as i128);
        if !in_g && !self.will_pad() {
            return None;
        }
        let mut px: Vec<i64> = Vec::new();
        let mut ch: usize = 0;
        while ch < image.channels
            invariant
                ch <= image.channels,
                px@.len() == ch,
                image@.wf(),
                in_g == image@.in_grid(r as int, c as int),
                forall|k: int|
                    0 <= k < ch ==> px@[k] == self.resolve_s(image@, r as int, c as int, k),
            decreases image.channels - ch,
        {
            let value: i64 = if in_g {
                image.elem(r as usize, c as usize, ch)
            } else {
                self.fill()
            };
            px.push(value);
            ch = ch + 1;
        }
        Some(px)
    }

    /// The fill value used outside the array.
    pub fn fill(&self) -> (v: i64)
        ensures
            v == self.fill_s(),
    {
        match self {
            Padding::NoPadding => 0,
            Padding::ConstantPadding(value) => *value,
            Padding::ZeroPadding => 0,
        }
    }
}

impl Array3<i64> {
    /// Pad the array symmetrically by `padding.0` rows on top and bottom and
    /// `padding.1` columns on left and right, filling the margin according to
    /// the strategy. With `NoPadding` the array is returned unchanged.
    pub fn pad(&self, padding: (usize, usize), strategy: &Padding) -> (out: Array3<i64>)
        requires
            self@.wf(),
            strategy.will_pad_s() ==> self@.rows + 2 * padding.0 <= usize::MAX && self@.cols + 2
                * padding.1 <= usize::MAX,
            strategy.will_pad_s() ==> (self@.rows + 2 * padding.0) * (self@.cols + 2 * padding.1)
                <= usize::MAX,
            strategy.will_pad_s() ==> (self@.rows + 2 * padding.0) * (self@.cols + 2 * padding.1)
                * self@.chans <= usize::MAX,
        ensures
            out@.wf(),
            !strategy.will_pad_s() ==> out@ == self@,
            strategy.will_pad_s() ==> {
                &&& out@.rows == self@.rows + 2 * padding.0
                &&& out@.cols == self@.cols + 2 * padding.1
                &&& out@.chans == self@.chans
                &&& forall|r: int, c: int, ch: int|
                    out@.in_bounds(r, c, ch) ==> #[trigger] out@.val(r, c, ch)
                        == strategy.resolve_s(
                        self@,
                        r - padding.0,
                        c - padding.1,
                        ch,
                    )
            },
    {
        if !strategy.will_pad() {
            let mut data: Vec<i64> = Vec::new();
            let n: usize = self.data.len();
            let mut i: usize = 0;
            while i < n
                invariant
                    i <= n,
                    n == self.data.len(),
                    data@.len() == i,
                    forall|t: int| 0 <= t < i ==> data@[t] == self@.data[t],
                decreases n - i,
            {
                data.push(self.data[i]);
                i = i + 1;
            }
            let out = Array3 { rows: self.rows, cols: self.cols, channels: self.channels, data };
            proof {
                assert(out@.data =~= self@.data);
                assert(out@ =~= self@);
            }
            return out;
        }
        let nrows: usize = self.rows + 2 * padding.0;
        let ncols: usize = self.cols + 2 * padding.1;
        proof {
            assert(nrows * ncols * self.channels == (nrows * ncols) * self.channels)
                by (nonlinear_arith);
        }
        let mut out: Array3<i64> = Array3::filled(nrows, ncols, self.channels, strategy.fill());
        let mut r: usize = 0;
        while r < nrows
            invariant
                r <= nrows,
                out@.wf(),
                out@.rows == nrows && out@.cols == ncols && out@.chans == self@.chans,
                self@.wf(),
                nrows == self@.rows + 2 * padding.0,
                ncols == self@.cols + 2 * padding.1,
                forall|r2: int, c2: int, ch2: int|
                    out@.in_bounds(r2, c2, ch2) && r2 < r ==> #[trigger] out@.val(r2, c2, ch2)
                        == strategy.resolve_s(self@, r2 - padding.0, c2 - padding.1, ch2),
                forall|r2: int, c2: int, ch2: int|
                    out@.in_bounds(r2, c2, ch2) && r2 >= r ==> #[trigger] out@.val(r2, c2, ch2)
                        == strategy.fill_s(),
            decreases nrows - r,
        {
            let mut c: usize = 0;
            while c < ncols
                invariant
                    r < nrows,
                    c <= ncols,
                    out@.wf(),
                    out@.rows == nrows && out@.cols == ncols && out@.chans == self@.chans,
                    self@.wf(),
                    nrows == self@.rows + 2 * padding.0,
                    ncols == self@.cols + 2 * padding.1,
                    forall|r2: int, c2: int, ch2: int|
                        out@.in_bounds(r2, c2, ch2) && (r2 < r || (r2 == r && c2 < c))
                            ==> #[trigger] out@.val(r2, c2, ch2) == strategy.resolve_s(
                            self@,
                            r2 - padding.0,
                            c2 - padding.1,
                            ch2,
                        ),
                    forall|r2: int, c2: int, ch2: int|
                        out@.in_bounds(r2, c2, ch2) && (r2 > r || (r2 == r && c2 >= c))
                            ==> #[trigger] out@.val(r2, c2, ch2) == strategy.fill_s(),
                decreases ncols - c,
            {
                let inside: bool = r >= padding.0 && r < padding.0 + self.rows && c >= padding.1
                    && c < padding.1 + self.cols;
                if inside {
                    let mut ch: usize = 0;
                    while ch < self.channels
                        invariant
                            r < nrows,
                            c < ncols,
                            ch <= self@.chans,
                            out@.wf(),
                            out@.rows == nrows && out@.cols == ncols && out@.chans == self@.chans,
                            self@.wf(),
                            nrows == self@.rows + 2 * padding.0,
                            ncols == self@.cols + 2 * padding.1,
                            padding.0 <= r < padding.0 + self@.rows,
                            padding.1 <= c < padding.1 + self@.cols,
                            forall|r2: int, c2: int, ch2: int|
                                out@.in_bounds(r2, c2, ch2) && (r2 < r || (r2 == r && c2 < c) || (
                                r2 == r && c2 == c && ch2 < ch)) ==> #[trigger] out@.val(
                                    r2,
                                    c2,
                                    ch2,
                                ) == strategy.resolve_s(
                                    self@,
                                    r2 - padding.0,
                                    c2 - padding.1,
                                    ch2,
                                ),
                            forall|r2: int, c2: int, ch2: int|
                                out@.in_bounds(r2, c2, ch2) && (r2 > r || (r2 == r && c2 > c) || (
                                r2 == r && c2 == c && ch2 >= ch)) ==> #[trigger] out@.val(
                                    r2,
                                    c2,
                                    ch2,
                                ) == strategy.fill_s(),
                        decreases self.channels - ch,
                    {
                        let v: i64 = self.elem(r - padding.0, c - padding.1, ch);
                        out.set_elem(r, c, ch, v);
                        ch = ch + 1;
                    }
                }
                c = c + 1;
            }
            r = r + 1;
        }
        out
    }
}

} // verus!
