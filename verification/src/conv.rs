//! The 2D convolution engine. A kernel slides over the input; every output
//! pixel is the saturating fixed-point sum of kernel taps times the window
//! around it, with out-of-window coordinates resolved by a padding strategy.
//! The output always has the shape of the input.

use vstd::prelude::*;
use vstd::arithmetic::div_mod::lemma_fundamental_div_mod_converse;
use crate::array3::{Array3, GridSpec};
use crate::error::Error;
use crate::fx::{fx_mul, fx_mul_s, sat_add, sat_add_s};
use crate::padding::Padding;
use crate::util::{centre_offset, kernel_centre};

verus! {

/// The kernel channel read for image channel `ch`: a single-channel kernel is
/// broadcast to every image channel.
pub open spec fn kernel_chan(k: GridSpec<i64>, ch: int) -> int {
    if k.chans == 1 {
        0
    } else {
        ch
    }
}

/// Whether the whole kernel window centred (with the even-size convention)
/// on output pixel (i, j) lies inside the input grid.
pub open spec fn window_fits(inp: GridSpec<i64>, k: GridSpec<i64>, i: int, j: int) -> bool {
    let ro = centre_offset(k.rows);
    let co = centre_offset(k.cols);
    &&& i - ro >= 0
    &&& j - co >= 0
    &&& i + (k.rows - 1 - ro) < inp.rows
    &&& j + (k.cols - 1 - co) < inp.cols
}

/// The saturating accumulation of the first `t` kernel taps, taken in
/// row-major order, for output pixel (i, j) on channel `ch`.
pub open spec fn conv_acc(
    inp: GridSpec<i64>,
    k: GridSpec<i64>,
    pad: Padding,
    i: int,
    j: int,
    ch: int,
    t: nat,
) -> int
    decreases t,
{
    if t == 0 {
        0
    } else {
        let kr = ((t - 1) as int) / k.cols;
        let kc = ((t - 1) as int) % k.cols;
        sat_add_s(
            conv_acc(inp, k, pad, i, j, ch, (t - 1) as nat),
            fx_mul_s(
                k.val(kr, kc, kernel_chan(k, ch)) as int,
                pad.resolve_s(
                    inp,
                    i + kr - centre_offset(k.rows),
                    j + kc - centre_offset(k.cols),
                    ch,
                ) as int,
            ),
        )
    }
}

/// The accumulator always stays inside the `i64` range.
pub proof fn lemma_conv_acc_in_range(
    inp: GridSpec<i64>,
    k: GridSpec<i64>,
    pad: Padding,
    i: int,
    j: int,
    ch: int,
    t: nat,
)
    ensures
        i64::MIN <= conv_acc(inp, k, pad, i, j, ch, t) <= i64::MAX,
    decreases t,
{
    if t > 0 {
        lemma_conv_acc_in_range(inp, k, pad, i, j, ch, (t - 1) as nat);
    }
}

/// The value of output pixel (i, j) on channel `ch`. Under `NoPadding`, a
/// window that would cross the boundary makes the output reuse the centre
/// pixel's own value: the documented boundary compromise. Otherwise the
/// output is the full saturating tap sum.
pub open spec fn conv_pixel(
    inp: GridSpec<i64>,
    k: GridSpec<i64>,
    pad: Padding,
    i: int,
    j: int,
    ch: int,
) -> int {
    if !pad.will_pad_s() && !window_fits(inp, k, i, j) {
        inp.val(i, j, ch) as int
    } else {
        conv_acc(inp, k, pad, i, j, ch, (k.rows * k.cols) as nat)
    }
}

/// Under no padding, an output pixel whose kernel window would cross the
/// array boundary substitutes the centre pixel's own value: the documented
/// boundary compromise. No element outside the array is ever read; the
/// window sum is used only where the whole window fits.
pub proof fn lemma_no_padding_boundary(
    inp: GridSpec<i64>,
    k: GridSpec<i64>,
    i: int,
    j: int,
    ch: int,
)
    requires
        !window_fits(inp, k, i, j),
    ensures
        conv_pixel(inp, k, Padding::NoPadding, i, j, ch) == inp.val(i, j, ch) as int,
{
}

/// `out` is the convolution of `inp` with kernel `k` under padding `pad`:
/// it has the shape of the input and every element is the convolution sum.
pub open spec fn is_conv_of(
    out: GridSpec<i64>,
    inp: GridSpec<i64>,
    k: GridSpec<i64>,
    pad: Padding,
) -> bool {
    &&& out.wf()
    &&& out.rows == inp.rows
    &&& out.cols == inp.cols
    &&& out.chans == inp.chans
    &&& forall|i: int, j: int, ch: int|
        out.in_bounds(i, j, ch) ==> #[trigger] out.val(i, j, ch) as int == conv_pixel(
            inp,
            k,
            pad,
            i,
            j,
            ch,
        )
}

/// The convolution may be applied at all: the kernel is nonempty and either
/// single-channel (to be broadcast) or of the input's channel count.
pub open spec fn conv_compatible(inp: GridSpec<i64>, k: GridSpec<i64>) -> bool {
    k.chans == 1 || k.chans == inp.chans
}

/// Compute one output element of the convolution.
fn conv_point(
    inp: &Array3<i64>,
    k: &Array3<i64>,
    pad: &Padding,
    i: usize,
    j: usize,
    ch: usize,
) -> (v: i64)
    requires
        inp@.wf(),
        k@.wf(),
        k@.rows >= 1,
        k@.cols >= 1,
        conv_compatible(inp@, k@),
        inp@.in_bounds(i as int, j as int, ch as int),
    ensures
        v as int == conv_pixel(inp@, k@, *pad, i as int, j as int, ch as int),
{
    let (ro, co) = kernel_centre(k.rows, k.cols);
    proof {
        assert(k@.rows / 2 <= k@.rows - 1 && k@.cols / 2 <= k@.cols - 1);
    }
    let fits: bool = i as i128 >= ro as i128 && j as i128 >= co as i128 && (i as i128) + (k.rows
        as i128 - 1 - ro as i128) < inp.rows as i128 && (j as i128) + (k.cols as i128 - 1 - co
        as i128) < inp.cols as i128;
    proof {
        assert(fits == window_fits(inp@, k@, i as int, j as int));
    }
    if !pad.will_pad() && !fits {
        return inp.elem(i, j, ch);
    }
    let kch: usize = if k.channels == 1 {
        0
    } else {
        ch
    };
    let mut acc: i64 = 0;
    let mut kr: usize = 0;
    while kr < k.rows
        invariant
            kr <= k@.rows,
            inp@.wf(),
            k@.wf(),
            k@.rows >= 1,
            k@.cols >= 1,
            conv_compatible(inp@, k@),
            inp@.in_bounds(i as int, j as int, ch as int),
            ro == centre_offset(k@.rows),
            co == centre_offset(k@.cols),
            kch == kernel_chan(k@, ch as int),
            kch < k@.chans,
            acc as int == conv_acc(inp@, k@, *pad, i as int, j as int, ch as int, (kr * k@.cols) as nat),
        decreases k@.rows - kr,
    {
        let mut kc: usize = 0;
        while kc < k.cols
            invariant
                kr < k@.rows,
                kc <= k@.cols,
                inp@.wf(),
                k@.wf(),
                k@.rows >= 1,
                k@.cols >= 1,
                conv_compatible(inp@, k@),
                inp@.in_bounds(i as int, j as int, ch as int),
                ro == centre_offset(k@.rows),
                co == centre_offset(k@.cols),
                kch == kernel_chan(k@, ch as int),
                kch < k@.chans,
                acc as int == conv_acc(
                    inp@,
                    k@,
                    *pad,
                    i as int,
                    j as int,
                    ch as int,
                    (kr * k@.cols + kc) as nat,
                ),
            decreases k@.cols - kc,
        {
            proof {
                assert(0 <= kr * k@.cols + kc < k@.rows * k@.cols) by (nonlinear_arith)
                    requires
                        0 <= kr < k@.rows,
                        0 <= kc < k@.cols,
                ;
            }
            let rr: i128 = i as i128 + kr as i128 - ro as i128;
            let cc: i128 = j as i128 + kc as i128 - co as i128;
            let inb: bool = rr >= 0 && cc >= 0 && rr < inp.rows as i128 && cc < inp.cols as i128;
            let value: i64 = if inb {
                inp.elem(rr as usize, cc as usize, ch)
            } else {
                pad.fill()
            };
            proof {
                assert(value == pad.resolve_s(inp@, rr as int, cc as int, ch as int));
            }
            let kv: i64 = k.elem(kr, kc, kch);
            acc = sat_add(acc, fx_mul(kv, value));
            proof {
                let t: int = kr * k@.cols + kc;
                lemma_fundamental_div_mod_converse(t, k@.cols, kr as int, kc as int);
                assert(conv_acc(inp@, k@, *pad, i as int, j as int, ch as int, (t + 1) as nat)
                    == sat_add_s(
                    conv_acc(inp@, k@, *pad, i as int, j as int, ch as int, t as nat),
                    fx_mul_s(
                        k@.val(kr as int, kc as int, kch as int) as int,
                        pad.resolve_s(inp@, rr as int, cc as int, ch as int) as int,
                    ),
                ));
            }
            kc = kc + 1;
        }
        proof {
            assert(kr * k@.cols + k@.cols == (kr + 1) * k@.cols) by (nonlinear_arith);
        }
        kr = kr + 1;
    }
    proof {
        if pad.will_pad_s() || window_fits(inp@, k@, i as int, j as int) {
            assert(acc as int == conv_pixel(inp@, k@, *pad, i as int, j as int, ch as int));
        }
    }
    acc
}

impl Array3<i64> {
    /// Perform a convolution with the given boundary strategy, returning the
    /// resultant data. The output has exactly the shape of the input. A
    /// kernel whose channel count is neither 1 nor the input's is refused
    /// with `ChannelDimensionMismatch`; an input without rows or columns is
    /// refused with `InvalidDimensions`.
    pub fn conv2d_with_padding(&self, kernel: &Array3<i64>, strategy: &Padding) -> (res: Result<
        Array3<i64>,
        Error,
    >)
        requires
            self@.wf(),
            kernel@.wf(),
            kernel@.rows >= 1,
            kernel@.cols >= 1,
            self@.rows * self@.cols <= usize::MAX,
        ensures
            match res {
                Ok(out) => conv_compatible(self@, kernel@) && self@.rows > 0 && self@.cols > 0
                    && is_conv_of(out@, self@, kernel@, *strategy),
                Err(e) => if !conv_compatible(self@, kernel@) {
                    e == Error::ChannelDimensionMismatch
                } else {
                    (self@.rows == 0 || self@.cols == 0) && e == Error::InvalidDimensions
                },
            },
            res is Ok <==> (conv_compatible(self@, kernel@) && self@.rows > 0 && self@.cols > 0),
    {
        if kernel.channels != 1 && kernel.channels != self.channels {
            return Err(Error::ChannelDimensionMismatch);
        }
        if self.rows == 0 || self.cols == 0 {
            return Err(Error::InvalidDimensions);
        }
        let total: usize = self.data.len();
        proof {
            assert(self@.rows * self@.cols * self@.chans == total);
        }
        let mut out: Array3<i64> = Array3::filled(self.rows, self.cols, self.channels, 0);
        let mut i: usize = 0;
        while i < self.rows
            invariant
                i <= self@.rows,
                self@.wf(),
                kernel@.wf(),
                kernel@.rows >= 1,
                kernel@.cols >= 1,
                conv_compatible(self@, kernel@),
                out@.wf(),
                out@.rows == self@.rows && out@.cols == self@.cols && out@.chans == self@.chans,
                forall|i2: int, j2: int, ch2: int|
                    out@.in_bounds(i2, j2, ch2) && i2 < i ==> #[trigger] out@.val(i2, j2, ch2)
                        as int == conv_pixel(self@, kernel@, *strategy, i2, j2, ch2),
            decreases self@.rows - i,
        {
            let mut j: usize = 0;
            while j < self.cols
                invariant
                    i < self@.rows,
                    j <= self@.cols,
                    self@.wf(),
                    kernel@.wf(),
                    kernel@.rows >= 1,
                    kernel@.cols >= 1,
                    conv_compatible(self@, kernel@),
                    out@.wf(),
                    out@.rows == self@.rows && out@.cols == self@.cols && out@.chans
                        == self@.chans,
                    forall|i2: int, j2: int, ch2: int|
                        out@.in_bounds(i2, j2, ch2) && (i2 < i || (i2 == i && j2 < j))
                            ==> #[trigger] out@.val(i2, j2, ch2) as int == conv_pixel(
                            self@,
                            kernel@,
                            *strategy,
                            i2,
                            j2,
                            ch2,
                        ),
                decreases self@.cols - j,
            {
                let mut ch: usize = 0;
                while ch < self.channels
                    invariant
                        i < self@.rows,
                        j < self@.cols,
                        ch <= self@.chans,
                        self@.wf(),
                        kernel@.wf(),
                        kernel@.rows >= 1,
                        kernel@.cols >= 1,
                        conv_compatible(self@, kernel@),
                        out@.wf(),
                        out@.rows == self@.rows && out@.cols == self@.cols && out@.chans
                            == self@.chans,
                        forall|i2: int, j2: int, ch2: int|
                            out@.in_bounds(i2, j2, ch2) && (i2 < i || (i2 == i && j2 < j) || (i2
                                == i && j2 == j && ch2 < ch)) ==> #[trigger] out@.val(i2, j2, ch2)
                                as int == conv_pixel(self@, kernel@, *strategy, i2, j2, ch2),
                    decreases self@.chans - ch,
                {
                    let v: i64 = conv_point(self, kernel, strategy, i, j, ch);
                    out.set_elem(i, j, ch, v);
                    ch = ch + 1;
                }
                j = j + 1;
            }
            i = i + 1;
        }
        Ok(out)
    }

    /// Perform a convolution with the default boundary strategy, which is no
    /// padding: boundary pixels reuse their own value when the window would
    /// cross the array edge.
    pub fn conv2d(&self, kernel: &Array3<i64>) -> (res: Result<Array3<i64>, Error>)
        requires
            self@.wf(),
            kernel@.wf(),
            kernel@.rows >= 1,
            kernel@.cols >= 1,
            self@.rows * self@.cols <= usize::MAX,
        ensures
            match res {
                Ok(out) => conv_compatible(self@, kernel@) && self@.rows > 0 && self@.cols > 0
                    && is_conv_of(out@, self@, kernel@, Padding::NoPadding),
                Err(e) => if !conv_compatible(self@, kernel@) {
                    e == Error::ChannelDimensionMismatch
                } else {
                    (self@.rows == 0 || self@.cols == 0) && e == Error::InvalidDimensions
                },
            },
            res is Ok <==> (conv_compatible(self@, kernel@) && self@.rows > 0 && self@.cols > 0),
    {
        self.conv2d_with_padding(kernel, &Padding::NoPadding)
    }

    /// The convolution of `conv2d`, written back into the caller's storage.
    /// On an error the target is left unmodified.
    pub fn conv2d_inplace(&mut self, kernel: &Array3<i64>) -> (res: Result<(), Error>)
        requires
            old(self)@.wf(),
            kernel@.wf(),
            kernel@.rows >= 1,
            kernel@.cols >= 1,
            old(self)@.rows * old(self)@.cols <= usize::MAX,
        ensures
            match res {
                Ok(()) => conv_compatible(old(self)@, kernel@) && old(self)@.rows > 0 && old(
                    self,
                )@.cols > 0 && is_conv_of(final(self)@, old(self)@, kernel@, Padding::NoPadding),
                Err(e) => final(self)@ == old(self)@ && if !conv_compatible(old(self)@, kernel@) {
                    e == Error::ChannelDimensionMismatch
                } else {
                    (old(self)@.rows == 0 || old(self)@.cols == 0) && e == Error::InvalidDimensions
                },
            },
            res is Ok <==> (conv_compatible(old(self)@, kernel@) && old(self)@.rows > 0 && old(
                self,
            )@.cols > 0),
    {
        match self.conv2d(kernel) {
            Ok(out) => {
                *self = out;
                Ok(())
            },
            Err(e) => Err(e),
        }
    }

    /// The convolution of `conv2d_with_padding`, written back into the
    /// caller's storage. On an error the target is left unmodified.
    pub fn conv2d_inplace_with_padding(&mut self, kernel: &Array3<i64>, strategy: &Padding) -> (res:
        Result<(), Error>)
        requires
            old(self)@.wf(),
            kernel@.wf(),
            kernel@.rows >= 1,
            kernel@.cols >= 1,
            old(self)@.rows * old(self)@.cols <= usize::MAX,
        ensures
            match res {
                Ok(()) => conv_compatible(old(self)@, kernel@) && old(self)@.rows > 0 && old(
                    self,
                )@.cols > 0 && is_conv_of(final(self)@, old(self)@, kernel@, *strategy),
                Err(e) => final(self)@ == old(self)@ && if !conv_compatible(old(self)@, kernel@) {
                    e == Error::ChannelDimensionMismatch
                } else {
                    (old(self)@.rows == 0 || old(self)@.cols == 0) && e == Error::InvalidDimensions
                },
            },
            res is Ok <==> (conv_compatible(old(self)@, kernel@) && old(self)@.rows > 0 && old(
                self,
            )@.cols > 0),
    {
        match self.conv2d_with_padding(kernel, strategy) {
            Ok(out) => {
                *self = out;
                Ok(())
            },
            Err(e) => Err(e),
        }
    }
}

} // verus!
