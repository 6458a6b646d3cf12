//! The Sobel operator: horizontal and vertical derivative convolutions,
//! combined into a gradient magnitude (clamped at the unit bound) and a
//! gradient direction. The single-channel Sobel kernels are broadcast by the
//! convolution engine to every channel of the input.

use vstd::prelude::*;
use crate::array3::{Array3, GridSpec};
use crate::conv::{conv_pixel, is_conv_of};
use crate::error::Error;
use crate::fx::{
    atan2_s, fx_atan2, fx_mul, fx_mul_s, fx_sqrt, isqrt_s, lemma_fx_mul_sq_nonneg, sat_add,
    sat_add_s, FX_ONE, PI_FX,
};
use crate::kernels::{sobel_kernel_s, Orientation, SobelFilter};
use crate::padding::Padding;

verus! {

/// The horizontal derivative at (i, j, ch): the input convolved with the
/// horizontal Sobel kernel under the default (no padding) strategy.
pub open spec fn sobel_h_val(inp: GridSpec<i64>, i: int, j: int, ch: int) -> int {
    conv_pixel(inp, sobel_kernel_s(Orientation::Horizontal), Padding::NoPadding, i, j, ch)
}

/// The vertical derivative at (i, j, ch).
pub open spec fn sobel_v_val(inp: GridSpec<i64>, i: int, j: int, ch: int) -> int {
    conv_pixel(inp, sobel_kernel_s(Orientation::Vertical), Padding::NoPadding, i, j, ch)
}

/// The gradient magnitude at (i, j, ch): the fixed-point square root of the
/// saturating sum of squared derivatives, clamped to at most `FX_ONE`.
pub open spec fn sobel_mag_val(inp: GridSpec<i64>, i: int, j: int, ch: int) -> int {
    let h = sobel_h_val(inp, i, j, ch);
    let v = sobel_v_val(inp, i, j, ch);
    let m = isqrt_s(sat_add_s(fx_mul_s(h, h), fx_mul_s(v, v)) * FX_ONE);
    if m > FX_ONE as int {
        FX_ONE as int
    } else {
        m
    }
}

/// The gradient direction at (i, j, ch), in fixed-point radians within
/// `(-PI_FX, PI_FX]`.
pub open spec fn sobel_rot_val(inp: GridSpec<i64>, i: int, j: int, ch: int) -> int {
    atan2_s(sobel_v_val(inp, i, j, ch), sobel_h_val(inp, i, j, ch))
}

/// `mag` holds the Sobel gradient magnitudes of `inp`.
pub open spec fn is_sobel_mag_of(mag: GridSpec<i64>, inp: GridSpec<i64>) -> bool {
    &&& mag.wf()
    &&& mag.rows == inp.rows && mag.cols == inp.cols && mag.chans == inp.chans
    &&& forall|i: int, j: int, ch: int|
        mag.in_bounds(i, j, ch) ==> #[trigger] mag.val(i, j, ch) as int == sobel_mag_val(
            inp,
            i,
            j,
            ch,
        )
}

/// `rot` holds the Sobel gradient directions of `inp`.
pub open spec fn is_sobel_rot_of(rot: GridSpec<i64>, inp: GridSpec<i64>) -> bool {
    &&& rot.wf()
    &&& rot.rows == inp.rows && rot.cols == inp.cols && rot.chans == inp.chans
    &&& forall|i: int, j: int, ch: int|
        rot.in_bounds(i, j, ch) ==> #[trigger] rot.val(i, j, ch) as int == sobel_rot_val(
            inp,
            i,
            j,
            ch,
        )
}

impl Array3<i64> {
    /// Both derivative images: the input convolved with the horizontal and
    /// the vertical Sobel kernel.
    fn sobel_derivs(&self) -> (res: Result<(Array3<i64>, Array3<i64>), Error>)
        requires
            self@.wf(),
            self@.rows * self@.cols <= usize::MAX,
        ensures
            res is Ok <==> self@.rows > 0 && self@.cols > 0,
            res matches Err(e) ==> e == Error::InvalidDimensions,
            res matches Ok(hv) ==> is_conv_of(
                hv.0@,
                self@,
                sobel_kernel_s(Orientation::Horizontal),
                Padding::NoPadding,
            ) && is_conv_of(
                hv.1@,
                self@,
                sobel_kernel_s(Orientation::Vertical),
                Padding::NoPadding,
            ),
    {
        let hk = match SobelFilter::build_with_params(Orientation::Horizontal) {
            Ok(k) => k,
            Err(e) => {
                proof {
                    assert(false);
                }
                return Err(e);
            },
        };
        let vk = match SobelFilter::build_with_params(Orientation::Vertical) {
            Ok(k) => k,
            Err(e) => {
                proof {
                    assert(false);
                }
                return Err(e);
            },
        };
        let h_deriv = match self.conv2d(&hk) {
            Ok(d) => d,
            Err(e) => {
                return Err(e);
            },
        };
        let v_deriv = match self.conv2d(&vk) {
            Ok(d) => d,
            Err(e) => {
                proof {
                    assert(false);
                }
                return Err(e);
            },
        };
        Ok((h_deriv, v_deriv))
    }

    /// The magnitude output of the Sobel operator: an image of only lines.
    pub fn apply_sobel(&self) -> (res: Result<Array3<i64>, Error>)
        requires
            self@.wf(),
            self@.rows * self@.cols <= usize::MAX,
        ensures
            res is Ok <==> self@.rows > 0 && self@.cols > 0,
            res matches Err(e) ==> e == Error::InvalidDimensions,
            res matches Ok(mag) ==> is_sobel_mag_of(mag@, self@),
    {
        match self.full_sobel() {
            Ok((mag, _)) => Ok(mag),
            Err(e) => Err(e),
        }
    }

    /// The magnitude and rotation outputs of the Sobel operator, for use in
    /// algorithms like the Canny edge detector. Rotation is in fixed-point
    /// radians.
    pub fn full_sobel(&self) -> (res: Result<(Array3<i64>, Array3<i64>), Error>)
        requires
            self@.wf(),
            self@.rows * self@.cols <= usize::MAX,
        ensures
            res is Ok <==> self@.rows > 0 && self@.cols > 0,
            res matches Err(e) ==> e == Error::InvalidDimensions,
            res matches Ok(mr) ==> is_sobel_mag_of(mr.0@, self@) && is_sobel_rot_of(
                mr.1@,
                self@,
            ),
    {
        let (h_deriv, v_deriv) = match self.sobel_derivs() {
            Ok(hv) => hv,
            Err(e) => {
                return Err(e);
            },
        };
        let _len: usize = self.data.len();
        let mut mag: Array3<i64> = Array3::filled(self.rows, self.cols, self.channels, 0);
        let mut rot: Array3<i64> = Array3::filled(self.rows, self.cols, self.channels, 0);
        let mut i: usize = 0;
        while i < self.rows
            invariant
                i <= self@.rows,
                self@.wf(),
                h_deriv@.wf(),
                v_deriv@.wf(),
                is_conv_of(
                    h_deriv@,
                    self@,
                    sobel_kernel_s(Orientation::Horizontal),
                    Padding::NoPadding,
                ),
                is_conv_of(
                    v_deriv@,
                    self@,
                    sobel_kernel_s(Orientation::Vertical),
                    Padding::NoPadding,
                ),
                mag@.wf() && rot@.wf(),
                mag@.rows == self@.rows && mag@.cols == self@.cols && mag@.chans == self@.chans,
                rot@.rows == self@.rows && rot@.cols == self@.cols && rot@.chans == self@.chans,
                forall|i2: int, j2: int, ch2: int|
                    mag@.in_bounds(i2, j2, ch2) && i2 < i ==> #[trigger] mag@.val(i2, j2, ch2)
                        as int == sobel_mag_val(self@, i2, j2, ch2),
                forall|i2: int, j2: int, ch2: int|
                    rot@.in_bounds(i2, j2, ch2) && i2 < i ==> #[trigger] rot@.val(i2, j2, ch2)
                        as int == sobel_rot_val(self@, i2, j2, ch2),
            decreases self@.rows - i,
        {
            let mut j: usize = 0;
            while j < self.cols
                invariant
                    i < self@.rows,
                    j <= self@.cols,
                    self@.wf(),
                    h_deriv@.wf(),
                    v_deriv@.wf(),
                    is_conv_of(
                        h_deriv@,
                        self@,
                        sobel_kernel_s(Orientation::Horizontal),
                        Padding::NoPadding,
                    ),
                    is_conv_of(
                        v_deriv@,
                        self@,
                        sobel_kernel_s(Orientation::Vertical),
                        Padding::NoPadding,
                    ),
                    mag@.wf() && rot@.wf(),
                    mag@.rows == self@.rows && mag@.cols == self@.cols && mag@.chans
                        == self@.chans,
                    rot@.rows == self@.rows && rot@.cols == self@.cols && rot@.chans
                        == self@.chans,
                    forall|i2: int, j2: int, ch2: int|
                        mag@.in_bounds(i2, j2, ch2) && (i2 < i || (i2 == i && j2 < j))
                            ==> #[trigger] mag@.val(i2, j2, ch2) as int == sobel_mag_val(
                            self@,
                            i2,
                            j2,
                            ch2,
                        ),
                    forall|i2: int, j2: int, ch2: int|
                        rot@.in_bounds(i2, j2, ch2) && (i2 < i || (i2 == i && j2 < j))
                            ==> #[trigger] rot@.val(i2, j2, ch2) as int == sobel_rot_val(
                            self@,
                            i2,
                            j2,
                            ch2,
                        ),
                decreases self@.cols - j,
            {
                let mut ch: usize = 0;
                while ch < self.channels
                    invariant
                        i < self@.rows,
                        j < self@.cols,
                        ch <= self@.chans,
                        self@.wf(),
                        h_deriv@.wf(),
                        v_deriv@.wf(),
                        is_conv_of(
                            h_deriv@,
                            self@,
                            sobel_kernel_s(Orientation::Horizontal),
                            Padding::NoPadding,
                        ),
                        is_conv_of(
                            v_deriv@,
                            self@,
                            sobel_kernel_s(Orientation::Vertical),
                            Padding::NoPadding,
                        ),
                        mag@.wf() && rot@.wf(),
                        mag@.rows == self@.rows && mag@.cols == self@.cols && mag@.chans
                            == self@.chans,
                        rot@.rows == self@.rows && rot@.cols == self@.cols && rot@.chans
                            == self@.chans,
                        forall|i2: int, j2: int, ch2: int|
                            mag@.in_bounds(i2, j2, ch2) && (i2 < i || (i2 == i && j2 < j) || (i2
                                == i && j2 == j && ch2 < ch)) ==> #[trigger] mag@.val(i2, j2, ch2)
                                as int == sobel_mag_val(self@, i2, j2, ch2),
                        forall|i2: int, j2: int, ch2: int|
                            rot@.in_bounds(i2, j2, ch2) && (i2 < i || (i2 == i && j2 < j) || (i2
                                == i && j2 == j && ch2 < ch)) ==> #[trigger] rot@.val(i2, j2, ch2)
                                as int == sobel_rot_val(self@, i2, j2, ch2),
                    decreases self@.chans - ch,
                {
                    let h: i64 = h_deriv.elem(i, j, ch);
                    let v: i64 = v_deriv.elem(i, j, ch);
                    proof {
                        lemma_fx_mul_sq_nonneg(h as int);
                        lemma_fx_mul_sq_nonneg(v as int);
                    }
                    let sq: i64 = sat_add(fx_mul(h, h), fx_mul(v, v));
                    let root: i64 = fx_sqrt(sq);
                    let m: i64 = if root > FX_ONE {
                        FX_ONE
                    } else {
                        root
                    };
                    let a: i64 = fx_atan2(v, h);
                    mag.set_elem(i, j, ch, m);
                    rot.set_elem(i, j, ch, a);
                    ch = ch + 1;
                }
                j = j + 1;
            }
            i = i + 1;
        }
        Ok((mag, rot))
    }
}

} // verus!
