//! Common convolution kernels: Sobel and Laplacian derivative filters, the
//! box linear filter, and the Gaussian blur. All weights are fixed-point
//! micro-units, so the value 1.0 is `FX_ONE`.

use vstd::prelude::*;
use vstd::arithmetic::div_mod::{
    lemma_div_is_ordered, lemma_div_multiples_vanish, lemma_fundamental_div_mod,
    lemma_fundamental_div_mod_converse,
};
use crate::array3::{lemma_seq_sum_constant, lemma_seq_sum_push, seq_sum, Array3, GridSpec};
use crate::error::Error;
use crate::fx::{expneg, expneg_s, lemma_expneg_bounds, FX_ONE};

verus! {

/// Orientation of a derivative filter.
#[derive(Copy, Clone, Debug, PartialEq, Eq, Structural, Hash)]
pub enum Orientation {
    /// Obtain the vertical derivatives of an image.
    Vertical,
    /// Obtain the horizontal derivatives of an image.
    Horizontal,
}

/// Builder to create either a horizontal or vertical Sobel filter.
#[derive(Copy, Clone, Debug, PartialEq, Eq, Structural, Hash)]
pub struct SobelFilter;

/// The flattened 3x3 Sobel kernel for the given orientation, in micro-units:
/// vertical is [[-1, 0, 1], [-2, 0, 2], [-1, 0, 1]], horizontal its transpose.
pub open spec fn sobel_data_s(p: Orientation) -> Seq<i64> {
    match p {
        Orientation::Vertical => seq![
            -1_000_000i64,
            0i64,
            1_000_000i64,
            -2_000_000i64,
            0i64,
            2_000_000i64,
            -1_000_000i64,
            0i64,
            1_000_000i64,
        ],
        Orientation::Horizontal => seq![
            -1_000_000i64,
            -2_000_000i64,
            -1_000_000i64,
            0i64,
            0i64,
            0i64,
            1_000_000i64,
            2_000_000i64,
            1_000_000i64,
        ],
    }
}

/// The Sobel kernel as a single-channel 3x3 grid.
pub open spec fn sobel_kernel_s(p: Orientation) -> GridSpec<i64> {
    GridSpec { rows: 3, cols: 3, chans: 1, data: sobel_data_s(p) }
}

impl SobelFilter {
    /// Build the default Sobel filter, which is the vertical one.
    pub fn build() -> (res: Result<Array3<i64>, Error>)
        ensures
            res matches Ok(k) && k@ == sobel_kernel_s(Orientation::Vertical),
    {
        Self::build_with_params(Orientation::Vertical)
    }

    /// Build the 3x3 single-channel Sobel filter of the given orientation.
    /// Construction always succeeds: the required constant 2 is representable.
    pub fn build_with_params(p: Orientation) -> (res: Result<Array3<i64>, Error>)
        ensures
            res matches Ok(k) && k@ == sobel_kernel_s(p),
    {
        let mut data: Vec<i64> = Vec::new();
        match p {
            Orientation::Vertical => {
                data.push(-1_000_000);
                data.push(0);
                data.push(1_000_000);
                data.push(-2_000_000);
                data.push(0);
                data.push(2_000_000);
                data.push(-1_000_000);
                data.push(0);
                data.push(1_000_000);
            },
            Orientation::Horizontal => {
                data.push(-1_000_000);
                data.push(-2_000_000);
                data.push(-1_000_000);
                data.push(0);
                data.push(0);
                data.push(0);
                data.push(1_000_000);
                data.push(2_000_000);
                data.push(1_000_000);
            },
        }
        proof {
            assert(data@ =~= sobel_data_s(p));
        }
        let k = Array3::from_data(3, 3, 1, data);
        proof {
            assert(k@ =~= sobel_kernel_s(p));
        }
        Ok(k)
    }
}

/// Create a Laplacian filter: the second spatial derivative of an image.
#[derive(Copy, Clone, Debug, PartialEq, Eq, Structural, Hash)]
pub struct LaplaceFilter;

/// Specifies the type of Laplacian filter.
#[derive(Copy, Clone, Debug, PartialEq, Eq, Structural, Hash)]
pub enum LaplaceType {
    /// The von Neumann neighbourhood filter with centre weight 4.
    Standard,
    /// The Moore neighbourhood filter with centre weight 8, which also
    /// carries derivatives for diagonal lines.
    Diagonal,
}

/// The flattened 3x3 Laplacian kernel of the given type, in micro-units:
/// standard is [[0, -1, 0], [-1, 4, -1], [0, -1, 0]], diagonal is
/// [[-1, -1, -1], [-1, 8, -1], [-1, -1, -1]].
pub open spec fn laplace_data_s(p: LaplaceType) -> Seq<i64> {
    match p {
        LaplaceType::Standard => seq![
            0i64,
            -1_000_000i64,
            0i64,
            -1_000_000i64,
            4_000_000i64,
            -1_000_000i64,
            0i64,
            -1_000_000i64,
            0i64,
        ],
        LaplaceType::Diagonal => seq![
            -1_000_000i64,
            -1_000_000i64,
            -1_000_000i64,
            -1_000_000i64,
            8_000_000i64,
            -1_000_000i64,
            -1_000_000i64,
            -1_000_000i64,
            -1_000_000i64,
        ],
    }
}

/// The Laplacian kernel as a single-channel 3x3 grid.
pub open spec fn laplace_kernel_s(p: LaplaceType) -> GridSpec<i64> {
    GridSpec { rows: 3, cols: 3, chans: 1, data: laplace_data_s(p) }
}

impl LaplaceFilter {
    /// Build the default Laplacian filter, which is the standard one.
    pub fn build() -> (res: Result<Array3<i64>, Error>)
        ensures
            res matches Ok(k) && k@ == laplace_kernel_s(LaplaceType::Standard),
    {
        Self::build_with_params(LaplaceType::Standard)
    }

    /// Build the 3x3 single-channel Laplacian filter of the given type.
    /// Construction always succeeds: the required constants are representable.
    pub fn build_with_params(p: LaplaceType) -> (res: Result<Array3<i64>, Error>)
        ensures
            res matches Ok(k) && k@ == laplace_kernel_s(p),
    {
        let mut data: Vec<i64> = Vec::new();
        match p {
            LaplaceType::Standard => {
                data.push(0);
                data.push(-1_000_000);
                data.push(0);
                data.push(-1_000_000);
                data.push(4_000_000);
                data.push(-1_000_000);
                data.push(0);
                data.push(-1_000_000);
                data.push(0);
            },
            LaplaceType::Diagonal => {
                data.push(-1_000_000);
                data.push(-1_000_000);
                data.push(-1_000_000);
                data.push(-1_000_000);
                data.push(8_000_000);
                data.push(-1_000_000);
                data.push(-1_000_000);
                data.push(-1_000_000);
                data.push(-1_000_000);
            },
        }
        proof {
            assert(data@ =~= laplace_data_s(p));
        }
        let k = Array3::from_data(3, 3, 1, data);
        proof {
            assert(k@ =~= laplace_kernel_s(p));
        }
        Ok(k)
    }
}

/// The box linear filter: every weight `1/(rows * cols)` when normalised,
/// all ones otherwise, repeated for every requested channel.
#[derive(Copy, Clone, Debug, PartialEq, Eq, Structural, Hash)]
pub struct BoxLinearFilter;

/// The weight of every element of the box filter.
pub open spec fn box_weight_s(rows: int, cols: int, normalise: bool) -> int {
    if normalise {
        FX_ONE as int / (rows * cols)
    } else {
        FX_ONE as int
    }
}

/// The shape is acceptable to the box filter.
pub open spec fn box_shape_ok(shape: (usize, usize, usize)) -> bool {
    shape.0 >= 1 && shape.1 >= 1 && shape.2 >= 1
}

impl BoxLinearFilter {
    /// Build a normalised box filter of the given shape.
    pub fn build(shape: (usize, usize, usize)) -> (res: Result<Array3<i64>, Error>)
        requires
            box_shape_ok(shape) ==> shape.0 * shape.1 <= usize::MAX && shape.0 * shape.1 * shape.2
                <= usize::MAX,
        ensures
            res is Ok <==> box_shape_ok(shape),
            res matches Err(e) ==> e == Error::InvalidDimensions,
            res matches Ok(k) ==> {
                &&& k@.wf()
                &&& k@.rows == shape.0 && k@.cols == shape.1 && k@.chans == shape.2
                &&& forall|t: int|
                    0 <= t < k@.data.len() ==> k@.data[t] as int == box_weight_s(
                        shape.0 as int,
                        shape.1 as int,
                        true,
                    )
            },
    {
        Self::build_with_params(shape, true)
    }

    /// Build a box filter of the given shape; if `normalise` is false the
    /// kernel holds all ones, so pixel bounds may be exceeded when it is
    /// applied. A shape with any zero extent is refused.
    pub fn build_with_params(shape: (usize, usize, usize), normalise: bool) -> (res: Result<
        Array3<i64>,
        Error,
    >)
        requires
            box_shape_ok(shape) ==> shape.0 * shape.1 <= usize::MAX && shape.0 * shape.1 * shape.2
                <= usize::MAX,
        ensures
            res is Ok <==> box_shape_ok(shape),
            res matches Err(e) ==> e == Error::InvalidDimensions,
            res matches Ok(k) ==> {
                &&& k@.wf()
                &&& k@.rows == shape.0 && k@.cols == shape.1 && k@.chans == shape.2
                &&& forall|t: int|
                    0 <= t < k@.data.len() ==> k@.data[t] as int == box_weight_s(
                        shape.0 as int,
                        shape.1 as int,
                        normalise,
                    )
            },
    {
        let (rows, cols, channels) = shape;
        if rows < 1 || cols < 1 || channels < 1 {
            return Err(Error::InvalidDimensions);
        }
        let weight: i64 = if normalise {
            let rc: usize = rows * cols;
            proof {
                assert(rows * cols >= 1) by (nonlinear_arith)
                    requires
                        rows >= 1,
                        cols >= 1,
                ;
            }
            ((FX_ONE as u128) / (rc as u128)) as i64
        } else {
            FX_ONE
        };
        proof {
            assert(weight as int == box_weight_s(rows as int, cols as int, normalise));
        }
        Ok(Array3::filled(rows, cols, channels, weight))
    }
}

/// The sum of a normalised box kernel: exactly the channel count times
/// `FX_ONE`, short only of the division remainder, so it is within one
/// micro-unit per kernel cell of the channel count.
pub proof fn lemma_box_kernel_sum(k: GridSpec<i64>, rows: int, cols: int, channels: int)
    requires
        k.wf(),
        rows >= 1,
        cols >= 1,
        channels >= 1,
        k.rows == rows && k.cols == cols && k.chans == channels,
        forall|t: int|
            0 <= t < k.data.len() ==> k.data[t] as int == box_weight_s(rows, cols, true),
    ensures
        seq_sum(k.data) == channels * (FX_ONE - FX_ONE as int % (rows * cols)),
        0 <= channels * FX_ONE - seq_sum(k.data) < channels * (rows * cols),
{
    let rc = rows * cols;
    let w = FX_ONE as int / rc;
    assert(rows * cols >= 1) by (nonlinear_arith)
        requires
            rows >= 1,
            cols >= 1,
    ;
    lemma_seq_sum_constant(k.data, (w as i64));
    assert(k.data[0] as int == w ==> (w as i64) as int == w);
    assert(0 <= w <= FX_ONE as int) by {
        lemma_div_is_ordered(0, FX_ONE as int, rc);
        lemma_div_is_ordered(FX_ONE as int, FX_ONE as int, rc);
        assert(FX_ONE as int / rc <= FX_ONE as int / 1) by {
            vstd::arithmetic::div_mod::lemma_div_is_ordered_by_denominator(FX_ONE as int, 1, rc);
        }
        assert(FX_ONE as int / 1 == FX_ONE as int);
    }
    if k.data.len() == 0 {
        assert(rows * cols * channels == 0);
        assert(false) by (nonlinear_arith)
            requires
                rows >= 1,
                cols >= 1,
                channels >= 1,
                rows * cols * channels == 0,
        ;
    }
    assert(seq_sum(k.data) == k.data.len() * w);
    lemma_fundamental_div_mod(FX_ONE as int, rc);
    assert(0 <= FX_ONE as int % rc < rc);
    assert(k.data.len() == rows * cols * channels);
    assert(rows * cols * channels * w == channels * (rc * w)) by (nonlinear_arith)
        requires
            rc == rows * cols,
    ;
    assert(rc * w == FX_ONE - FX_ONE as int % rc);
    assert(channels * (rc * w) == channels * (FX_ONE - FX_ONE as int % rc));
    assert(channels * FX_ONE - channels * (FX_ONE - FX_ONE as int % rc) == channels * (FX_ONE
        as int % rc)) by (nonlinear_arith);
    assert(0 <= channels * (FX_ONE as int % rc) < channels * rc) by (nonlinear_arith)
        requires
            channels >= 1,
            0 <= FX_ONE as int % rc < rc,
    ;
}

/// Builds a Gaussian blur kernel taking the covariance as a parameter.
/// Covariance is given as two values, for the x and y axes.
#[derive(Copy, Clone, Debug, PartialEq, Eq, Structural, Hash)]
pub struct GaussianFilter;

/// Centre index of an odd kernel axis of extent `n`.
pub open spec fn gauss_centre(n: int) -> int {
    (n - 1) / 2
}

/// The exponent argument contributed by an axis offset `d` under covariance
/// `cov` (in micro-units): `d*d / (2 * cov)` scaled to micro-units.
pub open spec fn gterm(d: int, cov: int) -> int {
    (d * d * (FX_ONE as int) * (FX_ONE as int)) / (2 * cov)
}

/// The unnormalised Gaussian weight at cell (r, c) of an n x n kernel.
pub open spec fn gweight(n: int, covx: int, covy: int, r: int, c: int) -> int {
    expneg_s(gterm(r - gauss_centre(n), covy) + gterm(c - gauss_centre(n), covx))
}

/// The sum of the first `t` unnormalised weights, row-major.
pub open spec fn gwsum(n: int, covx: int, covy: int, t: nat) -> int
    decreases t,
{
    if t == 0 {
        0
    } else {
        gwsum(n, covx, covy, (t - 1) as nat) + gweight(
            n,
            covx,
            covy,
            ((t - 1) as int) / n,
            ((t - 1) as int) % n,
        )
    }
}

/// The normalised (floored) weight at cell (r, c): the weight divided by the
/// total weight, in micro-units.
pub open spec fn gbase(n: int, covx: int, covy: int, r: int, c: int) -> int {
    gweight(n, covx, covy, r, c) * (FX_ONE as int) / gwsum(n, covx, covy, (n * n) as nat)
}

/// The sum of the first `t` normalised weights, row-major.
pub open spec fn gbsum(n: int, covx: int, covy: int, t: nat) -> int
    decreases t,
{
    if t == 0 {
        0
    } else {
        gbsum(n, covx, covy, (t - 1) as nat) + gbase(
            n,
            covx,
            covy,
            ((t - 1) as int) / n,
            ((t - 1) as int) % n,
        )
    }
}

/// What flooring the normalised weights left over from a full micro-unit.
pub open spec fn gauss_rem(n: int, covx: int, covy: int) -> int {
    FX_ONE - gbsum(n, covx, covy, (n * n) as nat)
}

/// The kernel value at cell (r, c), identical on every channel: the floored
/// normalised weight, with the rounding remainder folded into the centre
/// cell so that each channel sums to exactly `FX_ONE`.
pub open spec fn gauss_val(n: int, covx: int, covy: int, r: int, c: int) -> int {
    gbase(n, covx, covy, r, c) + if r == gauss_centre(n) && c == gauss_centre(n) {
        gauss_rem(n, covx, covy)
    } else {
        0
    }
}

/// The sum of the first `t` kernel values of one channel, row-major.
pub open spec fn gvsum(n: int, covx: int, covy: int, t: nat) -> int {
    gbsum(n, covx, covy, t) + if t > n * gauss_centre(n) + gauss_centre(n) {
        gauss_rem(n, covx, covy)
    } else {
        0
    }
}

/// The exponent argument is nonnegative for a positive covariance.
pub proof fn lemma_gterm_nonneg(d: int, cov: int)
    requires
        cov > 0,
    ensures
        gterm(d, cov) >= 0,
{
    assert(d * d * (FX_ONE as int) * (FX_ONE as int) >= 0) by (nonlinear_arith);
    lemma_div_is_ordered(0, d * d * (FX_ONE as int) * (FX_ONE as int), 2 * cov);
}

/// Each unnormalised weight lies in `[0, FX_ONE]`.
pub proof fn lemma_gweight_bounds(n: int, covx: int, covy: int, r: int, c: int)
    requires
        covx > 0,
        covy > 0,
    ensures
        0 <= gweight(n, covx, covy, r, c) <= FX_ONE as int,
{
    lemma_gterm_nonneg(r - gauss_centre(n), covy);
    lemma_gterm_nonneg(c - gauss_centre(n), covx);
    lemma_expneg_bounds(gterm(r - gauss_centre(n), covy) + gterm(c - gauss_centre(n), covx));
}

/// The centre weight is exactly `FX_ONE`.
pub proof fn lemma_gweight_centre(n: int, covx: int, covy: int)
    requires
        covx > 0,
        covy > 0,
    ensures
        gweight(n, covx, covy, gauss_centre(n), gauss_centre(n)) == FX_ONE as int,
{
    assert(gterm(0, covy) == 0) by {
        assert(0 * 0 * (FX_ONE as int) * (FX_ONE as int) == 0) by (nonlinear_arith);
        assert(0int / (2 * covy) == 0) by {
            vstd::arithmetic::div_mod::lemma_div_of0(2 * covy);
        }
    }
    assert(gterm(0, covx) == 0) by {
        assert(0 * 0 * (FX_ONE as int) * (FX_ONE as int) == 0) by (nonlinear_arith);
        assert(0int / (2 * covx) == 0) by {
            vstd::arithmetic::div_mod::lemma_div_of0(2 * covx);
        }
    }
    lemma_expneg_bounds(0);
}

/// Partial weight sums are nonnegative and nondecreasing, and once the
/// centre cell is in, at least `FX_ONE`.
pub proof fn lemma_gwsum_bounds(n: int, covx: int, covy: int, t: nat)
    requires
        n >= 1,
        covx > 0,
        covy > 0,
        t <= n * n,
    ensures
        0 <= gwsum(n, covx, covy, t),
        t > n * gauss_centre(n) + gauss_centre(n) ==> gwsum(n, covx, covy, t) >= FX_ONE as int,
    decreases t,
{
    if t > 0 {
        let prev = (t - 1) as nat;
        lemma_gwsum_bounds(n, covx, covy, prev);
        let r = ((t - 1) as int) / n;
        let c = ((t - 1) as int) % n;
        lemma_gweight_bounds(n, covx, covy, r, c);
        let m = gauss_centre(n);
        if t - 1 == n * m + m {
            assert(0 <= m < n) by (nonlinear_arith)
                requires
                    n >= 1,
                    m == (n - 1) / 2,
            ;
            assert(n * m + m == m * n + m) by (nonlinear_arith);
            lemma_fundamental_div_mod_converse(n * m + m, n, m, m);
            assert(r == m && c == m);
            lemma_gweight_centre(n, covx, covy);
        }
    }
}

/// Every single weight is at most the total weight.
pub proof fn lemma_gweight_le_total(n: int, covx: int, covy: int, t: nat)
    requires
        n >= 1,
        covx > 0,
        covy > 0,
        t < n * n,
    ensures
        gweight(n, covx, covy, (t as int) / n, (t as int) % n) <= gwsum(
            n,
            covx,
            covy,
            (n * n) as nat,
        ),
    decreases (n * n - t),
{
    lemma_gwsum_bounds(n, covx, covy, t);
    lemma_gwsum_mono(n, covx, covy, (t + 1) as nat, (n * n) as nat);
    assert(gwsum(n, covx, covy, (t + 1) as nat) == gwsum(n, covx, covy, t) + gweight(
        n,
        covx,
        covy,
        (t as int) / n,
        (t as int) % n,
    ));
}

/// Partial weight sums are monotone in the cut point.
pub proof fn lemma_gwsum_mono(n: int, covx: int, covy: int, t1: nat, t2: nat)
    requires
        n >= 1,
        covx > 0,
        covy > 0,
        t1 <= t2,
        t2 <= n * n,
    ensures
        gwsum(n, covx, covy, t1) <= gwsum(n, covx, covy, t2),
    decreases t2 - t1,
{
    if t1 < t2 {
        lemma_gwsum_mono(n, covx, covy, t1, (t2 - 1) as nat);
        lemma_gweight_bounds(n, covx, covy, ((t2 - 1) as int) / n, ((t2 - 1) as int) % n);
    }
}

/// Flooring distributes subadditively over a sum of nonnegative numerators.
pub proof fn lemma_div_superadd(a: int, b: int, d: int)
    requires
        a >= 0,
        b >= 0,
        d > 0,
    ensures
        a / d + b / d <= (a + b) / d,
{
    lemma_fundamental_div_mod(a, d);
    lemma_fundamental_div_mod(b, d);
    let qa = a / d;
    let qb = b / d;
    let ra = a % d;
    let rb = b % d;
    if ra + rb < d {
        assert(a + b == d * (qa + qb) + (ra + rb)) by (nonlinear_arith)
            requires
                a == d * qa + ra,
                b == d * qb + rb,
        ;
        lemma_fundamental_div_mod_converse(a + b, d, qa + qb, ra + rb);
    } else {
        assert(a + b == d * (qa + qb + 1) + (ra + rb - d)) by (nonlinear_arith)
            requires
                a == d * qa + ra,
                b == d * qb + rb,
        ;
        lemma_fundamental_div_mod_converse(a + b, d, qa + qb + 1, ra + rb - d);
    }
}

/// Each normalised weight lies in `[0, FX_ONE]`.
pub proof fn lemma_gbase_bounds(n: int, covx: int, covy: int, t: nat)
    requires
        n >= 1,
        covx > 0,
        covy > 0,
        t < n * n,
    ensures
        0 <= gbase(n, covx, covy, (t as int) / n, (t as int) % n) <= FX_ONE as int,
{
    let r = (t as int) / n;
    let c = (t as int) % n;
    let w = gweight(n, covx, covy, r, c);
    let total = gwsum(n, covx, covy, (n * n) as nat);
    lemma_gweight_bounds(n, covx, covy, r, c);
    lemma_gweight_le_total(n, covx, covy, t);
    assert(n * gauss_centre(n) + gauss_centre(n) < n * n) by (nonlinear_arith)
        requires
            n >= 1,
            0 <= gauss_centre(n) < n,
    ;
    assert(0 <= gauss_centre(n) < n) by (nonlinear_arith)
        requires
            n >= 1,
            gauss_centre(n) == (n - 1) / 2,
    ;
    lemma_gwsum_bounds(n, covx, covy, (n * n) as nat);
    assert(total >= FX_ONE as int);
    assert(w * (FX_ONE as int) >= 0) by (nonlinear_arith)
        requires
            w >= 0,
    ;
    lemma_div_is_ordered(0, w * (FX_ONE as int), total);
    assert(w * (FX_ONE as int) <= total * (FX_ONE as int)) by (nonlinear_arith)
        requires
            w <= total,
    ;
    lemma_div_is_ordered(w * (FX_ONE as int), total * (FX_ONE as int), total);
    lemma_div_multiples_vanish(FX_ONE as int, total);
    assert(total * (FX_ONE as int) / total == FX_ONE as int);
}

/// Partial normalised sums never exceed the matching share of `FX_ONE`:
/// in particular the full normalised sum is at most `FX_ONE`.
pub proof fn lemma_gbsum_le(n: int, covx: int, covy: int, t: nat)
    requires
        n >= 1,
        covx > 0,
        covy > 0,
        t <= n * n,
    ensures
        0 <= gbsum(n, covx, covy, t),
        gbsum(n, covx, covy, t) <= gwsum(n, covx, covy, t) * (FX_ONE as int) / gwsum(
            n,
            covx,
            covy,
            (n * n) as nat,
        ),
        gbsum(n, covx, covy, t) <= FX_ONE as int,
    decreases t,
{
    let total = gwsum(n, covx, covy, (n * n) as nat);
    assert(0 <= gauss_centre(n) < n) by (nonlinear_arith)
        requires
            n >= 1,
            gauss_centre(n) == (n - 1) / 2,
    ;
    assert(n * gauss_centre(n) + gauss_centre(n) < n * n) by (nonlinear_arith)
        requires
            n >= 1,
            0 <= gauss_centre(n) < n,
    ;
    lemma_gwsum_bounds(n, covx, covy, (n * n) as nat);
    assert(total >= FX_ONE as int);
    if t == 0 {
        assert(gwsum(n, covx, covy, 0) * (FX_ONE as int) == 0) by (nonlinear_arith);
        lemma_div_is_ordered(0, 0, total);
    } else {
        let prev = (t - 1) as nat;
        lemma_gbsum_le(n, covx, covy, prev);
        let r = ((t - 1) as int) / n;
        let c = ((t - 1) as int) % n;
        let w = gweight(n, covx, covy, r, c);
        lemma_gweight_bounds(n, covx, covy, r, c);
        lemma_gbase_bounds(n, covx, covy, prev);
        lemma_gwsum_bounds(n, covx, covy, prev);
        // gbsum(t) = gbsum(prev) + w*FX/total <= gwsum(prev)*FX/total + w*FX/total
        //         <= (gwsum(prev)*FX + w*FX)/total = gwsum(t)*FX/total <= FX.
        assert(gwsum(n, covx, covy, prev) * (FX_ONE as int) >= 0) by (nonlinear_arith)
            requires
                gwsum(n, covx, covy, prev) >= 0,
        ;
        assert(w * (FX_ONE as int) >= 0) by (nonlinear_arith)
            requires
                w >= 0,
        ;
        lemma_div_superadd(gwsum(n, covx, covy, prev) * (FX_ONE as int), w * (FX_ONE as int), total);
        assert(gwsum(n, covx, covy, prev) * (FX_ONE as int) + w * (FX_ONE as int) == (gwsum(
            n,
            covx,
            covy,
            prev,
        ) + w) * (FX_ONE as int)) by (nonlinear_arith);
        assert(gwsum(n, covx, covy, t) == gwsum(n, covx, covy, prev) + w);
        lemma_gwsum_mono(n, covx, covy, t, (n * n) as nat);
        assert(gwsum(n, covx, covy, t) * (FX_ONE as int) <= total * (FX_ONE as int))
            by (nonlinear_arith)
            requires
                gwsum(n, covx, covy, t) <= total,
        ;
        lemma_div_is_ordered(
            gwsum(n, covx, covy, t) * (FX_ONE as int),
            total * (FX_ONE as int),
            total,
        );
        lemma_div_multiples_vanish(FX_ONE as int, total);
    }
}

/// The shape is acceptable to the Gaussian builder: odd, square, with at
/// least one channel.
pub open spec fn gauss_shape_ok(shape: (usize, usize, usize)) -> bool {
    shape.0 % 2 == 1 && shape.1 % 2 == 1 && shape.0 == shape.1 && shape.2 >= 1
}

/// The default covariance for an n x n Gaussian kernel, in micro-units:
/// `0.3 * ((max(n, 1) - 1) * 0.5 - 1.0) + 0.8`, which simplifies to
/// `0.15 * (max(n, 1) - 1) + 0.5`.
pub open spec fn gauss_default_cov(n: int) -> int {
    150_000 * (if n >= 1 {
        n
    } else {
        1
    } - 1) + 500_000
}

impl GaussianFilter {
    /// Build a Gaussian kernel of the given shape with the default
    /// covariance recommendation.
    pub fn build(shape: (usize, usize, usize)) -> (res: Result<Array3<i64>, Error>)
        requires
            gauss_shape_ok(shape) ==> shape.0 * shape.1 <= usize::MAX && shape.0 * shape.1
                * shape.2 <= usize::MAX,
        ensures
            !gauss_shape_ok(shape) ==> res == Err::<Array3<i64>, Error>(Error::InvalidDimensions),
            gauss_shape_ok(shape) ==> (res matches Ok(k) && is_gauss_kernel(
                k@,
                shape,
                gauss_default_cov(shape.0 as int),
                gauss_default_cov(shape.0 as int),
            )),
    {
        let rows_max: u128 = if shape.0 >= 1 {
            shape.0 as u128
        } else {
            1
        };
        let sig128: u128 = 150_000 * (rows_max - 1) + 500_000;
        let sig: i64 = if sig128 > i64::MAX as u128 {
            i64::MAX
        } else {
            sig128 as i64
        };
        proof {
            if gauss_shape_ok(shape) {
                assert(shape.0 as int * shape.0 as int <= usize::MAX as int);
                assert(shape.0 as int <= 0xFFFF_FFFFu64 as int) by (nonlinear_arith)
                    requires
                        shape.0 as int * shape.0 as int <= 0xFFFF_FFFF_FFFF_FFFFu64 as int,
                        shape.0 as int >= 0,
                ;
                assert(sig as int == gauss_default_cov(shape.0 as int));
                assert(sig >= 1);
            }
        }
        Self::build_with_params(shape, [sig, sig])
    }

    /// Build a Gaussian kernel of the given shape with the given covariance
    /// pair `[x, y]` (micro-units). Even, non-square or channel-less shapes
    /// are refused with `InvalidDimensions`; non-positive covariances with
    /// `InvalidParameter`. The weights of each channel sum to `FX_ONE`.
    pub fn build_with_params(shape: (usize, usize, usize), covar: [i64; 2]) -> (res: Result<
        Array3<i64>,
        Error,
    >)
        requires
            gauss_shape_ok(shape) ==> shape.0 * shape.1 <= usize::MAX && shape.0 * shape.1
                * shape.2 <= usize::MAX,
        ensures
            !gauss_shape_ok(shape) ==> res == Err::<Array3<i64>, Error>(Error::InvalidDimensions),
            gauss_shape_ok(shape) && !(covar[0] > 0 && covar[1] > 0) ==> res == Err::<
                Array3<i64>,
                Error,
            >(Error::InvalidParameter),
            gauss_shape_ok(shape) && covar[0] > 0 && covar[1] > 0 ==> (res matches Ok(k)
                && is_gauss_kernel(k@, shape, covar[0] as int, covar[1] as int)),
    {
        let (rows, cols, channels) = shape;
        if rows % 2 == 0 || cols % 2 == 0 || rows != cols || channels == 0 {
            return Err(Error::InvalidDimensions);
        }
        let covx: i64 = covar[0];
        let covy: i64 = covar[1];
        if covx <= 0 || covy <= 0 {
            return Err(Error::InvalidParameter);
        }
        let n: usize = rows;
        let m: usize = (n - 1) / 2;
        let nn: usize = n * n;
        let ghost cx: int = covx as int;
        let ghost cy: int = covy as int;
        let ghost ni: int = n as int;
        proof {
            assert(m as int == gauss_centre(ni));
            assert(0 <= gauss_centre(ni) < ni) by (nonlinear_arith)
                requires
                    ni >= 1,
                    gauss_centre(ni) == (ni - 1) / 2,
            ;
            assert(ni * gauss_centre(ni) + gauss_centre(ni) < ni * ni) by (nonlinear_arith)
                requires
                    ni >= 1,
                    0 <= gauss_centre(ni) < ni,
            ;
        }
        // Pass 1: the unnormalised weights and their total.
        let mut w: Vec<i64> = Vec::new();
        let mut wsum: u128 = 0;
        let mut r: usize = 0;
        while r < n
            invariant
                r <= n,
                n >= 1,
                nn == n * n,
                m as int == gauss_centre(ni),
                ni == n as int,
                cx == covx as int,
                cy == covy as int,
                covx > 0,
                covy > 0,
                0 <= m < n,
                w@.len() == r * n,
                w@.len() <= nn,
                forall|t: int|
                    0 <= t < w@.len() ==> #[trigger] w@[t] as int == gweight(
                        ni,
                        cx,
                        cy,
                        t / ni,
                        t % ni,
                    ),
                wsum as int == gwsum(ni, cx, cy, w@.len() as nat),
                wsum as int <= w@.len() * 1_000_000,
            decreases n - r,
        {
            let mut c: usize = 0;
            proof {
                assert(r * ni + 0 == r * ni);
            }
            while c < n
                invariant
                    r < n,
                    c <= n,
                    n >= 1,
                    nn == n * n,
                    m as int == gauss_centre(ni),
                    ni == n as int,
                    cx == covx as int,
                    cy == covy as int,
                    covx > 0,
                    covy > 0,
                    0 <= m < n,
                    w@.len() == r * n + c,
                    forall|t: int|
                        0 <= t < w@.len() ==> #[trigger] w@[t] as int == gweight(
                            ni,
                            cx,
                            cy,
                            t / ni,
                            t % ni,
                        ),
                    wsum as int == gwsum(ni, cx, cy, w@.len() as nat),
                    wsum as int <= w@.len() * 1_000_000,
                decreases n - c,
            {
                proof {
                    assert(r * ni + c < ni * ni) by (nonlinear_arith)
                        requires
                            0 <= r < ni,
                            0 <= c < ni,
                    ;
                    assert(nn as int == ni * ni) by (nonlinear_arith)
                        requires
                            nn == n * n,
                            ni == n as int,
                    ;
                }
                let dr: u128 = if r >= m {
                    (r - m) as u128
                } else {
                    (m - r) as u128
                };
                let dc: u128 = if c >= m {
                    (c - m) as u128
                } else {
                    (m - c) as u128
                };
                proof {
                    assert(dr as int * dr as int <= ni * ni && dc as int * dc as int <= ni * ni)
                        by (nonlinear_arith)
                        requires
                            0 <= (dr as int) && (dr as int) < ni,
                            0 <= (dc as int) && (dc as int) < ni,
                    ;
                    assert(ni * ni <= usize::MAX as int);
                    assert(dr as int * dr as int * 1_000_000 <= usize::MAX as int * 1_000_000
                        && usize::MAX as int * 1_000_000 * 1_000_000 < u128::MAX as int && dc
                        as int * dc as int * 1_000_000 <= usize::MAX as int * 1_000_000)
                        by (nonlinear_arith)
                        requires
                            0 <= dr as int * dr as int <= usize::MAX as int,
                            0 <= dc as int * dc as int <= usize::MAX as int,
                            usize::MAX as int <= 0xFFFF_FFFF_FFFF_FFFFu64 as int,
                    ;
                    assert(dr as int * dr as int * 1_000_000 * 1_000_000 <= usize::MAX as int
                        * 1_000_000 * 1_000_000 && dc as int * dc as int * 1_000_000 * 1_000_000
                        <= usize::MAX as int * 1_000_000 * 1_000_000) by (nonlinear_arith)
                        requires
                            dr as int * dr as int * 1_000_000 <= usize::MAX as int * 1_000_000,
                            dc as int * dc as int * 1_000_000 <= usize::MAX as int * 1_000_000,
                    ;
                }
                let xr: u128 = dr * dr * 1_000_000 * 1_000_000 / (2 * (covy as u128));
                let xc: u128 = dc * dc * 1_000_000 * 1_000_000 / (2 * (covx as u128));
                proof {
                    let dri: int = r - m as int;
                    let dci: int = c - m as int;
                    assert(dri * dri == dr as int * dr as int && dci * dci == dc as int * dc
                        as int) by (nonlinear_arith)
                        requires
                            dri == r - m as int,
                            dci == c - m as int,
                            dr as int == if r >= m {
                                r - m as int
                            } else {
                                m as int - r
                            },
                            dc as int == if c >= m {
                                c - m as int
                            } else {
                                m as int - c
                            },
                    ;
                    assert(xr as int == gterm(dri, cy) && xc as int == gterm(dci, cx));
                    lemma_gterm_nonneg(dri, cy);
                    lemma_gterm_nonneg(dci, cx);
                }
                let x: u128 = xr + xc;
                let wv: i64 = if x >= 256_000_000 {
                    proof {
                        crate::fx::lemma_expneg_large(x as int);
                    }
                    0
                } else {
                    expneg(x as i64)
                };
                proof {
                    assert(wv as int == gweight(ni, cx, cy, r as int, c as int));
                    lemma_gweight_bounds(ni, cx, cy, r as int, c as int);
                    lemma_fundamental_div_mod_converse(r * ni + c, ni, r as int, c as int);
                    assert(wsum as int + wv as int <= (w@.len() + 1) * 1_000_000)
                        by (nonlinear_arith)
                        requires
                            wsum as int <= w@.len() * 1_000_000,
                            wv as int <= 1_000_000,
                    ;
                    assert(w@.len() + 1 <= ni * ni) by (nonlinear_arith)
                        requires
                            w@.len() == r * ni + c,
                            0 <= r && r < ni,
                            0 <= c && c < ni,
                    ;
                    assert((w@.len() + 1) * 1_000_000 <= u128::MAX as int) by (nonlinear_arith)
                        requires
                            w@.len() + 1 <= ni * ni,
                            ni * ni <= 0xFFFF_FFFF_FFFF_FFFFu64 as int,
                    ;
                }
                w.push(wv);
                wsum = wsum + (wv as u128);
                c = c + 1;
            }
            proof {
                assert(r * ni + ni == (r + 1) * ni) by (nonlinear_arith);
                assert((r + 1) * ni <= ni * ni) by (nonlinear_arith)
                    requires
                        r < ni,
                ;
            }
            r = r + 1;
        }
        proof {
            assert(w@.len() == nn as int) by (nonlinear_arith)
                requires
                    w@.len() == n as int * n as int,
                    nn as int == ni * ni,
                    ni == n as int,
            ;
            lemma_gwsum_bounds(ni, cx, cy, (ni * ni) as nat);
        }
        let total: u128 = wsum;
        // Pass 2: normalised weights and their sum.
        let mut base: Vec<i64> = Vec::new();
        let mut bsum: i64 = 0;
        let mut t: usize = 0;
        while t < nn
            invariant
                t <= nn,
                n >= 1,
                nn == n * n,
                ni == n as int,
                nn as int == ni * ni,
                cx == covx as int,
                cy == covy as int,
                covx > 0,
                covy > 0,
                w@.len() == nn,
                forall|t2: int|
                    0 <= t2 < w@.len() ==> #[trigger] w@[t2] as int == gweight(
                        ni,
                        cx,
                        cy,
                        t2 / ni,
                        t2 % ni,
                    ),
                total as int == gwsum(ni, cx, cy, (ni * ni) as nat),
                total >= 1_000_000,
                base@.len() == t,
                forall|t2: int|
                    0 <= t2 < base@.len() ==> #[trigger] base@[t2] as int == gbase(
                        ni,
                        cx,
                        cy,
                        t2 / ni,
                        t2 % ni,
                    ),
                bsum as int == gbsum(ni, cx, cy, t as nat),
                0 <= bsum <= 1_000_000,
            decreases nn - t,
        {
            let wt: i64 = w[t];
            proof {
                lemma_gweight_bounds(ni, cx, cy, (t as int) / ni, (t as int) % ni);
            }
            let bv: i64 = (((wt as u128) * 1_000_000u128) / total) as i64;
            proof {
                lemma_gbase_bounds(ni, cx, cy, t as nat);
                assert(bv as int == gbase(ni, cx, cy, (t as int) / ni, (t as int) % ni));
                lemma_gbsum_le(ni, cx, cy, (t + 1) as nat);
            }
            base.push(bv);
            bsum = bsum + bv;
            t = t + 1;
        }
        let rem: i64 = FX_ONE - bsum;
        // Pass 3: the kernel data, the remainder folded into the centre.
        let ghost gc: int = ni * gauss_centre(ni) + gauss_centre(ni);
        proof {
            assert(gc >= 0) by (nonlinear_arith)
                requires
                    gc == ni * gauss_centre(ni) + gauss_centre(ni),
                    ni >= 1,
                    0 <= gauss_centre(ni),
            ;
            assert(gvsum(ni, cx, cy, 0) == 0);
        }
        let mut data: Vec<i64> = Vec::new();
        proof {
            assert(seq_sum(data@) == 0);
            assert((0int * ni) as nat == 0nat);
            assert(channels * gvsum(ni, cx, cy, (0int * ni) as nat) == 0) by (nonlinear_arith)
                requires
                    gvsum(ni, cx, cy, (0int * ni) as nat) == 0,
            ;
        }
        let mut r2: usize = 0;
        while r2 < n
            invariant
                r2 <= n,
                n >= 1,
                nn == n * n,
                ni == n as int,
                nn as int == ni * ni,
                m as int == gauss_centre(ni),
                0 <= m < n,
                gc == ni * gauss_centre(ni) + gauss_centre(ni),
                cx == covx as int,
                cy == covy as int,
                covx > 0,
                covy > 0,
                channels >= 1,
                nn * channels <= usize::MAX,
                base@.len() == nn,
                forall|t2: int|
                    0 <= t2 < base@.len() ==> #[trigger] base@[t2] as int == gbase(
                        ni,
                        cx,
                        cy,
                        t2 / ni,
                        t2 % ni,
                    ),
                rem as int == gauss_rem(ni, cx, cy),
                0 <= rem <= 1_000_000,
                data@.len() == r2 * n * channels,
                seq_sum(data@) == channels * gvsum(ni, cx, cy, (r2 * ni) as nat),
                forall|i: int, j: int, ch: int|
                    0 <= i < r2 && 0 <= j < ni && 0 <= ch < channels ==> #[trigger] data@[(i * ni
                        + j) * channels + ch] as int == gauss_val(ni, cx, cy, i, j),
            decreases n - r2,
        {
            let mut c2: usize = 0;
            while c2 < n
                invariant
                    r2 < n,
                    c2 <= n,
                    n >= 1,
                    nn == n * n,
                    ni == n as int,
                    nn as int == ni * ni,
                    m as int == gauss_centre(ni),
                    0 <= m < n,
                    gc == ni * gauss_centre(ni) + gauss_centre(ni),
                    cx == covx as int,
                    cy == covy as int,
                    covx > 0,
                    covy > 0,
                    channels >= 1,
                    nn * channels <= usize::MAX,
                    base@.len() == nn,
                    forall|t2: int|
                        0 <= t2 < base@.len() ==> #[trigger] base@[t2] as int == gbase(
                            ni,
                            cx,
                            cy,
                            t2 / ni,
                            t2 % ni,
                        ),
                    rem as int == gauss_rem(ni, cx, cy),
                    0 <= rem <= 1_000_000,
                    data@.len() == (r2 * n + c2) * channels,
                    seq_sum(data@) == channels * gvsum(ni, cx, cy, (r2 * ni + c2) as nat),
                    forall|i: int, j: int, ch: int|
                        0 <= i < ni && 0 <= j < ni && 0 <= ch < channels && (i < r2 || (i == r2 && j
                            < c2)) ==> #[trigger] data@[(i * ni + j) * channels + ch] as int
                            == gauss_val(ni, cx, cy, i, j),
                decreases n - c2,
            {
                proof {
                    assert(r2 * ni + c2 < ni * ni) by (nonlinear_arith)
                        requires
                            0 <= r2 < ni,
                            0 <= c2 < ni,
                    ;
                    assert((r2 * ni + c2) * channels + channels <= ni * ni * channels)
                        by (nonlinear_arith)
                        requires
                            0 <= r2 * ni + c2 < ni * ni,
                            channels >= 1,
                    ;
                    assert(ni * ni * channels == nn * channels) by (nonlinear_arith)
                        requires
                            nn as int == ni * ni,
                    ;
                    lemma_fundamental_div_mod_converse(r2 * ni + c2, ni, r2 as int, c2 as int);
                }
                let t3: usize = r2 * n + c2;
                let bv: i64 = base[t3];
                proof {
                    lemma_gbase_bounds(ni, cx, cy, t3 as nat);
                }
                let v: i64 = if r2 == m && c2 == m {
                    bv + rem
                } else {
                    bv
                };
                proof {
                    assert(v as int == gauss_val(ni, cx, cy, r2 as int, c2 as int));
                    if r2 == m && c2 == m {
                        assert(m as int * ni + m as int == ni * gauss_centre(ni) + gauss_centre(
                            ni,
                        )) by (nonlinear_arith)
                            requires
                                m as int == gauss_centre(ni),
                        ;
                        assert(t3 as int == gc);
                    } else {
                        assert(t3 as int != gc) by {
                            if t3 as int == gc {
                                lemma_fundamental_div_mod_converse(
                                    gc,
                                    ni,
                                    gauss_centre(ni),
                                    gauss_centre(ni),
                                );
                            }
                        }
                    }
                }
                let ghost pre_len: int = data@.len() as int;
                let ghost pre_data: Seq<i64> = data@;
                let mut ch: usize = 0;
                while ch < channels
                    invariant
                        ch <= channels,
                        data@.len() == pre_len + ch,
                        pre_len == (r2 * ni + c2) * channels,
                        pre_len >= 0,
                        seq_sum(pre_data) == channels * gvsum(ni, cx, cy, (r2 * ni + c2) as nat),
                        seq_sum(data@) == seq_sum(pre_data) + ch * v,
                        forall|t2: int| 0 <= t2 < pre_len ==> data@[t2] == pre_data[t2],
                        forall|t2: int| pre_len <= t2 < data@.len() ==> data@[t2] == v,
                    decreases channels - ch,
                {
                    proof {
                        lemma_seq_sum_push(data@, v);
                        assert(ch * v + v == (ch + 1) * v) by (nonlinear_arith);
                    }
                    data.push(v);
                    ch = ch + 1;
                }
                proof {
                    // One full cell appended: account for it in the channel sum.
                    let tcell: nat = (r2 * ni + c2) as nat;
                    assert(gbsum(ni, cx, cy, (tcell + 1) as nat) == gbsum(ni, cx, cy, tcell)
                        + gbase(ni, cx, cy, r2 as int, c2 as int));
                    assert(gvsum(ni, cx, cy, (tcell + 1) as nat) == gvsum(ni, cx, cy, tcell)
                        + v);
                    assert(channels * gvsum(ni, cx, cy, tcell) + channels * v == channels * (gvsum(
                        ni,
                        cx,
                        cy,
                        tcell,
                    ) + v)) by (nonlinear_arith);
                    assert((r2 * ni + c2) * channels + channels == (r2 * ni + c2 + 1) * channels)
                        by (nonlinear_arith);
                    assert forall|i: int, j: int, ch2: int|
                        0 <= i < ni && 0 <= j < ni && 0 <= ch2 < channels && (i < r2 || (i == r2
                            && j < c2 + 1)) implies #[trigger] data@[(i * ni + j) * channels + ch2]
                        as int == gauss_val(ni, cx, cy, i, j) by {
                        if i == r2 && j == c2 {
                            assert((i * ni + j) * channels + ch2 == pre_len + ch2);
                            assert(data@[pre_len + ch2] == v);
                        } else {
                            assert(i * ni + j < r2 * ni + c2) by (nonlinear_arith)
                                requires
                                    0 <= i,
                                    0 <= j < ni,
                                    0 <= c2 < ni,
                                    i < r2 || (i == r2 && j < c2),
                            ;
                            assert(0 <= (i * ni + j) * channels + ch2 < pre_len)
                                by (nonlinear_arith)
                                requires
                                    0 <= i * ni + j < r2 * ni + c2,
                                    pre_len == (r2 * ni + c2) * channels,
                                    0 <= ch2 < channels,
                            ;
                            assert(data@[(i * ni + j) * channels + ch2] == pre_data[(i * ni + j)
                                * channels + ch2]);
                        }
                    }
                }
                c2 = c2 + 1;
            }
            proof {
                assert(r2 * ni + ni == (r2 + 1) * ni) by (nonlinear_arith);
                assert((r2 * ni + ni) * channels == (r2 + 1) * ni * channels) by (nonlinear_arith);
            }
            r2 = r2 + 1;
        }
        let k = Array3::from_data(rows, cols, channels, data);
        proof {
            assert(k@.wf());
        }
        Ok(k)
    }
}

/// `k` is the Gaussian kernel of the given shape and covariances: every
/// channel holds the same normalised weights, and each channel sums to
/// exactly `FX_ONE`.
pub open spec fn is_gauss_kernel(
    k: GridSpec<i64>,
    shape: (usize, usize, usize),
    covx: int,
    covy: int,
) -> bool {
    &&& k.wf()
    &&& k.rows == shape.0 && k.cols == shape.1 && k.chans == shape.2
    &&& forall|r: int, c: int, ch: int|
        k.in_bounds(r, c, ch) ==> #[trigger] k.val(r, c, ch) as int == gauss_val(
            k.rows,
            covx,
            covy,
            r,
            c,
        )
    &&& seq_sum(k.data) == k.chans * (FX_ONE as int)
}

} // verus!
