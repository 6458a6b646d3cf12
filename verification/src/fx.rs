//! Fixed-point arithmetic over `i64` micro-units.
//!
//! A value `v` stands for the real number `v / FX_ONE`. Sums saturate at the
//! `i64` range; products are scaled back down by `FX_ONE` with truncation
//! toward zero, matching a real-number multiply up to one micro-unit.

use vstd::prelude::*;

verus! {

/// The fixed-point representation of 1.0.
pub const FX_ONE: i64 = 1_000_000;

/// The fixed-point representation of the circle constant pi.
pub const PI_FX: i64 = 3_141_593;

/// The fixed-point representation of pi / 2.
pub const HALF_PI_FX: i64 = 1_570_796;

/// The fixed-point representation of pi / 4.
pub const QUARTER_PI_FX: i64 = 785_398;

/// Clamp a mathematical integer into the `i64` range.
pub open spec fn clamp64(x: int) -> int {
    if x > i64::MAX as int {
        i64::MAX as int
    } else if x < i64::MIN as int {
        i64::MIN as int
    } else {
        x
    }
}

/// Division that rounds toward zero, for a positive divisor.
pub open spec fn tdiv(a: int, b: int) -> int {
    if a >= 0 {
        a / b
    } else {
        -((-a) / b)
    }
}

/// Saturating addition on the `i64` range.
pub open spec fn sat_add_s(a: int, b: int) -> int {
    clamp64(a + b)
}

/// Fixed-point product: scale the wide product back down by `FX_ONE`,
/// rounding toward zero, then saturate at the `i64` range.
pub open spec fn fx_mul_s(a: int, b: int) -> int {
    clamp64(tdiv(a * b, FX_ONE as int))
}

/// Saturating addition of two fixed-point values.
pub fn sat_add(a: i64, b: i64) -> (r: i64)
    ensures
        r as int == sat_add_s(a as int, b as int),
{
    let s: i128 = a as i128 + b as i128;
    if s > i64::MAX as i128 {
        i64::MAX
    } else if s < i64::MIN as i128 {
        i64::MIN
    } else {
        s as i64
    }
}

/// The absolute value of an `i64`, widened so that `i64::MIN` is in range.
pub fn abs_u128(a: i64) -> (r: u128)
    ensures
        a >= 0 ==> r == a as int,
        a < 0 ==> r == -(a as int),
{
    if a >= 0 {
        a as u128
    } else {
        (-(a as i128)) as u128
    }
}

/// Saturating fixed-point multiplication.
pub fn fx_mul(a: i64, b: i64) -> (r: i64)
    ensures
        r as int == fx_mul_s(a as int, b as int),
{
    let neg: bool = (a < 0) != (b < 0);
    let aa: u128 = abs_u128(a);
    let bb: u128 = abs_u128(b);
    proof {
        assert(aa as int * bb as int <= 0x8000_0000_0000_0000int * 0x8000_0000_0000_0000int)
            by (nonlinear_arith)
            requires
                aa <= 0x8000_0000_0000_0000u128,
                bb <= 0x8000_0000_0000_0000u128,
        ;
    }
    let p: u128 = aa * bb;
    proof {
        if neg {
            assert(a as int * b as int == -((aa * bb) as int)) by (nonlinear_arith)
                requires
                    aa == if a >= 0 { a as int } else { -(a as int) },
                    bb == if b >= 0 { b as int } else { -(b as int) },
                    (a < 0) != (b < 0),
            ;
        } else {
            assert(a as int * b as int == (aa * bb) as int) by (nonlinear_arith)
                requires
                    aa == if a >= 0 { a as int } else { -(a as int) },
                    bb == if b >= 0 { b as int } else { -(b as int) },
                    !((a < 0) != (b < 0)),
            ;
        }
    }
    let q: u128 = p / (FX_ONE as u128);
    if neg {
        if q >= 0x8000_0000_0000_0000u128 {
            i64::MIN
        } else {
            -(q as i64)
        }
    } else {
        if q > i64::MAX as u128 {
            i64::MAX
        } else {
            q as i64
        }
    }
}

/// `r` is the integer square root of `x`.
pub open spec fn is_isqrt(x: int, r: int) -> bool {
    r >= 0 && r * r <= x && (r + 1) * (r + 1) > x
}

/// The integer square root, as the unique nonnegative root of `is_isqrt`.
pub closed spec fn isqrt_s(x: int) -> int {
    choose|r: int| is_isqrt(x, r)
}

/// Any two integer square roots of the same value coincide.
pub proof fn lemma_isqrt_unique(x: int, r1: int, r2: int)
    requires
        is_isqrt(x, r1),
        is_isqrt(x, r2),
    ensures
        r1 == r2,
{
    assert(r1 == r2) by (nonlinear_arith)
        requires
            r1 >= 0 && r1 * r1 <= x && (r1 + 1) * (r1 + 1) > x,
            r2 >= 0 && r2 * r2 <= x && (r2 + 1) * (r2 + 1) > x,
    ;
}

/// A witness pins down `isqrt_s`.
pub proof fn lemma_isqrt_is(x: int, r: int)
    requires
        is_isqrt(x, r),
    ensures
        isqrt_s(x) == r,
{
    let picked: int = choose|q: int| is_isqrt(x, q);
    lemma_isqrt_unique(x, picked, r);
}

/// Integer square root by binary search.
pub fn isqrt128(x: u128) -> (r: u128)
    ensures
        is_isqrt(x as int, r as int),
{
    let mut lo: u128 = 0;
    let mut hi: u128 = 0x1_0000_0000_0000_0000u128;
    proof {
        assert(hi as int * hi as int > x as int) by (nonlinear_arith)
            requires
                hi == 0x1_0000_0000_0000_0000u128,
                x as int <= 0x1_0000_0000_0000_0000int * 0x1_0000_0000_0000_0000int - 1,
        ;
    }
    while hi - lo > 1
        invariant
            lo < hi,
            hi <= 0x1_0000_0000_0000_0000u128,
            lo * lo <= x,
            hi as int * hi as int > x as int,
        decreases hi - lo,
    {
        let mid: u128 = lo + (hi - lo) / 2;
        proof {
            assert(mid as int * mid as int <= u128::MAX as int) by (nonlinear_arith)
                requires
                    mid < 0x1_0000_0000_0000_0000u128,
            ;
        }
        if mid * mid <= x {
            lo = mid;
        } else {
            hi = mid;
        }
    }
    lo
}

/// Fixed-point square root: the result `r` satisfies `r/FX_ONE ~ sqrt(x/FX_ONE)`,
/// i.e. `r` is the integer square root of `x * FX_ONE`.
pub fn fx_sqrt(x: i64) -> (r: i64)
    requires
        x >= 0,
    ensures
        r as int == isqrt_s(x * FX_ONE),
        r >= 0,
{
    proof {
        assert(x as int * FX_ONE as int <= u128::MAX as int) by (nonlinear_arith)
            requires
                0 <= x <= i64::MAX,
        ;
    }
    let q: u128 = isqrt128((x as u128) * (FX_ONE as u128));
    proof {
        lemma_isqrt_is(x * FX_ONE, q as int);
        assert(q < 0x1_0000_0000_0000u128) by (nonlinear_arith)
            requires
                q * q <= x as int * FX_ONE as int,
                x <= i64::MAX,
                x >= 0,
        ;
    }
    q as i64
}

/// One fixed-point squaring step, on a nonnegative value.
pub open spec fn sq_step(y: int) -> int {
    (y * y) / (FX_ONE as int)
}

/// `n` squaring steps applied to `y`.
pub open spec fn sq_iter(y: int, n: nat) -> int
    decreases n,
{
    if n == 0 {
        y
    } else {
        sq_iter(sq_step(y), (n - 1) as nat)
    }
}

/// Squaring steps can also be peeled from the outside.
pub proof fn lemma_sq_iter_snoc(y: int, n: nat)
    ensures
        sq_iter(y, n + 1) == sq_step(sq_iter(y, n)),
    decreases n,
{
    if n == 0 {
        assert(sq_iter(y, 1) == sq_iter(sq_step(y), 0));
    } else {
        lemma_sq_iter_snoc(sq_step(y), (n - 1) as nat);
        assert(sq_iter(y, n + 1) == sq_iter(sq_step(y), n));
    }
}

/// A squaring step keeps a value inside `[0, FX_ONE]`.
pub proof fn lemma_sq_step_bounds(y: int)
    requires
        0 <= y <= FX_ONE as int,
    ensures
        0 <= sq_step(y) <= y,
        y == FX_ONE as int ==> sq_step(y) == FX_ONE as int,
{
    assert(0 <= (y * y) / (FX_ONE as int) <= y) by (nonlinear_arith)
        requires
            0 <= y <= 1_000_000,
    ;
    assert((1_000_000int * 1_000_000) / 1_000_000 == 1_000_000);
}

/// The exponential decay map `x |-> exp(-x)` in fixed point, approximated by
/// `(1 - x/256)^256` computed with eight fixed-point squarings.
pub open spec fn expneg_base(x: int) -> int {
    if x / 256 >= FX_ONE as int {
        0
    } else {
        FX_ONE as int - x / 256
    }
}

/// The fixed-point approximation of `exp(-(x / FX_ONE))`.
pub open spec fn expneg_s(x: int) -> int {
    sq_iter(expneg_base(x), 8)
}

/// The approximation stays inside `[0, FX_ONE]` and is exact at zero.
pub proof fn lemma_expneg_bounds(x: int)
    requires
        x >= 0,
    ensures
        0 <= expneg_s(x) <= FX_ONE as int,
        x == 0 ==> expneg_s(x) == FX_ONE as int,
{
    let b: int = expneg_base(x);
    assert(0 <= b <= FX_ONE as int);
    assert forall|n: nat|
        0 <= #[trigger] sq_iter(b, n) <= FX_ONE as int && (b == FX_ONE as int ==> sq_iter(b, n)
            == FX_ONE as int) by {
        lemma_sq_iter_in_range(b, n);
    }
}

/// Iterated squaring keeps `[0, FX_ONE]` and fixes `FX_ONE`.
pub proof fn lemma_sq_iter_in_range(y: int, n: nat)
    requires
        0 <= y <= FX_ONE as int,
    ensures
        0 <= sq_iter(y, n) <= FX_ONE as int,
        y == FX_ONE as int ==> sq_iter(y, n) == FX_ONE as int,
    decreases n,
{
    if n > 0 {
        lemma_sq_step_bounds(y);
        lemma_sq_iter_in_range(sq_step(y), (n - 1) as nat);
    }
}

/// Iterated squaring fixes zero.
pub proof fn lemma_sq_iter_zero(n: nat)
    ensures
        sq_iter(0, n) == 0,
    decreases n,
{
    if n > 0 {
        assert(sq_step(0) == 0) by {
            assert(0int * 0int == 0);
            vstd::arithmetic::div_mod::lemma_div_of0(FX_ONE as int);
        }
        lemma_sq_iter_zero((n - 1) as nat);
    }
}

/// Arguments of 256 or more (in units) decay to exactly zero.
pub proof fn lemma_expneg_large(x: int)
    requires
        x >= 256 * (FX_ONE as int),
    ensures
        expneg_s(x) == 0,
{
    assert(x / 256 >= FX_ONE as int) by {
        vstd::arithmetic::div_mod::lemma_div_is_ordered(256 * (FX_ONE as int), x, 256);
        vstd::arithmetic::div_mod::lemma_div_multiples_vanish(FX_ONE as int, 256);
    }
    assert(expneg_base(x) == 0);
    lemma_sq_iter_zero(8);
}

/// Evaluate the fixed-point approximation of `exp(-(x / FX_ONE))`.
pub fn expneg(x: i64) -> (r: i64)
    requires
        x >= 0,
    ensures
        r as int == expneg_s(x as int),
        0 <= r <= FX_ONE,
        x == 0 ==> r == FX_ONE,
{
    let q: u64 = (x as u64) / 256;
    let mut y: i64 = if q >= FX_ONE as u64 {
        0
    } else {
        FX_ONE - q as i64
    };
    proof {
        assert(q == x as int / 256);
        assert(y == expneg_base(x as int));
        lemma_expneg_bounds(x as int);
    }
    let mut i: usize = 0;
    while i < 8
        invariant
            0 <= y <= FX_ONE,
            y == sq_iter(expneg_base(x as int), i as nat),
            i <= 8,
        decreases 8 - i,
    {
        proof {
            lemma_sq_step_bounds(y as int);
            lemma_sq_iter_snoc(expneg_base(x as int), i as nat);
        }
        y = (((y as u128) * (y as u128)) / (FX_ONE as u128)) as i64;
        i = i + 1;
    }
    proof {
        lemma_sq_iter_in_range(expneg_base(x as int), 8);
    }
    y
}

/// A fixed-point value times itself never scales to a negative product.
pub proof fn lemma_fx_mul_sq_nonneg(a: int)
    ensures
        fx_mul_s(a, a) >= 0,
{
    assert(a * a >= 0) by (nonlinear_arith);
    vstd::arithmetic::div_mod::lemma_div_is_ordered(0, a * a, FX_ONE as int);
    vstd::arithmetic::div_mod::lemma_div_of0(FX_ONE as int);
}

/// The two-argument arctangent in fixed point: a piecewise-linear octant
/// approximation of `atan2(v, h)` in micro-radians. It is exact on the axes
/// and diagonals, and its range is `(-PI_FX, PI_FX]`.
pub open spec fn atan2_s(v: int, h: int) -> int {
    let av = if v >= 0 {
        v
    } else {
        -v
    };
    let ah = if h >= 0 {
        h
    } else {
        -h
    };
    if av == 0 && ah == 0 {
        0
    } else {
        let raw = if av <= ah {
            (av * (QUARTER_PI_FX as int)) / ah
        } else {
            HALF_PI_FX as int - (ah * (QUARTER_PI_FX as int)) / av
        };
        let mag = if h >= 0 {
            raw
        } else {
            PI_FX as int - raw
        };
        if v >= 0 {
            mag
        } else if mag == PI_FX as int {
            PI_FX as int
        } else {
            -mag
        }
    }
}

/// The approximation stays inside `(-PI_FX, PI_FX]`.
pub proof fn lemma_atan2_range(v: int, h: int)
    requires
        i64::MIN <= v <= i64::MAX,
        i64::MIN <= h <= i64::MAX,
    ensures
        -(PI_FX as int) < atan2_s(v, h) <= PI_FX as int,
{
    let av = if v >= 0 {
        v
    } else {
        -v
    };
    let ah = if h >= 0 {
        h
    } else {
        -h
    };
    if !(av == 0 && ah == 0) {
        if av <= ah {
            assert(ah > 0);
            assert(av * (QUARTER_PI_FX as int) >= 0) by (nonlinear_arith)
                requires
                    av >= 0,
            ;
            vstd::arithmetic::div_mod::lemma_div_is_ordered(0, av * (QUARTER_PI_FX as int), ah);
            vstd::arithmetic::div_mod::lemma_div_of0(ah);
            assert(av * (QUARTER_PI_FX as int) <= ah * (QUARTER_PI_FX as int))
                by (nonlinear_arith)
                requires
                    av <= ah,
            ;
            vstd::arithmetic::div_mod::lemma_div_is_ordered(
                av * (QUARTER_PI_FX as int),
                ah * (QUARTER_PI_FX as int),
                ah,
            );
            vstd::arithmetic::div_mod::lemma_div_multiples_vanish(QUARTER_PI_FX as int, ah);
            assert(ah * (QUARTER_PI_FX as int) / ah == QUARTER_PI_FX as int);
        } else {
            assert(av > 0);
            assert(ah * (QUARTER_PI_FX as int) >= 0) by (nonlinear_arith)
                requires
                    ah >= 0,
            ;
            vstd::arithmetic::div_mod::lemma_div_is_ordered(0, ah * (QUARTER_PI_FX as int), av);
            vstd::arithmetic::div_mod::lemma_div_of0(av);
            assert(ah * (QUARTER_PI_FX as int) <= av * (QUARTER_PI_FX as int))
                by (nonlinear_arith)
                requires
                    ah <= av,
            ;
            vstd::arithmetic::div_mod::lemma_div_is_ordered(
                ah * (QUARTER_PI_FX as int),
                av * (QUARTER_PI_FX as int),
                av,
            );
            vstd::arithmetic::div_mod::lemma_div_multiples_vanish(QUARTER_PI_FX as int, av);
            assert(av * (QUARTER_PI_FX as int) / av == QUARTER_PI_FX as int);
        }
    }
}

/// Evaluate the fixed-point arctangent of `v / h`, honouring the signs of
/// both arguments.
pub fn fx_atan2(v: i64, h: i64) -> (r: i64)
    ensures
        r as int == atan2_s(v as int, h as int),
        -PI_FX < r <= PI_FX,
{
    proof {
        lemma_atan2_range(v as int, h as int);
    }
    let av: u128 = abs_u128(v);
    let ah: u128 = abs_u128(h);
    if av == 0 && ah == 0 {
        return 0;
    }
    let raw: i64 = if av <= ah {
        proof {
            assert(av as int * (QUARTER_PI_FX as int) <= u128::MAX as int) by (nonlinear_arith)
                requires
                    av <= 0x8000_0000_0000_0000u128,
            ;
        }
        let q: u128 = (av * (QUARTER_PI_FX as u128)) / ah;
        proof {
            assert(q <= QUARTER_PI_FX as u128) by {
                assert(av as int * (QUARTER_PI_FX as int) <= ah as int * (QUARTER_PI_FX as int))
                    by (nonlinear_arith)
                    requires
                        av <= ah,
                ;
                vstd::arithmetic::div_mod::lemma_div_is_ordered(
                    av as int * (QUARTER_PI_FX as int),
                    ah as int * (QUARTER_PI_FX as int),
                    ah as int,
                );
                vstd::arithmetic::div_mod::lemma_div_multiples_vanish(
                    QUARTER_PI_FX as int,
                    ah as int,
                );
            }
        }
        q as i64
    } else {
        proof {
            assert(ah as int * (QUARTER_PI_FX as int) <= u128::MAX as int) by (nonlinear_arith)
                requires
                    ah <= 0x8000_0000_0000_0000u128,
            ;
        }
        let q: u128 = (ah * (QUARTER_PI_FX as u128)) / av;
        proof {
            assert(q <= QUARTER_PI_FX as u128) by {
                assert(ah as int * (QUARTER_PI_FX as int) <= av as int * (QUARTER_PI_FX as int))
                    by (nonlinear_arith)
                    requires
                        ah <= av,
                ;
                vstd::arithmetic::div_mod::lemma_div_is_ordered(
                    ah as int * (QUARTER_PI_FX as int),
                    av as int * (QUARTER_PI_FX as int),
                    av as int,
                );
                vstd::arithmetic::div_mod::lemma_div_multiples_vanish(
                    QUARTER_PI_FX as int,
                    av as int,
                );
            }
        }
        HALF_PI_FX - (q as i64)
    };
    let mag: i64 = if h >= 0 {
        raw
    } else {
        PI_FX - raw
    };
    if v >= 0 {
        mag
    } else if mag == PI_FX {
        PI_FX
    } else {
        -mag
    }
}

/// A rotation in micro-radians converted to whole degrees, rounding down.
pub open spec fn rot_degrees_s(a: int) -> int {
    (a * 180) / (PI_FX as int)
}

/// Convert a fixed-point angle to whole degrees.
pub fn rot_degrees(a: i64) -> (d: i64)
    ensures
        d as int == rot_degrees_s(a as int),
{
    let p: i128 = (a as i128) * 180;
    if p >= 0 {
        let q: u128 = (p as u128) / (PI_FX as u128);
        proof {
            assert(q as int <= p as int) by {
                vstd::arithmetic::div_mod::lemma_div_is_ordered_by_denominator(p as int, 1, PI_FX as int);
                vstd::arithmetic::div_mod::lemma_div_basics(p as int);
            }
        }
        q as i64
    } else {
        let np: u128 = (-p) as u128;
        let qq: u128 = np / (PI_FX as u128);
        let rr: u128 = np % (PI_FX as u128);
        proof {
            vstd::arithmetic::div_mod::lemma_fundamental_div_mod(np as int, PI_FX as int);
            assert(qq as int <= np as int) by {
                vstd::arithmetic::div_mod::lemma_div_is_ordered_by_denominator(np as int, 1, PI_FX as int);
                vstd::arithmetic::div_mod::lemma_div_basics(np as int);
            }
            if rr == 0 {
                assert(p as int == (-(qq as int)) * (PI_FX as int) + 0) by (nonlinear_arith)
                    requires
                        np as int == (PI_FX as int) * (qq as int) + 0,
                        p as int == -(np as int),
                ;
                vstd::arithmetic::div_mod::lemma_fundamental_div_mod_converse(
                    p as int,
                    PI_FX as int,
                    -(qq as int),
                    0,
                );
            } else {
                assert(p as int == (-(qq as int) - 1) * (PI_FX as int) + ((PI_FX as int) - rr
                    as int)) by (nonlinear_arith)
                    requires
                        np as int == (PI_FX as int) * (qq as int) + rr as int,
                        p as int == -(np as int),
                ;
                vstd::arithmetic::div_mod::lemma_fundamental_div_mod_converse(
                    p as int,
                    PI_FX as int,
                    -(qq as int) - 1,
                    (PI_FX as int) - rr as int,
                );
            }
        }
        if rr == 0 {
            -(qq as i64)
        } else {
            -(qq as i64) - 1
        }
    }
}

} // verus!
