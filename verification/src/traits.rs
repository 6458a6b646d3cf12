//! Pixel value bounds. Types used as pixels may have odd bit depths or may
//! not use their full value range, so the usable range is made explicit
//! instead of being assumed from the storage type.

use vstd::prelude::*;

verus! {

/// The range of values a pixel of the implementing type can take. Normalised
/// (real-valued) pixel representations range over the unit interval instead
/// and report themselves as non-integral.
pub trait PixelBound: Sized {
    /// The minimum value a pixel can take.
    fn min_pixel() -> Self;

    /// The maximum value a pixel can take.
    fn max_pixel() -> Self;

    /// If this is a non-floating-point value, return true.
    fn is_integral() -> bool {
        true
    }
}

impl PixelBound for u8 {
    fn min_pixel() -> Self {
        u8::MIN
    }

    fn max_pixel() -> Self {
        u8::MAX
    }
}

impl PixelBound for u16 {
    fn min_pixel() -> Self {
        u16::MIN
    }

    fn max_pixel() -> Self {
        u16::MAX
    }
}

impl PixelBound for u32 {
    fn min_pixel() -> Self {
        u32::MIN
    }

    fn max_pixel() -> Self {
        u32::MAX
    }
}

impl PixelBound for u64 {
    fn min_pixel() -> Self {
        u64::MIN
    }

    fn max_pixel() -> Self {
        u64::MAX
    }
}

impl PixelBound for u128 {
    fn min_pixel() -> Self {
        u128::MIN
    }

    fn max_pixel() -> Self {
        u128::MAX
    }
}

impl PixelBound for i8 {
    fn min_pixel() -> Self {
        i8::MIN
    }

    fn max_pixel() -> Self {
        i8::MAX
    }
}

impl PixelBound for i16 {
    fn min_pixel() -> Self {
        i16::MIN
    }

    fn max_pixel() -> Self {
        i16::MAX
    }
}

impl PixelBound for i32 {
    fn min_pixel() -> Self {
        i32::MIN
    }

    fn max_pixel() -> Self {
        i32::MAX
    }
}

impl PixelBound for i64 {
    fn min_pixel() -> Self {
        i64::MIN
    }

    fn max_pixel() -> Self {
        i64::MAX
    }
}

impl PixelBound for i128 {
    fn min_pixel() -> Self {
        i128::MIN
    }

    fn max_pixel() -> Self {
        i128::MAX
    }
}

} // verus!
