//! Supported pixel formats for images. The storage type is determined by the
//! image container; a format only fixes the channel layout.

use vstd::prelude::*;

verus! {

/// Enum containing supported pixel formats for images.
#[derive(Copy, Clone, PartialEq, Eq, Structural, PartialOrd, Ord, Hash, Debug)]
pub enum PixelFormat {
    /// Single channel intensity image.
    Gray,
    /// Red Green Blue image.
    RGB,
    /// RGB image with an added alpha channel.
    RGBA,
    /// Hue Saturation Value image.
    HSV,
    /// Hue Saturation Intensity image.
    HSI,
    /// Hue Saturation Lightness image.
    HSL,
    /// Y Chroma-red Chroma-blue image.
    YCrCb,
    /// CIE 1931 X Y Z colour space.
    CIEXYZ,
    /// CIE 1976 L*a*b* colour space.
    CIELAB,
    /// CIE 1976 L* U* V* colour space.
    CIELUV,
    /// Unspecified layout with the given number of channels.
    Other(usize),
}

impl PixelFormat {
    /// The number of channels `channels` reports for this format.
    pub open spec fn channels_s(self) -> int {
        match self {
            PixelFormat::Gray => 1,
            PixelFormat::RGB => 3,
            PixelFormat::HSV => 3,
            PixelFormat::HSI => 3,
            PixelFormat::HSL => 3,
            PixelFormat::YCrCb => 3,
            PixelFormat::CIEXYZ => 3,
            PixelFormat::CIELAB => 3,
            PixelFormat::CIELUV => 3,
            PixelFormat::RGBA => 4,
            PixelFormat::Other(n) => n as int,
        }
    }

    /// Returns the number of channels used to represent the colour.
    pub fn channels(&self) -> (n: usize)
        ensures
            n == self.channels_s(),
    {
        match self {
            PixelFormat::Gray => 1,
            PixelFormat::RGB | PixelFormat::HSV | PixelFormat::HSI | PixelFormat::HSL
                | PixelFormat::YCrCb | PixelFormat::CIELAB | PixelFormat::CIEXYZ
                | PixelFormat::CIELUV => 3,
            PixelFormat::RGBA => 4,
            PixelFormat::Other(n) => *n,
        }
    }
}

} // verus!
