use imgproc::array3::Array3;
use imgproc::formats::PixelFormat;
use imgproc::fx::{expneg, fx_atan2, fx_mul, fx_sqrt, rot_degrees, sat_add, FX_ONE, HALF_PI_FX, PI_FX, QUARTER_PI_FX};
use imgproc::netpbm::{PpmDecoder, PpmEncoder};
use imgproc::padding::Padding;
use imgproc::traits::PixelBound;
use imgproc::util::kernel_centre;

// The verified crate keeps floating point out, so the unit-interval pixel
// bounds of the float types live on local wrappers here.
#[derive(PartialEq, PartialOrd)]
struct F64Pixel(f64);

#[derive(PartialEq, PartialOrd)]
struct F32Pixel(f32);

impl PixelBound for F64Pixel {
    fn min_pixel() -> Self {
        F64Pixel(0.0f64)
    }

    fn max_pixel() -> Self {
        F64Pixel(1.0f64)
    }

    fn is_integral() -> bool {
        false
    }
}

impl PixelBound for F32Pixel {
    fn min_pixel() -> Self {
        F32Pixel(0.0f32)
    }

    fn max_pixel() -> Self {
        F32Pixel(1.0f32)
    }

    fn is_integral() -> bool {
        false
    }
}

#[test]
fn integral_correct() {
    assert!(!F64Pixel::is_integral());
    assert!(!F32Pixel::is_integral());
    assert!(u128::is_integral());
    assert!(u64::is_integral());
    assert!(u32::is_integral());
    assert!(u16::is_integral());
    assert!(u8::is_integral());
    assert!(i128::is_integral());
    assert!(i64::is_integral());
    assert!(i32::is_integral());
    assert!(i16::is_integral());
    assert!(i8::is_integral());
}

#[test]
fn max_more_than_min() {
    assert!(F64Pixel::max_pixel() > F64Pixel::min_pixel());
    assert!(F32Pixel::max_pixel() > F32Pixel::min_pixel());
    assert!(u8::max_pixel() > u8::min_pixel());
    assert!(u16::max_pixel() > u16::min_pixel());
    assert!(u32::max_pixel() > u32::min_pixel());
    assert!(u64::max_pixel() > u64::min_pixel());
    assert!(u128::max_pixel() > u128::min_pixel());
    assert!(i8::max_pixel() > i8::min_pixel());
    assert!(i16::max_pixel() > i16::min_pixel());
    assert!(i32::max_pixel() > i32::min_pixel());
    assert!(i64::max_pixel() > i64::min_pixel());
    assert!(i128::max_pixel() > i128::min_pixel());
}

#[test]
fn constant_padding() {
    let i = Array3::from_data(3, 3, 1, vec![1, 2, 3, 4, 5, 6, 7, 8, 9]);

    let p = i.pad((1, 1), &Padding::ConstantPadding(0));

    let exp = Array3::from_data(
        5,
        5,
        1,
        vec![0, 0, 0, 0, 0, 0, 1, 2, 3, 0, 0, 4, 5, 6, 0, 0, 7, 8, 9, 0, 0, 0, 0, 0, 0],
    );
    assert!(p.same_as(&exp));

    let p = i.pad((1, 1), &Padding::ConstantPadding(2));

    let exp = Array3::from_data(
        5,
        5,
        1,
        vec![2, 2, 2, 2, 2, 2, 1, 2, 3, 2, 2, 4, 5, 6, 2, 2, 7, 8, 9, 2, 2, 2, 2, 2, 2],
    );
    assert!(p.same_as(&exp));

    let p = i.pad((2, 0), &Padding::ConstantPadding(0));
    let z = i.pad((2, 0), &Padding::ZeroPadding);
    assert!(p.same_as(&z));

    let exp = Array3::from_data(
        7,
        3,
        1,
        vec![0, 0, 0, 0, 0, 0, 1, 2, 3, 4, 5, 6, 7, 8, 9, 0, 0, 0, 0, 0, 0],
    );
    assert!(p.same_as(&exp));
}

#[test]
fn no_padding() {
    let i = Array3::filled(5, 5, 3, 0i64);
    let p = i.pad((10, 10), &Padding::NoPadding);

    assert!(i.same_as(&p));

    let p = i.pad((0, 0), &Padding::NoPadding);
    assert!(i.same_as(&p));
}

#[test]
fn padding_resolves_values() {
    let i = Array3::from_data(2, 2, 1, vec![10, 20, 30, 40]);
    assert_eq!(Padding::NoPadding.get_value(&i, -1, 0, 0), None);
    assert_eq!(Padding::NoPadding.get_value(&i, 1, 1, 0), Some(40));
    assert_eq!(Padding::ConstantPadding(7).get_value(&i, -1, 5, 0), Some(7));
    assert_eq!(Padding::ConstantPadding(7).get_value(&i, 0, 1, 0), Some(20));
    assert_eq!(Padding::ZeroPadding.get_value(&i, 9, 9, 0), Some(0));
    assert!(!Padding::NoPadding.will_pad());
    assert!(Padding::ConstantPadding(1).will_pad());
    assert!(Padding::ZeroPadding.will_pad());
    assert_eq!(Padding::ConstantPadding(7).get_pixel(&i, -2, 0), Some(vec![7]));
    assert_eq!(Padding::NoPadding.get_pixel(&i, -2, 0), None);
    assert_eq!(Padding::NoPadding.get_pixel(&i, 1, 0), Some(vec![30]));
}

#[test]
fn pixel_format_channels() {
    assert_eq!(PixelFormat::Gray.channels(), 1);
    assert_eq!(PixelFormat::RGB.channels(), 3);
    assert_eq!(PixelFormat::RGBA.channels(), 4);
    assert_eq!(PixelFormat::HSV.channels(), 3);
    assert_eq!(PixelFormat::HSI.channels(), 3);
    assert_eq!(PixelFormat::HSL.channels(), 3);
    assert_eq!(PixelFormat::YCrCb.channels(), 3);
    assert_eq!(PixelFormat::CIEXYZ.channels(), 3);
    assert_eq!(PixelFormat::CIELAB.channels(), 3);
    assert_eq!(PixelFormat::CIELUV.channels(), 3);
    assert_eq!(PixelFormat::Other(7).channels(), 7);
}

#[test]
fn ppm_encoder_kinds() {
    assert_eq!(PpmEncoder::new(), PpmEncoder::new());
    assert_ne!(PpmEncoder::new(), PpmEncoder::new_plaintext_encoder());
    assert_eq!(PpmDecoder, PpmDecoder);
}

#[test]
fn kernel_centre_offsets() {
    assert_eq!(kernel_centre(3, 3), (1, 1));
    assert_eq!(kernel_centre(5, 5), (2, 2));
    assert_eq!(kernel_centre(4, 4), (1, 1));
    assert_eq!(kernel_centre(2, 3), (0, 1));
    assert_eq!(kernel_centre(1, 1), (0, 0));
}

#[test]
fn fixed_point_arithmetic() {
    assert_eq!(fx_mul(500_000, 500_000), 250_000);
    assert_eq!(fx_mul(-500_000, 500_000), -250_000);
    assert_eq!(fx_mul(2_000_000, 3_000_000), 6_000_000);
    assert_eq!(sat_add(i64::MAX, 1), i64::MAX);
    assert_eq!(sat_add(i64::MIN, -1), i64::MIN);
    assert_eq!(sat_add(2, 3), 5);
    assert_eq!(fx_sqrt(4_000_000), 2_000_000);
    assert_eq!(fx_sqrt(2_000_000), 1_414_213);
    assert_eq!(fx_sqrt(0), 0);
    assert_eq!(expneg(0), FX_ONE);
    // exp(-1) is about 0.3679; the squaring approximation is close to it.
    let e1 = expneg(1_000_000);
    assert!(366_000 < e1 && e1 < 368_500);
    assert!(expneg(300_000_000) == 0);
}

#[test]
fn fixed_point_angles() {
    assert_eq!(fx_atan2(0, 0), 0);
    assert_eq!(fx_atan2(0, 1_000_000), 0);
    assert_eq!(fx_atan2(1_000_000, 0), HALF_PI_FX);
    assert_eq!(fx_atan2(0, -1_000_000), PI_FX);
    assert_eq!(fx_atan2(1_000_000, 1_000_000), QUARTER_PI_FX);
    assert_eq!(fx_atan2(-1_000_000, 1_000_000), -QUARTER_PI_FX);
    assert_eq!(rot_degrees(PI_FX), 180);
    assert_eq!(rot_degrees(-HALF_PI_FX), -90);
    assert_eq!(rot_degrees(0), 0);
    assert_eq!(rot_degrees(QUARTER_PI_FX), 44);
}

#[test]
fn array_accessors() {
    let mut a = Array3::from_data(2, 3, 2, vec![0, 1, 2, 3, 4, 5, 6, 7, 8, 9, 10, 11]);
    assert_eq!(a.elem(0, 0, 0), 0);
    assert_eq!(a.elem(0, 2, 1), 5);
    assert_eq!(a.elem(1, 0, 0), 6);
    assert_eq!(a.elem(1, 2, 1), 11);
    a.set_elem(1, 1, 0, 77);
    assert_eq!(a.elem(1, 1, 0), 77);
    assert_eq!(a.elem(1, 1, 1), 9);
    let b = Array3::filled(2, 2, 1, 5i64);
    assert_eq!(b.data, vec![5, 5, 5, 5]);
}
