use imgproc::array3::Array3;
use imgproc::canny::{non_maxima_supression, CannyBuilder};
use imgproc::error::Error;
use imgproc::kernels::{
    BoxLinearFilter, GaussianFilter, LaplaceFilter, LaplaceType, Orientation, SobelFilter,
};
use imgproc::padding::Padding;

const ONE: i64 = 1_000_000;

fn micro(values: &[i64]) -> Vec<i64> {
    values.iter().map(|v| v * ONE).collect()
}

#[test]
fn bad_dimensions() {
    let mut i = Array3::filled(5, 5, 3, 0i64);
    let bad_kern = Array3::filled(2, 2, 2, 0i64);
    assert_eq!(i.conv2d(&bad_kern).unwrap_err(), Error::ChannelDimensionMismatch);

    let data_clone = i.data.clone();
    let res = i.conv2d_inplace(&bad_kern);
    assert_eq!(res.unwrap_err(), Error::ChannelDimensionMismatch);
    assert_eq!(i.data, data_clone);

    let good_kern = Array3::filled(2, 2, 3, 0i64);
    assert!(i.conv2d(&good_kern).is_ok());
    assert!(i.conv2d_inplace(&good_kern).is_ok());
}

#[test]
fn basic_conv() {
    let input_pixels: Vec<i64> = micro(&[
        1, 1, 1, 0, 0,
        0, 1, 1, 1, 0,
        0, 0, 1, 1, 1,
        0, 0, 1, 1, 0,
        0, 1, 1, 0, 0,
    ]);
    let output_pixels: Vec<i64> = micro(&[
        1, 1, 1, 0, 0,
        0, 4, 3, 4, 0,
        0, 2, 4, 3, 1,
        0, 2, 3, 4, 0,
        0, 1, 1, 0, 0,
    ]);

    let kern = Array3::from_data(3, 3, 1, micro(&[1, 0, 1, 0, 1, 0, 1, 0, 1]));

    let input = Array3::from_data(5, 5, 1, input_pixels);
    let expected = Array3::from_data(5, 5, 1, output_pixels);

    let out = input.conv2d(&kern).unwrap();
    assert!(out.same_as(&expected));
}

#[test]
fn basic_conv_inplace() {
    let input_pixels: Vec<i64> = micro(&[
        1, 1, 1, 0, 0,
        0, 1, 1, 1, 0,
        0, 0, 1, 1, 1,
        0, 0, 1, 1, 0,
        0, 1, 1, 0, 0,
    ]);
    let output_pixels: Vec<i64> = micro(&[
        2, 2, 3, 1, 1,
        1, 4, 3, 4, 1,
        1, 2, 4, 3, 3,
        1, 2, 3, 4, 1,
        0, 2, 2, 1, 1,
    ]);

    let kern = Array3::from_data(3, 3, 1, micro(&[1, 0, 1, 0, 1, 0, 1, 0, 1]));

    let mut input = Array3::from_data(5, 5, 1, input_pixels);
    let expected = Array3::from_data(5, 5, 1, output_pixels);
    let padding = Padding::ZeroPadding;
    input.conv2d_inplace_with_padding(&kern, &padding).unwrap();

    assert!(input.same_as(&expected));
}

#[test]
fn conv_shape_preserved() {
    let input = Array3::filled(4, 7, 2, 123i64);
    let kern = Array3::filled(2, 3, 1, ONE);
    let out = input.conv2d_with_padding(&kern, &Padding::ZeroPadding).unwrap();
    assert_eq!((out.rows, out.cols, out.channels), (4, 7, 2));
    let empty = Array3::from_data(0, 5, 1, vec![]);
    assert_eq!(empty.conv2d(&kern).unwrap_err(), Error::InvalidDimensions);
}

#[test]
fn filters_test_box_linear_filter() {
    let filter = BoxLinearFilter::build((2, 2, 3)).unwrap();
    assert!(filter.same_as(&Array3::filled(2, 2, 3, 250_000i64)));

    let filter = BoxLinearFilter::build((0, 2, 3));
    assert!(filter.is_err());
}

#[test]
fn kernels_test_box_linear_filter() {
    let filter = BoxLinearFilter::build((2, 2, 3)).unwrap();
    assert!(filter.same_as(&Array3::filled(2, 2, 3, 250_000i64)));

    let filter = BoxLinearFilter::build((0, 2, 3));
    assert!(filter.is_err());
}

#[test]
fn box_filter_sum_near_channel_count() {
    let filter = BoxLinearFilter::build((3, 3, 2)).unwrap();
    let sum: i64 = filter.data.iter().sum();
    // Each channel's nine weights are floor(1.0 / 9) micro-units.
    assert_eq!(sum, 2 * 9 * (ONE / 9));
    assert!((2 * ONE - sum).abs() < 2 * 9);
    let unnormalised = BoxLinearFilter::build_with_params((2, 2, 1), false).unwrap();
    assert_eq!(unnormalised.data, vec![ONE, ONE, ONE, ONE]);
}

#[test]
fn filters_test_sobel_filter() {
    let filter = SobelFilter::build_with_params(Orientation::Vertical).unwrap();
    assert_eq!(filter.data, micro(&[-1, 0, 1, -2, 0, 2, -1, 0, 1]));

    let filter = SobelFilter::build_with_params(Orientation::Horizontal).unwrap();
    assert_eq!(filter.data, micro(&[-1, -2, -1, 0, 0, 0, 1, 2, 1]));
}

#[test]
fn kernels_test_sobel_filter() {
    let filter = SobelFilter::build_with_params(Orientation::Vertical).unwrap();
    assert_eq!(filter.data, micro(&[-1, 0, 1, -2, 0, 2, -1, 0, 1]));
    assert_eq!((filter.rows, filter.cols, filter.channels), (3, 3, 1));

    let filter = SobelFilter::build_with_params(Orientation::Horizontal).unwrap();
    assert_eq!(filter.data, micro(&[-1, -2, -1, 0, 0, 0, 1, 2, 1]));
}

#[test]
fn filters_test_gaussian_filter() {
    let bad_gauss = GaussianFilter::build((3, 5, 2));
    assert_eq!(bad_gauss.unwrap_err(), Error::InvalidDimensions);
    let bad_gauss = GaussianFilter::build((4, 4, 2));
    assert_eq!(bad_gauss.unwrap_err(), Error::InvalidDimensions);
    let bad_gauss = GaussianFilter::build((4, 0, 2));
    assert_eq!(bad_gauss.unwrap_err(), Error::InvalidDimensions);

    let channels: i64 = 2;
    let filter = GaussianFilter::build_with_params((3, 3, 2), [300_000, 300_000]).unwrap();
    let sum: i64 = filter.data.iter().sum();
    assert_eq!(sum, channels * ONE);

    let filter = GaussianFilter::build_with_params((3, 3, 1), [50_000, 50_000]).unwrap();
    // With such a narrow bell only the centre weight rounds up to one.
    for r in 0..3 {
        for c in 0..3 {
            let v = filter.elem(r, c, 0);
            if (r, c) == (1, 1) {
                assert!(v > ONE / 2);
            } else {
                assert!(v < ONE / 2);
            }
        }
    }
}

#[test]
fn kernels_test_gaussian_filter() {
    let bad_gauss = GaussianFilter::build((3, 5, 2));
    assert_eq!(bad_gauss.unwrap_err(), Error::InvalidDimensions);
    let bad_gauss = GaussianFilter::build((4, 4, 2));
    assert_eq!(bad_gauss.unwrap_err(), Error::InvalidDimensions);
    let bad_gauss = GaussianFilter::build((4, 0, 2));
    assert_eq!(bad_gauss.unwrap_err(), Error::InvalidDimensions);

    let channels: i64 = 2;
    let filter = GaussianFilter::build_with_params((3, 3, 2), [300_000, 300_000]).unwrap();
    let sum: i64 = filter.data.iter().sum();
    assert_eq!(sum, channels * ONE);

    let filter = GaussianFilter::build_with_params((3, 3, 1), [50_000, 50_000]).unwrap();
    for r in 0..3 {
        for c in 0..3 {
            let v = filter.elem(r, c, 0);
            if (r, c) == (1, 1) {
                assert!(v > ONE / 2);
            } else {
                assert!(v < ONE / 2);
            }
        }
    }
}

#[test]
fn gaussian_rejects_bad_covariance() {
    let bad = GaussianFilter::build_with_params((3, 3, 1), [0, 2_000_000]);
    assert_eq!(bad.unwrap_err(), Error::InvalidParameter);
    let bad = GaussianFilter::build_with_params((5, 5, 1), [2_000_000, -1]);
    assert_eq!(bad.unwrap_err(), Error::InvalidParameter);
    let bad = GaussianFilter::build_with_params((3, 3, 0), [2_000_000, 2_000_000]);
    assert_eq!(bad.unwrap_err(), Error::InvalidDimensions);
}

#[test]
fn test_laplace_filters() {
    let standard = LaplaceFilter::build().unwrap();
    assert_eq!(standard.data, micro(&[0, -1, 0, -1, 4, -1, 0, -1, 0]));

    let standard = LaplaceFilter::build_with_params(LaplaceType::Diagonal).unwrap();
    assert_eq!(standard.data, micro(&[-1, -1, -1, -1, 8, -1, -1, -1, -1]));
}

#[test]
fn simple() {
    // An 11x11 greyscale image holding a small plus-shaped blob of full
    // intensity, as a crossing of one-unit-wide bars.
    let mut data: Vec<i64> = vec![0; 121];
    for r in 4..6 {
        for c in 4..6 {
            data[r * 11 + c] = ONE;
        }
    }
    for r in 3..7 {
        data[r * 11 + 5] = ONE;
    }
    for c in 3..7 {
        data[5 * 11 + c] = ONE;
    }
    let image = Array3::from_data(11, 11, 1, data);

    let sobel = image.full_sobel().unwrap();

    // The reference gradient magnitudes of the interior: every nonzero
    // response exceeds the unit bound and so saturates at 1.0 exactly.
    let pattern: [[i64; 9]; 9] = [
        [0, 0, 0, 0, 0, 0, 0, 0, 0],
        [0, 0, 0, 1, 1, 1, 0, 0, 0],
        [0, 0, 1, 1, 1, 1, 0, 0, 0],
        [0, 1, 1, 1, 1, 1, 1, 0, 0],
        [0, 1, 1, 1, 1, 1, 1, 0, 0],
        [0, 1, 1, 1, 1, 1, 1, 0, 0],
        [0, 0, 0, 1, 1, 1, 0, 0, 0],
        [0, 0, 0, 0, 0, 0, 0, 0, 0],
        [0, 0, 0, 0, 0, 0, 0, 0, 0],
    ];
    for r in 0..9 {
        for c in 0..9 {
            let got = sobel.0.elem(r + 1, c + 1, 0);
            assert_eq!((r, c, got), (r, c, pattern[r][c] * ONE));
        }
    }
}

#[test]
fn canny_builder() {
    let builder = CannyBuilder::new().lower_threshold(750_000).upper_threshold(250_000);

    assert_eq!(builder.t1, Some(750_000));
    assert_eq!(builder.t2, Some(250_000));
    assert!(builder.blur.is_none());

    let result = builder.clone().build();

    assert_eq!(result.t1, 250_000);
    assert_eq!(result.t2, 750_000);

    let builder2 = builder.blur((3, 3), [200_000, 200_000]);

    assert_eq!(builder2.t1, Some(750_000));
    assert_eq!(builder2.t2, Some(250_000));
    assert!(builder2.blur.is_some());
    let gauss = builder2.blur.unwrap();
    assert_eq!((gauss.rows, gauss.cols, gauss.channels), (3, 3, 1));
}

#[test]
fn canny_thresholding() {
    let magnitudes = Array3::from_data(
        3,
        3,
        1,
        vec![200_000, 400_000, 0, 700_000, 500_000, 800_000, 100_000, 600_000, 0],
    );

    let expected = Array3::from_data(
        3,
        3,
        1,
        vec![false, false, false, true, true, true, false, true, false],
    );

    let result = magnitudes.link_edges(400_000, 690_000);

    assert!(result.same_mask(&expected));
}

#[test]
fn canny_builder_defaults() {
    let params = CannyBuilder::new().build();
    assert_eq!(params.t1, 300_000);
    assert_eq!(params.t2, 700_000);
    assert_eq!((params.blur.rows, params.blur.cols, params.blur.channels), (5, 5, 1));
    let sum: i64 = params.blur.data.iter().sum();
    assert_eq!(sum, ONE);
    assert!(params.t1 <= params.t2);
}

#[test]
fn hysteresis_ignores_unconnected_weak() {
    let magnitudes = Array3::from_data(1, 4, 1, vec![500_000, 0, 0, 800_000]);
    let result = magnitudes.link_edges(300_000, 700_000);
    assert_eq!(result.data, vec![false, false, false, true]);

    let chained = Array3::from_data(1, 4, 1, vec![500_000, 400_000, 800_000, 0]);
    let result = chained.link_edges(300_000, 700_000);
    assert_eq!(result.data, vec![true, true, true, false]);
}

#[test]
fn suppression_thins_and_is_idempotent() {
    let mag = Array3::from_data(1, 3, 1, vec![500_000, 900_000, 400_000]);
    let rot = Array3::filled(1, 3, 1, 0i64);
    let once = non_maxima_supression(&mag, &rot);
    assert_eq!(once.data, vec![0, 900_000, 0]);
    let twice = non_maxima_supression(&once, &rot);
    assert!(twice.same_as(&once));
}

#[test]
fn canny_end_to_end() {
    // A bright vertical bar on a dark background.
    let mut data: Vec<i64> = vec![0; 49];
    for r in 0..7 {
        data[r * 7 + 3] = ONE;
    }
    let image = Array3::from_data(7, 7, 1, data);
    let params = CannyBuilder::new()
        .lower_threshold(100_000)
        .upper_threshold(200_000)
        .blur((3, 3), [2_000_000, 2_000_000])
        .build();
    let mask = image.canny_edge_detector(params).unwrap();
    assert_eq!((mask.rows, mask.cols, mask.channels), (7, 7, 1));

    let rgbish = Array3::filled(4, 4, 3, 0i64);
    let params2 = CannyBuilder::new().build();
    assert_eq!(
        rgbish.canny_edge_detector(params2).unwrap_err(),
        Error::ChannelDimensionMismatch
    );
}
