//! Decolorization in double precision.
use decolorize::color::{color_contrast, srgb_to_lab, srgb_to_linear, weak_order};
use decolorize::decolorize::{
    decolorize, decolorize_fast, decolorize_fast_with, decolorize_with,
};
use decolorize::definitions::{Image, Layout};
use decolorize::fit::{accumulate_pairs, fit_weights, gram_matrix, Accumulator};
use decolorize::options::{DecolorizeOptions, FastDecolorizeOptions};
use decolorize::pairs::pair_differences;
use decolorize::planes::{fitted_extents, Planes};
use decolorize::polynomial::{apply_polynomial, evaluate, monomial, monomial_differences};
use decolorize::random::{shuffle, SplitMix64};
use decolorize::sampling::{grid_size, sample_pairs, sample_places, Pair};
use decolorize::scalar::{clamp, ratio, Scalar, NUM_MONOMIALS};
use decolorize::search::{
    apply_linear, best_weights, candidate_weights, score, search_linear_weights,
};
use decolorize::subpixel::DecolorizeSubpixel;
use nalgebra::{SMatrix, SVector};

/// A double precision number.
#[derive(Debug, Clone, Copy, PartialEq, PartialOrd)]
struct F64(f64);

impl Scalar for F64 {
    fn from_int(value: u64) -> Self {
        F64(value as f64)
    }
    fn infinity() -> Self {
        F64(f64::INFINITY)
    }
    fn plus(self, other: Self) -> Self {
        F64(self.0 + other.0)
    }
    fn minus(self, other: Self) -> Self {
        F64(self.0 - other.0)
    }
    fn times(self, other: Self) -> Self {
        F64(self.0 * other.0)
    }
    fn over(self, other: Self) -> Self {
        F64(self.0 / other.0)
    }
    fn negated(self) -> Self {
        F64(-self.0)
    }
    fn absolute(self) -> Self {
        F64(self.0.abs())
    }
    fn square_root(self) -> Self {
        F64(self.0.sqrt())
    }
    fn cube_root(self) -> Self {
        F64(self.0.cbrt())
    }
    fn logarithm(self) -> Self {
        F64(self.0.ln())
    }
    fn exponential(self) -> Self {
        F64(self.0.exp())
    }
    fn rounded(self) -> Self {
        F64(self.0.round())
    }
    fn single(self) -> Self {
        F64(f64::from(self.0 as f32))
    }
    fn power(self, exponent: u32) -> Self {
        F64(self.0.powi(exponent as i32))
    }
    fn raised(self, exponent: Self) -> Self {
        F64(self.0.powf(exponent.0))
    }
    fn larger(self, other: Self) -> Self {
        F64(self.0.max(other.0))
    }
    fn smaller(self, other: Self) -> Self {
        F64(self.0.min(other.0))
    }
    fn less(self, other: Self) -> bool {
        self.0 < other.0
    }
    fn at_most(self, other: Self) -> bool {
        self.0 <= other.0
    }
    fn precedes(self, other: Self) -> bool {
        self.0.total_cmp(&other.0).is_le()
    }
    fn is_finite(self) -> bool {
        self.0.is_finite()
    }
    fn truncated(self) -> usize {
        self.0 as usize
    }
    fn solve(
        gram: &[[Self; NUM_MONOMIALS]; NUM_MONOMIALS],
        rhs: &[Self; NUM_MONOMIALS],
    ) -> Option<[Self; NUM_MONOMIALS]> {
        let matrix =
            SMatrix::<f64, NUM_MONOMIALS, NUM_MONOMIALS>::from_fn(|i, j| gram[i][j].0);
        let vector = SVector::<f64, NUM_MONOMIALS>::from_fn(|i, _| rhs[i].0);
        let solution = matrix.lu().solve(&vector)?;
        let mut weights = [F64(0.0); NUM_MONOMIALS];
        for (i, weight) in weights.iter_mut().enumerate() {
            *weight = F64(solution[i]);
        }
        Some(weights)
    }
}

impl DecolorizeSubpixel<F64> for f32 {
    fn to_unit(self) -> F64 {
        F64(f64::from(self))
    }
    fn from_unit(value: F64) -> Self {
        value.0.clamp(0.0, 1.0) as f32
    }
}

impl DecolorizeSubpixel<F64> for f64 {
    fn to_unit(self) -> F64 {
        F64(self)
    }
    fn from_unit(value: F64) -> Self {
        value.0.clamp(0.0, 1.0)
    }
}

type Options = DecolorizeOptions<F64>;
type FastOptions = FastDecolorizeOptions<F64>;

/// An RGB image from the color of each pixel.
fn rgb_image<S: Copy>(width: u32, height: u32, color: impl Fn(u32, u32) -> [S; 3]) -> Image<S> {
    let mut samples = Vec::new();
    for y in 0..height {
        for x in 0..width {
            samples.extend(color(x, y));
        }
    }
    Image::from_raw(width, height, Layout::Rgb, samples).expect("three samples per pixel")
}

/// An RGB image of one color.
fn flat(width: u32, height: u32, color: [u8; 3]) -> Image<u8> {
    rgb_image(width, height, |_, _| color)
}

/// The gray at a place of a gray image.
fn gray_at<S: Copy>(image: &Image<S>, x: u32, y: u32) -> S {
    assert_eq!(image.layout, Layout::Luma);
    image.samples[(y * image.width + x) as usize]
}

/// Rec. 601 luminance.
fn luma601(pixel: [u8; 3]) -> f64 {
    0.299 * f64::from(pixel[0]) + 0.587 * f64::from(pixel[1]) + 0.114 * f64::from(pixel[2])
}

/// Two vertical bands of the given colors.
fn two_bands(left: [u8; 3], right: [u8; 3], width: u32, height: u32) -> Image<u8> {
    rgb_image(width, height, |x, _| if x < width / 2 { left } else { right })
}

/// An image with many colors.
fn colorful(width: u32, height: u32) -> Image<u8> {
    rgb_image(width, height, |x, y| {
        [(x * 5) as u8, (y * 5) as u8, ((x ^ y) * 5) as u8]
    })
}

/// Planes whose three channels are the given one.
fn gray_planes(width: usize, height: usize, values: &[f64]) -> Planes<F64> {
    let plane: Vec<F64> = values.iter().map(|v| F64(*v)).collect();
    Planes {
        width,
        height,
        r: plane.clone(),
        g: plane.clone(),
        b: plane,
    }
}

#[test]
fn lab_matches_reference_values() {
    let cases = [
        ([1.0, 1.0, 1.0], [100.0, 0.0, 0.0]),
        ([0.0, 0.0, 0.0], [0.0, 0.0, 0.0]),
        ([1.0, 0.0, 0.0], [53.24, 80.09, 67.20]),
        ([0.0, 1.0, 0.0], [87.73, -86.18, 83.18]),
        ([0.0, 0.0, 1.0], [32.30, 79.19, -107.86]),
    ];

    for (rgb, expected) in cases {
        let (l, a, b) = srgb_to_lab(F64(rgb[0]), F64(rgb[1]), F64(rgb[2]));
        for (actual, expected) in [l.0, a.0, b.0].iter().zip(expected) {
            assert!(
                (actual - expected).abs() < 0.05,
                "sRGB {rgb:?} gave ({l:?}, {a:?}, {b:?}), expected {expected:?}"
            );
        }
    }
}

#[test]
fn pair_differences_are_forward_differences() {
    // 3 x 2 plane:  0 1 2
    //               3 4 5
    let plane = [0.0, 1.0, 2.0, 3.0, 4.0, 5.0].map(F64);
    let mut out = [F64(0.0); 7]; // 2 * 2 horizontal + 3 * 1 vertical
    pair_differences(&plane, 3, 2, &mut out);

    assert_eq!(&out[..4], &[-1.0, -1.0, -1.0, -1.0].map(F64), "horizontal pairs");
    assert_eq!(&out[4..], &[-3.0, -3.0, -3.0].map(F64), "vertical pairs");
}

#[test]
fn pair_count_covers_every_four_neighbour_pair() {
    for (width, height, expected) in [(1, 1, 0), (2, 1, 1), (1, 2, 1), (3, 2, 7), (4, 4, 24)] {
        let planes = Planes {
            width,
            height,
            r: vec![F64(0.0); width * height],
            g: vec![F64(0.0); width * height],
            b: vec![F64(0.0); width * height],
        };
        assert_eq!(planes.pair_count(), expected, "{width} x {height}");
    }
}

#[test]
fn separates_isoluminant_colours() {
    // Red and green chosen so that Rec. 601 maps both onto the same gray:
    // decolorization by luminance destroys this edge entirely.
    let (left, right) = ([251u8, 0, 0], [0u8, 128, 0]);
    assert!((luma601(left) - luma601(right)).abs() < 2.0);

    let gray = decolorize::<F64, _>(&two_bands(left, right, 32, 32));
    let contrast = gray_at(&gray, 0, 0).abs_diff(gray_at(&gray, 31, 0));
    assert!(contrast > 200, "contrast was only {contrast}");
}

#[test]
fn fast_variant_separates_isoluminant_colours() {
    let (left, right) = ([251u8, 0, 0], [0u8, 128, 0]);
    let gray = decolorize_fast::<F64, _>(&two_bands(left, right, 64, 64));
    let contrast = gray_at(&gray, 0, 0).abs_diff(gray_at(&gray, 63, 0));
    assert!(contrast > 64, "contrast was only {contrast}");
}

#[test]
fn preserves_the_order_of_a_grey_ramp() {
    // Steps of 16 clear the weak order threshold, so the sign of every pair
    // is pinned and the ramp must come out increasing rather than inverted.
    let ramp = rgb_image(16, 4, |x, _| {
        let v = (x * 16) as u8;
        [v, v, v]
    });

    let gray = decolorize::<F64, _>(&ramp);
    for x in 1..16 {
        assert!(
            gray_at(&gray, x, 0) > gray_at(&gray, x - 1, 0),
            "not increasing at x = {x}: {:?}",
            (0..16).map(|x| gray_at(&gray, x, 0)).collect::<Vec<_>>()
        );
    }
}

#[test]
fn stretches_to_the_full_output_range() {
    let image = rgb_image(16, 16, |x, y| [(x * 16) as u8, (y * 16) as u8, 128]);

    let gray = decolorize::<F64, _>(&image);
    let values: Vec<u8> = gray.samples;
    assert_eq!(values.iter().copied().min(), Some(0));
    assert_eq!(values.iter().copied().max(), Some(255));
}

#[test]
fn fast_variant_preserves_brightness() {
    // The candidate weights are convex, so a flat color maps onto a
    // weighted average of its own channels and stays in range.
    let image = flat(64, 64, [90, 90, 90]);
    let gray = decolorize_fast::<F64, _>(&image);
    assert!(gray.samples.iter().all(|p| *p == 90));
}

#[test]
fn is_deterministic() {
    let image = rgb_image(48, 48, |x, y| {
        [(x * 5) as u8, (y * 5) as u8, ((x ^ y) * 5) as u8]
    });

    assert_eq!(decolorize::<F64, _>(&image), decolorize::<F64, _>(&image));
    assert_eq!(
        decolorize_fast::<F64, _>(&image),
        decolorize_fast::<F64, _>(&image)
    );
}

#[test]
fn handles_degenerate_sizes() {
    for (width, height) in [(0, 0), (0, 4), (4, 0), (1, 1), (1, 7), (7, 1), (2, 2)] {
        let image = flat(width, height, [10, 200, 30]);
        let gray = decolorize::<F64, _>(&image);
        assert_eq!((gray.width, gray.height), (width, height));
        assert_eq!(gray.samples.len(), (width * height) as usize);
        let gray = decolorize_fast::<F64, _>(&image);
        assert_eq!((gray.width, gray.height), (width, height));
        assert_eq!(gray.samples.len(), (width * height) as usize);
    }
}

#[test]
fn handles_a_constant_image() {
    let image = flat(16, 16, [70, 140, 210]);
    let gray = decolorize::<F64, _>(&image);
    let first = gray_at(&gray, 0, 0);
    assert!(gray.samples.iter().all(|p| *p == first));
}

#[test]
fn supports_u16_and_f32_subpixels() {
    let wide: Image<u16> = rgb_image(32, 32, |x, _| {
        if x < 16 {
            [52_800, 0, 0]
        } else {
            [0, 32_768, 0]
        }
    });
    let gray = decolorize::<F64, _>(&wide);
    assert!(gray_at(&gray, 0, 0).abs_diff(gray_at(&gray, 31, 0)) > 50_000);

    let float: Image<f32> = rgb_image(32, 32, |x, _| {
        if x < 16 {
            [0.81, 0.0, 0.0]
        } else {
            [0.0, 0.5, 0.0]
        }
    });
    let gray = decolorize::<F64, _>(&float);
    assert!((gray_at(&gray, 0, 0) - gray_at(&gray, 31, 0)).abs() > 0.8);
}

#[test]
fn accepts_pixel_types_other_than_rgb() {
    // Alpha is ignored, so an opaque RGBA image decolorizes like its RGB
    // counterpart.
    let mut samples = Vec::new();
    for _ in 0..32 {
        for x in 0..32 {
            samples.extend(if x < 16 {
                [251, 0, 0, 255]
            } else {
                [0, 128, 0, 255]
            });
        }
    }
    let rgba: Image<u8> = Image::from_raw(32, 32, Layout::Rgba, samples).unwrap();
    let rgb = two_bands([251, 0, 0], [0, 128, 0], 32, 32);
    assert_eq!(decolorize::<F64, _>(&rgba), decolorize::<F64, _>(&rgb));

    // A luminance image is already gray and should survive intact.
    let mut samples = Vec::new();
    for _ in 0..4 {
        samples.extend((0..16).map(|x| (x * 16) as u8));
    }
    let luma: Image<u8> = Image::from_raw(16, 4, Layout::Luma, samples).unwrap();
    let gray = decolorize::<F64, _>(&luma);
    assert_eq!(gray_at(&gray, 0, 0), 0);
    assert_eq!(gray_at(&gray, 15, 0), 255);
}

#[test]
fn there_are_sixty_six_candidate_weights() {
    let candidates = candidate_weights::<F64>();
    assert_eq!(candidates.len(), 66);
    for weights in &candidates {
        let sum: f64 = weights.iter().map(|w| w.0).sum();
        assert!((sum - 1.0).abs() < 1e-12, "{weights:?} does not sum to one");
        assert!(weights.iter().all(|w| w.0 >= 0.0));
    }
}

#[test]
fn downscaling_bounds_the_fitting_size() {
    let image = flat(1000, 600, [10, 20, 30]);
    let planes = Planes::<F64>::downscale(&image, 800);
    assert!(planes.width + planes.height <= 800);
    assert!(planes.width > 0 && planes.height > 0);

    // Small images are left alone.
    let small = flat(30, 20, [10, 20, 30]);
    let planes = Planes::<F64>::downscale(&small, 800);
    assert_eq!((planes.width, planes.height), (30, 20));
}

#[test]
fn downscaling_averages_rather_than_samples() {
    // A one pixel checkerboard averages to mid gray; point sampling would
    // return one of the two extremes instead.
    let checker = rgb_image(64, 64, |x, y| {
        if (x + y) % 2 == 0 {
            [0u8, 0, 0]
        } else {
            [255, 255, 255]
        }
    });
    let planes = Planes::<F64>::downscale(&checker, 16);
    assert!(planes.r.iter().all(|v| (v.0 - 0.5).abs() < 0.02));
}

#[test]
fn the_search_is_stable_across_seeds() {
    let image = rgb_image(96, 96, |x, y| [(x * 2) as u8, (y * 2) as u8, 200]);

    let first = decolorize_fast_with(&image, FastOptions::default());
    let second = decolorize_fast_with(
        &image,
        FastDecolorizeOptions {
            seed: 12345,
            ..FastOptions::default()
        },
    );

    // Different draws of the random pairs, but the search is stable enough
    // that they agree on the weighting.
    assert_eq!(first, second);
}

#[test]
fn the_documented_examples_hold() {
    let bands = two_bands([251, 0, 0], [0, 128, 0], 8, 8);
    let gray = decolorize::<F64, _>(&bands);
    assert_eq!((gray.width, gray.height), (8, 8));
    assert!(gray_at(&gray, 0, 0).abs_diff(gray_at(&gray, 7, 0)) > 32);

    let options = DecolorizeOptions {
        max_iterations: 40,
        tolerance: F64(1e-6),
        ..Options::default()
    };
    let gray = decolorize_with(&flat(4, 4, [120, 40, 200]), options);
    assert_eq!((gray.width, gray.height), (4, 4));

    let bands = two_bands([255, 0, 0], [0, 0, 255], 64, 64);
    let gray = decolorize_fast::<F64, _>(&bands);
    assert!(gray_at(&gray, 0, 0).abs_diff(gray_at(&gray, 63, 0)) > 32);
}

#[test]
fn the_defaults_are_the_documented_ones() {
    let options = Options::default();
    assert_eq!(options.sigma, F64(0.02));
    assert_eq!(options.max_iterations, 15);
    assert_eq!(options.tolerance, F64(1e-4));
    assert_eq!(options.fitting_size, 800);

    let options = FastOptions::default();
    assert_eq!(options.sigma, F64(0.05));
    assert_eq!(options.samples, 64);
    assert_eq!(options.contrast_threshold, F64(0.05));
    assert_eq!(options.seed, 0);
}

#[test]
fn the_defaults_are_what_the_short_forms_use() {
    let image = colorful(40, 24);
    assert_eq!(
        decolorize::<F64, _>(&image),
        decolorize_with(&image, Options::default())
    );
    assert_eq!(
        decolorize_fast::<F64, _>(&image),
        decolorize_fast_with(&image, FastOptions::default())
    );
}

#[test]
fn an_image_holds_exactly_its_samples() {
    assert!(Image::from_raw(2, 3, Layout::Rgb, vec![0u8; 18]).is_some());
    assert!(Image::from_raw(2, 3, Layout::Rgb, vec![0u8; 17]).is_none());
    assert!(Image::from_raw(2, 3, Layout::Rgb, vec![0u8; 19]).is_none());
    assert!(Image::from_raw(0, 3, Layout::Rgba, Vec::<u8>::new()).is_some());
    assert!(Image::from_raw(0, 3, Layout::Rgba, vec![0u8]).is_none());
    assert!(Image::from_raw(u32::MAX, u32::MAX, Layout::Rgba, vec![0u8; 4]).is_none());
}

#[test]
fn pixels_are_read_by_their_layout() {
    let samples: Vec<u8> = (0..24).collect();
    for (layout, width, expected) in [
        (Layout::Luma, 24, [5, 5, 5]),
        (Layout::LumaA, 12, [10, 10, 10]),
        (Layout::Rgb, 8, [15, 16, 17]),
        (Layout::Rgba, 6, [20, 21, 22]),
    ] {
        let image = Image::from_raw(width, 1, layout, samples.clone()).unwrap();
        assert_eq!(image.rgb(5), expected, "{layout:?}");
        assert_eq!(24 / width as usize, layout.channels());
    }
}

#[test]
fn equal_colors_get_equal_grays() {
    let image = rgb_image(20, 20, |x, y| [(x % 5) as u8 * 50, (y % 3) as u8 * 90, 17u8]);
    for gray in [
        decolorize::<F64, _>(&image),
        decolorize_fast::<F64, _>(&image),
    ] {
        for i in 0..400 {
            for j in 0..400 {
                if image.rgb(i) == image.rgb(j) {
                    assert_eq!(gray.samples[i], gray.samples[j]);
                }
            }
        }
    }
}

#[test]
fn alpha_is_ignored() {
    let color = colorful(12, 9);
    let with_alpha = |alpha: fn(usize) -> u8| {
        let mut samples = Vec::new();
        for i in 0..108 {
            samples.extend(color.rgb(i));
            samples.push(alpha(i));
        }
        Image::from_raw(12, 9, Layout::Rgba, samples).unwrap()
    };
    for image in [with_alpha(|_| 255), with_alpha(|i| (i * 3) as u8)] {
        assert_eq!(decolorize::<F64, _>(&image), decolorize::<F64, _>(&color));
        assert_eq!(
            decolorize_fast::<F64, _>(&image),
            decolorize_fast::<F64, _>(&color)
        );
    }
}

#[test]
fn gray_images_are_color_images_without_color() {
    let values: Vec<u8> = (0..60).map(|i| (i * 37 % 251) as u8).collect();
    let luma = Image::from_raw(10, 6, Layout::Luma, values.clone()).unwrap();
    let mut doubled = Vec::new();
    for v in &values {
        doubled.extend([*v, 99]);
    }
    let luma_alpha = Image::from_raw(10, 6, Layout::LumaA, doubled).unwrap();
    let color = rgb_image(10, 6, |x, y| [values[(y * 10 + x) as usize]; 3]);
    for image in [luma, luma_alpha] {
        assert_eq!(decolorize::<F64, _>(&image), decolorize::<F64, _>(&color));
        assert_eq!(
            decolorize_fast::<F64, _>(&image),
            decolorize_fast::<F64, _>(&color)
        );
    }
}

#[test]
fn the_fitted_extents_never_exceed_the_bound() {
    for (width, height, bound, expected) in [
        (1000, 600, 800, (500, 300)),
        (30, 20, 800, (30, 20)),
        (400, 400, 800, (400, 400)),
        (401, 400, 800, (400, 400)),
        (5, 5, 5, (3, 2)),
        (10_000, 1, 800, (799, 1)),
        (1, 10_000, 800, (1, 799)),
        (3, 1, 3, (2, 1)),
        (9, 9, 2, (1, 1)),
        (9, 9, 1, (1, 1)),
        (u32::MAX, u32::MAX, 800, (400, 400)),
        (u32::MAX, 1, u32::MAX, (u32::MAX - 1, 1)),
    ] {
        let extents = fitted_extents::<F64>(width, height, bound);
        assert_eq!(extents, expected, "{width} x {height} within {bound}");
    }
    for bound in 2..40 {
        for width in 1..40 {
            for height in 1..40 {
                let (w, h) = fitted_extents::<F64>(width, height, bound);
                assert!(w + h <= bound);
                assert!(1 <= w && w <= width && 1 <= h && h <= height);
            }
        }
    }
}

#[test]
fn every_source_pixel_counts_toward_the_copy() {
    // Three columns become two: the middle one counts toward both.
    let image = rgb_image(3, 1, |x, _| [[0u8, 255, 51][x as usize]; 3]);
    let planes = Planes::<F64>::downscale(&image, 3);
    assert_eq!((planes.width, planes.height), (2, 1));
    assert_eq!(planes.r, [0.5, 0.6].map(F64));

    // Whatever single pixel is lit, some mean is not black.
    for lit in 0..35 {
        let image = rgb_image(7, 5, |x, y| [if y * 7 + x == lit { 255u8 } else { 0 }; 3]);
        let planes = Planes::<F64>::downscale(&image, 5);
        assert!(planes.g.iter().any(|v| v.0 > 0.0));
    }
}

#[test]
fn a_mean_holds_each_pixel_once() {
    let image = rgb_image(4, 4, |x, y| [(y * 4 + x) as f64, 1.0, 2.0]);
    let planes = Planes::<F64>::downscale(&image, 4);
    assert_eq!((planes.width, planes.height), (2, 2));
    // Rows 0 1 2 3, 4 5 6 7, 8 9 10 11, 12 13 14 15 in boxes of four.
    assert_eq!(planes.r, [2.5, 4.5, 10.5, 12.5].map(F64));
    assert_eq!(planes.g, [1.0; 4].map(F64));
    assert_eq!(planes.b, [2.0; 4].map(F64));
}

#[test]
fn small_images_keep_their_pixels() {
    let image = colorful(13, 7);
    let planes = Planes::<F64>::downscale(&image, 20);
    assert_eq!((planes.width, planes.height), (13, 7));
    for i in 0..91 {
        let [r, g, b] = image.rgb(i);
        assert_eq!(planes.r[i], F64(f64::from(r) / 255.0));
        assert_eq!(planes.g[i], F64(f64::from(g) / 255.0));
        assert_eq!(planes.b[i], F64(f64::from(b) / 255.0));
    }
}

#[test]
fn means_lie_on_the_unit_interval_and_between_the_samples() {
    let image = rgb_image(31, 17, |x, y| [255u8, 0, (80 + (x * 7 + y * 5) % 41) as u8]);
    let planes = Planes::<F64>::downscale(&image, 11);
    assert!(planes.r.iter().all(|v| *v == F64(1.0)));
    assert!(planes.g.iter().all(|v| *v == F64(0.0)));
    assert!(planes
        .b
        .iter()
        .all(|v| 80.0 / 255.0 <= v.0 && v.0 <= 120.0 / 255.0));
}

#[test]
fn pairs_are_the_edges_each_once() {
    // Powers of two, so that every difference tells its two pixels.
    let (width, height) = (4, 3);
    let plane: Vec<F64> = (0..12).map(|i| F64(f64::from(1u32 << i))).collect();
    let mut out = vec![F64(0.5); 20];
    pair_differences(&plane, width, height, &mut out);
    let mut edges = Vec::new();
    for y in 0..height {
        for x in 0..width - 1 {
            edges.push((y * width + x, y * width + x + 1));
        }
    }
    for y in 0..height - 1 {
        for x in 0..width {
            edges.push((y * width + x, (y + 1) * width + x));
        }
    }
    assert_eq!(edges.len(), 17);
    for (k, (first, second)) in edges.iter().enumerate() {
        assert_eq!(out[k], F64(plane[*first].0 - plane[*second].0));
    }
    // What lies beyond the pairs is left alone.
    assert_eq!(out[17..], [F64(0.5); 3]);
}

#[test]
fn planes_without_extent_have_no_pairs() {
    let mut out = [F64(7.0)];
    pair_differences(&[], 0, 0, &mut out);
    pair_differences(&[], 0, 5, &mut out);
    pair_differences(&[], 5, 0, &mut out);
    pair_differences(&[F64(1.0)], 1, 1, &mut out);
    assert_eq!(out, [F64(7.0)]);
}

#[test]
fn the_candidates_are_all_convex_weightings_each_once() {
    let candidates = candidate_weights::<F64>();
    let tenths: Vec<[u32; 3]> = candidates
        .iter()
        .map(|w| w.map(|v| (v.0 * 10.0).round() as u32))
        .collect();
    assert!(tenths.iter().all(|w| w[0] + w[1] + w[2] == 10));
    let mut expected = Vec::new();
    for r in 0..=10 {
        for g in 0..=10 - r {
            expected.push([r, g, 10 - r - g]);
        }
    }
    assert_eq!(tenths, expected);
    assert_eq!(candidates[0], [0.0, 0.0, 1.0].map(F64));
    assert_eq!(candidates[65], [1.0, 0.0, 0.0].map(F64));
    assert_eq!(candidates[12], [0.1, 0.1, 0.8].map(F64));
}

#[test]
fn the_last_of_several_best_candidates_wins() {
    let indifferent = vec![Pair {
        difference: (F64(0.0), F64(0.0), F64(0.0)),
        contrast: F64(0.5),
    }];
    assert_eq!(best_weights(&indifferent, F64(0.05)), [1.0, 0.0, 0.0].map(F64));
}

#[test]
fn the_best_weights_are_not_outscored() {
    let pairs = vec![
        Pair {
            difference: (F64(0.2), F64(0.9), F64(-0.4)),
            contrast: F64(0.6),
        },
        Pair {
            difference: (F64(-0.3), F64(0.1), F64(0.8)),
            contrast: F64(0.4),
        },
    ];
    let best = best_weights(&pairs, F64(0.2));
    let top = score(&pairs, &best, F64(0.2));
    for candidate in candidate_weights::<F64>() {
        assert!(score(&pairs, &candidate, F64(0.2)).0 <= top.0);
    }
    let green = vec![Pair {
        difference: (F64(0.0), F64(1.0), F64(0.0)),
        contrast: F64(1.0),
    }];
    assert_eq!(best_weights(&green, F64(0.05)), [0.0, 1.0, 0.0].map(F64));
}

#[test]
fn nothing_to_search_means_the_channel_average() {
    assert_eq!(best_weights(&Vec::new(), F64(0.05)), [F64(1.0 / 3.0); 3]);
    let image = flat(30, 20, [200, 10, 90]);
    assert!(sample_pairs(&image, FastOptions::default()).is_empty());
    let weights = search_linear_weights(&image, FastOptions::default());
    assert_eq!(weights, [F64(1.0 / 3.0); 3]);
    let gray = decolorize_fast::<F64, _>(&image);
    assert!(gray.samples.iter().all(|p| *p == 100));
}

#[test]
fn a_score_is_the_mean_log_likelihood() {
    let pair = |contrast: f64| Pair {
        difference: (F64(1.0), F64(0.0), F64(0.0)),
        contrast: F64(contrast),
    };
    let weights = [1.0, 0.0, 0.0].map(F64);
    // Gaps of 0 and 2 at a standard deviation of 1.
    let one = (1.0 + (-2.0f64).exp()).ln();
    assert!((score(&vec![pair(1.0)], &weights, F64(1.0)).0 - one).abs() < 1e-15);
    // Gaps of 1 and 1.
    let other = -0.5 + 2.0f64.ln();
    let both = score(&vec![pair(1.0), pair(0.0)], &weights, F64(1.0)).0;
    assert!((both - (one + other) / 2.0).abs() < 1e-15);
}

#[test]
fn only_contrasting_pairs_are_scored() {
    let image = colorful(24, 24);
    let options = |threshold: f64| FastDecolorizeOptions {
        samples: 8,
        contrast_threshold: F64(threshold),
        ..FastOptions::default()
    };
    let places = sample_places::<F64>(24, 24, 8, 0);
    let all = sample_pairs(&image, options(0.0));
    assert_eq!(all.len(), places.len());
    let some = sample_pairs(&image, options(0.3));
    assert!(some.iter().all(|pair| pair.contrast.0 >= 0.3));
    let reaching = all.iter().filter(|pair| pair.contrast.0 >= 0.3).count();
    assert_eq!(some.len(), reaching);
    assert!(0 < reaching && reaching < all.len());
}

#[test]
fn a_pair_measures_the_distance_in_rgb() {
    // Two pixels, and two grid points that the seed matches crosswise.
    let image = rgb_image(2, 1, |x, _| if x == 0 { [255u8, 0, 51] } else { [0, 0, 0] });
    let options = FastDecolorizeOptions {
        contrast_threshold: F64(0.0),
        seed: 2,
        ..FastOptions::default()
    };
    let pairs = sample_pairs(&image, options);
    assert_eq!(pairs.len(), 2);
    assert_eq!(pairs[0].difference, (F64(1.0), F64(0.0), F64(0.2)));
    let length = (1.0f64 + 0.2 * 0.2).sqrt() / std::f64::consts::SQRT_2;
    assert_eq!(pairs[0].contrast, F64(length));
    assert_eq!(pairs[1].difference, (F64(-1.0), F64(0.0), F64(-0.2)));
}

#[test]
fn every_grid_point_is_matched_once() {
    for seed in [0, 1, 99] {
        let places = sample_places::<F64>(100, 50, 8, seed);
        // 8 samples over 100 x 50 make a grid of 11 by 6, halved 5 by 3.
        assert_eq!(places.len(), 11 * 6 + 4 * 3 + 5 * 2);
        let mut firsts: Vec<_> = places[..66].iter().map(|p| (p.0.x, p.0.y)).collect();
        let mut seconds: Vec<_> = places[..66].iter().map(|p| (p.1.x, p.1.y)).collect();
        assert_ne!(firsts, seconds);
        firsts.sort();
        seconds.sort();
        assert_eq!(firsts, seconds);
        for place in &places {
            assert!(place.0.x < 100 && place.0.y < 50 && place.1.x < 100 && place.1.y < 50);
        }
        assert_eq!((places[0].0.x, places[0].0.y), (4, 4));
        assert_eq!((places[65].0.x, places[65].0.y), (95, 45));
        // Neighbors in the next column, then in the next row.
        assert_eq!((places[66].0.x, places[66].0.y), (10, 8));
        assert_eq!((places[66].1.x, places[66].1.y), (30, 8));
        assert_eq!((places[78].0.x, places[78].0.y), (10, 8));
        assert_eq!((places[78].1.x, places[78].1.y), (10, 25));
    }
}

#[test]
fn matched_differences_nearly_cancel() {
    let image = colorful(100, 50);
    let n = 66;
    let options = FastDecolorizeOptions {
        samples: 8,
        contrast_threshold: F64(0.0),
        ..FastOptions::default()
    };
    let pairs = sample_pairs(&image, options);
    let (mut r, mut g, mut b) = (0.0, 0.0, 0.0);
    for pair in &pairs[..n] {
        r += pair.difference.0 .0;
        g += pair.difference.1 .0;
        b += pair.difference.2 .0;
    }
    let bound = 6.0 * (n * n) as f64 * 2.0f64.powi(-53);
    assert!(r.abs() <= bound && g.abs() <= bound && b.abs() <= bound);
}

#[test]
fn thin_images_give_no_larger_sample() {
    let black: Image<u8> =
        Image::from_raw(1_000_000, 1, Layout::Luma, vec![0; 1_000_000]).unwrap();
    let options = FastDecolorizeOptions {
        samples: 64,
        contrast_threshold: F64(0.0),
        ..FastOptions::default()
    };
    assert_eq!(grid_size::<F64>(1_000_000, 1, 64), (4096, 1));
    assert_eq!(sample_pairs(&black, options).len(), 4096);
    assert_eq!(grid_size::<F64>(1, 1_000_000, 64), (1, 4096));
    assert_eq!(sample_places::<F64>(1, 1_000_000, 64, 0).len(), 4096);
    // One line fits as soon as it is nearer than none.
    assert_eq!(grid_size::<F64>(10_000, 1, 64), (6400, 1));
    assert_eq!(grid_size::<F64>(100, 50, 8), (11, 6));
    assert_eq!(grid_size::<F64>(5, 5, 64), (5, 5));
    for (width, height) in [(1, 1), (7, 3), (400, 1), (1, 9_000), (70_000, 2), (2_000, 2_000)] {
        for samples in [1, 2, 5, 40] {
            let (columns, rows) = grid_size::<F64>(width, height, samples);
            let budget = (samples * samples) as usize;
            assert!(1 <= columns && columns <= width && 1 <= rows && rows <= height);
            assert!(columns * rows <= 2 * budget + 1);
            let places = sample_places::<F64>(width as u32, height as u32, samples, 9);
            assert!(places.len() <= 3 * budget + 1);
        }
    }
}

#[test]
fn a_single_pixel_is_its_own_partner() {
    let places = sample_places::<F64>(1, 1, 64, 3);
    assert_eq!(places.len(), 1);
    assert_eq!((places[0].0.x, places[0].0.y), (0, 0));
    assert_eq!(places[0].0, places[0].1);
}

#[test]
fn the_generator_is_splitmix64() {
    let mut rng = SplitMix64(0);
    assert_eq!(rng.next(), 0xE220_A839_7B1D_CDAF);
    assert_eq!(rng.next(), 0x6E78_9E6A_A1B9_65F4);
    assert_eq!(rng.next(), 0x06C4_5D18_8009_454F);
    let mut rng = SplitMix64(0);
    assert_eq!(rng.below(10), (0xE220_A839_7B1D_CDAFu64 % 10) as usize);
    for bound in 1..50 {
        assert!(rng.below(bound) < bound);
    }
}

#[test]
fn a_shuffle_is_a_permutation_that_the_seed_determines() {
    let mut items: Vec<u32> = (0..6).collect();
    shuffle(&mut items, 0);
    assert_eq!(items, [4, 2, 5, 3, 0, 1]);
    let mut items: Vec<u32> = (0..6).collect();
    shuffle(&mut items, 7);
    assert_eq!(items, [1, 5, 0, 2, 4, 3]);
    let mut many: Vec<u32> = (0..1000).collect();
    shuffle(&mut many, 5);
    assert_ne!(many, (0..1000).collect::<Vec<u32>>());
    many.sort();
    assert_eq!(many, (0..1000).collect::<Vec<u32>>());
    let mut none: Vec<u32> = Vec::new();
    shuffle(&mut none, 5);
    assert!(none.is_empty());
}

#[test]
fn chunks_merge_into_the_whole() {
    // More pairs than one chunk holds.
    let planes = Planes::<F64>::downscale(&colorful(80, 70), 800);
    let pairs = planes.pair_count();
    assert_eq!(pairs, 79 * 70 + 80 * 69);
    assert!(pairs > 8192);
    let (contrast, order) = (color_contrast(&planes), weak_order(&planes));
    let basis = monomial_differences(&planes);
    let weights = [F64(0.2); NUM_MONOMIALS];
    let pass =
        |start, len| accumulate_pairs(&basis, &contrast, &order, &weights, F64(0.02), start, len);
    let whole = pass(0, pairs);
    let parts = Accumulator::zero()
        .merge(pass(0, 8192))
        .merge(pass(8192, pairs - 8192));
    assert!((whole.energy.0 - parts.energy.0).abs() < 1e-6 * whole.energy.0.abs());
    for j in 0..NUM_MONOMIALS {
        assert!((whole.rhs[j].0 - parts.rhs[j].0).abs() < 1e-6);
    }
    let none = pass(3, 0);
    assert_eq!(none.energy, F64(0.0));
    assert_eq!(none.rhs, [F64(0.0); NUM_MONOMIALS]);
}

#[test]
fn a_pass_evaluates_the_objective() {
    // One pair: gray difference 0.5 under the weights, contrast 0.25.
    let mut basis = vec![vec![F64(0.0)]; NUM_MONOMIALS];
    basis[0][0] = F64(0.5);
    let mut weights = [F64(0.0); NUM_MONOMIALS];
    weights[0] = F64(1.0);
    let pass = |order: f64| {
        let (contrast, order) = (vec![F64(0.25)], vec![F64(order)]);
        accumulate_pairs(&basis, &contrast, &order, &weights, F64(0.5), 0, 1)
    };
    // The gaps are 0.25 and 0.75, and 1 / (2 sigma^2) is 2.
    let (upper, lower) = ((-0.125f64).exp(), (-1.125f64).exp());
    let mixed = pass(0.0);
    assert!((mixed.energy.0 + ((upper + lower) / 2.0).ln()).abs() < 1e-15);
    let responsibility = (upper - lower) / (upper + lower);
    assert!((mixed.rhs[0].0 - 0.5 * 0.25 * responsibility).abs() < 1e-15);
    assert_eq!(mixed.rhs[1], F64(0.0));
    // An unambiguous order leaves one mode.
    let first = pass(1.0);
    assert!((first.energy.0 - 0.125).abs() < 1e-15);
    assert_eq!(first.rhs[0], F64(0.125));
    let second = pass(-1.0);
    assert!((second.energy.0 - 1.125).abs() < 1e-15);
    assert_eq!(second.rhs[0], F64(-0.125));
}

#[test]
fn responsibilities_are_bounded() {
    let planes = Planes::<F64>::downscale(&colorful(16, 16), 800);
    let contrast = color_contrast(&planes);
    let order = weak_order(&planes);
    let basis = vec![vec![F64(1.0); contrast.len()]; NUM_MONOMIALS];
    for weight in [-3.0, 0.0, 0.1, 5.0] {
        let weights = [F64(weight); NUM_MONOMIALS];
        for k in 0..contrast.len() {
            let one = accumulate_pairs(&basis, &contrast, &order, &weights, F64(0.02), k, 1);
            assert!(one.rhs[0].0.abs() <= contrast[k].0);
        }
    }
}

#[test]
fn the_normal_equations_are_symmetric() {
    let planes = Planes::<F64>::downscale(&colorful(9, 8), 800);
    let (contrast, order) = (color_contrast(&planes), weak_order(&planes));
    let basis = monomial_differences(&planes);
    let gram = gram_matrix(&basis, &contrast, &order);
    for i in 0..NUM_MONOMIALS {
        for j in 0..NUM_MONOMIALS {
            assert_eq!(gram[i][j], gram[j][i]);
            let mut product = 0.0;
            for k in 0..contrast.len() {
                product += basis[i][k].0 * basis[j][k].0;
            }
            assert!((gram[i][j].0 - product).abs() < 1e-9);
        }
    }
}

#[test]
fn a_larger_budget_changes_nothing_once_settled() {
    let planes = Planes::<F64>::downscale(&colorful(20, 20), 800);
    let fit = |max_iterations: usize, tolerance: f64| {
        let options = DecolorizeOptions {
            max_iterations,
            tolerance: F64(tolerance),
            ..Options::default()
        };
        fit_weights(&planes, options)
    };
    // The first iteration has nothing to compare with, the second settles.
    assert_eq!(fit(2, 1e9), fit(50, 1e9));
    assert_eq!(fit(1, 1e9), fit(50, 1e9));
    assert_ne!(fit(1, 1e-4), fit(5, 1e-4));
}

#[test]
fn no_budget_leaves_the_channel_average() {
    let planes = Planes::<F64>::downscale(&colorful(20, 20), 800);
    let options = DecolorizeOptions {
        max_iterations: 0,
        ..Options::default()
    };
    let weights = fit_weights(&planes, options);
    let mut average = [F64(0.0); NUM_MONOMIALS];
    average[..3].copy_from_slice(&[F64(1.0 / 3.0); 3]);
    assert_eq!(weights, average);
    // So does an image without pairs, and one that is flat.
    let single = Planes::<F64>::downscale(&flat(1, 1, [9, 8, 7]), 800);
    assert_eq!(fit_weights(&single, Options::default()), average);
    let even = Planes::<F64>::downscale(&flat(6, 6, [9, 8, 7]), 800);
    assert_eq!(fit_weights(&even, Options::default()), average);
}

#[test]
fn iteration_stops_once_the_change_is_less_than_the_tolerance() {
    let planes = Planes::<F64>::downscale(&colorful(20, 20), 800);
    let fit = |max_iterations: usize, tolerance: f64| {
        let options = DecolorizeOptions {
            max_iterations,
            tolerance: F64(tolerance),
            ..Options::default()
        };
        fit_weights(&planes, options)
    };
    // The energy before the first pass is infinite. A change by infinity is not
    // less than infinity, every later change is.
    assert_eq!(fit(15, f64::INFINITY), fit(1, 0.0));
    assert_ne!(fit(15, f64::INFINITY), fit(0, 0.0));
    // Nothing is less than zero, so the budget is used up.
    assert_ne!(fit(3, 0.0), fit(2, 0.0));
}

#[test]
fn the_coefficients_are_finite() {
    for image in [
        colorful(30, 30),
        flat(8, 8, [1, 2, 3]),
        two_bands([255, 0, 0], [0, 0, 255], 10, 10),
    ] {
        let planes = Planes::<F64>::downscale(&image, 800);
        for sigma in [1e-9, 0.02, 1e9] {
            let options = DecolorizeOptions {
                sigma: F64(sigma),
                ..Options::default()
            };
            let weights = fit_weights(&planes, options);
            assert!(weights.iter().all(|w| w.0.is_finite()));
        }
    }
}

#[test]
fn black_and_white_occur_and_grays_follow_the_polynomial() {
    let image = colorful(25, 19);
    let planes = Planes::<F64>::downscale(&image, 800);
    let weights = fit_weights(&planes, Options::default());
    let gray = apply_polynomial(&image, &weights);
    assert_eq!(gray, decolorize::<F64, _>(&image));
    assert!(gray.samples.contains(&0) && gray.samples.contains(&255));
    let level = |i: usize| {
        let [r, g, b] = image.rgb(i);
        evaluate(&weights, r.to_unit(), g.to_unit(), b.to_unit()).single()
    };
    for i in 0..475 {
        for j in 0..475 {
            if level(i) <= level(j) {
                assert!(gray.samples[i] <= gray.samples[j]);
            }
        }
    }
}

#[test]
fn levels_are_stretched_linearly() {
    let mut weights = [F64(0.0); NUM_MONOMIALS];
    weights[0] = F64(2.0);
    let image = rgb_image(5, 1, |x, _| [f64::from(x), 0.0, 0.0]);
    let gray = apply_polynomial(&image, &weights);
    assert_eq!(gray.samples, [0.0, 0.25, 0.5, 0.75, 1.0]);
    // A constant level has no extent to stretch, so it stays where it lands.
    for (value, expected) in [(0.25, 0.5), (7.0, 1.0), (-7.0, 0.0)] {
        let image = rgb_image(3, 1, |_, _| [value, 0.0, 0.0]);
        assert_eq!(apply_polynomial(&image, &weights).samples, [expected; 3]);
    }
}

#[test]
fn a_polynomial_has_nine_monomials() {
    let exponents: Vec<_> = (0..NUM_MONOMIALS)
        .map(|i| (monomial(i).r, monomial(i).g, monomial(i).b))
        .collect();
    let expected = [
        (1, 0, 0),
        (0, 1, 0),
        (0, 0, 1),
        (1, 1, 0),
        (1, 0, 1),
        (0, 1, 1),
        (2, 0, 0),
        (0, 2, 0),
        (0, 0, 2),
    ];
    assert_eq!(exponents, expected);
    let weights: [F64; NUM_MONOMIALS] = std::array::from_fn(|i| F64((i + 1) as f64));
    // 1*2 + 2*3 + 3*5 + 4*6 + 5*10 + 6*15 + 7*4 + 8*9 + 9*25
    assert_eq!(evaluate(&weights, F64(2.0), F64(3.0), F64(5.0)), F64(512.0));

    let planes = Planes {
        width: 2,
        height: 1,
        r: vec![F64(2.0), F64(1.0)],
        g: vec![F64(3.0), F64(1.0)],
        b: vec![F64(5.0), F64(1.0)],
    };
    let differences: Vec<F64> = monomial_differences(&planes).iter().map(|d| d[0]).collect();
    assert_eq!(
        differences,
        [1.0, 2.0, 4.0, 5.0, 9.0, 14.0, 3.0, 8.0, 24.0].map(F64)
    );
}

#[test]
fn the_initial_mapping_is_the_channel_average() {
    let mut weights = [F64(0.0); NUM_MONOMIALS];
    weights[..3].copy_from_slice(&[F64(1.0 / 3.0); 3]);
    let average = evaluate(&weights, F64(0.3), F64(0.6), F64(0.9));
    assert!((average.0 - 0.6).abs() < 1e-15);
}

#[test]
fn integral_samples_span_the_unit_interval() {
    let unit = |sample: u8| -> F64 { sample.to_unit() };
    assert_eq!(unit(0), F64(0.0));
    assert_eq!(unit(255), F64(1.0));
    assert_eq!(unit(51), F64(0.2));
    let wide = |sample: u16| -> F64 { sample.to_unit() };
    assert_eq!(wide(0), F64(0.0));
    assert_eq!(wide(65_535), F64(1.0));
    assert_eq!(wide(13_107), F64(0.2));
    let mut last = F64(-1.0);
    for sample in 0..=255u8 {
        assert!(unit(sample) > last && unit(sample).0 <= 1.0);
        last = unit(sample);
    }
}

#[test]
fn conversion_to_integral_samples_rounds_and_saturates() {
    for (value, byte, word) in [
        (0.0, 0, 0),
        (1.0, 255, 65_535),
        (0.5, 128, 32_768),
        (-0.1, 0, 0),
        (1.1, 255, 65_535),
        (-1e300, 0, 0),
        (1e300, 255, 65_535),
        (f64::INFINITY, 255, 65_535),
        (f64::NEG_INFINITY, 0, 0),
        (f64::NAN, 0, 0),
        (0.499 / 255.0, 0, 128),
        (0.501 / 255.0, 1, 129),
    ] {
        assert_eq!(u8::from_unit(F64(value)), byte, "{value}");
        assert_eq!(u16::from_unit(F64(value)), word, "{value}");
    }
}

#[test]
fn samples_survive_a_round_trip() {
    for sample in 0..=255u8 {
        let unit: F64 = sample.to_unit();
        assert_eq!(u8::from_unit(unit), sample);
    }
    for sample in 0..=65_535u16 {
        let unit: F64 = sample.to_unit();
        assert_eq!(u16::from_unit(unit), sample);
    }
}

#[test]
fn conversion_keeps_the_order() {
    let mut last = 0;
    for step in -50..1100 {
        let sample = u8::from_unit(F64(f64::from(step) / 1000.0));
        assert!(sample >= last);
        last = sample;
    }
}

#[test]
fn the_search_preserves_the_brightness_of_grays() {
    // Gray pixels among colored ones, so that the search has work to do.
    let image = rgb_image(16, 16, |x, y| {
        if x < 8 {
            [(y * 16) as u8; 3]
        } else {
            [200, (y * 9) as u8, 10]
        }
    });
    let gray = decolorize_fast::<F64, _>(&image);
    for y in 0..16 {
        assert_eq!(gray_at(&gray, 3, y), (y * 16) as u8);
    }
    let wide = rgb_image(256, 4, |x, y| [(x * 256 + y * 17) as u16; 3]);
    assert_eq!(
        decolorize_fast::<F64, _>(&wide).samples,
        (0..4)
            .flat_map(|y| (0..256).map(move |x| (x * 256 + y * 17) as u16))
            .collect::<Vec<_>>()
    );
}

#[test]
fn the_weights_of_a_search_are_convex() {
    for image in [colorful(30, 20), two_bands([9, 200, 1], [90, 2, 77], 20, 20)] {
        let weights = search_linear_weights(&image, FastOptions::default());
        assert!(weights.iter().all(|w| w.0 >= 0.0));
        let sum: f64 = weights.iter().map(|w| w.0).sum();
        assert!((sum - 1.0).abs() < 1e-12);
    }
}

#[test]
fn combinations_are_weighted_sums() {
    let image = rgb_image(2, 1, |x, _| if x == 0 { [1.0, 0.5, 0.25] } else { [0.0, 1.0, 0.0] });
    let gray = apply_linear(&image, [0.5, 0.25, 0.25].map(F64));
    assert_eq!(gray.samples, [0.6875, 0.25]);
    assert_eq!((gray.width, gray.height, gray.layout), (2, 1, Layout::Luma));
}

#[test]
fn grays_are_neutral() {
    for step in 0..=100 {
        let v = F64(f64::from(step) / 100.0);
        let (l, a, b) = srgb_to_lab(v, v, v);
        assert!(a.0.abs() < 1e-9 && b.0.abs() < 1e-9);
        let bound = 5_000_000.0 * 2.0f64.powi(-53);
        assert!(a.0.abs() <= bound && b.0.abs() <= bound);
        assert!(-1e-9 < l.0 && l.0 < 100.0 + 1e-9);
    }
    // Colors beyond the unit interval count as the nearest one on it.
    assert_eq!(
        srgb_to_lab(F64(2.0), F64(-3.0), F64(0.5)),
        srgb_to_lab(F64(1.0), F64(0.0), F64(0.5))
    );
}

#[test]
fn the_transfer_function_has_a_linear_part() {
    assert_eq!(srgb_to_linear(F64(0.0)), F64(0.0));
    assert_eq!(srgb_to_linear(F64(0.04)), F64(0.04 / 12.92));
    assert_eq!(srgb_to_linear(F64(0.040_45)), F64(0.040_45 / 12.92));
    let half = ((0.5f64 + 0.055) / 1.055).powf(2.4);
    assert_eq!(srgb_to_linear(F64(0.5)), F64(half));
    assert_eq!(srgb_to_linear(F64(1.0)), F64(1.0));
}

#[test]
fn equal_neighbors_have_no_contrast() {
    let planes = Planes::<F64>::downscale(&flat(4, 3, [12, 130, 250]), 800);
    assert_eq!(color_contrast(&planes), [F64(0.0); 17]);
    // Black and white are a lightness of 100 apart.
    let contrast = color_contrast(&gray_planes(2, 1, &[0.0, 1.0]));
    assert!((contrast[0].0 - 1.0).abs() < 1e-9);
}

#[test]
fn the_weak_order_is_antisymmetric() {
    let forth = weak_order(&gray_planes(4, 1, &[0.9, 0.5, 0.52, 0.8]));
    assert_eq!(forth, [1.0, 0.0, -1.0].map(F64));
    let back = weak_order(&gray_planes(4, 1, &[0.8, 0.52, 0.5, 0.9]));
    assert_eq!(back, [1.0, 0.0, -1.0].map(F64));
    // One channel is enough to leave the order open.
    let mixed = Planes {
        width: 2,
        height: 1,
        r: vec![F64(0.9), F64(0.1)],
        g: vec![F64(0.9), F64(0.1)],
        b: vec![F64(0.5), F64(0.45)],
    };
    assert_eq!(weak_order(&mixed), [F64(0.0)]);
}

#[test]
fn intervals_restrict_numbers() {
    assert_eq!(clamp(F64(0.5), F64(0.0), F64(1.0)), F64(0.5));
    assert_eq!(clamp(F64(-0.5), F64(0.0), F64(1.0)), F64(0.0));
    assert_eq!(clamp(F64(1.5), F64(0.0), F64(1.0)), F64(1.0));
    assert!(clamp(F64(f64::NAN), F64(0.0), F64(1.0)).0.is_nan());
    assert_eq!(ratio::<F64>(1, 3), F64(1.0 / 3.0));
    assert_eq!(ratio::<F64>(40_450, 1_000_000), F64(0.040_45));
}

#[test]
fn floating_point_samples_are_taken_as_they_are() {
    let image = rgb_image(6, 4, |x, y| [f64::from(x) / 5.0, f64::from(y) / 3.0, 0.25]);
    let gray = decolorize::<F64, _>(&image);
    assert!(gray.samples.contains(&0.0) && gray.samples.contains(&1.0));
    let flat_image = rgb_image(3, 3, |_, _| [0.3f32, 0.3, 0.3]);
    let gray = decolorize_fast::<F64, _>(&flat_image);
    assert!(gray.samples.iter().all(|v| (*v - 0.3).abs() < 1e-6));
}

#[test]
fn runs_agree_for_every_option() {
    let image = colorful(33, 21);
    let options = DecolorizeOptions {
        sigma: F64(0.1),
        max_iterations: 4,
        tolerance: F64(1e-9),
        fitting_size: 20,
    };
    assert_eq!(decolorize_with(&image, options), decolorize_with(&image, options));
    let options = FastDecolorizeOptions {
        sigma: F64(0.1),
        samples: 5,
        contrast_threshold: F64(0.2),
        seed: 77,
    };
    assert_eq!(
        decolorize_fast_with(&image, options),
        decolorize_fast_with(&image, options)
    );
}

#[test]
fn the_search_keeps_the_order_of_channels() {
    let image = colorful(18, 14);
    let gray = decolorize_fast::<F64, _>(&image);
    for i in 0..252 {
        let p = image.rgb(i);
        // A gray lies between the channels of its pixel.
        let (low, high) = (p.iter().min().unwrap(), p.iter().max().unwrap());
        assert!(*low <= gray.samples[i] && gray.samples[i] <= *high);
        for j in 0..252 {
            let q = image.rgb(j);
            if p[0] <= q[0] && p[1] <= q[1] && p[2] <= q[2] {
                assert!(gray.samples[i] <= gray.samples[j]);
            }
        }
    }
}

#[test]
fn gray_images_come_back_unchanged() {
    let image = colorful(21, 17);
    let gray = decolorize_fast::<F64, _>(&image);
    let other = FastDecolorizeOptions {
        sigma: F64(0.3),
        samples: 7,
        contrast_threshold: F64(0.01),
        seed: 4,
    };
    assert_eq!(decolorize_fast_with(&gray, other), gray);
    let wide = rgb_image(9, 9, |x, y| [(x * 7000) as u16, (y * 7000) as u16, 31_000]);
    let gray = decolorize_fast::<F64, _>(&wide);
    assert_eq!(decolorize_fast_with(&gray, other), gray);
}

#[test]
fn wide_samples_use_the_full_output_range() {
    let image = rgb_image(9, 7, |x, y| [(x * 7000) as u16, (y * 9000) as u16, 31_000]);
    let gray = decolorize::<F64, _>(&image);
    assert_eq!(gray.samples.iter().copied().min(), Some(0));
    assert_eq!(gray.samples.iter().copied().max(), Some(65_535));
    // Whatever the coefficients are.
    let weights: [F64; NUM_MONOMIALS] = std::array::from_fn(|i| F64(0.4 - 0.1 * i as f64));
    let gray = apply_polynomial(&image, &weights);
    assert!(gray.samples.contains(&0) && gray.samples.contains(&65_535));
}

#[test]
fn a_larger_budget_fits_no_worse() {
    let planes = Planes::<F64>::downscale(&colorful(24, 24), 800);
    let (contrast, order) = (color_contrast(&planes), weak_order(&planes));
    let basis = monomial_differences(&planes);
    let mut last = f64::INFINITY;
    for max_iterations in 0..12 {
        let options = DecolorizeOptions {
            max_iterations,
            tolerance: F64(0.0),
            ..Options::default()
        };
        let weights = fit_weights(&planes, options);
        let pass = accumulate_pairs(
            &basis,
            &contrast,
            &order,
            &weights,
            options.sigma,
            0,
            contrast.len(),
        );
        assert!(pass.energy.0 <= last + 1e-6 * last.abs().min(1e9));
        last = pass.energy.0;
    }
}

#[test]
fn turning_pairs_round_changes_nothing() {
    let planes = Planes::<F64>::downscale(&colorful(12, 10), 800);
    let (contrast, order) = (color_contrast(&planes), weak_order(&planes));
    let basis = monomial_differences(&planes);
    let flip = |k: usize, v: F64| if k % 3 == 0 { F64(-v.0) } else { v };
    let turned: Vec<Vec<F64>> = basis
        .iter()
        .map(|row| row.iter().enumerate().map(|(k, v)| flip(k, *v)).collect())
        .collect();
    let turned_order: Vec<F64> = order.iter().enumerate().map(|(k, v)| flip(k, *v)).collect();
    let weights: [F64; NUM_MONOMIALS] = std::array::from_fn(|i| F64(0.3 - 0.05 * i as f64));
    let n = contrast.len();
    let a = accumulate_pairs(&basis, &contrast, &order, &weights, F64(0.02), 5, n - 5);
    let b = accumulate_pairs(&turned, &contrast, &turned_order, &weights, F64(0.02), 5, n - 5);
    assert_eq!(a.energy, b.energy);
    assert_eq!(a.rhs, b.rhs);
}

#[test]
fn turning_pairs_round_keeps_the_normal_equations() {
    // Flat parts give differences of zero, which have no other sign when turned.
    let mut image = colorful(12, 10);
    for at in 0..40 {
        image.samples.copy_within(0..3, 3 * at);
    }
    let planes = Planes::<F64>::downscale(&image, 800);
    let (contrast, order) = (color_contrast(&planes), weak_order(&planes));
    let basis = monomial_differences(&planes);
    let turn = |v: &F64| F64(0.0 - v.0);
    let turned: Vec<Vec<F64>> = basis
        .iter()
        .map(|row| row.iter().map(turn).collect())
        .collect();
    let turned_order: Vec<F64> = order.iter().map(turn).collect();
    assert!(basis.iter().all(|row| row.contains(&F64(0.0))));
    assert_eq!(
        gram_matrix(&basis, &contrast, &order),
        gram_matrix(&turned, &contrast, &turned_order)
    );
    let weights: [F64; NUM_MONOMIALS] = std::array::from_fn(|i| F64(0.1 * i as f64 - 0.2));
    let n = contrast.len();
    let a = accumulate_pairs(&basis, &contrast, &order, &weights, F64(0.05), 0, n);
    let b = accumulate_pairs(&turned, &contrast, &turned_order, &weights, F64(0.05), 0, n);
    assert_eq!(a.energy.0.to_bits(), b.energy.0.to_bits());
    for (x, y) in a.rhs.iter().zip(&b.rhs) {
        assert_eq!(x.0.to_bits(), y.0.to_bits());
    }
}

#[test]
fn monomial_differences_make_gray_differences() {
    let planes = Planes::<F64>::downscale(&colorful(6, 5), 800);
    let basis = monomial_differences(&planes);
    let weights: [F64; NUM_MONOMIALS] = std::array::from_fn(|i| F64(0.7 - 0.2 * i as f64));
    let level = |i: usize| evaluate(&weights, planes.r[i], planes.g[i], planes.b[i]).0;
    let levels: Vec<F64> = (0..30).map(|i| F64(level(i))).collect();
    let mut expected = vec![F64(0.0); planes.pair_count()];
    pair_differences(&levels, 6, 5, &mut expected);
    for (k, gap) in expected.iter().enumerate() {
        let sum: f64 = (0..NUM_MONOMIALS).map(|j| weights[j].0 * basis[j][k].0).sum();
        assert!((sum - gap.0).abs() < 1e-12);
        let sizes: f64 = weights.iter().map(|w| w.0.abs()).sum();
        assert!((sum - gap.0).abs() <= 1_000.0 * 2.0f64.powi(-53) * (1.0 + sizes));
    }
}

#[test]
fn raising_a_sample_raises_a_mean() {
    let darker = colorful(11, 9);
    let before = Planes::<F64>::downscale(&darker, 8);
    for at in 0..99 {
        let mut lighter = darker.clone();
        if lighter.samples[3 * at] == 255 {
            continue;
        }
        lighter.samples[3 * at] += 1;
        let after = Planes::<F64>::downscale(&lighter, 8);
        assert_eq!((after.width, after.height), (before.width, before.height));
        assert_eq!(after.g, before.g);
        assert_eq!(after.b, before.b);
        assert!(before.r.iter().zip(&after.r).all(|(a, b)| a.0 <= b.0));
        assert!(before.r.iter().zip(&after.r).any(|(a, b)| a.0 < b.0));
    }
}

#[test]
fn a_threshold_selects_a_subsequence() {
    let image = colorful(30, 22);
    let draw = |threshold: f64| {
        let options = FastDecolorizeOptions {
            contrast_threshold: F64(threshold),
            ..FastOptions::default()
        };
        let pairs = sample_pairs(&image, options);
        pairs
            .into_iter()
            .map(|pair| (pair.difference, pair.contrast))
            .collect::<Vec<_>>()
    };
    let all = draw(0.0);
    for threshold in [0.0, 0.1, 0.25, 0.8] {
        let mut expected = all.clone();
        expected.retain(|pair| pair.1 .0 >= threshold);
        assert_eq!(draw(threshold), expected);
    }
}

#[test]
fn small_squares_are_sampled_whole() {
    for n in [1u32, 2, 3, 7, 10] {
        let image = colorful(n, n);
        let draw = |seed: u64| {
            let options = FastDecolorizeOptions {
                contrast_threshold: F64(0.0),
                seed,
                ..FastOptions::default()
            };
            sample_pairs(&image, options)
        };
        let (size, half) = ((n * n) as usize, (n / 2) as usize);
        let (first, second) = (draw(0), draw(77));
        assert_eq!(first.len(), size + 2 * half.saturating_sub(1) * half);
        assert_eq!(second.len(), first.len());
        for pairs in [&first, &second] {
            let sum: f64 = pairs[..size].iter().map(|pair| pair.difference.1 .0).sum();
            assert!(sum.abs() < 1e-9);
        }
        for (a, b) in first[size..].iter().zip(&second[size..]) {
            assert_eq!(a.difference, b.difference);
        }
    }
}

#[test]
fn lightness_rises_with_each_channel() {
    let steps: Vec<f64> = (-2..=22).map(|i| f64::from(i) / 20.0).collect();
    let light = |r: f64, g: f64, b: f64| srgb_to_lab(F64(r), F64(g), F64(b)).0 .0;
    for r in &steps {
        for g in &steps {
            for b in &steps {
                let l = light(*r, *g, *b);
                assert!((-1e-9..=100.0 + 1e-9).contains(&l));
                let bound = 1_100_000.0 * 2.0f64.powi(-53);
                assert!(light(r + 0.01, g + 0.01, b + 0.01) >= l - bound);
                assert!(light(r + 0.01, *g, *b) >= l - 1e-9);
                assert!(light(*r, g + 0.01, *b) >= l - 1e-9);
                assert!(light(*r, *g, b + 0.01) >= l - 1e-9);
            }
        }
    }
    // Across the knee of the transfer function.
    assert!(srgb_to_linear(F64(0.040_450_1)) > srgb_to_linear(F64(0.040_45)));
}

#[test]
fn double_precision_rounds_in_order() {
    let mut numbers = vec![
        0.0,
        -0.0,
        1.0,
        -1.0,
        0.1,
        1.0 / 3.0,
        2.0,
        255.0,
        65_535.0,
        1e-300,
        5e-324,
        -5e-324,
        1e300,
        -1e300,
        f64::MAX,
        f64::MIN,
        f64::INFINITY,
        f64::NEG_INFINITY,
        f64::from(f32::MIN_POSITIVE),
        f64::from(0.1f32),
        9_007_199_254_740_992.0,
    ];
    numbers.push(f64::from(f32::from_bits(1)));
    let numbers: Vec<F64> = numbers.into_iter().map(F64).collect();
    let (zero, one) = (F64::from_int(0), F64::from_int(1));
    let positive = |a: F64| a.is_finite() && zero.less(a);
    for a in numbers.iter().copied() {
        assert!(zero.at_most(a.times(a)));
        assert_eq!(a.single().single(), a.single());
        if zero.at_most(a) {
            assert!(zero.at_most(a.square_root()));
        }
        if a.is_finite() {
            assert_eq!(a.minus(a), zero);
            assert_eq!(a.times(one), a);
        }
        if positive(a) {
            assert_eq!(zero.over(a), zero);
            assert_eq!(a.over(a), one);
            assert_eq!(zero.times(a), zero);
        }
        assert_eq!(F64::infinity().smaller(a), a);
        assert_eq!(F64::infinity().negated().larger(a), a);
        for b in numbers.iter().copied() {
            let finite = a.is_finite() && b.is_finite();
            if zero.at_most(a) && b.is_finite() && one.at_most(b) {
                assert!(a.over(b).at_most(a));
            }
            if b.is_finite() && zero.at_most(b) {
                assert!(a.at_most(a.plus(b)));
            }
            if zero.at_most(a) && zero.at_most(b) {
                assert!(zero.at_most(a.plus(b)));
                assert!(!finite || zero.at_most(a.times(b)));
            }
            if finite && a.single() == a && b.single() == b && a.less(b) {
                assert!(zero.less(b.minus(a).single()));
            }
            if !a.at_most(b) {
                continue;
            }
            assert!(a.single().at_most(b.single()));
            assert!(a.rounded().at_most(b.rounded()));
            assert!(a.truncated() <= b.truncated());
            for c in numbers.iter().copied() {
                if positive(c) {
                    assert!(a.over(c).at_most(b.over(c)));
                    assert!(a.times(c).at_most(b.times(c)));
                }
                if finite && c.is_finite() {
                    assert!(a.minus(c).at_most(b.minus(c)));
                    assert!(a.plus(c).at_most(b.plus(c)));
                    assert!(!zero.at_most(c) || c.times(a).at_most(c.times(b)));
                }
            }
        }
    }
    for n in [0, 1, 2, 3, 1000, 65_535, 94_906_265] {
        assert_eq!(F64::from_int(n * n).square_root(), F64::from_int(n));
        assert_eq!(F64::from_int(n).plus(one), F64::from_int(n + 1));
        assert_eq!(F64::from_int(n).truncated(), n as usize);
    }
}
