//! What holds up to rounding.
//!
//! Double precision operations return a number close to the exact result.
//! [`Arithmetic::is_accurate`] says how close, and the laws of this module hold
//! of every arithmetic that is so accurate.
use crate::decolorize::decolorize_fast_with;
use crate::definitions::{Image, Picture};
use crate::options::FastDecolorizeOptions;
use crate::sampling::Pair;
use crate::scalar::{Arithmetic, Scalar};
use crate::search::{Weighting, WEIGHT_STEPS};
use vstd::prelude::*;

verus! {

/// Whether two real numbers are at most `distance` apart.
pub open spec fn close(a: real, b: real, distance: real) -> bool {
    -distance <= a - b <= distance
}

impl<T> Arithmetic<T> {
    /// Whether `result` is as close to a real number as an operation is to come:
    /// up to `error` on the scale of that number, or of one where that is
    /// larger.
    pub open spec fn approximates(
        self,
        value: spec_fn(T) -> real,
        error: real,
        result: T,
        exact: real,
    ) -> bool {
        &&& (self.is_finite)(result)
        &&& close(
            value(result),
            exact,
            error * (1 as real + if exact < 0 as real {
                -exact
            } else {
                exact
            }),
        )
    }

    /// Whether a real number is of a size that operations are accurate at.
    pub open spec fn is_moderate(exact: real) -> bool {
        -(1_000_000_000_000_000_000 as real) <= exact <= 1_000_000_000_000_000_000 as real
    }

    /// Whether the operations on finite numbers come close to those of the real
    /// numbers, where `value` is the real number that a finite number stands
    /// for. Double precision has this with an error of `2^-53`; the laws need no
    /// more than `2^-40`.
    pub open spec fn is_accurate(self, value: spec_fn(T) -> real, error: real) -> bool {
        &&& 0 as real <= error
        &&& error * (1_099_511_627_776 as real) <= 1 as real
        &&& forall|n: u64|
            n <= Self::exact_integers() ==> (self.is_finite)(#[trigger] (self.from_int)(n))
                && value((self.from_int)(n)) == n as real
        &&& forall|a: T, b: T|
            (self.is_finite)(a) && (self.is_finite)(b) && Self::is_moderate(value(a) + value(b))
                ==> self.approximates(
                value,
                error,
                #[trigger] (self.plus)(a, b),
                value(a) + value(b),
            )
        &&& forall|a: T, b: T|
            (self.is_finite)(a) && (self.is_finite)(b) && Self::is_moderate(value(a) - value(b))
                ==> self.approximates(
                value,
                error,
                #[trigger] (self.minus)(a, b),
                value(a) - value(b),
            )
        &&& forall|a: T, b: T|
            (self.is_finite)(a) && (self.is_finite)(b) && Self::is_moderate(value(a) * value(b))
                ==> self.approximates(
                value,
                error,
                #[trigger] (self.times)(a, b),
                value(a) * value(b),
            )
        &&& forall|a: T, b: T|
            (self.is_finite)(a) && (self.is_finite)(b) && value(b) != 0 as real
                && Self::is_moderate(value(a) / value(b)) ==> self.approximates(
                value,
                error,
                #[trigger] (self.over)(a, b),
                value(a) / value(b),
            )
        &&& forall|a: T, b: T|
            (self.is_finite)(a) && (self.is_finite)(b) ==> (#[trigger] (self.less)(a, b)
                <==> value(a) < value(b))
        &&& forall|a: T, b: T|
            (self.is_finite)(a) && (self.is_finite)(b) ==> (#[trigger] (self.at_most)(a, b)
                <==> value(a) <= value(b))
        &&& forall|a: T|
            (self.is_finite)(a) ==> self.approximates(
                value,
                error,
                #[trigger] (self.power)(a, 0),
                1 as real,
            )
        &&& forall|a: T|
            (self.is_finite)(a) && Self::is_moderate(value(a)) ==> self.approximates(
                value,
                error,
                #[trigger] (self.power)(a, 1),
                value(a),
            )
        &&& forall|a: T|
            (self.is_finite)(a) && Self::is_moderate(value(a) * value(a)) ==> self.approximates(
                value,
                error,
                #[trigger] (self.power)(a, 2),
                value(a) * value(a),
            )
        &&& forall|a: T, n: u64|
            #![trigger (self.rounded)(a), (self.from_int)(n)]
            (self.is_finite)(a) && n <= u32::MAX && -(1 as real) < 2 as real * (value(a)
                - n as real) < 1 as real ==> (self.is_finite)((self.rounded)(a)) && value(
                (self.rounded)(a),
            ) == n as real
        &&& forall|a: T, n: u64|
            #![trigger (self.truncated)(a), (self.from_int)(n)]
            (self.is_finite)(a) && value(a) == n as real && n <= u32::MAX ==> (self.truncated)(a)
                == n
    }
}

/// A quotient of two integers.
proof fn lemma_fraction(n: int, d: int)
    requires
        0 <= n <= d,
        0 < d,
    ensures
        0 as real <= n as real / d as real <= 1 as real,
        (n as real / d as real) * d as real == n as real,
{
    let (a, b) = (n as real, d as real);
    let q = a / b;
    assert(q * b == a) by (nonlinear_arith)
        requires
            q == a / b,
            b > 0 as real,
    ;
    if q < 0 as real {
        crate::reals::lemma_multiple(b, q, 0 as real);
        assert(0 as real * b == 0 as real);
    }
    if q > 1 as real {
        crate::reals::lemma_multiple(b, 1 as real, q);
        assert(1 as real * b == b);
    }
}

/// The quotient of two integers comes close to it.
proof fn lemma_ratio<T>(
    m: Arithmetic<T>,
    value: spec_fn(T) -> real,
    error: real,
    n: u64,
    d: u64,
)
    requires
        m.is_accurate(value, error),
        n <= d <= u32::MAX,
        0 < d,
    ensures
        (m.is_finite)(m.ratio(n, d)),
        close(value(m.ratio(n, d)), n as real / d as real, 2 as real * error),
{
    lemma_fraction(n as int, d as int);
    let (a, b) = ((m.from_int)(n), (m.from_int)(d));
    assert(value(a) == n as real && value(b) == d as real);
    let q = n as real / d as real;
    assert(m.approximates(value, error, (m.over)(a, b), q));
    crate::reals::lemma_share(error, 1 as real + q, 2 as real);
    assert(error * (2 as real) == 2 as real * error);
}

/// A product of bounded numbers.
pub(crate) proof fn lemma_bounded_product(a: real, b: real, p: real, q: real)
    requires
        -p <= a <= p,
        -q <= b <= q,
    ensures
        -(p * q) <= a * b <= p * q,
{
    assert(-(p * q) <= a * b <= p * q) by (nonlinear_arith)
        requires
            -p <= a <= p,
            -q <= b <= q,
    ;
}

/// A product of numbers that are close to numbers on the unit interval.
proof fn lemma_product<T>(
    m: Arithmetic<T>,
    value: spec_fn(T) -> real,
    error: real,
    a: T,
    b: T,
    x: real,
    y: real,
)
    requires
        m.is_accurate(value, error),
        (m.is_finite)(a),
        (m.is_finite)(b),
        0 as real <= x <= 1 as real,
        0 as real <= y <= 1 as real,
        close(value(a), x, 2 as real * error),
        close(value(b), y, 2 as real * error),
    ensures
        (m.is_finite)((m.times)(a, b)),
        close(value((m.times)(a, b)), x * y, 9 as real * error),
        0 as real <= x * y <= 1 as real,
{
    let (p, q) = (value(a), value(b));
    crate::reals::lemma_products(0 as real, x, 0 as real, y);
    crate::reals::lemma_products(x, 1 as real, y, 1 as real);
    assert(0 as real * (0 as real) == 0 as real && 1 as real * (1 as real) == 1 as real);
    lemma_bounded_product(p - x, q, 2 as real * error, 2 as real);
    lemma_bounded_product(x, q - y, 1 as real, 2 as real * error);
    assert((p - x) * q + x * (q - y) == p * q - x * y) by (nonlinear_arith);
    assert((2 as real * error) * (2 as real) == 4 as real * error);
    assert(1 as real * (2 as real * error) == 2 as real * error);
    let exact = p * q;
    assert(close(exact, x * y, 6 as real * error));
    assert(m.approximates(value, error, (m.times)(a, b), exact));
    let size = if exact < 0 as real {
        -exact
    } else {
        exact
    };
    crate::reals::lemma_share(error, 1 as real + size, 3 as real);
    assert(error * (3 as real) == 3 as real * error);
}

/// A sum of numbers that are close to numbers whose sum is at most one.
proof fn lemma_sum<T>(
    m: Arithmetic<T>,
    value: spec_fn(T) -> real,
    error: real,
    a: T,
    b: T,
    x: real,
    y: real,
    p: real,
    q: real,
)
    requires
        m.is_accurate(value, error),
        (m.is_finite)(a),
        (m.is_finite)(b),
        0 as real <= x + y <= 1 as real,
        close(value(a), x, p),
        close(value(b), y, q),
        p + q <= 100 as real * error,
    ensures
        (m.is_finite)((m.plus)(a, b)),
        close(value((m.plus)(a, b)), x + y, p + q + 3 as real * error),
{
    let exact = value(a) + value(b);
    assert(m.approximates(value, error, (m.plus)(a, b), exact));
    let size = if exact < 0 as real {
        -exact
    } else {
        exact
    };
    crate::reals::lemma_share(error, 1 as real + size, 3 as real);
    assert(error * (3 as real) == 3 as real * error);
}

/// The sample for a value that lies close to one, in units of samples.
proof fn lemma_sample_nearby<T>(
    m: Arithmetic<T>,
    value: spec_fn(T) -> real,
    error: real,
    unit: T,
    sample: u64,
    max: u64,
)
    requires
        m.is_accurate(value, error),
        sample <= max,
        0 < max <= u16::MAX,
        (m.is_finite)(unit),
        -(9 as real) <= 20 as real * (value(unit) * max as real - sample as real) <= 9 as real,
    ensures
        m.sample_from_unit(unit, max) == sample,
{
    let (n, v) = (max as real, value(unit));
    let top = (m.from_int)(max);
    assert(value(top) == n && value(m.zero()) == 0 as real);
    assert((m.is_finite)(top) && (m.is_finite)(m.zero()));
    let exact = v * n;
    let scaled = (m.times)(unit, top);
    assert(m.approximates(value, error, scaled, exact));
    let size = if exact < 0 as real {
        -exact
    } else {
        exact
    };
    crate::reals::lemma_share(error, 1 as real + size, 70_000 as real);
    assert(error * (70_000 as real) == 70_000 as real * error);
    assert(close(value(scaled), exact, 70_000 as real * error));
    assert(-(1 as real) < 2 as real * (value(scaled) - sample as real) < 1 as real);
    assert(value((m.from_int)(sample)) == sample as real);
    let rounded = (m.rounded)(scaled);
    assert(value(rounded) == sample as real);
    assert(!(m.less)(rounded, m.zero()));
    assert(!(m.less)(top, rounded));
    assert((m.truncated)(rounded) == sample);
}

/// The sample for a value that lies close to one.
proof fn lemma_nearest_sample<T>(
    m: Arithmetic<T>,
    value: spec_fn(T) -> real,
    error: real,
    unit: T,
    sample: u64,
    max: u64,
)
    requires
        m.is_accurate(value, error),
        sample <= max,
        0 < max <= u16::MAX,
        (m.is_finite)(unit),
        close(value(unit), sample as real / max as real, 40 as real * error),
    ensures
        m.sample_from_unit(unit, max) == sample,
{
    lemma_fraction(sample as int, max as int);
    let (t, n, v) = (sample as real / max as real, max as real, value(unit));
    lemma_bounded_product(v - t, n, 40 as real * error, 65_535 as real);
    assert((v - t) * n == v * n - t * n) by (nonlinear_arith);
    assert((40 as real * error) * (65_535 as real) == 2_621_400 as real * error);
    lemma_sample_nearby(m, value, error, unit, sample, max);
}

/// Integral samples survive a round trip over the unit interval.
pub proof fn law_samples_survive_a_round_trip<T>(
    m: Arithmetic<T>,
    value: spec_fn(T) -> real,
    error: real,
    sample: u64,
    max: u64,
)
    requires
        m.is_accurate(value, error),
        sample <= max,
        0 < max <= u16::MAX,
    ensures
        m.sample_from_unit(m.unit_from_sample(sample, max), max) == sample,
{
    lemma_ratio(m, value, error, sample, max);
    lemma_nearest_sample(m, value, error, m.unit_from_sample(sample, max), sample, max);
}

/// Three real numbers that are not negative and sum to one.
pub open spec fn sum_to_one(x: real, y: real, z: real) -> bool {
    &&& 0 as real <= x
    &&& 0 as real <= y
    &&& 0 as real <= z
    &&& x + y + z == 1 as real
}

impl<T> Arithmetic<T> {
    /// Whether three weights come close to the given ones.
    pub open spec fn weighs(
        self,
        value: spec_fn(T) -> real,
        error: real,
        weights: Seq<T>,
        exact: (real, real, real),
    ) -> bool {
        &&& (self.is_finite)(weights[0]) && close(value(weights[0]), exact.0, 2 as real * error)
        &&& (self.is_finite)(weights[1]) && close(value(weights[1]), exact.1, 2 as real * error)
        &&& (self.is_finite)(weights[2]) && close(value(weights[2]), exact.2, 2 as real * error)
    }
}

/// The weights that the search returns come close to weights that are not
/// negative and sum to one.
pub proof fn law_the_weights_are_nearly_convex<T>(
    m: Arithmetic<T>,
    value: spec_fn(T) -> real,
    error: real,
    pairs: Seq<Pair<T>>,
    sigma: T,
) -> (exact: (real, real, real))
    requires
        m.is_accurate(value, error),
    ensures
        sum_to_one(exact.0, exact.1, exact.2),
        m.weighs(value, error, m.best_weights(pairs, sigma), exact),
{
    if pairs.len() > 0 {
        let scores = m.scores(pairs, sigma);
        crate::laws::law_the_candidates_are_the_convex_weightings();
        crate::laws::lemma_last_largest_is_an_index(m, scores, scores.len() as int);
        let best = Weighting::all()[m.last_largest(scores, scores.len() as int)];
        lemma_ratio(m, value, error, best.r, WEIGHT_STEPS);
        lemma_ratio(m, value, error, best.g, WEIGHT_STEPS);
        lemma_ratio(m, value, error, best.b, WEIGHT_STEPS);
        lemma_fraction(best.r as int, 10);
        lemma_fraction(best.g as int, 10);
        lemma_fraction(best.b as int, 10);
        assert(WEIGHT_STEPS as real == 10 as real);
        (best.r as real / 10 as real, best.g as real / 10 as real, best.b as real / 10 as real)
    } else {
        lemma_ratio(m, value, error, 1, 3);
        lemma_fraction(1, 3);
        (1 as real / 3 as real, 1 as real / 3 as real, 1 as real / 3 as real)
    }
}

/// The combination of three equal samples comes out as that sample.
proof fn lemma_brightness<T>(
    m: Arithmetic<T>,
    value: spec_fn(T) -> real,
    error: real,
    pairs: Seq<Pair<T>>,
    sigma: T,
    sample: u64,
    max: u64,
)
    requires
        m.is_accurate(value, error),
        sample <= max,
        0 < max <= u16::MAX,
    ensures
        ({
            let unit = m.unit_from_sample(sample, max);
            m.sample_from_unit(
                m.combined(m.best_weights(pairs, sigma), unit, unit, unit),
                max,
            ) == sample
        }),
{
    let weights = m.best_weights(pairs, sigma);
    let (u, v, w) = law_the_weights_are_nearly_convex(m, value, error, pairs, sigma);
    let unit = m.unit_from_sample(sample, max);
    let t = sample as real / max as real;
    lemma_ratio(m, value, error, sample, max);
    lemma_fraction(sample as int, max as int);
    lemma_product(m, value, error, weights[0], unit, u, t);
    lemma_product(m, value, error, weights[1], unit, v, t);
    lemma_product(m, value, error, weights[2], unit, w, t);
    let (p, q, r) = (
        (m.times)(weights[0], unit),
        (m.times)(weights[1], unit),
        (m.times)(weights[2], unit),
    );
    crate::reals::lemma_shares(u, v, w, t);
    assert((u + v + w) * t == t) by {
        assert(u + v + w == 1 as real);
        assert(1 as real * t == t);
    }
    let nine = 9 as real * error;
    lemma_sum(m, value, error, p, q, u * t, v * t, nine, nine);
    lemma_sum(
        m,
        value,
        error,
        (m.plus)(p, q),
        r,
        u * t + v * t,
        w * t,
        21 as real * error,
        nine,
    );
    lemma_nearest_sample(m, value, error, m.combined(weights, unit, unit, unit), sample, max);
}

/// The search preserves brightness: a gray pixel with 8 bit samples keeps its
/// sample.
pub proof fn law_the_search_preserves_brightness<T>(
    m: Arithmetic<T>,
    value: spec_fn(T) -> real,
    error: real,
    picture: Picture<u8>,
    options: FastDecolorizeOptions<T>,
    i: int,
    sample: u8,
)
    requires
        m.is_accurate(value, error),
        0 <= i < picture.area(),
        picture.colors[i] == (sample, sample, sample),
    ensures
        m.fast_decolorized(m.codec_u8(), picture, options)[i] == sample,
{
    crate::laws::lemma_not_empty(picture);
    lemma_brightness(
        m,
        value,
        error,
        m.sampled_pairs(m.codec_u8(), picture, options),
        options.sigma,
        sample as u64,
        u8::MAX as u64,
    );
}

/// The search needs no rescaling: with 8 bit samples a gray lies between the
/// smallest and the largest channel of its pixel.
pub proof fn law_grays_lie_between_the_channels<T>(
    m: Arithmetic<T>,
    value: spec_fn(T) -> real,
    error: real,
    picture: Picture<u8>,
    options: FastDecolorizeOptions<T>,
    i: int,
    low: u8,
    high: u8,
)
    requires
        m.is_accurate(value, error),
        m.is_monotone(),
        0 <= i < picture.area(),
        low <= picture.colors[i].0 <= high,
        low <= picture.colors[i].1 <= high,
        low <= picture.colors[i].2 <= high,
    ensures
        low <= m.fast_decolorized(m.codec_u8(), picture, options)[i] <= high,
{
    crate::laws::lemma_not_empty(picture);
    let pairs = m.sampled_pairs(m.codec_u8(), picture, options);
    let (max, p) = (u8::MAX as u64, picture.colors[i]);
    let color = (p.0 as u64, p.1 as u64, p.2 as u64);
    lemma_brightness(m, value, error, pairs, options.sigma, low as u64, max);
    lemma_brightness(m, value, error, pairs, options.sigma, high as u64, max);
    let (l, h) = (low as u64, high as u64);
    crate::monotone::lemma_gray_order(m, pairs, options.sigma, (l, l, l), color, max);
    crate::monotone::lemma_gray_order(m, pairs, options.sigma, color, (h, h, h), max);
}

/// An image with 8 bit samples that is already gray comes back unchanged, under
/// any options.
pub proof fn law_gray_images_come_back<T: Scalar>(
    m: Arithmetic<T>,
    value: spec_fn(T) -> real,
    error: real,
    image: &Image<u8>,
    options: FastDecolorizeOptions<T>,
    other: FastDecolorizeOptions<T>,
    gray: Image<u8>,
    again: Image<u8>,
)
    requires
        m.describes(),
        m.is_accurate(value, error),
        image.wf(),
        options.samples > 0,
        other.samples > 0,
        call_ensures(decolorize_fast_with::<T, u8>, (image, options), gray),
        call_ensures(decolorize_fast_with::<T, u8>, (&gray, other), again),
    ensures
        again.width == gray.width,
        again.height == gray.height,
        again.layout == gray.layout,
        again.samples@ == gray.samples@,
{
    crate::subpixel::law_integral_samples_are_described(m);
    let picture = gray@;
    let grays = m.fast_decolorized(m.codec_u8(), picture, other);
    assert(again.samples@ == grays);
    assert forall|i: int| 0 <= i < picture.area() implies #[trigger] grays[i]
        == gray.samples@[i] by {
        let sample = gray.samples@[i];
        assert(picture.colors[i] == (sample, sample, sample));
        law_the_search_preserves_brightness(m, value, error, picture, other, i, sample);
    }
    assert(picture.width == 0 || picture.height == 0 ==> picture.area() == 0) by (nonlinear_arith)
        requires
            picture.area() == picture.width * picture.height,
    ;
    gray.lemma_area_fits();
    assert(grays.len() == picture.area());
    assert(grays =~= gray.samples@);
}

/// The search preserves brightness: a gray pixel with 16 bit samples keeps its
/// sample.
pub proof fn law_the_search_preserves_wide_brightness<T>(
    m: Arithmetic<T>,
    value: spec_fn(T) -> real,
    error: real,
    picture: Picture<u16>,
    options: FastDecolorizeOptions<T>,
    i: int,
    sample: u16,
)
    requires
        m.is_accurate(value, error),
        0 <= i < picture.area(),
        picture.colors[i] == (sample, sample, sample),
    ensures
        m.fast_decolorized(m.codec_u16(), picture, options)[i] == sample,
{
    crate::laws::lemma_not_empty(picture);
    lemma_brightness(
        m,
        value,
        error,
        m.sampled_pairs(m.codec_u16(), picture, options),
        options.sigma,
        sample as u64,
        u16::MAX as u64,
    );
}

/// The search needs no rescaling: with 16 bit samples a gray lies between the
/// smallest and the largest channel of its pixel.
pub proof fn law_wide_grays_lie_between_the_channels<T>(
    m: Arithmetic<T>,
    value: spec_fn(T) -> real,
    error: real,
    picture: Picture<u16>,
    options: FastDecolorizeOptions<T>,
    i: int,
    low: u16,
    high: u16,
)
    requires
        m.is_accurate(value, error),
        m.is_monotone(),
        0 <= i < picture.area(),
        low <= picture.colors[i].0 <= high,
        low <= picture.colors[i].1 <= high,
        low <= picture.colors[i].2 <= high,
    ensures
        low <= m.fast_decolorized(m.codec_u16(), picture, options)[i] <= high,
{
    crate::laws::lemma_not_empty(picture);
    let pairs = m.sampled_pairs(m.codec_u16(), picture, options);
    let (max, p) = (u16::MAX as u64, picture.colors[i]);
    let color = (p.0 as u64, p.1 as u64, p.2 as u64);
    lemma_brightness(m, value, error, pairs, options.sigma, low as u64, max);
    lemma_brightness(m, value, error, pairs, options.sigma, high as u64, max);
    let (l, h) = (low as u64, high as u64);
    crate::monotone::lemma_gray_order(m, pairs, options.sigma, (l, l, l), color, max);
    crate::monotone::lemma_gray_order(m, pairs, options.sigma, color, (h, h, h), max);
}

/// An image with 16 bit samples that is already gray comes back unchanged, under
/// any options.
pub proof fn law_wide_gray_images_come_back<T: Scalar>(
    m: Arithmetic<T>,
    value: spec_fn(T) -> real,
    error: real,
    image: &Image<u16>,
    options: FastDecolorizeOptions<T>,
    other: FastDecolorizeOptions<T>,
    gray: Image<u16>,
    again: Image<u16>,
)
    requires
        m.describes(),
        m.is_accurate(value, error),
        image.wf(),
        options.samples > 0,
        other.samples > 0,
        call_ensures(decolorize_fast_with::<T, u16>, (image, options), gray),
        call_ensures(decolorize_fast_with::<T, u16>, (&gray, other), again),
    ensures
        again.width == gray.width,
        again.height == gray.height,
        again.layout == gray.layout,
        again.samples@ == gray.samples@,
{
    crate::subpixel::law_integral_samples_are_described(m);
    let picture = gray@;
    let grays = m.fast_decolorized(m.codec_u16(), picture, other);
    assert(again.samples@ == grays);
    assert forall|i: int| 0 <= i < picture.area() implies #[trigger] grays[i]
        == gray.samples@[i] by {
        let sample = gray.samples@[i];
        assert(picture.colors[i] == (sample, sample, sample));
        law_the_search_preserves_wide_brightness(m, value, error, picture, other, i, sample);
    }
    assert(picture.width == 0 || picture.height == 0 ==> picture.area() == 0) by (nonlinear_arith)
        requires
            picture.area() == picture.width * picture.height,
    ;
    gray.lemma_area_fits();
    assert(grays.len() == picture.area());
    assert(grays =~= gray.samples@);
}

/// A combination of samples by tenths comes out as the sample nearest to it.
proof fn lemma_weighted_sample<T>(
    m: Arithmetic<T>,
    value: spec_fn(T) -> real,
    error: real,
    w: Weighting,
    color: (u64, u64, u64),
    max: u64,
    sample: u64,
)
    requires
        m.is_accurate(value, error),
        w.r + w.g + w.b == 10,
        0 < max <= u16::MAX,
        color.0 <= max && color.1 <= max && color.2 <= max,
        sample <= max,
        -4 <= 10 * sample - (w.r * color.0 + w.g * color.1 + w.b * color.2) <= 4,
    ensures
        m.sample_from_unit(
            m.combined(
                m.channel_weights(w),
                m.unit_from_sample(color.0, max),
                m.unit_from_sample(color.1, max),
                m.unit_from_sample(color.2, max),
            ),
            max,
        ) == sample,
{
    let weights = m.channel_weights(w);
    let (p, q, s) = (
        m.unit_from_sample(color.0, max),
        m.unit_from_sample(color.1, max),
        m.unit_from_sample(color.2, max),
    );
    lemma_ratio(m, value, error, w.r, WEIGHT_STEPS);
    lemma_ratio(m, value, error, w.g, WEIGHT_STEPS);
    lemma_ratio(m, value, error, w.b, WEIGHT_STEPS);
    lemma_fraction(w.r as int, 10);
    lemma_fraction(w.g as int, 10);
    lemma_fraction(w.b as int, 10);
    assert(WEIGHT_STEPS as real == 10 as real);
    lemma_ratio(m, value, error, color.0, max);
    lemma_ratio(m, value, error, color.1, max);
    lemma_ratio(m, value, error, color.2, max);
    lemma_fraction(color.0 as int, max as int);
    lemma_fraction(color.1 as int, max as int);
    lemma_fraction(color.2 as int, max as int);
    let n = max as real;
    let (u, v, t) = (w.r as real / 10 as real, w.g as real / 10 as real, w.b as real / 10 as real);
    let (x, y, z) = (color.0 as real / n, color.1 as real / n, color.2 as real / n);
    lemma_product(m, value, error, weights[0], p, u, x);
    lemma_product(m, value, error, weights[1], q, v, y);
    lemma_product(m, value, error, weights[2], s, t, z);
    crate::reals::lemma_share(u, x, 1 as real);
    crate::reals::lemma_share(v, y, 1 as real);
    crate::reals::lemma_share(t, z, 1 as real);
    assert(u * (1 as real) == u && v * (1 as real) == v && t * (1 as real) == t);
    let nine = 9 as real * error;
    let (a, b, c) = (
        (m.times)(weights[0], p),
        (m.times)(weights[1], q),
        (m.times)(weights[2], s),
    );
    lemma_sum(m, value, error, a, b, u * x, v * y, nine, nine);
    lemma_sum(
        m,
        value,
        error,
        (m.plus)(a, b),
        c,
        u * x + v * y,
        t * z,
        21 as real * error,
        nine,
    );
    let unit = m.combined(weights, p, q, s);
    let exact = u * x + v * y + t * z;
    assert(close(value(unit), exact, 33 as real * error));
    lemma_bounded_product(value(unit) - exact, n, 33 as real * error, 65_535 as real);
    let g = value(unit);
    assert((g - exact) * n == g * n - exact * n) by (nonlinear_arith);
    assert((33 as real * error) * (65_535 as real) == 2_162_655 as real * error);
    lemma_tenth_product(w.r as int, color.0 as int, u, x, n);
    lemma_tenth_product(w.g as int, color.1 as int, v, y, n);
    lemma_tenth_product(w.b as int, color.2 as int, t, z, n);
    crate::reals::lemma_shares(u * x, v * y, t * z, n);
    let total = w.r * color.0 + w.g * color.1 + w.b * color.2;
    assert(10 as real * (exact * n) == total as real);
    lemma_sample_nearby(m, value, error, unit, sample, max);
}

/// A product of tenths and a share of the largest sample.
proof fn lemma_tenth_product(k: int, sample: int, u: real, x: real, n: real)
    requires
        10 as real * u == k as real,
        x * n == sample as real,
    ensures
        10 as real * (u * x * n) == (k * sample) as real,
{
    crate::reals::lemma_associate(u, x, n);
    crate::reals::lemma_associate(10 as real, u, x * n);
    assert((k * sample) as real == k as real * sample as real) by (nonlinear_arith);
}

/// The gray that tenths of the channels make of a pixel with 8 bit samples is the
/// sample nearest to the tenths of its red, of its green and of its blue, each in
/// its place, wherever one sample is nearest.
pub proof fn law_tenths_of_the_channels_make_the_gray<T>(
    m: Arithmetic<T>,
    value: spec_fn(T) -> real,
    error: real,
    picture: Picture<u8>,
    w: Weighting,
    i: int,
    gray: u8,
)
    requires
        m.is_accurate(value, error),
        w.r + w.g + w.b == 10,
        0 <= i < picture.area(),
        -4 <= 10 * gray - (w.r * picture.colors[i].0 + w.g * picture.colors[i].1 + w.b
            * picture.colors[i].2) <= 4,
    ensures
        m.linear_grays(
            m.codec_u8(),
            picture,
            seq![m.ratio(w.r, 10), m.ratio(w.g, 10), m.ratio(w.b, 10)],
        )[i] == gray,
{
    let p = picture.colors[i];
    let color = (p.0 as u64, p.1 as u64, p.2 as u64);
    lemma_weighted_sample(m, value, error, w, color, u8::MAX as u64, gray as u64);
    let weights = seq![m.ratio(w.r, 10), m.ratio(w.g, 10), m.ratio(w.b, 10)];
    assert(m.channel_weights(w) =~= weights);
}

/// The gray that tenths of the channels make of a pixel with 16 bit samples is the
/// sample nearest to the tenths of its red, of its green and of its blue, each in
/// its place, wherever one sample is nearest.
pub proof fn law_tenths_of_the_channels_make_the_wide_gray<T>(
    m: Arithmetic<T>,
    value: spec_fn(T) -> real,
    error: real,
    picture: Picture<u16>,
    w: Weighting,
    i: int,
    gray: u16,
)
    requires
        m.is_accurate(value, error),
        w.r + w.g + w.b == 10,
        0 <= i < picture.area(),
        -4 <= 10 * gray - (w.r * picture.colors[i].0 + w.g * picture.colors[i].1 + w.b
            * picture.colors[i].2) <= 4,
    ensures
        m.linear_grays(
            m.codec_u16(),
            picture,
            seq![m.ratio(w.r, 10), m.ratio(w.g, 10), m.ratio(w.b, 10)],
        )[i] == gray,
{
    let p = picture.colors[i];
    let color = (p.0 as u64, p.1 as u64, p.2 as u64);
    lemma_weighted_sample(m, value, error, w, color, u16::MAX as u64, gray as u64);
    let weights = seq![m.ratio(w.r, 10), m.ratio(w.g, 10), m.ratio(w.b, 10)];
    assert(m.channel_weights(w) =~= weights);
}

} // verus!
