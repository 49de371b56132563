//! What channel weightings are scored on, and what they make of a picture, as
//! formulas of real numbers.
use crate::definitions::Picture;
use crate::likelihood::Exponential;
use crate::sampling::Pair;
use crate::scalar::Arithmetic;
use crate::subpixel::Codec;
use vstd::prelude::*;

verus! {

/// A combination is the first weight times the first number, plus the second
/// times the second, plus the third times the third.
pub proof fn law_a_combination_weights_each_number<T>(
    m: Arithmetic<T>,
    value: spec_fn(T) -> real,
    weights: Seq<T>,
    x: T,
    y: T,
    z: T,
)
    requires
        m.is_exact(value),
        (m.is_finite)(weights[0]) && (m.is_finite)(weights[1]) && (m.is_finite)(weights[2]),
        (m.is_finite)(x) && (m.is_finite)(y) && (m.is_finite)(z),
    ensures
        (m.is_finite)(m.combined(weights, x, y, z)),
        value(m.combined(weights, x, y, z)) == value(weights[0]) * value(x) + value(weights[1])
            * value(y) + value(weights[2]) * value(z),
{
    let (p, q, r) = (
        (m.times)(weights[0], x),
        (m.times)(weights[1], y),
        (m.times)(weights[2], z),
    );
    assert((m.is_finite)(p) && (m.is_finite)(q) && (m.is_finite)(r));
    assert((m.is_finite)((m.plus)(p, q)));
}

/// A weighting is scored on what it does: the combination of the differences of
/// two colors is the difference of the combinations of the colors.
pub proof fn law_combined_differences_are_gray_differences<T>(
    m: Arithmetic<T>,
    value: spec_fn(T) -> real,
    weights: Seq<T>,
    p: (T, T, T),
    q: (T, T, T),
)
    requires
        m.is_exact(value),
        (m.is_finite)(weights[0]) && (m.is_finite)(weights[1]) && (m.is_finite)(weights[2]),
        (m.is_finite)(p.0) && (m.is_finite)(p.1) && (m.is_finite)(p.2),
        (m.is_finite)(q.0) && (m.is_finite)(q.1) && (m.is_finite)(q.2),
    ensures
        value(
            m.combined(weights, (m.minus)(p.0, q.0), (m.minus)(p.1, q.1), (m.minus)(p.2, q.2)),
        ) == value(m.combined(weights, p.0, p.1, p.2)) - value(
            m.combined(weights, q.0, q.1, q.2),
        ),
{
    let (x, y, z) = ((m.minus)(p.0, q.0), (m.minus)(p.1, q.1), (m.minus)(p.2, q.2));
    assert((m.is_finite)(x) && (m.is_finite)(y) && (m.is_finite)(z));
    law_a_combination_weights_each_number(m, value, weights, x, y, z);
    law_a_combination_weights_each_number(m, value, weights, p.0, p.1, p.2);
    law_a_combination_weights_each_number(m, value, weights, q.0, q.1, q.2);
    lemma_difference(value(weights[0]), value(p.0), value(q.0));
    lemma_difference(value(weights[1]), value(p.1), value(q.1));
    lemma_difference(value(weights[2]), value(p.2), value(q.2));
}

/// A product with a difference.
proof fn lemma_difference(w: real, p: real, q: real)
    ensures
        w * (p - q) == w * p - w * q,
{
    assert(w * (p - q) == w * p - w * q) by (nonlinear_arith);
}

impl<T> Arithmetic<T> {
    /// Whether all that is known of the sampled pairs are finite numbers.
    pub open spec fn are_real_pairs(self, pairs: Seq<Pair<T>>) -> bool {
        forall|k: int|
            0 <= k < pairs.len() ==> {
                let pair = #[trigger] pairs[k];
                &&& (self.is_finite)(pair.difference.0)
                &&& (self.is_finite)(pair.difference.1)
                &&& (self.is_finite)(pair.difference.2)
                &&& (self.is_finite)(pair.contrast)
            }
    }
}

/// The logarithm of a Gaussian, as a real number.
proof fn lemma_log_gaussian<T>(
    m: Arithmetic<T>,
    value: spec_fn(T) -> real,
    gap: T,
    sigma: T,
    precision: real,
)
    requires
        m.is_exact(value),
        (m.is_finite)(gap),
        (m.is_finite)(sigma),
        value(sigma) > 0 as real,
        precision * (2 as real * value(sigma) * value(sigma)) == 1 as real,
    ensures
        (m.is_finite)(m.log_gaussian(gap, sigma)),
        value(m.log_gaussian(gap, sigma)) == -(crate::formulas::squared(value(gap)) * precision),
{
    crate::likelihood::lemma_precision_value(m, value, sigma, precision);
    let s = precision;
    let p = (m.power)(gap, 2);
    let n = (m.negated)(p);
    assert((m.is_finite)(p) && value(p) == crate::formulas::squared(value(gap)));
    assert((m.is_finite)(n) && value(n) == -value(p));
    assert(-value(p) * s == -(value(p) * s)) by {
        let (a, b) = (value(p), s);
        assert(-a * b == -(a * b)) by (nonlinear_arith);
    }
}

/// What a pair adds to a score: the logarithm of two Gaussians, one around the
/// contrast and one around its opposite, at the difference that the weights make
/// of all three channels.
pub proof fn law_a_pair_is_scored_on_its_gray_difference<T>(
    m: Arithmetic<T>,
    value: spec_fn(T) -> real,
    e: Exponential,
    pairs: Seq<Pair<T>>,
    weights: Seq<T>,
    sigma: T,
    precision: real,
    k: int,
)
    requires
        m.measures(value, e),
        m.are_real_pairs(pairs),
        (m.is_finite)(weights[0]) && (m.is_finite)(weights[1]) && (m.is_finite)(weights[2]),
        (m.is_finite)(sigma),
        value(sigma) > 0 as real,
        precision * (2 as real * value(sigma) * value(sigma)) == 1 as real,
        0 <= k < pairs.len(),
    ensures
        ({
            let d = value(weights[0]) * value(pairs[k].difference.0) + value(weights[1]) * value(
                pairs[k].difference.1,
            ) + value(weights[2]) * value(pairs[k].difference.2);
            let c = value(pairs[k].contrast);
            let term = m.score_term(pairs, weights, sigma)(k);
            &&& (m.is_finite)(term)
            &&& value(term) == (e.ln)(
                (e.exp)(-(crate::formulas::squared(d - c) * precision)) + (e.exp)(
                    -(crate::formulas::squared(d + c) * precision),
                ),
            )
        }),
{
    let (pair, contrast) = (pairs[k], pairs[k].contrast);
    let (x, y, z) = pair.difference;
    law_a_combination_weights_each_number(m, value, weights, x, y, z);
    let difference = m.combined(weights, x, y, z);
    let (u, v) = ((m.minus)(difference, contrast), (m.plus)(difference, contrast));
    assert((m.is_finite)(u) && (m.is_finite)(v));
    lemma_log_gaussian(m, value, u, sigma, precision);
    lemma_log_gaussian(m, value, v, sigma, precision);
    crate::likelihood::lemma_two_modes(
        m,
        value,
        e,
        m.log_gaussian(u, sigma),
        m.log_gaussian(v, sigma),
    );
}

/// A score is the mean over all pairs of what they add to it.
pub proof fn law_a_score_is_the_mean_log_likelihood<T>(
    m: Arithmetic<T>,
    value: spec_fn(T) -> real,
    e: Exponential,
    pairs: Seq<Pair<T>>,
    weights: Seq<T>,
    sigma: T,
    precision: real,
)
    requires
        m.measures(value, e),
        m.are_real_pairs(pairs),
        (m.is_finite)(weights[0]) && (m.is_finite)(weights[1]) && (m.is_finite)(weights[2]),
        (m.is_finite)(sigma),
        value(sigma) > 0 as real,
        precision * (2 as real * value(sigma) * value(sigma)) == 1 as real,
        0 < pairs.len() <= u64::MAX,
    ensures
        (m.is_finite)(m.score(pairs, weights, sigma)),
        value(m.score(pairs, weights, sigma)) * pairs.len() as real == crate::reals::sum(
            pairs.len(),
            |k: int|
                {
                    let d = value(weights[0]) * value(pairs[k].difference.0) + value(weights[1])
                        * value(pairs[k].difference.1) + value(weights[2]) * value(
                        pairs[k].difference.2,
                    );
                    let c = value(pairs[k].contrast);
                    (e.ln)(
                        (e.exp)(-(crate::formulas::squared(d - c) * precision)) + (e.exp)(
                            -(crate::formulas::squared(d + c) * precision),
                        ),
                    )
                },
        ),
{
    let n = pairs.len();
    let term = m.score_term(pairs, weights, sigma);
    let f = |k: int|
        {
            let d = value(weights[0]) * value(pairs[k].difference.0) + value(weights[1]) * value(
                pairs[k].difference.1,
            ) + value(weights[2]) * value(pairs[k].difference.2);
            let c = value(pairs[k].contrast);
            (e.ln)(
                (e.exp)(-(crate::formulas::squared(d - c) * precision)) + (e.exp)(
                    -(crate::formulas::squared(d + c) * precision),
                ),
            )
        };
    assert forall|k: int| 0 <= k < n implies (m.is_finite)(#[trigger] term(k)) && value(term(k))
        == f(k) by {
        law_a_pair_is_scored_on_its_gray_difference(
            m,
            value,
            e,
            pairs,
            weights,
            sigma,
            precision,
            k,
        );
    }
    crate::exact::lemma_total_value(m, value, n, term, f);
    let number = (m.from_int)(n as u64);
    assert(value(number) == n as real && (m.is_finite)(number));
}

/// Exponentials rise.
proof fn lemma_exp_rises(e: Exponential, a: real, b: real)
    requires
        e.wf(),
        a <= b,
    ensures
        (e.exp)(a) <= (e.exp)(b),
{
    let d = b - a;
    crate::likelihood::lemma_exp_sum(e, d, a, b);
    crate::likelihood::lemma_exp(e, d);
    crate::likelihood::lemma_exp(e, a);
    crate::reals::lemma_share((e.exp)(a), 1 as real, (e.exp)(d));
    assert(1 as real * (e.exp)(a) == (e.exp)(a));
}

/// Logarithms rise.
proof fn lemma_ln_rises(e: Exponential, a: real, b: real)
    requires
        e.wf(),
        0 as real <= a < b,
        a > 0 as real,
    ensures
        (e.ln)(a) < (e.ln)(b),
{
    crate::likelihood::lemma_ln(e, a);
    crate::likelihood::lemma_ln(e, b);
    if (e.ln)(b) <= (e.ln)(a) {
        lemma_exp_rises(e, (e.ln)(b), (e.ln)(a));
    }
}

/// The two Gaussians at a difference and at its opposite are the same two.
proof fn lemma_mirrored(d: real, c: real)
    ensures
        crate::formulas::squared(d - c) == crate::formulas::squared(-d + c),
        crate::formulas::squared(d + c) == crate::formulas::squared(-d - c),
{
    let (p, q) = (d - c, d + c);
    assert(p * p == -p * -p) by (nonlinear_arith);
    assert(q * q == -q * -q) by (nonlinear_arith);
    assert(-p == -d + c && -q == -d - c);
}

/// What is farther off on one side than on the other.
proof fn lemma_far_side(p: real, c: real, precision: real)
    requires
        0 as real <= p,
        0 as real <= c,
        precision > 0 as real,
    ensures
        crate::formulas::squared(p - c) * precision <= crate::formulas::squared(p + c) * precision,
{
    let (x, y) = (crate::formulas::squared(p - c), crate::formulas::squared(p + c));
    crate::reals::lemma_products(0 as real, p, 0 as real, c);
    assert(0 as real * (0 as real) == 0 as real);
    assert((p + c) * (p + c) == (p - c) * (p - c) + 4 as real * (p * c)) by (nonlinear_arith);
    crate::reals::lemma_share(precision, x, y);
}

/// A difference that comes closer to the contrast is more likely, where the
/// deviation is small against how much closer it comes.
proof fn lemma_closer_is_likelier(
    e: Exponential,
    c: real,
    near: real,
    far: real,
    precision: real,
)
    requires
        e.wf(),
        0 as real <= c,
        precision > 0 as real,
        ({
            let p = crate::rounding::magnitude(near) - c;
            let q = crate::rounding::magnitude(far) - c;
            (crate::formulas::squared(q) - crate::formulas::squared(p)) * precision > 1 as real
        }),
    ensures
        (e.ln)(
            (e.exp)(-(crate::formulas::squared(far - c) * precision)) + (e.exp)(
                -(crate::formulas::squared(far + c) * precision),
            ),
        ) < (e.ln)(
            (e.exp)(-(crate::formulas::squared(near - c) * precision)) + (e.exp)(
                -(crate::formulas::squared(near + c) * precision),
            ),
        ),
{
    let (p, q) = (crate::rounding::magnitude(near), crate::rounding::magnitude(far));
    lemma_mirrored(near, c);
    lemma_mirrored(far, c);
    let a = crate::formulas::squared(p - c) * precision;
    let b = crate::formulas::squared(q - c) * precision;
    let other = crate::formulas::squared(p + c) * precision;
    let beyond = crate::formulas::squared(q + c) * precision;
    lemma_far_side(q, c, precision);
    lemma_difference(
        precision,
        crate::formulas::squared(q - c),
        crate::formulas::squared(p - c),
    );
    crate::reals::lemma_commute(precision, crate::formulas::squared(q - c));
    crate::reals::lemma_commute(precision, crate::formulas::squared(p - c));
    crate::reals::lemma_commute(
        precision,
        crate::formulas::squared(q - c) - crate::formulas::squared(p - c),
    );
    assert(b - a > 1 as real);
    crate::likelihood::lemma_exp(e, -a);
    crate::likelihood::lemma_exp(e, -b);
    crate::likelihood::lemma_exp(e, -other);
    crate::likelihood::lemma_exp(e, -beyond);
    lemma_exp_rises(e, -beyond, -b);
    crate::likelihood::lemma_exp_sum(e, b - a, -b, -a);
    crate::likelihood::lemma_exp(e, b - a);
    crate::reals::lemma_multiple((e.exp)(-b), 2 as real, (e.exp)(b - a));
    lemma_ln_rises(e, (e.exp)(-b) + (e.exp)(-beyond), (e.exp)(-a) + (e.exp)(-other));
}

/// Of two weightings, the one whose gray differences come closer to the contrast
/// of every pair scores higher, where the deviation is small against how much
/// closer they come.
pub proof fn law_the_closer_weighting_scores_higher<T>(
    m: Arithmetic<T>,
    value: spec_fn(T) -> real,
    e: Exponential,
    pairs: Seq<Pair<T>>,
    near: Seq<T>,
    far: Seq<T>,
    sigma: T,
)
    requires
        m.measures(value, e),
        m.are_real_pairs(pairs),
        (m.is_finite)(near[0]) && (m.is_finite)(near[1]) && (m.is_finite)(near[2]),
        (m.is_finite)(far[0]) && (m.is_finite)(far[1]) && (m.is_finite)(far[2]),
        (m.is_finite)(sigma),
        value(sigma) > 0 as real,
        0 < pairs.len() <= u64::MAX,
        forall|k: int|
            0 <= k < pairs.len() ==> {
                let (x, y, z) = (#[trigger] pairs[k]).difference;
                let p = value(near[0]) * value(x) + value(near[1]) * value(y) + value(near[2])
                    * value(z);
                let q = value(far[0]) * value(x) + value(far[1]) * value(y) + value(far[2])
                    * value(z);
                let c = value(pairs[k].contrast);
                &&& c >= 0 as real
                &&& crate::formulas::squared(crate::rounding::magnitude(p) - c) + 2 as real * value(
                    sigma,
                ) * value(sigma) < crate::formulas::squared(crate::rounding::magnitude(q) - c)
            },
    ensures
        value(m.score(pairs, far, sigma)) < value(m.score(pairs, near, sigma)),
{
    let n = pairs.len();
    let v = value(sigma);
    let whole = 2 as real * v * v;
    crate::reals::lemma_multiple(v, 0 as real, 2 as real * v);
    assert(0 as real * v == 0 as real);
    let precision = 1 as real / whole;
    assert(precision * whole == 1 as real && precision > 0 as real) by (nonlinear_arith)
        requires
            precision == 1 as real / whole,
            whole > 0 as real,
    ;
    law_a_score_is_the_mean_log_likelihood(m, value, e, pairs, near, sigma, precision);
    law_a_score_is_the_mean_log_likelihood(m, value, e, pairs, far, sigma, precision);
    let at = |weights: Seq<T>, k: int|
        value(weights[0]) * value(pairs[k].difference.0) + value(weights[1]) * value(
            pairs[k].difference.1,
        ) + value(weights[2]) * value(pairs[k].difference.2);
    let f = |k: int|
        {
            let d = value(far[0]) * value(pairs[k].difference.0) + value(far[1]) * value(
                pairs[k].difference.1,
            ) + value(far[2]) * value(pairs[k].difference.2);
            let c = value(pairs[k].contrast);
            (e.ln)(
                (e.exp)(-(crate::formulas::squared(d - c) * precision)) + (e.exp)(
                    -(crate::formulas::squared(d + c) * precision),
                ),
            )
        };
    let g = |k: int|
        {
            let d = value(near[0]) * value(pairs[k].difference.0) + value(near[1]) * value(
                pairs[k].difference.1,
            ) + value(near[2]) * value(pairs[k].difference.2);
            let c = value(pairs[k].contrast);
            (e.ln)(
                (e.exp)(-(crate::formulas::squared(d - c) * precision)) + (e.exp)(
                    -(crate::formulas::squared(d + c) * precision),
                ),
            )
        };
    assert forall|k: int| 0 <= k < n implies #[trigger] f(k) < g(k) by {
        let c = value(pairs[k].contrast);
        let (p, q) = (at(near, k), at(far, k));
        let x = crate::formulas::squared(crate::rounding::magnitude(p) - c);
        let y = crate::formulas::squared(crate::rounding::magnitude(q) - c);
        assert(y - x > whole);
        crate::reals::lemma_multiple(precision, whole, y - x);
        crate::reals::lemma_commute(whole, precision);
        lemma_closer_is_likelier(e, c, p, q, precision);
    }
    assert forall|k: int| 0 <= k < n implies #[trigger] f(k) <= g(k) by {
        assert(f(k) < g(k));
    }
    assert(f(0) < g(0));
    crate::averaging::lemma_sum_rise(n, f, g, 0);
    let (a, b) = (value(m.score(pairs, far, sigma)), value(m.score(pairs, near, sigma)));
    assert(a * n as real == crate::reals::sum(n, f));
    assert(b * n as real == crate::reals::sum(n, g));
    if b <= a {
        crate::reals::lemma_share(n as real, b, a);
    }
}

/// The gray of a pixel is the sample for the first weight times its red, plus the
/// second times its green, plus the third times its blue: each weight goes with
/// the channel whose differences it is scored on.
pub proof fn law_a_gray_weights_the_channels_of_its_pixel<S, T>(
    m: Arithmetic<T>,
    value: spec_fn(T) -> real,
    c: Codec<S, T>,
    picture: Picture<S>,
    weights: Seq<T>,
    i: int,
) -> (unit: T)
    requires
        m.is_exact(value),
        (m.is_finite)(weights[0]) && (m.is_finite)(weights[1]) && (m.is_finite)(weights[2]),
        0 <= i < picture.area(),
        (m.is_finite)((c.to_unit)(picture.colors[i].0)),
        (m.is_finite)((c.to_unit)(picture.colors[i].1)),
        (m.is_finite)((c.to_unit)(picture.colors[i].2)),
    ensures
        ({
            let r = value((c.to_unit)(picture.colors[i].0));
            let g = value((c.to_unit)(picture.colors[i].1));
            let b = value((c.to_unit)(picture.colors[i].2));
            let (u, v, w) = (value(weights[0]), value(weights[1]), value(weights[2]));
            let (zero, one) = (0 as real, 1 as real);
            &&& m.linear_grays(c, picture, weights).len() == picture.area()
            &&& m.linear_grays(c, picture, weights)[i] == (c.from_unit)(unit)
            &&& (m.is_finite)(unit)
            &&& value(unit) == u * r + v * g + w * b
            &&& u == one && v == zero && w == zero ==> value(unit) == r
            &&& u == zero && v == one && w == zero ==> value(unit) == g
            &&& u == zero && v == zero && w == one ==> value(unit) == b
        }),
{
    let (x, y, z) = (
        (c.to_unit)(picture.colors[i].0),
        (c.to_unit)(picture.colors[i].1),
        (c.to_unit)(picture.colors[i].2),
    );
    law_a_combination_weights_each_number(m, value, weights, x, y, z);
    let (r, g, b) = (value(x), value(y), value(z));
    assert(0 as real * r == 0 as real && 0 as real * g == 0 as real && 0 as real * b == 0 as real);
    assert(1 as real * r == r && 1 as real * g == g && 1 as real * b == b);
    m.combined(weights, x, y, z)
}

/// Where the pairs differ in one channel alone, whichever that is, the weight of
/// that channel decides: the closer it brings the size of the difference to the
/// contrast, the higher the score, where the deviation is small against how much
/// closer it brings it.
pub proof fn law_the_weight_of_the_only_channel_decides<T>(
    m: Arithmetic<T>,
    value: spec_fn(T) -> real,
    e: Exponential,
    pairs: Seq<Pair<T>>,
    near: Seq<T>,
    far: Seq<T>,
    sigma: T,
    channel: int,
)
    requires
        m.measures(value, e),
        m.are_real_pairs(pairs),
        (m.is_finite)(near[0]) && (m.is_finite)(near[1]) && (m.is_finite)(near[2]),
        (m.is_finite)(far[0]) && (m.is_finite)(far[1]) && (m.is_finite)(far[2]),
        (m.is_finite)(sigma),
        value(sigma) > 0 as real,
        0 < pairs.len() <= u64::MAX,
        0 <= channel < 3,
        value(near[channel]) >= 0 as real,
        value(far[channel]) >= 0 as real,
        forall|k: int|
            0 <= k < pairs.len() ==> {
                let (x, y, z) = (#[trigger] pairs[k]).difference;
                let size = crate::rounding::magnitude(
                    value(x) + value(y) + value(z),
                );
                let c = value(pairs[k].contrast);
                &&& channel != 0 ==> value(x) == 0 as real
                &&& channel != 1 ==> value(y) == 0 as real
                &&& channel != 2 ==> value(z) == 0 as real
                &&& c >= 0 as real
                &&& crate::formulas::squared(value(near[channel]) * size - c) + 2 as real * value(
                    sigma,
                ) * value(sigma) < crate::formulas::squared(value(far[channel]) * size - c)
            },
    ensures
        value(m.score(pairs, far, sigma)) < value(m.score(pairs, near, sigma)),
{
    assert forall|k: int| 0 <= k < pairs.len() implies ({
        let (x, y, z) = (#[trigger] pairs[k]).difference;
        let p = value(near[0]) * value(x) + value(near[1]) * value(y) + value(near[2]) * value(z);
        let q = value(far[0]) * value(x) + value(far[1]) * value(y) + value(far[2]) * value(z);
        let c = value(pairs[k].contrast);
        &&& c >= 0 as real
        &&& crate::formulas::squared(crate::rounding::magnitude(p) - c) + 2 as real * value(sigma)
            * value(sigma) < crate::formulas::squared(crate::rounding::magnitude(q) - c)
    }) by {
        let (x, y, z) = pairs[k].difference;
        let d = value(x) + value(y) + value(z);
        lemma_only_channel(
            value(near[0]),
            value(near[1]),
            value(near[2]),
            value(x),
            value(y),
            value(z),
            channel,
        );
        lemma_only_channel(
            value(far[0]),
            value(far[1]),
            value(far[2]),
            value(x),
            value(y),
            value(z),
            channel,
        );
    }
    law_the_closer_weighting_scores_higher(m, value, e, pairs, near, far, sigma);
}

/// A combination of numbers of which only one is not zero.
proof fn lemma_only_channel(u: real, v: real, w: real, x: real, y: real, z: real, channel: int)
    requires
        0 <= channel < 3,
        channel != 0 ==> x == 0 as real,
        channel != 1 ==> y == 0 as real,
        channel != 2 ==> z == 0 as real,
        channel == 0 ==> u >= 0 as real,
        channel == 1 ==> v >= 0 as real,
        channel == 2 ==> w >= 0 as real,
    ensures
        ({
            let weight = if channel == 0 {
                u
            } else if channel == 1 {
                v
            } else {
                w
            };
            crate::rounding::magnitude(u * x + v * y + w * z) == weight
                * crate::rounding::magnitude(x + y + z)
        }),
{
    let weight = if channel == 0 {
        u
    } else if channel == 1 {
        v
    } else {
        w
    };
    let d = x + y + z;
    assert(u * (0 as real) == 0 as real && v * (0 as real) == 0 as real && w * (0 as real)
        == 0 as real);
    assert(u * x + v * y + w * z == weight * d);
    crate::reals::lemma_share(weight, 0 as real, crate::rounding::magnitude(d));
    assert(weight * (0 as real) == 0 as real);
    assert(weight * -d == -(weight * d)) by (nonlinear_arith);
}

} // verus!
