//! What holds before rounding.
//!
//! The laws of this module are about the formulas, not about how they are
//! rounded: they hold of an arithmetic whose operations are those of the real
//! numbers, as [`Arithmetic::is_exact`] says.
use crate::definitions::Picture;
use crate::planes::{PlaneSet, Span};
use crate::polynomial::Monomial;
use crate::random::SplitMix64;
use crate::sampling::{Grid, Pair, Point};
use crate::scalar::{Arithmetic, NUM_MONOMIALS};
use crate::search::{Weighting, WEIGHT_STEPS};
use crate::subpixel::Codec;
use vstd::prelude::*;

verus! {

impl<T> Arithmetic<T> {
    /// Whether the operations on finite numbers are those of the real numbers,
    /// where `value` is the real number that a finite number stands for. Nothing
    /// is said of operations that the laws do not need.
    pub open spec fn is_exact(self, value: spec_fn(T) -> real) -> bool {
        &&& forall|n: u64|
            (self.is_finite)(#[trigger] (self.from_int)(n)) && value((self.from_int)(n))
                == n as real
        &&& forall|a: T, b: T|
            (self.is_finite)(a) && (self.is_finite)(b) ==> (self.is_finite)(
                #[trigger] (self.plus)(a, b),
            ) && value((self.plus)(a, b)) == value(a) + value(b)
        &&& forall|a: T, b: T|
            (self.is_finite)(a) && (self.is_finite)(b) ==> (self.is_finite)(
                #[trigger] (self.minus)(a, b),
            ) && value((self.minus)(a, b)) == value(a) - value(b)
        &&& forall|a: T, b: T|
            (self.is_finite)(a) && (self.is_finite)(b) ==> (self.is_finite)(
                #[trigger] (self.times)(a, b),
            ) && value((self.times)(a, b)) == value(a) * value(b)
        &&& forall|a: T, b: T|
            (self.is_finite)(a) && (self.is_finite)(b) && value(b) != 0 as real ==> (
            self.is_finite)(#[trigger] (self.over)(a, b)) && value((self.over)(a, b)) * value(b)
                == value(a)
        &&& forall|a: T|
            (self.is_finite)(a) ==> (self.is_finite)(#[trigger] (self.negated)(a)) && value(
                (self.negated)(a),
            ) == -value(a)
        &&& forall|a: T, b: T|
            (self.is_finite)(a) && (self.is_finite)(b) ==> (#[trigger] (self.less)(a, b)
                <==> value(a) < value(b))
        &&& forall|a: T, b: T|
            (self.is_finite)(a) && (self.is_finite)(b) ==> (#[trigger] (self.at_most)(a, b)
                <==> value(a) <= value(b))
        &&& forall|a: T, b: T|
            (self.is_finite)(a) && (self.is_finite)(b) ==> (self.is_finite)(
                #[trigger] (self.larger)(a, b),
            ) && value((self.larger)(a, b)) == if value(a) < value(b) {
                value(b)
            } else {
                value(a)
            }
        &&& forall|a: T|
            (self.is_finite)(a) ==> (self.is_finite)(#[trigger] (self.power)(a, 0)) && value(
                (self.power)(a, 0),
            ) == 1 as real
        &&& forall|a: T|
            (self.is_finite)(a) ==> (self.is_finite)(#[trigger] (self.power)(a, 1)) && value(
                (self.power)(a, 1),
            ) == value(a)
        &&& forall|a: T|
            (self.is_finite)(a) ==> (self.is_finite)(#[trigger] (self.power)(a, 2)) && value(
                (self.power)(a, 2),
            ) == value(a) * value(a)
        &&& self.has_roots(value)
        &&& self.has_exponentials(value)
    }

    /// Whether cube roots are cube roots, and powers of `12 / 5` are fifth roots
    /// of twelfth powers.
    pub open spec fn has_roots(self, value: spec_fn(T) -> real) -> bool {
        &&& forall|a: T|
            (self.is_finite)(a) ==> {
                let r = #[trigger] (self.cube_root)(a);
                (self.is_finite)(r) && crate::reals::cubed(value(r)) == value(a)
            }
        &&& forall|a: T, e: T|
            (self.is_finite)(a) && (self.is_finite)(e) && value(a) >= 0 as real && value(e) * (
            5 as real) == 12 as real ==> {
                let r = #[trigger] (self.raised)(a, e);
                (self.is_finite)(r) && value(r) >= 0 as real && crate::reals::fifth_power(value(r))
                    == crate::reals::twelfth_power(value(a))
            }
    }

    /// Whether exponentials are positive.
    pub open spec fn has_exponentials(self, value: spec_fn(T) -> real) -> bool {
        &&& forall|a: T|
            (self.is_finite)(a) ==> (self.is_finite)(#[trigger] (self.exponential)(a)) && value(
                (self.exponential)(a),
            ) > 0 as real
    }
}

impl<T> Arithmetic<T> {
    /// Whether three weights are non-negative and sum to one.
    pub open spec fn is_convex(self, value: spec_fn(T) -> real, weights: Seq<T>) -> bool {
        &&& weights.len() == 3
        &&& forall|i: int|
            0 <= i < 3 ==> (self.is_finite)(#[trigger] weights[i]) && value(weights[i])
                >= 0 as real
        &&& value(weights[0]) + value(weights[1]) + value(weights[2]) == 1 as real
    }
}

/// The quotient of two integers, times the divisor.
pub(crate) proof fn lemma_ratio<T>(m: Arithmetic<T>, value: spec_fn(T) -> real, n: u64, d: u64)
    requires
        m.is_exact(value),
        d > 0,
    ensures
        value(m.ratio(n, d)) * d as real == n as real,
{
    assert(value((m.from_int)(d)) == d as real);
}

/// The weights of a weighting are convex.
proof fn lemma_convex<T>(m: Arithmetic<T>, value: spec_fn(T) -> real, weighting: Weighting)
    requires
        m.is_exact(value),
        weighting.r + weighting.g + weighting.b == WEIGHT_STEPS,
    ensures
        m.is_convex(value, m.channel_weights(weighting)),
{
    lemma_ratio(m, value, weighting.r, WEIGHT_STEPS);
    lemma_ratio(m, value, weighting.g, WEIGHT_STEPS);
    lemma_ratio(m, value, weighting.b, WEIGHT_STEPS);
    assert(WEIGHT_STEPS as real == 10 as real);
}

/// The weights of the channel average are convex.
proof fn lemma_average_is_convex<T>(m: Arithmetic<T>, value: spec_fn(T) -> real)
    requires
        m.is_exact(value),
    ensures
        m.is_convex(value, m.equal_weights()),
{
    lemma_ratio(m, value, 1, 3);
}

/// The weights that the search returns are non-negative and sum to one.
pub proof fn law_the_weights_are_convex<T>(
    m: Arithmetic<T>,
    value: spec_fn(T) -> real,
    pairs: Seq<Pair<T>>,
    sigma: T,
)
    requires
        m.is_exact(value),
    ensures
        m.is_convex(value, m.best_weights(pairs, sigma)),
{
    if pairs.len() > 0 {
        let scores = m.scores(pairs, sigma);
        crate::laws::law_the_candidates_are_the_convex_weightings();
        crate::laws::lemma_last_largest_is_an_index(m, scores, scores.len() as int);
        lemma_convex(m, value, Weighting::all()[m.last_largest(scores, scores.len() as int)]);
    } else {
        lemma_average_is_convex(m, value);
    }
}

/// A convex combination needs no rescaling: it lies between the smallest and
/// the largest of the channels.
pub proof fn law_combinations_stay_in_range<T>(
    m: Arithmetic<T>,
    value: spec_fn(T) -> real,
    weights: Seq<T>,
    x: T,
    y: T,
    z: T,
    low: real,
    high: real,
)
    requires
        m.is_exact(value),
        (m.is_finite)(x),
        (m.is_finite)(y),
        (m.is_finite)(z),
        m.is_convex(value, weights),
        low <= value(x) <= high,
        low <= value(y) <= high,
        low <= value(z) <= high,
    ensures
        low <= value(m.combined(weights, x, y, z)) <= high,
{
    let (u, v, w) = (value(weights[0]), value(weights[1]), value(weights[2]));
    crate::reals::lemma_share(u, low, value(x));
    crate::reals::lemma_share(v, low, value(y));
    crate::reals::lemma_share(w, low, value(z));
    crate::reals::lemma_share(u, value(x), high);
    crate::reals::lemma_share(v, value(y), high);
    crate::reals::lemma_share(w, value(z), high);
    crate::reals::lemma_shares(u, v, w, low);
    crate::reals::lemma_shares(u, v, w, high);
    assert((u + v + w) * low == low && (u + v + w) * high == high) by {
        assert(u + v + w == 1 as real);
        assert(1 as real * low == low && 1 as real * high == high);
    }
}

/// The weak color order of a pair taken the other way round is the opposite
/// one.
pub proof fn law_the_weak_order_is_antisymmetric<T>(
    m: Arithmetic<T>,
    value: spec_fn(T) -> real,
    dr: T,
    dg: T,
    db: T,
)
    requires
        m.is_exact(value),
        (m.is_finite)(dr),
        (m.is_finite)(dg),
        (m.is_finite)(db),
    ensures
        value(m.dominance((m.negated)(dr), (m.negated)(dg), (m.negated)(db))) == -value(
            m.dominance(dr, dg, db),
        ),
{
    lemma_ratio(m, value, 5, 100);
}

/// The weak color order collapses the mixture: where the first color dominates
/// the mixture is the upper mode alone, where the second does it is the lower
/// mode alone, and elsewhere it is evenly weighted.
pub proof fn law_the_order_weights_the_modes<T>(
    m: Arithmetic<T>,
    value: spec_fn(T) -> real,
    dr: T,
    dg: T,
    db: T,
)
    requires
        m.is_exact(value),
    ensures
        ({
            let order = m.dominance(dr, dg, db);
            let two = (m.from_int)(2);
            let upper = value((m.over)((m.plus)(m.one(), order), two));
            let lower = value((m.over)((m.minus)(m.one(), order), two));
            &&& upper + lower == 1 as real
            &&& value(order) == 1 as real ==> upper == 1 as real
            &&& value(order) == -(1 as real) ==> lower == 1 as real
            &&& value(order) == 0 as real ==> upper == lower
            &&& value(order) == 1 as real || value(order) == 0 as real || value(order) == -(
            1 as real)
        }),
{
    let order = m.dominance(dr, dg, db);
    let two = (m.from_int)(2);
    let (plus, minus) = ((m.plus)(m.one(), order), (m.minus)(m.one(), order));
    assert(value(two) == 2 as real);
    assert(value((m.over)(plus, two)) * (2 as real) == value(plus));
    assert(value((m.over)(minus, two)) * (2 as real) == value(minus));
}

/// The signed responsibility of two modes lies between minus one and one.
pub proof fn law_responsibilities_are_bounded<T>(
    m: Arithmetic<T>,
    value: spec_fn(T) -> real,
    low: T,
    high: T,
)
    requires
        m.is_exact(value),
        (m.is_finite)(low),
        (m.is_finite)(high),
    ensures
        -(1 as real) < value(m.responsibility(low, high)) < 1 as real,
{
    let peak = (m.larger)(low, high);
    let a = (m.exponential)((m.minus)(low, peak));
    let b = (m.exponential)((m.minus)(high, peak));
    let sum = value((m.plus)(a, b));
    let q = value(m.responsibility(low, high));
    assert(q * sum == value(a) - value(b));
    assert(-(1 as real) < q < 1 as real) by (nonlinear_arith)
        requires
            sum > 0 as real,
            -sum < q * sum < sum,
    ;
}

/// A mean lies between the smallest and the largest of the samples that it is
/// the mean of.
pub proof fn law_means_lie_between_the_samples<S, T>(
    m: Arithmetic<T>,
    value: spec_fn(T) -> real,
    c: Codec<S, T>,
    picture: Picture<S>,
    columns: Span,
    rows: Span,
    channel: int,
    low: real,
    high: real,
)
    requires
        m.is_exact(value),
        0 < columns.len() * rows.len() <= u64::MAX,
        forall|k: int|
            0 <= k < columns.len() * rows.len() ==> (m.is_finite)(
                #[trigger] Arithmetic::<T>::box_term(c, picture, columns, rows, channel)(k),
            ) && low <= value(
                Arithmetic::<T>::box_term(c, picture, columns, rows, channel)(k),
            ) <= high,
    ensures
        low <= value(m.box_mean(c, picture, columns, rows, channel)) <= high,
{
    let count = columns.len() * rows.len();
    let term = Arithmetic::<T>::box_term(c, picture, columns, rows, channel);
    lemma_total_between(m, value, count as nat, term, low, high);
    let n = count as real;
    let mean = value(m.box_mean(c, picture, columns, rows, channel));
    assert(value((m.from_int)(count as u64)) == n);
    assert(mean * n == value(m.total(count as nat, term)));
    assert(low <= mean <= high) by (nonlinear_arith)
        requires
            n > 0 as real,
            n * low <= mean * n <= n * high,
    ;
}

/// A sum lies between as many times the bounds of its terms.
proof fn lemma_total_between<T>(
    m: Arithmetic<T>,
    value: spec_fn(T) -> real,
    count: nat,
    term: spec_fn(int) -> T,
    low: real,
    high: real,
)
    requires
        m.is_exact(value),
        forall|k: int|
            0 <= k < count ==> (m.is_finite)(#[trigger] term(k)) && low <= value(term(k)) <= high,
    ensures
        (m.is_finite)(m.total(count, term)),
        count as real * low <= value(m.total(count, term)) <= count as real * high,
    decreases count,
{
    if count > 0 {
        lemma_total_between(m, value, (count - 1) as nat, term, low, high);
        let n = (count - 1) as real;
        assert(low <= value(term(count - 1)) <= high);
        assert((n + 1 as real) * low == n * low + low && (n + 1 as real) * high == n * high + high)
            by (nonlinear_arith);
        assert(count as real == n + 1 as real);
    } else {
        assert(count as real == 0 as real);
        assert(0 as real * low == 0 as real && 0 as real * high == 0 as real) by (nonlinear_arith);
    }
}

/// The mapping that the iteration starts from is the plain channel average.
pub proof fn law_the_initial_mapping_is_the_average<T>(
    m: Arithmetic<T>,
    value: spec_fn(T) -> real,
    r: T,
    g: T,
    b: T,
)
    requires
        m.is_exact(value),
        (m.is_finite)(r),
        (m.is_finite)(g),
        (m.is_finite)(b),
    ensures
        value(m.polynomial(m.initial_weights(), r, g, b)) * (3 as real) == value(r) + value(g)
            + value(b),
{
    let weights = m.initial_weights();
    let term = m.polynomial_term(weights, r, g, b);
    lemma_ratio(m, value, 1, 3);
    let third = value(m.ratio(1, 3));
    lemma_initial_tail(m, value, r, g, b, NUM_MONOMIALS as nat);
    assert(value(m.total(0, term)) == 0 as real);
    assert(value(m.total(1, term)) == value(m.total(0, term)) + value(term(0)));
    assert(value(m.total(2, term)) == value(m.total(1, term)) + value(term(1)));
    assert(value(m.total(3, term)) == value(m.total(2, term)) + value(term(2)));
    lemma_linear_term(m, value, r, g, b, 0);
    lemma_linear_term(m, value, r, g, b, 1);
    lemma_linear_term(m, value, r, g, b, 2);
    lemma_third(third, value(r));
    lemma_third(third, value(g));
    lemma_third(third, value(b));
}

/// Three thirds of a number.
proof fn lemma_third(third: real, a: real)
    requires
        third * (3 as real) == 1 as real,
    ensures
        third * a * (3 as real) == a,
{
    assert(third * a * (3 as real) == a) by (nonlinear_arith)
        requires
            third * (3 as real) == 1 as real,
    ;
}

/// A term of degree one of the initial mapping.
proof fn lemma_linear_term<T>(
    m: Arithmetic<T>,
    value: spec_fn(T) -> real,
    r: T,
    g: T,
    b: T,
    index: int,
)
    requires
        m.is_exact(value),
        (m.is_finite)(r),
        (m.is_finite)(g),
        (m.is_finite)(b),
        0 <= index < 3,
    ensures
        (m.is_finite)(m.polynomial_term(m.initial_weights(), r, g, b)(index)),
        value(m.polynomial_term(m.initial_weights(), r, g, b)(index)) == value(m.ratio(1, 3))
            * value(
            if index == 0 {
                r
            } else if index == 1 {
                g
            } else {
                b
            },
        ),
{
    let weights = m.initial_weights();
    let e = Monomial::nth(index);
    let first = (m.times)(weights[index], (m.power)(r, e.r));
    let second = (m.times)(first, (m.power)(g, e.g));
    let third = (m.times)(second, (m.power)(b, e.b));
    assert(value((m.power)(r, 0)) == 1 as real && value((m.power)(r, 1)) == value(r));
    assert(value((m.power)(g, 0)) == 1 as real && value((m.power)(g, 1)) == value(g));
    assert(value((m.power)(b, 0)) == 1 as real && value((m.power)(b, 1)) == value(b));
    assert(m.polynomial_term(weights, r, g, b)(index) == third);
}

/// The terms of degree two of the initial mapping do not count.
proof fn lemma_initial_tail<T>(
    m: Arithmetic<T>,
    value: spec_fn(T) -> real,
    r: T,
    g: T,
    b: T,
    count: nat,
)
    requires
        m.is_exact(value),
        (m.is_finite)(r),
        (m.is_finite)(g),
        (m.is_finite)(b),
        3 <= count <= NUM_MONOMIALS,
    ensures
        (m.is_finite)(m.total(count, m.polynomial_term(m.initial_weights(), r, g, b))),
        value(m.total(count, m.polynomial_term(m.initial_weights(), r, g, b))) == value(
            m.total(3, m.polynomial_term(m.initial_weights(), r, g, b)),
        ),
    decreases count,
{
    if count == 3 {
        let term = m.polynomial_term(m.initial_weights(), r, g, b);
        lemma_linear_term(m, value, r, g, b, 0);
        lemma_linear_term(m, value, r, g, b, 1);
        lemma_linear_term(m, value, r, g, b, 2);
        assert((m.is_finite)(m.total(0, term)));
        assert((m.is_finite)(m.total(1, term)));
        assert((m.is_finite)(m.total(2, term)));
        assert((m.is_finite)(m.total(3, term)));
    } else {
        lemma_initial_tail(m, value, r, g, b, (count - 1) as nat);
        let weights = m.initial_weights();
        let term = m.polynomial_term(weights, r, g, b);
        let e = Monomial::nth(count - 1);
        let (x, y, z) = (
            value((m.power)(r, e.r)),
            value((m.power)(g, e.g)),
            value((m.power)(b, e.b)),
        );
        assert((m.is_finite)(weights[count - 1]) && value(weights[count - 1]) == 0 as real);
        assert((m.is_finite)((m.power)(r, e.r)) && (m.is_finite)((m.power)(g, e.g))
            && (m.is_finite)((m.power)(b, e.b)));
        assert(value(term(count - 1)) == value(weights[count - 1]) * x * y * z);
        lemma_nothing(value(weights[count - 1]), x, y, z);
    }
}

/// No share of anything is nothing.
proof fn lemma_nothing(share: real, x: real, y: real, z: real)
    requires
        share == 0 as real,
    ensures
        share * x * y * z == 0 as real,
{
    assert(share * x == 0 as real) by (nonlinear_arith)
        requires
            share == 0 as real,
    ;
    assert((share * x) * y == 0 as real) by (nonlinear_arith)
        requires
            share * x == 0 as real,
    ;
    assert((share * x * y) * z == 0 as real) by (nonlinear_arith)
        requires
            share * x * y == 0 as real,
    ;
}

/// The value of a sum is the sum of the values.
pub(crate) proof fn lemma_total_value<T>(
    m: Arithmetic<T>,
    value: spec_fn(T) -> real,
    count: nat,
    term: spec_fn(int) -> T,
    f: spec_fn(int) -> real,
)
    requires
        m.is_exact(value),
        forall|k: int|
            0 <= k < count ==> (m.is_finite)(#[trigger] term(k)) && value(term(k)) == f(k),
    ensures
        (m.is_finite)(m.total(count, term)),
        value(m.total(count, term)) == crate::reals::sum(count, f),
    decreases count,
{
    if count > 0 {
        lemma_total_value(m, value, (count - 1) as nat, term, f);
        assert((m.is_finite)(term(count - 1)));
    }
}

impl<T> Arithmetic<T> {
    /// Whether the color of the pixel at `index` is finite.
    pub open spec fn is_finite_color(self, planes: PlaneSet<T>, index: int) -> bool {
        &&& (self.is_finite)(planes.r[index])
        &&& (self.is_finite)(planes.g[index])
        &&& (self.is_finite)(planes.b[index])
    }
}

/// A term of a polynomial is its coefficient times the value of its monomial.
proof fn lemma_polynomial_term<T>(
    m: Arithmetic<T>,
    value: spec_fn(T) -> real,
    weights: Seq<T>,
    planes: PlaneSet<T>,
    index: int,
    j: int,
)
    requires
        m.is_exact(value),
        m.is_finite_color(planes, index),
        (m.is_finite)(weights[j]),
        0 <= j < NUM_MONOMIALS,
    ensures
        ({
            let (r, g, b) = (planes.r[index], planes.g[index], planes.b[index]);
            &&& (m.is_finite)(m.monomial_value(j, r, g, b))
            &&& (m.is_finite)(m.polynomial_term(weights, r, g, b)(j))
            &&& value(m.polynomial_term(weights, r, g, b)(j)) == value(weights[j]) * value(
                m.monomial_value(j, r, g, b),
            )
        }),
{
    let (r, g, b) = (planes.r[index], planes.g[index], planes.b[index]);
    let e = Monomial::nth(j);
    let (p, q, s) = ((m.power)(r, e.r), (m.power)(g, e.g), (m.power)(b, e.b));
    assert(e.r <= 2 && e.g <= 2 && e.b <= 2);
    assert((m.is_finite)((m.power)(r, 0)) && (m.is_finite)((m.power)(r, 1)) && (m.is_finite)(
        (m.power)(r, 2),
    ));
    assert((m.is_finite)((m.power)(g, 0)) && (m.is_finite)((m.power)(g, 1)) && (m.is_finite)(
        (m.power)(g, 2),
    ));
    assert((m.is_finite)((m.power)(b, 0)) && (m.is_finite)((m.power)(b, 1)) && (m.is_finite)(
        (m.power)(b, 2),
    ));
    assert((m.is_finite)(p) && (m.is_finite)(q) && (m.is_finite)(s));
    let (w, x, y, z) = (value(weights[j]), value(p), value(q), value(s));
    assert(w * x * y * z == w * (x * y * z)) by (nonlinear_arith);
}

/// Under a mapping, the weighted sum of the monomial differences of a pair is
/// the difference of the polynomial between its two pixels.
/// [`crate::rounded_mapping`] bounds what rounding changes.
pub proof fn law_monomial_differences_make_gray_differences<T>(
    m: Arithmetic<T>,
    value: spec_fn(T) -> real,
    planes: PlaneSet<T>,
    weights: Seq<T>,
    k: int,
)
    requires
        m.is_exact(value),
        0 <= k < planes.neighbors().count(),
        m.is_finite_color(planes, planes.neighbors().first(k)),
        m.is_finite_color(planes, planes.neighbors().second(k)),
        weights.len() == NUM_MONOMIALS,
        m.all_finite(weights),
    ensures
        ({
            let (x, y) = (planes.neighbors().first(k), planes.neighbors().second(k));
            value(m.gray_difference(m.evidence(planes), weights, k)) == value(
                m.polynomial(weights, planes.r[x], planes.g[x], planes.b[x]),
            ) - value(m.polynomial(weights, planes.r[y], planes.g[y], planes.b[y]))
        }),
{
    let (x, y) = (planes.neighbors().first(k), planes.neighbors().second(k));
    let evidence = m.evidence(planes);
    let count = NUM_MONOMIALS as nat;
    let difference = m.gray_term(evidence, weights, k);
    let first = m.polynomial_term(weights, planes.r[x], planes.g[x], planes.b[x]);
    let second = m.polynomial_term(weights, planes.r[y], planes.g[y], planes.b[y]);
    let f = |j: int| value(first(j));
    let g = |j: int| value(second(j));
    let h = |j: int| value(difference(j));
    let minus = -(1 as real);
    assert forall|j: int| 0 <= j < count implies (m.is_finite)(#[trigger] first(j))
        && (m.is_finite)(second(j)) && (m.is_finite)(difference(j)) && h(j) == f(j) + minus * g(
        j,
    ) by {
        assert((m.is_finite)(weights[j]));
        lemma_polynomial_term(m, value, weights, planes, x, j);
        lemma_polynomial_term(m, value, weights, planes, y, j);
        let a = m.monomial_value(j, planes.r[x], planes.g[x], planes.b[x]);
        let b = m.monomial_value(j, planes.r[y], planes.g[y], planes.b[y]);
        assert(evidence.basis[j][k] == (m.minus)(a, b));
        assert(difference(j) == (m.times)(weights[j], (m.minus)(a, b)));
        let (w, u, v) = (value(weights[j]), value(a), value(b));
        assert(w * (u - v) == w * u + minus * (w * v)) by (nonlinear_arith)
            requires
                minus == -(1 as real),
        ;
    }
    assert forall|j: int| 0 <= j < count implies (m.is_finite)(#[trigger] second(j)) by {
        assert((m.is_finite)(first(j)));
    }
    assert forall|j: int| 0 <= j < count implies (m.is_finite)(#[trigger] difference(j)) by {
        assert((m.is_finite)(first(j)));
    }
    assert forall|j: int| 0 <= j < count implies #[trigger] h(j) == f(j) + minus * g(j) by {
        assert((m.is_finite)(first(j)));
    }
    lemma_total_value(m, value, count, first, f);
    lemma_total_value(m, value, count, second, g);
    lemma_total_value(m, value, count, difference, h);
    crate::reals::lemma_sum_combines(count, f, g, h, minus);
}

/// Exchanging two items does not change a sum over all of them.
proof fn lemma_swapped_sum<A>(items: Seq<A>, f: spec_fn(A) -> real, i: int, j: int)
    requires
        0 <= i < items.len(),
        0 <= j < items.len(),
    ensures
        crate::reals::sum(items.len(), |k: int| f(SplitMix64::swapped(items, i, j)[k]))
            == crate::reals::sum(items.len(), |k: int| f(items[k])),
{
    let n = items.len();
    let once = items.update(i, items[j]);
    let twice = SplitMix64::swapped(items, i, j);
    let (p, q, r) = (|k: int| f(items[k]), |k: int| f(once[k]), |k: int| f(twice[k]));
    crate::reals::lemma_sum_update(n, p, q, i);
    crate::reals::lemma_sum_update(n, q, r, j);
}

/// A shuffle does not change a sum over all items.
pub(crate) proof fn lemma_shuffled_sum<A>(
    items: Seq<A>,
    f: spec_fn(A) -> real,
    seed: u64,
    last: int,
)
    requires
        last < items.len(),
    ensures
        SplitMix64::shuffled(items, seed, last).len() == items.len(),
        crate::reals::sum(items.len(), |k: int| f(SplitMix64::shuffled(items, seed, last)[k]))
            == crate::reals::sum(items.len(), |k: int| f(items[k])),
    decreases last,
{
    if last >= 1 {
        let next = SplitMix64::advanced(seed);
        let pick = SplitMix64::mixed(next) as int % (last + 1);
        lemma_swapped_sum(items, f, last, pick);
        lemma_shuffled_sum(SplitMix64::swapped(items, last, pick), f, next, last - 1);
    }
}

/// The differences of the randomly matched pairs cancel, whatever the seed:
/// every grid point is the first of one pair and the second of one.
/// [`crate::rounding`] bounds what rounding leaves.
pub proof fn law_matched_differences_cancel<S, T>(
    m: Arithmetic<T>,
    value: spec_fn(T) -> real,
    c: Codec<S, T>,
    picture: Picture<S>,
    grid: Grid,
    seed: u64,
    channel: int,
)
    requires
        m.is_exact(value),
        forall|s: S| (m.is_finite)(#[trigger] (c.to_unit)(s)),
    ensures
        ({
            let matched = m.matched(grid, picture.width, picture.height, seed);
            crate::reals::sum(
                matched.len(),
                |k: int| value(m.channel_gap(c, picture, matched[k], channel)),
            ) == 0 as real
        }),
{
    let points = m.grid_points(grid, picture.width, picture.height);
    let n = points.len();
    let partners = SplitMix64::shuffled(points, seed, n - 1);
    let matched = m.matched(grid, picture.width, picture.height, seed);
    let sample = |p: Point| value((c.to_unit)(picture.channel(p.y * picture.width + p.x, channel)));
    lemma_shuffled_sum(points, sample, seed, n - 1);
    let (f, g) = (|k: int| sample(points[k]), |k: int| sample(partners[k]));
    let h = |k: int| value(m.channel_gap(c, picture, matched[k], channel));
    let minus = -(1 as real);
    assert forall|k: int| 0 <= k < n implies #[trigger] h(k) == f(k) + minus * g(k) by {
        let a = (c.to_unit)(
            picture.channel(points[k].y * picture.width + points[k].x, channel),
        );
        let b = (c.to_unit)(
            picture.channel(partners[k].y * picture.width + partners[k].x, channel),
        );
        assert(h(k) == value((m.minus)(a, b)));
        assert(minus * value(b) == -value(b));
    }
    crate::reals::lemma_sum_combines(n, f, g, h, minus);
    let total = crate::reals::sum(n, f);
    assert(minus * total == -total);
}

/// The weights that the iteration starts from are finite.
pub(crate) proof fn lemma_initial_weights_are_finite<T>(
    m: Arithmetic<T>,
    value: spec_fn(T) -> real,
)
    requires
        m.is_exact(value),
    ensures
        m.all_finite(m.initial_weights()),
{
    let three = (m.from_int)(3);
    assert(value(three) == 3 as real && (m.is_finite)(three));
    assert((m.is_finite)(m.ratio(1, 3)) && (m.is_finite)(m.zero()));
}

} // verus!
