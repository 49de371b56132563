//! What the steps of the conversions compute, as formulas of real numbers.
//!
//! The laws of this module give the results of single steps before rounding, in
//! terms of what the steps are given.
use crate::definitions::Picture;
use crate::planes::PlaneSet;
use crate::sampling::Point;
use crate::scalar::{Arithmetic, NUM_MONOMIALS};
use crate::subpixel::Codec;
use vstd::prelude::*;

verus! {

impl<T> Arithmetic<T> {
    /// Whether the operations are those of the real numbers, square roots,
    /// extremes and the order of all numbers included, and single precision is
    /// no less precise.
    pub open spec fn is_ideal(self, value: spec_fn(T) -> real) -> bool {
        &&& self.is_exact(value)
        &&& forall|a: T|
            (self.is_finite)(a) ==> (self.is_finite)(#[trigger] (self.single)(a)) && value(
                (self.single)(a),
            ) == value(a)
        &&& forall|a: T|
            (self.is_finite)(a) && value(a) >= 0 as real ==> {
                let r = #[trigger] (self.square_root)(a);
                (self.is_finite)(r) && value(r) >= 0 as real && value(r) * value(r) == value(a)
            }
        &&& forall|a: T, b: T|
            (self.is_finite)(a) && (self.is_finite)(b) ==> (self.is_finite)(
                #[trigger] (self.smaller)(a, b),
            ) && value((self.smaller)(a, b)) == if value(b) < value(a) {
                value(b)
            } else {
                value(a)
            }
        &&& forall|a: T|
            (self.is_finite)(a) ==> (self.is_finite)(#[trigger] (self.absolute)(a)) && value(
                (self.absolute)(a),
            ) == crate::rounding::magnitude(value(a))
        &&& forall|a: T| (self.is_finite)(a) ==> #[trigger] (self.smaller)(self.infinity, a) == a
        &&& forall|a: T|
            (self.is_finite)(a) ==> #[trigger] (self.larger)((self.negated)(self.infinity), a) == a
        &&& forall|a: T, b: T|
            (self.is_finite)(a) && (self.is_finite)(b) ==> (#[trigger] (self.precedes)(a, b)
                <==> value(a) <= value(b))
    }
}

/// The square of a number.
pub open spec fn squared(x: real) -> real {
    x * x
}

/// The larger of two squares belongs to the number of larger size.
proof fn lemma_square_order(a: real, b: real)
    requires
        0 as real <= a,
        squared(b) <= squared(a),
    ensures
        -a <= b <= a,
{
    if b > a {
        crate::reals::lemma_strict_products(a, b, a, b);
    }
    if b < -a {
        crate::reals::lemma_strict_products(a, -b, a, -b);
        assert(-b * -b == b * b) by (nonlinear_arith);
    }
}

/// A square is not negative.
proof fn lemma_square_sign(a: real)
    ensures
        squared(a) >= 0 as real,
{
    assert(a * a >= 0 as real) by (nonlinear_arith);
}

/// The length of a vector, as a real number.
proof fn lemma_length<T>(m: Arithmetic<T>, value: spec_fn(T) -> real, x: T, y: T, z: T)
    requires
        m.is_ideal(value),
        (m.is_finite)(x),
        (m.is_finite)(y),
        (m.is_finite)(z),
    ensures
        (m.is_finite)(m.length(x, y, z)),
        value(m.length(x, y, z)) >= 0 as real,
        squared(value(m.length(x, y, z))) == squared(value(x)) + squared(value(y)) + squared(
            value(z),
        ),
{
    lemma_square_sign(value(x));
    lemma_square_sign(value(y));
    lemma_square_sign(value(z));
    let (p, q, r) = (m.square(x), m.square(y), m.square(z));
    assert((m.is_finite)(p) && value(p) == squared(value(x)));
    assert((m.is_finite)(q) && value(q) == squared(value(y)));
    assert((m.is_finite)(r) && value(r) == squared(value(z)));
    let sum = (m.plus)((m.plus)(p, q), r);
    assert((m.is_finite)(sum) && value(sum) == value(p) + value(q) + value(r));
}

/// A scaled length, as a real number.
proof fn lemma_scaled_length(l: real, c: real, scale: real)
    requires
        c * scale == l,
        scale > 0 as real,
        l >= 0 as real,
    ensures
        c >= 0 as real,
        squared(c) * squared(scale) == squared(l),
{
    if c < 0 as real {
        crate::reals::lemma_multiple(scale, c, 0 as real);
        assert(0 as real * scale == 0 as real);
    }
    crate::reals::lemma_associate(c, scale, c * scale);
    crate::reals::lemma_associate(c, c, scale * scale);
    crate::reals::lemma_associate(scale, c, scale);
    crate::reals::lemma_commute(scale, c);
    crate::reals::lemma_associate(c, scale, scale);
}

/// The linear light of a finite channel on the unit interval is finite.
proof fn lemma_light_is_finite<T>(m: Arithmetic<T>, value: spec_fn(T) -> real, c: T)
    requires
        m.is_exact(value),
        (m.is_finite)(c),
    ensures
        (m.is_finite)(m.linear(m.clamp(c, m.zero(), m.one()))),
{
    crate::lightness::lemma_clamped(m, value, c, c);
    let clamped = m.clamp(c, m.zero(), m.one());
    crate::lightness::lemma_linear_light(m, value, clamped, clamped);
}

/// A coordinate of the transfer function is finite.
proof fn lemma_lab_curve_is_finite<T>(m: Arithmetic<T>, value: spec_fn(T) -> real, t: T)
    requires
        m.is_exact(value),
        (m.is_finite)(t),
    ensures
        (m.is_finite)(m.lab_curve(t)),
{
    if value(t) * (24_389 as real) <= 216 as real {
        crate::lightness::lemma_line(m, value, t);
    } else {
        crate::lightness::lemma_root(m, value, t);
    }
}

/// A weighted sum of finite channels, against a white point, is finite.
proof fn lemma_weighted_is_finite<T>(
    m: Arithmetic<T>,
    value: spec_fn(T) -> real,
    weights: (u64, u64, u64),
    r: T,
    g: T,
    b: T,
    white: T,
)
    requires
        m.is_exact(value),
        (m.is_finite)(r) && (m.is_finite)(g) && (m.is_finite)(b),
        (m.is_finite)(white),
        value(white) > 0 as real,
    ensures
        (m.is_finite)((m.over)(m.weighted(weights, r, g, b), white)),
{
    crate::exact::lemma_ratio(m, value, weights.0, 1_000_000);
    crate::exact::lemma_ratio(m, value, weights.1, 1_000_000);
    crate::exact::lemma_ratio(m, value, weights.2, 1_000_000);
    assert(value((m.from_int)(1_000_000)) == 1_000_000 as real);
    assert((m.is_finite)(m.ratio(weights.0, 1_000_000)));
    assert((m.is_finite)(m.ratio(weights.1, 1_000_000)));
    assert((m.is_finite)(m.ratio(weights.2, 1_000_000)));
}

/// CIELAB of finite channels is finite.
pub(crate) proof fn lemma_lab_is_finite<T>(
    m: Arithmetic<T>,
    value: spec_fn(T) -> real,
    r: T,
    g: T,
    b: T,
)
    requires
        m.is_exact(value),
        (m.is_finite)(r) && (m.is_finite)(g) && (m.is_finite)(b),
    ensures
        (m.is_finite)(m.lab(r, g, b).0),
        (m.is_finite)(m.lab(r, g, b).1),
        (m.is_finite)(m.lab(r, g, b).2),
{
    lemma_light_is_finite(m, value, r);
    lemma_light_is_finite(m, value, g);
    lemma_light_is_finite(m, value, b);
    let (zero, one) = (m.zero(), m.one());
    let x = m.linear(m.clamp(r, zero, one));
    let y = m.linear(m.clamp(g, zero, one));
    let z = m.linear(m.clamp(b, zero, one));
    let (wx, wz) = (m.ratio(950_456, 1_000_000), m.ratio(1_088_754, 1_000_000));
    crate::exact::lemma_ratio(m, value, 950_456, 1_000_000);
    crate::exact::lemma_ratio(m, value, 1_088_754, 1_000_000);
    assert(value((m.from_int)(1_000_000)) == 1_000_000 as real);
    assert((m.is_finite)(wx) && (m.is_finite)(wz));
    assert(value(one) == 1 as real);
    lemma_weighted_is_finite(m, value, (412_453, 357_580, 180_423), x, y, z, wx);
    lemma_weighted_is_finite(m, value, (212_671, 715_160, 72_169), x, y, z, one);
    lemma_weighted_is_finite(m, value, (19_334, 119_193, 950_227), x, y, z, wz);
    let fx = (m.over)(m.weighted((412_453, 357_580, 180_423), x, y, z), wx);
    let fy = (m.over)(m.weighted((212_671, 715_160, 72_169), x, y, z), one);
    let fz = (m.over)(m.weighted((19_334, 119_193, 950_227), x, y, z), wz);
    lemma_lab_curve_is_finite(m, value, fx);
    lemma_lab_curve_is_finite(m, value, fy);
    lemma_lab_curve_is_finite(m, value, fz);
}

/// The contrast of a pair of neighbors is the distance of their colors in
/// CIELAB, in hundredths: its square is the sum of the squares of the differences
/// of all three coordinates. So it is zero only where all three are equal, and at
/// least as large as each of the three differences.
pub proof fn law_contrast_is_the_distance_in_cielab<T>(
    m: Arithmetic<T>,
    value: spec_fn(T) -> real,
    planes: PlaneSet<T>,
    k: int,
)
    requires
        m.is_ideal(value),
        0 <= k < planes.neighbors().count(),
        m.is_finite_color(planes, planes.neighbors().first(k)),
        m.is_finite_color(planes, planes.neighbors().second(k)),
    ensures
        ({
            let (i, j) = (planes.neighbors().first(k), planes.neighbors().second(k));
            let p = m.lab(planes.r[i], planes.g[i], planes.b[i]);
            let q = m.lab(planes.r[j], planes.g[j], planes.b[j]);
            let dl = value(p.0) - value(q.0);
            let da = value(p.1) - value(q.1);
            let db = value(p.2) - value(q.2);
            let c = value(m.contrast(planes, k));
            &&& m.evidence(planes).pairs() == planes.neighbors().count()
            &&& m.evidence(planes).contrast[k] == m.contrast(planes, k)
            &&& (m.is_finite)(m.contrast(planes, k))
            &&& c >= 0 as real
            &&& squared(c) * (10_000 as real) == squared(dl) + squared(da) + squared(db)
            &&& c == 0 as real ==> dl == 0 as real && da == 0 as real && db == 0 as real
            &&& -(100 as real * c) <= dl <= 100 as real * c
            &&& -(100 as real * c) <= da <= 100 as real * c
            &&& -(100 as real * c) <= db <= 100 as real * c
        }),
{
    let (i, j) = (planes.neighbors().first(k), planes.neighbors().second(k));
    let p = m.lab(planes.r[i], planes.g[i], planes.b[i]);
    let q = m.lab(planes.r[j], planes.g[j], planes.b[j]);
    lemma_lab_is_finite(m, value, planes.r[i], planes.g[i], planes.b[i]);
    lemma_lab_is_finite(m, value, planes.r[j], planes.g[j], planes.b[j]);
    let (x, y, z) = ((m.minus)(p.0, q.0), (m.minus)(p.1, q.1), (m.minus)(p.2, q.2));
    assert((m.is_finite)(x) && (m.is_finite)(y) && (m.is_finite)(z));
    lemma_length(m, value, x, y, z);
    let hundred = (m.from_int)(100);
    assert(value(hundred) == 100 as real);
    let (l, c) = (value(m.length(x, y, z)), value(m.contrast(planes, k)));
    assert(c * (100 as real) == l);
    lemma_scaled_length(l, c, 100 as real);
    assert(squared(100 as real) == 10_000 as real);
    lemma_square_sign(value(x));
    lemma_square_sign(value(y));
    lemma_square_sign(value(z));
    lemma_square_order(l, value(x));
    lemma_square_order(l, value(y));
    lemma_square_order(l, value(z));
}

/// The weak order of a pair of neighbors is one where the first pixel is brighter
/// by more than a twentieth in all three channels, minus one where it is darker
/// by more than that in all three, and zero elsewhere.
pub proof fn law_the_weak_order_compares_all_channels<T>(
    m: Arithmetic<T>,
    value: spec_fn(T) -> real,
    planes: PlaneSet<T>,
    k: int,
)
    requires
        m.is_exact(value),
        0 <= k < planes.neighbors().count(),
        m.is_finite_color(planes, planes.neighbors().first(k)),
        m.is_finite_color(planes, planes.neighbors().second(k)),
    ensures
        ({
            let (i, j) = (planes.neighbors().first(k), planes.neighbors().second(k));
            let dr = 20 as real * (value(planes.r[i]) - value(planes.r[j]));
            let dg = 20 as real * (value(planes.g[i]) - value(planes.g[j]));
            let db = 20 as real * (value(planes.b[i]) - value(planes.b[j]));
            let (one, less) = (1 as real, -(1 as real));
            &&& m.evidence(planes).order[k] == m.weak_order(planes, k)
            &&& value(m.weak_order(planes, k)) == if dr > one && dg > one && db > one {
                one
            } else if dr < less && dg < less && db < less {
                less
            } else {
                0 as real
            }
        }),
{
    crate::exact::lemma_ratio(m, value, 5, 100);
    assert(value((m.from_int)(100)) == 100 as real);
    assert((m.is_finite)(m.ratio(5, 100)));
    assert((m.is_finite)((m.negated)(m.ratio(5, 100))));
}

/// The polynomial has the nine monomials of degree one and two, each with its own
/// coefficient.
pub proof fn law_the_polynomial_has_nine_terms<T>(
    m: Arithmetic<T>,
    value: spec_fn(T) -> real,
    weights: Seq<T>,
    r: T,
    g: T,
    b: T,
)
    requires
        m.is_exact(value),
        m.all_finite(weights),
        (m.is_finite)(r) && (m.is_finite)(g) && (m.is_finite)(b),
    ensures
        (m.is_finite)(m.polynomial(weights, r, g, b)),
        ({
            let (x, y, z) = (value(r), value(g), value(b));
            let w = |j: int| value(weights[j]);
            value(m.polynomial(weights, r, g, b)) == w(0) * x + w(1) * y + w(2) * z + w(3) * (x * y)
                + w(4) * (x * z) + w(5) * (y * z) + w(6) * (x * x) + w(7) * (y * y) + w(8) * (z * z)
        }),
{
    let (x, y, z) = (value(r), value(g), value(b));
    let term = m.polynomial_term(weights, r, g, b);
    let f = |j: int| value(term(j));
    let w = |j: int| value(weights[j]);
    assert forall|j: int| 0 <= j < NUM_MONOMIALS implies (m.is_finite)(#[trigger] term(j))
        && value(term(j)) == f(j) by {
        lemma_term(m, value, weights[j], r, g, b, j);
    }
    crate::exact::lemma_total_value(m, value, NUM_MONOMIALS as nat, term, f);
    lemma_term(m, value, weights[0], r, g, b, 0);
    lemma_term(m, value, weights[1], r, g, b, 1);
    lemma_term(m, value, weights[2], r, g, b, 2);
    lemma_term(m, value, weights[3], r, g, b, 3);
    lemma_term(m, value, weights[4], r, g, b, 4);
    lemma_term(m, value, weights[5], r, g, b, 5);
    lemma_term(m, value, weights[6], r, g, b, 6);
    lemma_term(m, value, weights[7], r, g, b, 7);
    lemma_term(m, value, weights[8], r, g, b, 8);
    reveal_with_fuel(crate::reals::sum, 10);
}

/// One term of the polynomial, as a real number.
proof fn lemma_term<T>(
    m: Arithmetic<T>,
    value: spec_fn(T) -> real,
    weight: T,
    r: T,
    g: T,
    b: T,
    j: int,
)
    requires
        m.is_exact(value),
        (m.is_finite)(weight),
        (m.is_finite)(r) && (m.is_finite)(g) && (m.is_finite)(b),
        0 <= j < NUM_MONOMIALS,
    ensures
        ({
            let e = crate::polynomial::Monomial::nth(j);
            let t = (m.times)(
                (m.times)((m.times)(weight, (m.power)(r, e.r)), (m.power)(g, e.g)),
                (m.power)(b, e.b),
            );
            let (w, x, y, z) = (value(weight), value(r), value(g), value(b));
            &&& (m.is_finite)(t)
            &&& value(t) == if j == 0 {
                w * x
            } else if j == 1 {
                w * y
            } else if j == 2 {
                w * z
            } else if j == 3 {
                w * (x * y)
            } else if j == 4 {
                w * (x * z)
            } else if j == 5 {
                w * (y * z)
            } else if j == 6 {
                w * (x * x)
            } else if j == 7 {
                w * (y * y)
            } else {
                w * (z * z)
            }
        }),
{
    let e = crate::polynomial::Monomial::nth(j);
    let (w, x, y, z) = (value(weight), value(r), value(g), value(b));
    let (p, q, s) = ((m.power)(r, e.r), (m.power)(g, e.g), (m.power)(b, e.b));
    assert((m.is_finite)((m.power)(r, 0)) && (m.is_finite)((m.power)(r, 1)) && (m.is_finite)(
        (m.power)(r, 2),
    ));
    assert((m.is_finite)((m.power)(g, 0)) && (m.is_finite)((m.power)(g, 1)) && (m.is_finite)(
        (m.power)(g, 2),
    ));
    assert((m.is_finite)((m.power)(b, 0)) && (m.is_finite)((m.power)(b, 1)) && (m.is_finite)(
        (m.power)(b, 2),
    ));
    assert((m.is_finite)(p) && (m.is_finite)(q) && (m.is_finite)(s));
    let (u, v) = ((m.times)(weight, p), (m.times)((m.times)(weight, p), q));
    assert(value(u) == w * value(p) && value(v) == value(u) * value(q));
    lemma_unit_factor(w);
    lemma_unit_factor(w * x);
    lemma_unit_factor(w * y);
    lemma_unit_factor(w * (x * x));
    lemma_unit_factor(w * (y * y));
    crate::reals::lemma_associate(w, x, y);
    lemma_unit_factor(w * x * y);
    crate::reals::lemma_associate(w, x, z);
    crate::reals::lemma_associate(w, y, z);
}

/// A monomial of a finite color is finite.
pub(crate) proof fn lemma_monomial_is_finite<T>(
    m: Arithmetic<T>,
    value: spec_fn(T) -> real,
    planes: PlaneSet<T>,
    index: int,
    j: int,
)
    requires
        m.is_exact(value),
        m.is_finite_color(planes, index),
        0 <= j < NUM_MONOMIALS,
    ensures
        (m.is_finite)(
            m.monomial_value(j, planes.r[index], planes.g[index], planes.b[index]),
        ),
{
    let (r, g, b) = (planes.r[index], planes.g[index], planes.b[index]);
    let e = crate::polynomial::Monomial::nth(j);
    assert((m.is_finite)((m.power)(r, 0)) && (m.is_finite)((m.power)(r, 1)) && (m.is_finite)(
        (m.power)(r, 2),
    ));
    assert((m.is_finite)((m.power)(g, 0)) && (m.is_finite)((m.power)(g, 1)) && (m.is_finite)(
        (m.power)(g, 2),
    ));
    assert((m.is_finite)((m.power)(b, 0)) && (m.is_finite)((m.power)(b, 1)) && (m.is_finite)(
        (m.power)(b, 2),
    ));
    let (p, q, s) = ((m.power)(r, e.r), (m.power)(g, e.g), (m.power)(b, e.b));
    assert((m.is_finite)(p) && (m.is_finite)(q) && (m.is_finite)(s));
    assert((m.is_finite)((m.times)(p, q)));
}

/// One is neutral.
proof fn lemma_unit_factor(a: real)
    ensures
        a * (1 as real) == a,
{
}

/// The stretch is linear: what lies between the lowest and the highest level goes
/// as far up the unit interval as it lies up the range of levels. A range without
/// extent is not stretched.
pub proof fn law_the_stretch_is_linear<T>(
    m: Arithmetic<T>,
    value: spec_fn(T) -> real,
    low: T,
    high: T,
    level: T,
)
    requires
        m.is_ideal(value),
        (m.is_finite)(low) && (m.is_finite)(high) && (m.is_finite)(level),
        value(low) <= value(level) <= value(high),
    ensures
        (m.is_finite)(m.stretched(low, high, level)),
        0 as real <= value(m.stretched(low, high, level)) <= 1 as real,
        value(low) < value(high) ==> value(m.stretched(low, high, level)) * (value(high) - value(
            low,
        )) == value(level) - value(low),
        value(low) == value(high) && 0 as real <= value(level) <= 1 as real ==> value(
            m.stretched(low, high, level),
        ) == value(level),
        value(low) == value(high) && value(level) < 0 as real ==> value(
            m.stretched(low, high, level),
        ) == 0 as real,
        value(low) == value(high) && value(level) > 1 as real ==> value(
            m.stretched(low, high, level),
        ) == 1 as real,
{
    let (zero, one) = (m.zero(), m.one());
    assert(value(zero) == 0 as real && value(one) == 1 as real);
    assert((m.is_finite)(zero) && (m.is_finite)(one));
    let gap = (m.minus)(high, low);
    let range = (m.single)(gap);
    assert((m.is_finite)(gap) && (m.is_finite)(range));
    assert(value(range) == value(high) - value(low));
    if value(low) < value(high) {
        let above = (m.minus)(level, low);
        let rise = (m.single)(above);
        assert((m.is_finite)(above) && (m.is_finite)(rise));
        assert(value(rise) == value(level) - value(low));
        let part = (m.over)(rise, range);
        let (p, r) = (value(part), value(range));
        assert((m.is_finite)(part) && p * r == value(rise));
        if p < 0 as real {
            crate::reals::lemma_multiple(r, p, 0 as real);
            assert(0 as real * r == 0 as real);
        }
        if p > 1 as real {
            crate::reals::lemma_multiple(r, 1 as real, p);
            assert(1 as real * r == r);
        }
    }
}

/// Different levels stay different: the higher of two levels is stretched to the
/// higher place.
pub proof fn law_the_stretch_keeps_levels_apart<T>(
    m: Arithmetic<T>,
    value: spec_fn(T) -> real,
    low: T,
    high: T,
    a: T,
    b: T,
)
    requires
        m.is_ideal(value),
        (m.is_finite)(low) && (m.is_finite)(high) && (m.is_finite)(a) && (m.is_finite)(b),
        value(low) <= value(a) < value(b) <= value(high),
    ensures
        value(m.stretched(low, high, a)) < value(m.stretched(low, high, b)),
{
    law_the_stretch_is_linear(m, value, low, high, a);
    law_the_stretch_is_linear(m, value, low, high, b);
    let range = value(high) - value(low);
    let (p, q) = (value(m.stretched(low, high, a)), value(m.stretched(low, high, b)));
    if q <= p {
        crate::reals::lemma_share(range, q, p);
    }
}

/// The lowest of some finite levels is one of them.
proof fn lemma_lowest<T>(
    m: Arithmetic<T>,
    value: spec_fn(T) -> real,
    levels: Seq<T>,
    count: nat,
) -> (at: int)
    requires
        m.is_ideal(value),
        0 < count <= levels.len(),
        forall|i: int| 0 <= i < count ==> (m.is_finite)(#[trigger] levels[i]),
    ensures
        0 <= at < count,
        (m.is_finite)(m.lowest(levels, count)),
        value(m.lowest(levels, count)) == value(levels[at]),
        forall|i: int| 0 <= i < count ==> value(levels[at]) <= value(#[trigger] levels[i]),
    decreases count,
{
    let last = levels[count - 1];
    assert((m.is_finite)(last));
    if count == 1 {
        assert(m.lowest(levels, 0) == m.infinity);
        0
    } else {
        let before = lemma_lowest(m, value, levels, (count - 1) as nat);
        if value(last) < value(levels[before]) {
            count - 1
        } else {
            before
        }
    }
}

/// The highest of some finite levels is one of them.
proof fn lemma_highest<T>(
    m: Arithmetic<T>,
    value: spec_fn(T) -> real,
    levels: Seq<T>,
    count: nat,
) -> (at: int)
    requires
        m.is_ideal(value),
        0 < count <= levels.len(),
        forall|i: int| 0 <= i < count ==> (m.is_finite)(#[trigger] levels[i]),
    ensures
        0 <= at < count,
        (m.is_finite)(m.highest(levels, count)),
        value(m.highest(levels, count)) == value(levels[at]),
        forall|i: int| 0 <= i < count ==> value(#[trigger] levels[i]) <= value(levels[at]),
    decreases count,
{
    let last = levels[count - 1];
    assert((m.is_finite)(last));
    if count == 1 {
        assert(m.highest(levels, 0) == (m.negated)(m.infinity));
        0
    } else {
        let before = lemma_highest(m, value, levels, (count - 1) as nat);
        if value(last) > value(levels[before]) {
            count - 1
        } else {
            before
        }
    }
}

/// What a polynomial makes of a picture: the pixel where it is lowest and the one
/// where it is highest span the unit interval, and the gray of every pixel is the
/// sample for how far up it lies between the two. `level` is the polynomial at
/// every pixel. The two pixels are returned, with what the sample is for.
pub proof fn law_grays_are_stretched_polynomial_values<S, T>(
    m: Arithmetic<T>,
    value: spec_fn(T) -> real,
    c: Codec<S, T>,
    picture: Picture<S>,
    weights: Seq<T>,
    level: spec_fn(int) -> real,
    i: int,
) -> (r: (int, int, T))
    requires
        m.is_ideal(value),
        m.all_finite(weights),
        forall|s: S| (m.is_finite)(#[trigger] (c.to_unit)(s)),
        0 <= i < picture.area(),
        forall|k: int|
            0 <= k < picture.area() ==> #[trigger] level(k) == {
                let x = value((c.to_unit)(picture.colors[k].0));
                let y = value((c.to_unit)(picture.colors[k].1));
                let z = value((c.to_unit)(picture.colors[k].2));
                let w = |j: int| value(weights[j]);
                w(0) * x + w(1) * y + w(2) * z + w(3) * (x * y) + w(4) * (x * z) + w(5) * (y * z)
                    + w(6) * (x * x) + w(7) * (y * y) + w(8) * (z * z)
            },
    ensures
        ({
            let (darkest, lightest, unit) = r;
            let (low, high) = (level(darkest), level(lightest));
            &&& 0 <= darkest < picture.area()
            &&& 0 <= lightest < picture.area()
            &&& forall|k: int| 0 <= k < picture.area() ==> low <= #[trigger] level(k) <= high
            &&& m.polynomial_grays(c, picture, weights).len() == picture.area()
            &&& m.polynomial_grays(c, picture, weights)[i] == (c.from_unit)(unit)
            &&& (m.is_finite)(unit)
            &&& low < high ==> value(unit) * (high - low) == level(i) - low
            &&& low == high && 0 as real <= low <= 1 as real ==> value(unit) == low
            &&& low == high && low < 0 as real ==> value(unit) == 0 as real
            &&& low == high && low > 1 as real ==> value(unit) == 1 as real
        }),
{
    let levels = m.levels(c, picture, weights);
    let n = picture.area() as nat;
    assert forall|k: int| 0 <= k < n implies (m.is_finite)(#[trigger] levels[k]) && value(levels[k])
        == level(k) by {
        let (r, g, b) = (
            (c.to_unit)(picture.colors[k].0),
            (c.to_unit)(picture.colors[k].1),
            (c.to_unit)(picture.colors[k].2),
        );
        law_the_polynomial_has_nine_terms(m, value, weights, r, g, b);
        let p = m.polynomial(weights, r, g, b);
        assert((m.is_finite)(p) && levels[k] == (m.single)(p));
    }
    let darkest = lemma_lowest(m, value, levels, n);
    let lightest = lemma_highest(m, value, levels, n);
    let (low, high) = (m.lowest(levels, n), m.highest(levels, n));
    assert(value(levels[darkest]) == level(darkest) && value(levels[lightest]) == level(lightest));
    assert forall|k: int| 0 <= k < n implies level(darkest) <= #[trigger] level(k) <= level(
        lightest,
    ) by {
        assert(value(levels[k]) == level(k));
    }
    assert(value(levels[i]) == level(i) && (m.is_finite)(levels[i]));
    law_the_stretch_is_linear(m, value, low, high, levels[i]);
    assert(level(darkest) <= level(i) <= level(lightest));
    (darkest, lightest, m.stretched(low, high, levels[i]))
}

/// A sampled pair holds the differences of all three channels between its two
/// pixels, the first less the second, and their distance in RGB divided by the
/// square root of two: twice the square of the contrast is the sum of the squares
/// of the three differences.
pub proof fn law_a_sampled_pair_measures_the_distance_in_rgb<S, T>(
    m: Arithmetic<T>,
    value: spec_fn(T) -> real,
    c: Codec<S, T>,
    picture: Picture<S>,
    place: (Point, Point),
)
    requires
        m.is_ideal(value),
        forall|s: S| (m.is_finite)(#[trigger] (c.to_unit)(s)),
    ensures
        ({
            let pair = m.pair_at(c, picture, place);
            let p = picture.colors[place.0.y * picture.width + place.0.x];
            let q = picture.colors[place.1.y * picture.width + place.1.x];
            let dr = value((c.to_unit)(p.0)) - value((c.to_unit)(q.0));
            let dg = value((c.to_unit)(p.1)) - value((c.to_unit)(q.1));
            let db = value((c.to_unit)(p.2)) - value((c.to_unit)(q.2));
            &&& (m.is_finite)(pair.difference.0) && value(pair.difference.0) == dr
            &&& (m.is_finite)(pair.difference.1) && value(pair.difference.1) == dg
            &&& (m.is_finite)(pair.difference.2) && value(pair.difference.2) == db
            &&& (m.is_finite)(pair.contrast) && value(pair.contrast) >= 0 as real
            &&& 2 as real * squared(value(pair.contrast)) == squared(dr) + squared(dg) + squared(db)
        }),
{
    let pair = m.pair_at(c, picture, place);
    let (x, y, z) = pair.difference;
    lemma_length(m, value, x, y, z);
    let two = (m.from_int)(2);
    assert(value(two) == 2 as real && (m.is_finite)(two));
    let root = (m.square_root)(two);
    let r = value(root);
    assert((m.is_finite)(root) && r >= 0 as real && r * r == 2 as real);
    if r == 0 as real {
        assert(r * r == 0 as real) by (nonlinear_arith)
            requires
                r == 0 as real,
        ;
    }
    let (l, k) = (value(m.length(x, y, z)), value(pair.contrast));
    assert(k * r == l);
    lemma_scaled_length(l, k, r);
    assert(squared(k) * (2 as real) == 2 as real * squared(k));
}

impl<T> Arithmetic<T> {
    /// Whether numbers that are not negative are rounded to the nearest integer
    /// and truncated to the next lower one, as far as pixels are counted.
    pub open spec fn finds_integers(self, value: spec_fn(T) -> real) -> bool {
        &&& forall|a: T|
            (self.is_finite)(a) && 0 as real <= value(a) <= u32::MAX as real ==> {
                let n = #[trigger] (self.truncated)(a);
                n as real <= value(a) < n as real + 1 as real
            }
        &&& forall|a: T|
            (self.is_finite)(a) && 0 as real <= value(a) <= u32::MAX as real ==> {
                let r = #[trigger] (self.rounded)(a);
                &&& (self.is_finite)(r)
                &&& value(r) == (self.truncated)(r) as real
                &&& -(1 as real) <= 2 as real * (value(r) - value(a)) <= 1 as real
            }
    }
}

/// An integral sample stands for its share of the largest one.
pub proof fn law_a_sample_is_a_share_of_the_largest<T>(
    m: Arithmetic<T>,
    value: spec_fn(T) -> real,
    sample: u64,
    max: u64,
)
    requires
        m.is_exact(value),
        0 < max,
    ensures
        (m.is_finite)(m.unit_from_sample(sample, max)),
        value(m.unit_from_sample(sample, max)) * max as real == sample as real,
{
    crate::exact::lemma_ratio(m, value, sample, max);
    assert(value((m.from_int)(max)) == max as real);
}

/// The sample for a value on the unit interval is the nearest one.
pub proof fn law_a_value_gets_the_nearest_sample<T>(
    m: Arithmetic<T>,
    value: spec_fn(T) -> real,
    unit: T,
    max: u64,
)
    requires
        m.is_exact(value),
        m.finds_integers(value),
        (m.is_finite)(unit),
        0 as real <= value(unit) <= 1 as real,
        0 < max <= u16::MAX,
    ensures
        0 <= m.sample_from_unit(unit, max) <= max,
        -(1 as real) <= 2 as real * (m.sample_from_unit(unit, max) as real - value(unit)
            * max as real) <= 1 as real,
{
    let top = (m.from_int)(max);
    let n = max as real;
    assert(value(top) == n && (m.is_finite)(top));
    assert(value(m.zero()) == 0 as real && (m.is_finite)(m.zero()));
    let scaled = (m.times)(unit, top);
    let v = value(unit);
    crate::reals::lemma_share(n, 0 as real, v);
    crate::reals::lemma_share(n, v, 1 as real);
    assert(0 as real * n == 0 as real && 1 as real * n == n);
    assert((m.is_finite)(scaled) && value(scaled) == v * n);
    let r = (m.rounded)(scaled);
    assert((m.is_finite)(r) && value(r) == (m.truncated)(r) as real);
    assert((m.truncated)(r) <= max);
}

/// The defaults: a deviation of a fiftieth, fifteen iterations, a tolerance of a
/// ten thousandth and a fitting size of 800 pixels for the polynomial, and a
/// deviation and a threshold of a twentieth, `64^2` samples and the seed zero for
/// the search.
pub proof fn law_the_defaults<T>(m: Arithmetic<T>, value: spec_fn(T) -> real)
    requires
        m.is_exact(value),
    ensures
        value(m.default_options().sigma) * (50 as real) == 1 as real,
        m.default_options().max_iterations == 15,
        value(m.default_options().tolerance) * (10_000 as real) == 1 as real,
        m.default_options().fitting_size == 800,
        value(m.default_fast_options().sigma) * (20 as real) == 1 as real,
        m.default_fast_options().samples == 64,
        value(m.default_fast_options().contrast_threshold) * (20 as real) == 1 as real,
        m.default_fast_options().seed == 0,
{
    crate::exact::lemma_ratio(m, value, 2, 100);
    crate::exact::lemma_ratio(m, value, 1, 10_000);
    crate::exact::lemma_ratio(m, value, 5, 100);
}

} // verus!
