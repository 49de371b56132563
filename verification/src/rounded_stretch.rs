//! What rounding does to the stretch to the full output range.
use crate::scalar::Arithmetic;
use vstd::prelude::*;

verus! {

impl<T> Arithmetic<T> {
    /// Whether single precision comes close to numbers of moderate size, up to
    /// `coarse` on the scale of the number, or of one where that is larger. IEEE
    /// single precision has this with `2^-24`.
    pub open spec fn has_singles(self, value: spec_fn(T) -> real, coarse: real) -> bool {
        &&& coarse * (1_000_000 as real) <= 1 as real
        &&& forall|a: T|
            (self.is_finite)(a) && Self::is_moderate(value(a)) ==> self.approximates(
                value,
                coarse,
                #[trigger] (self.single)(a),
                value(a),
            )
    }
}

/// The difference of two levels, in single precision, comes close to the exact
/// one.
proof fn lemma_single_difference<T>(
    m: Arithmetic<T>,
    value: spec_fn(T) -> real,
    error: real,
    coarse: real,
    a: T,
    b: T,
)
    requires
        m.is_accurate(value, error),
        m.has_singles(value, coarse),
        error <= coarse,
        (m.is_finite)(a),
        (m.is_finite)(b),
        -(8 as real) <= value(a) - value(b) <= 8 as real,
    ensures
        (m.is_finite)((m.single)((m.minus)(a, b))),
        crate::accuracy::close(
            value((m.single)((m.minus)(a, b))),
            value(a) - value(b),
            20 as real * coarse,
        ),
{
    crate::rounding::lemma_minus(m, value, error, a, b, 9 as real);
    let d = (m.minus)(a, b);
    let size = 1 as real + crate::rounding::magnitude(value(d));
    assert(m.approximates(value, coarse, (m.single)(d), value(d)));
    crate::reals::lemma_share(coarse, size, 10 as real);
    assert(coarse * (10 as real) == 10 as real * coarse);
}

/// How far up a range a number lies, where both are known nearly.
proof fn lemma_quotient(x: real, y: real, r: real, d: real, coarse: real) -> (q: real)
    requires
        0 as real <= d <= r,
        1_000 as real * coarse < r,
        0 as real <= coarse,
        crate::accuracy::close(x, d, 20 as real * coarse),
        crate::accuracy::close(y, r, 20 as real * coarse),
    ensures
        y > 0 as real,
        q * y == x,
        -(2 as real) <= q <= 2 as real,
        crate::accuracy::close(q * r, d, 60 as real * coarse),
{
    let q = x / y;
    assert(q * y == x) by (nonlinear_arith)
        requires
            q == x / y,
            y > 0 as real,
    ;
    if q > 2 as real {
        crate::reals::lemma_multiple(y, 2 as real, q);
    }
    if q < -(2 as real) {
        crate::reals::lemma_multiple(y, q, -(2 as real));
    }
    crate::accuracy::lemma_bounded_product(q, y - r, 2 as real, 20 as real * coarse);
    crate::reals::lemma_distribute(y, -r, q);
    lemma_negated(q, r);
    q
}

/// A product with a negated factor.
proof fn lemma_negated(a: real, b: real)
    ensures
        a * -b == -(a * b),
{
    assert(a * -b == -(a * b)) by (nonlinear_arith);
}

/// A rounded quotient, against the range.
proof fn lemma_near_part(v: real, q: real, r: real, d: real, coarse: real, error: real)
    requires
        0 as real <= error <= coarse,
        0 as real <= r <= 8 as real,
        crate::accuracy::close(v, q, error * (3 as real)),
        crate::accuracy::close(q * r, d, 60 as real * coarse),
    ensures
        crate::accuracy::close(v * r, d, 84 as real * coarse),
{
    crate::accuracy::lemma_bounded_product(v - q, r, error * (3 as real), 8 as real);
    crate::reals::lemma_distribute(v, -q, r);
    lemma_negated(r, q);
    crate::reals::lemma_commute(r, q);
    crate::reals::lemma_commute(r, -q);
}

/// Moving onto the unit interval takes a number no farther from what lies there.
proof fn lemma_clamped_part(u: real, v: real, r: real, d: real, slack: real)
    requires
        0 as real <= d <= r,
        crate::accuracy::close(v * r, d, slack),
        u == if v < 0 as real {
            0 as real
        } else if v > 1 as real {
            1 as real
        } else {
            v
        },
    ensures
        crate::accuracy::close(u * r, d, slack),
{
    assert(0 as real * r == 0 as real && 1 as real * r == r);
    if v > 1 as real {
        crate::reals::lemma_share(r, 1 as real, v);
    }
    if v < 0 as real {
        crate::reals::lemma_share(r, v, 0 as real);
    }
}

/// The stretch is linear up to rounding: how far up the unit interval a level
/// goes, times the range of levels, is how far up that range it lies, within a
/// hundred errors of single precision.
pub proof fn law_the_rounded_stretch_is_nearly_linear<T>(
    m: Arithmetic<T>,
    value: spec_fn(T) -> real,
    error: real,
    coarse: real,
    low: T,
    high: T,
    level: T,
)
    requires
        m.is_accurate(value, error),
        m.has_singles(value, coarse),
        error <= coarse,
        (m.is_finite)(low) && (m.is_finite)(high) && (m.is_finite)(level),
        value(low) <= value(level) <= value(high),
        1_000 as real * coarse < value(high) - value(low) <= 8 as real,
    ensures
        (m.is_finite)(m.stretched(low, high, level)),
        crate::accuracy::close(
            value(m.stretched(low, high, level)) * (value(high) - value(low)),
            value(level) - value(low),
            100 as real * coarse,
        ),
{
    let (zero, one) = (m.zero(), m.one());
    assert(value((m.from_int)(0)) == 0 as real && value((m.from_int)(1)) == 1 as real);
    assert((m.is_finite)(zero) && (m.is_finite)(one));
    lemma_single_difference(m, value, error, coarse, high, low);
    lemma_single_difference(m, value, error, coarse, level, low);
    let (range, rise) = ((m.single)((m.minus)(high, low)), (m.single)((m.minus)(level, low)));
    let (r, d) = (value(high) - value(low), value(level) - value(low));
    let (x, y) = (value(rise), value(range));
    let q = lemma_quotient(x, y, r, d, coarse);
    crate::rounding::lemma_over(m, value, error, rise, range, q, 3 as real);
    let part = (m.over)(rise, range);
    let v = value(part);
    assert((m.less)(zero, range));
    lemma_near_part(v, q, r, d, coarse, error);
    let u = value(m.stretched(low, high, level));
    lemma_clamped_part(u, v, r, d, 84 as real * coarse);
}

/// Levels that are more than two hundred errors of single precision apart stay
/// apart.
pub proof fn law_the_rounded_stretch_keeps_levels_apart<T>(
    m: Arithmetic<T>,
    value: spec_fn(T) -> real,
    error: real,
    coarse: real,
    low: T,
    high: T,
    a: T,
    b: T,
)
    requires
        m.is_accurate(value, error),
        m.has_singles(value, coarse),
        error <= coarse,
        (m.is_finite)(low) && (m.is_finite)(high) && (m.is_finite)(a) && (m.is_finite)(b),
        value(low) <= value(a),
        value(a) + 200 as real * coarse < value(b),
        value(b) <= value(high),
        1_000 as real * coarse < value(high) - value(low) <= 8 as real,
    ensures
        value(m.stretched(low, high, a)) < value(m.stretched(low, high, b)),
{
    law_the_rounded_stretch_is_nearly_linear(m, value, error, coarse, low, high, a);
    law_the_rounded_stretch_is_nearly_linear(m, value, error, coarse, low, high, b);
    let range = value(high) - value(low);
    let (p, q) = (value(m.stretched(low, high, a)), value(m.stretched(low, high, b)));
    if q <= p {
        crate::reals::lemma_share(range, q, p);
    }
}

} // verus!
