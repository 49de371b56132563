//! What holds of the likelihood before rounding.
//!
//! The laws of this module are about real numbers: of an arithmetic that is
//! exact and whose exponentials and logarithms are those of the real numbers.
use crate::fit::{Evidence, PAIR_CHUNK};
use crate::options::DecolorizeOptions;
use crate::planes::PlaneSet;
use crate::scalar::{Arithmetic, NUM_MONOMIALS};
use vstd::prelude::*;

verus! {

/// The exponential function of the real numbers and its inverse.
pub struct Exponential {
    pub exp: spec_fn(real) -> real,
    pub ln: spec_fn(real) -> real,
}

impl Exponential {
    /// What characterizes the two functions.
    #[verifier::opaque]
    pub open spec fn wf(self) -> bool {
        &&& forall|x: real| #[trigger] (self.exp)(x) > 0 as real
        &&& forall|x: real| #[trigger] (self.exp)(x) >= 1 as real + x
        &&& forall|x: real, y: real| (self.exp)(x + y) == #[trigger] self.product(x, y)
        &&& forall|x: real| #[trigger] self.inverts(x)
        &&& forall|y: real| y > 0 as real ==> #[trigger] self.reverts(y)
    }

    /// The product of two exponentials.
    pub open spec fn product(self, x: real, y: real) -> real {
        (self.exp)(x) * (self.exp)(y)
    }

    /// Whether the logarithm of an exponential is the number.
    pub open spec fn inverts(self, x: real) -> bool {
        (self.ln)((self.exp)(x)) == x
    }

    /// Whether the exponential of a logarithm is the number.
    pub open spec fn reverts(self, y: real) -> bool {
        (self.exp)((self.ln)(y)) == y
    }
}

/// Exponentials are positive, and above their tangent at zero.
pub(crate) proof fn lemma_exp(e: Exponential, x: real)
    requires
        e.wf(),
    ensures
        (e.exp)(x) > 0 as real,
        (e.exp)(x) >= 1 as real + x,
        (e.ln)((e.exp)(x)) == x,
{
    reveal(Exponential::wf);
    assert(e.inverts(x));
}

/// Exponentials undo logarithms.
pub(crate) proof fn lemma_ln(e: Exponential, y: real)
    requires
        e.wf(),
        y > 0 as real,
    ensures
        (e.exp)((e.ln)(y)) == y,
{
    reveal(Exponential::wf);
    assert(e.reverts(y));
}

/// An exponential of a sum.
pub(crate) proof fn lemma_exp_sum(e: Exponential, x: real, y: real, z: real)
    requires
        e.wf(),
        z == x + y,
    ensures
        (e.exp)(z) == (e.exp)(x) * (e.exp)(y),
{
    reveal(Exponential::wf);
    assert((e.exp)(x + y) == e.product(x, y));
}

/// The number with the larger exponential is larger.
pub(crate) proof fn lemma_exp_order(e: Exponential, a: real, b: real)
    requires
        e.wf(),
        (e.exp)(a) <= (e.exp)(b),
    ensures
        a <= b,
{
    if a > b {
        let d = a - b;
        lemma_exp_sum(e, d, b, a);
        lemma_exp(e, d);
        lemma_exp(e, b);
        crate::reals::lemma_multiple((e.exp)(b), 1 as real, (e.exp)(d));
        assert(1 as real * (e.exp)(b) == (e.exp)(b));
    }
}

/// A weighted mean of numbers that are above one plus some deviations is above
/// one where the deviations cancel.
proof fn lemma_mean_above(a: real, b: real, u: real, v: real, p: real, q: real)
    requires
        0 as real <= a,
        0 as real <= b,
        p >= 1 as real + u,
        q >= 1 as real + v,
        a * u + b * v == 0 as real,
    ensures
        a + b <= a * p + b * q,
{
    crate::reals::lemma_share(a, 1 as real + u, p);
    crate::reals::lemma_share(b, 1 as real + v, q);
    crate::reals::lemma_distribute(1 as real, u, a);
    crate::reals::lemma_distribute(1 as real, v, b);
    assert(a * (1 as real) == a && b * (1 as real) == b);
}

/// A weighted mean of exponentials is at least the exponential of the mean.
proof fn lemma_mean_of_exponentials(e: Exponential, a: real, b: real, x: real, y: real, z: real)
    requires
        e.wf(),
        0 as real <= a,
        0 as real <= b,
        a * (x - z) + b * (y - z) == 0 as real,
    ensures
        (a + b) * (e.exp)(z) <= a * (e.exp)(x) + b * (e.exp)(y),
{
    let (u, v, w) = (x - z, y - z, (e.exp)(z));
    lemma_exp_sum(e, u, z, x);
    lemma_exp_sum(e, v, z, y);
    lemma_exp(e, u);
    lemma_exp(e, v);
    lemma_exp(e, z);
    let (p, q) = ((e.exp)(u), (e.exp)(v));
    lemma_mean_above(a, b, u, v, p, q);
    crate::reals::lemma_share(w, a + b, a * p + b * q);
    crate::reals::lemma_distribute(a * p, b * q, w);
    crate::reals::lemma_associate(a, p, w);
    crate::reals::lemma_associate(b, q, w);
}

/// A likelihood whose two modes are scaled by exponentials: its logarithm rises
/// by at least the mean of the exponents.
proof fn lemma_likelihood_rises(e: Exponential, a: real, b: real, x: real, y: real, z: real)
    requires
        e.wf(),
        0 as real <= a,
        0 as real <= b,
        a + b > 0 as real,
        a * (x - z) + b * (y - z) == 0 as real,
    ensures
        a * (e.exp)(x) + b * (e.exp)(y) > 0 as real,
        (e.ln)(a + b) + z <= (e.ln)(a * (e.exp)(x) + b * (e.exp)(y)),
{
    let (n, w) = (a + b, (e.exp)(z));
    let m = a * (e.exp)(x) + b * (e.exp)(y);
    lemma_mean_of_exponentials(e, a, b, x, y, z);
    lemma_exp(e, z);
    crate::reals::lemma_multiple(w, 0 as real, n);
    assert(0 as real * w == 0 as real);
    lemma_ln(e, n);
    lemma_ln(e, m);
    lemma_exp_sum(e, (e.ln)(n), z, (e.ln)(n) + z);
    lemma_exp_order(e, (e.ln)(n) + z, (e.ln)(m));
}

/// How well a gray difference `d` matches a contrast `c`, where `s` is the
/// precision.
pub open spec fn match_of(e: Exponential, s: real, c: real, d: real) -> real {
    (e.exp)(-((d - c) * (d - c) * s))
}

/// The likelihood of a gray difference `d` of a pair with contrast `c`, where `p`
/// and `q` are the shares of the two modes.
pub open spec fn likelihood(e: Exponential, s: real, c: real, p: real, q: real, d: real) -> real {
    p * match_of(e, s, c, d) + q * match_of(e, s, -c, d)
}

/// How much more of a likelihood the upper mode takes than the lower one.
pub open spec fn surplus(e: Exponential, s: real, c: real, p: real, q: real, d: real) -> real {
    p * match_of(e, s, c, d) - q * match_of(e, s, -c, d)
}

/// Exponents whose deviations from `z` are shares of one number that the modes
/// balance.
proof fn lemma_balance(a: real, b: real, r: real, k: real, u: real, v: real)
    requires
        r * (a + b) == a - b,
        u == k * (1 as real - r),
        v == -(k * (1 as real + r)),
    ensures
        a * u + b * v == 0 as real,
{
    let (f, g) = (1 as real - r, 1 as real + r);
    crate::reals::lemma_distribute(a, b, r);
    // a f == b g
    crate::reals::lemma_distribute(1 as real, -r, a);
    crate::reals::lemma_distribute(1 as real, r, b);
    crate::reals::lemma_commute(a, r);
    crate::reals::lemma_commute(b, r);
    lemma_negated_factor(a, r);
    assert(a * (1 as real) == a && b * (1 as real) == b);
    assert(a * f == b * g);
    crate::reals::lemma_associate(a, k, f);
    crate::reals::lemma_commute(a, k);
    crate::reals::lemma_associate(k, a, f);
    crate::reals::lemma_associate(b, k, g);
    crate::reals::lemma_commute(b, k);
    crate::reals::lemma_associate(k, b, g);
    lemma_negated_factor(b, k * g);
}

/// A product with a negated factor.
proof fn lemma_negated_factor(a: real, b: real)
    ensures
        a * -b == -(a * b),
        -a * b == -(a * b),
        -a * -b == a * b,
{
    assert(a * -b == -(a * b)) by (nonlinear_arith);
    assert(-a * b == -(a * b)) by (nonlinear_arith);
    assert(-a * -b == a * b) by (nonlinear_arith);
}

/// The square of a difference.
proof fn lemma_square(a: real, b: real)
    ensures
        (a - b) * (a - b) == a * a - 2 as real * (a * b) + b * b,
{
    crate::reals::lemma_distribute(a, -b, a - b);
    crate::reals::lemma_distribute(a, -b, a);
    crate::reals::lemma_distribute(a, -b, -b);
    lemma_negated_factor(a, b);
    lemma_negated_factor(b, a);
    lemma_negated_factor(b, b);
    crate::reals::lemma_commute(a, b);
}

/// What the exponents of the two modes of a pair are, and that their weighted
/// mean is bounded from below.
proof fn lemma_exponents(
    s: real,
    c: real,
    d0: real,
    d1: real,
    r: real,
    a: real,
    b: real,
) -> (z: real)
    requires
        s >= 0 as real,
        r * (a + b) == a - b,
    ensures
        ({
            let x = (d0 - c) * (d0 - c) * s - (d1 - c) * (d1 - c) * s;
            let y = (d0 - -c) * (d0 - -c) * s - (d1 - -c) * (d1 - -c) * s;
            &&& a * (x - z) + b * (y - z) == 0 as real
            &&& z >= -(2 as real * (s * ((d1 - d0) * (d1 - c * r))))
        }),
{
    let (x0, x1) = ((d0 - c) * (d0 - c), (d1 - c) * (d1 - c));
    let (y0, y1) = ((d0 - -c) * (d0 - -c), (d1 - -c) * (d1 - -c));
    lemma_square(d0, c);
    lemma_square(d1, c);
    lemma_square(d0, -c);
    lemma_square(d1, -c);
    lemma_negated_factor(d0, c);
    lemma_negated_factor(d1, c);
    lemma_negated_factor(c, c);
    let q = d0 * d0 - d1 * d1;
    let w = d0 * c - d1 * c;
    assert(x0 - x1 == q - 2 as real * w);
    assert(y0 - y1 == q + 2 as real * w);
    let (x, y) = (x0 * s - x1 * s, y0 * s - y1 * s);
    crate::reals::lemma_distribute(x0, -x1, s);
    crate::reals::lemma_distribute(y0, -y1, s);
    lemma_negated_factor(x1, s);
    lemma_negated_factor(y1, s);
    // z = (q - 2 r w) s
    let z = q * s - 2 as real * ((w * r) * s);
    let k = -(2 as real * (w * s));
    crate::reals::lemma_distribute(q, -(2 as real * w), s);
    crate::reals::lemma_distribute(q, 2 as real * w, s);
    lemma_negated_factor(2 as real * w, s);
    crate::reals::lemma_associate(2 as real, w, s);
    assert(x == q * s + k);
    assert(y == q * s - k);
    crate::reals::lemma_distribute(1 as real, -r, k);
    crate::reals::lemma_distribute(1 as real, r, k);
    lemma_negated_factor(k, r);
    assert(k * (1 as real) == k);
    // k r = -2 (w r) s
    crate::reals::lemma_associate(2 as real, w * s, r);
    lemma_negated_factor(2 as real * (w * s), r);
    crate::reals::lemma_associate(w, s, r);
    crate::reals::lemma_commute(s, r);
    crate::reals::lemma_associate(w, r, s);
    assert(k * r == -(2 as real * ((w * r) * s)));
    assert(x - z == k * (1 as real - r));
    assert(y - z == -(k * (1 as real + r)));
    lemma_balance(a, b, r, k, x - z, y - z);
    lemma_exponent_bound(s, c, d0, d1, r, z);
    z
}

/// The lower bound on the mean exponent.
proof fn lemma_exponent_bound(s: real, c: real, d0: real, d1: real, r: real, z: real)
    requires
        s >= 0 as real,
        z == (d0 * d0 - d1 * d1) * s - 2 as real * (((d0 * c - d1 * c) * r) * s),
    ensures
        z >= -(2 as real * (s * ((d1 - d0) * (d1 - c * r)))),
{
    let (g, t) = (d1 - d0, c * r);
    let u = d1 - t;
    let q = d0 * d0 - d1 * d1;
    let w = d0 * c - d1 * c;
    // w r = -(g t)
    crate::reals::lemma_distribute(d1, -d0, c);
    lemma_negated_factor(d0, c);
    assert(w == -(g * c));
    lemma_negated_factor(g * c, r);
    crate::reals::lemma_associate(g, c, r);
    assert(w * r == -(g * t));
    // q = -2 g d1 + g g
    lemma_square(d1, d0);
    crate::reals::lemma_distribute(d1, -d0, d1);
    lemma_negated_factor(d0, d1);
    crate::reals::lemma_commute(d0, d1);
    assert(q == g * g - 2 as real * (g * d1));
    // q - 2 r w = g g - 2 g u
    crate::reals::lemma_distribute(d1, -t, g);
    lemma_negated_factor(g, t);
    assert(g * u == g * d1 - g * t);
    let v = q - 2 as real * (w * r);
    assert(v == g * g - 2 as real * (g * u));
    crate::reals::lemma_distribute(q, -(2 as real * (w * r)), s);
    lemma_negated_factor(2 as real * (w * r), s);
    crate::reals::lemma_associate(2 as real, w * r, s);
    assert(z == v * s);
    lemma_square_is_not_negative(g);
    crate::reals::lemma_share(s, -(2 as real * (g * u)), v);
    lemma_negated_factor(2 as real * (g * u), s);
    crate::reals::lemma_associate(2 as real, g * u, s);
    crate::reals::lemma_commute(g * u, s);
}

/// Squares are not negative.
proof fn lemma_square_is_not_negative(a: real)
    ensures
        a * a >= 0 as real,
{
    assert(a * a >= 0 as real) by (nonlinear_arith);
}

/// A step from a gray difference `d0` to `d1` changes the logarithm of the
/// likelihood of a pair by at least what it does to the distance from the target
/// `c r`, where `r` is how much the upper mode outweighs the lower one.
proof fn lemma_pair_improves(
    e: Exponential,
    s: real,
    c: real,
    p: real,
    q: real,
    d0: real,
    d1: real,
    r: real,
)
    requires
        e.wf(),
        s >= 0 as real,
        p >= 0 as real,
        q >= 0 as real,
        p + q > 0 as real,
        r * likelihood(e, s, c, p, q, d0) == surplus(e, s, c, p, q, d0),
    ensures
        likelihood(e, s, c, p, q, d1) > 0 as real,
        (e.ln)(likelihood(e, s, c, p, q, d1)) >= (e.ln)(likelihood(e, s, c, p, q, d0)) - 2 as real
            * (s * ((d1 - d0) * (d1 - c * r))),
{
    let (m0, m1) = (match_of(e, s, c, d0), match_of(e, s, c, d1));
    let (n0, n1) = (match_of(e, s, -c, d0), match_of(e, s, -c, d1));
    let (a, b) = (p * m0, q * n0);
    let zero = 0 as real;
    lemma_exp(e, -((d0 - c) * (d0 - c) * s));
    lemma_exp(e, -((d0 - -c) * (d0 - -c) * s));
    crate::reals::lemma_share(m0, zero, p);
    crate::reals::lemma_share(n0, zero, q);
    assert(zero * m0 == zero && zero * n0 == zero);
    if p > zero {
        crate::reals::lemma_multiple(m0, zero, p);
    } else {
        crate::reals::lemma_multiple(n0, zero, q);
    }
    assert(a >= zero && b >= zero && a + b > zero);
    let z = lemma_exponents(s, c, d0, d1, r, a, b);
    let x = (d0 - c) * (d0 - c) * s - (d1 - c) * (d1 - c) * s;
    let y = (d0 - -c) * (d0 - -c) * s - (d1 - -c) * (d1 - -c) * s;
    lemma_exp_sum(e, -((d0 - c) * (d0 - c) * s), x, -((d1 - c) * (d1 - c) * s));
    lemma_exp_sum(e, -((d0 - -c) * (d0 - -c) * s), y, -((d1 - -c) * (d1 - -c) * s));
    crate::reals::lemma_associate(p, m0, (e.exp)(x));
    crate::reals::lemma_associate(q, n0, (e.exp)(y));
    lemma_likelihood_rises(e, a, b, x, y, z);
}

impl<T> Arithmetic<T> {
    /// What the logarithm of zero is.
    pub open spec fn floor(self) -> T {
        (self.negated)(self.infinity)
    }

    /// Whether the operations are those of the real numbers, exponentials and
    /// logarithms included.
    pub open spec fn measures(self, value: spec_fn(T) -> real, e: Exponential) -> bool {
        &&& self.is_exact(value)
        &&& e.wf()
        &&& forall|a: T|
            (self.is_finite)(a) ==> value(#[trigger] (self.exponential)(a)) == (e.exp)(value(a))
        &&& forall|a: T|
            (self.is_finite)(a) && value(a) > 0 as real ==> (self.is_finite)(
                #[trigger] (self.logarithm)(a),
            ) && value((self.logarithm)(a)) == (e.ln)(value(a))
        &&& forall|a: T|
            (self.is_finite)(a) && value(a) == 0 as real ==> #[trigger] (self.logarithm)(a)
                == self.floor()
        &&& forall|b: T|
            (self.is_finite)(b) ==> #[trigger] (self.minus)(self.floor(), b) == self.floor()
        &&& forall|b: T| (self.is_finite)(b) ==> #[trigger] (self.larger)(self.floor(), b) == b
        &&& forall|b: T| (self.is_finite)(b) ==> #[trigger] (self.larger)(b, self.floor()) == b
        &&& (self.is_finite)((self.exponential)(self.floor()))
        &&& value((self.exponential)(self.floor())) == 0 as real
    }
}

/// The logarithm of a mode that has a share.
proof fn lemma_mode<T>(m: Arithmetic<T>, value: spec_fn(T) -> real, e: Exponential, p: T, x: T)
    requires
        m.measures(value, e),
        (m.is_finite)(p),
        (m.is_finite)(x),
        value(p) > 0 as real,
    ensures
        (m.is_finite)((m.minus)((m.logarithm)(p), x)),
        (e.exp)(value((m.minus)((m.logarithm)(p), x))) == value(p) * (e.exp)(-value(x)),
{
    let l = value((m.logarithm)(p));
    lemma_ln(e, value(p));
    lemma_exp_sum(e, l, -value(x), l - value(x));
}

/// What two modes amount to where both have a share.
pub(crate) proof fn lemma_two_modes<T>(
    m: Arithmetic<T>,
    value: spec_fn(T) -> real,
    e: Exponential,
    low: T,
    high: T,
)
    requires
        m.measures(value, e),
        (m.is_finite)(low),
        (m.is_finite)(high),
    ensures
        (m.is_finite)(m.log_sum(low, high)),
        (m.is_finite)(m.responsibility(low, high)),
        value(m.log_sum(low, high)) == (e.ln)((e.exp)(value(low)) + (e.exp)(value(high))),
        value(m.responsibility(low, high)) * ((e.exp)(value(low)) + (e.exp)(value(high)))
            == (e.exp)(value(low)) - (e.exp)(value(high)),
{
    let peak = (m.larger)(low, high);
    let (u, v) = ((m.minus)(low, peak), (m.minus)(high, peak));
    let (s, t) = ((m.exponential)(u), (m.exponential)(v));
    let (a, b, w) = (value(s), value(t), (e.exp)(value(peak)));
    assert((m.is_finite)(peak) && (m.is_finite)(u) && (m.is_finite)(v));
    assert((m.is_finite)(s) && (m.is_finite)(t) && a > 0 as real && b > 0 as real);
    lemma_exp_sum(e, value(u), value(peak), value(low));
    lemma_exp_sum(e, value(v), value(peak), value(high));
    assert((e.exp)(value(low)) == a * w && (e.exp)(value(high)) == b * w);
    let sum = (m.plus)(s, t);
    assert((m.is_finite)(sum) && value(sum) == a + b);
    let l = (m.logarithm)(sum);
    assert((m.is_finite)(l) && value(l) == (e.ln)(a + b));
    lemma_ln(e, a + b);
    let total = value(peak) + value(l);
    lemma_exp_sum(e, value(l), value(peak), total);
    lemma_exp(e, total);
    crate::reals::lemma_distribute(a, b, w);
    assert((e.exp)(total) == a * w + b * w);
    let r = value(m.responsibility(low, high));
    assert(r * (a + b) == a - b);
    crate::reals::lemma_associate(r, a + b, w);
    crate::reals::lemma_distribute(a, -b, w);
    lemma_negated_factor(b, w);
}

/// What two modes amount to where only one has a share.
proof fn lemma_one_mode<T>(m: Arithmetic<T>, value: spec_fn(T) -> real, e: Exponential, mode: T)
    requires
        m.measures(value, e),
        (m.is_finite)(mode),
    ensures
        (m.is_finite)(m.log_sum(m.floor(), mode)),
        (m.is_finite)(m.log_sum(mode, m.floor())),
        value(m.log_sum(m.floor(), mode)) == value(mode),
        value(m.log_sum(mode, m.floor())) == value(mode),
        (m.is_finite)(m.responsibility(m.floor(), mode)),
        (m.is_finite)(m.responsibility(mode, m.floor())),
        value(m.responsibility(m.floor(), mode)) == -(1 as real),
        value(m.responsibility(mode, m.floor())) == 1 as real,
{
    let floor = m.floor();
    let nothing = (m.exponential)(floor);
    let level = (m.minus)(mode, mode);
    assert((m.is_finite)(level) && value(level) == 0 as real);
    let one = (m.exponential)(level);
    lemma_exp_of_zero(e);
    assert((m.is_finite)(one) && value(one) == 1 as real);
    assert((m.minus)(floor, mode) == floor);
    assert((m.larger)(floor, mode) == mode && (m.larger)(mode, floor) == mode);
    let (p, q) = ((m.plus)(nothing, one), (m.plus)(one, nothing));
    assert((m.is_finite)(p) && value(p) == 1 as real);
    assert((m.is_finite)(q) && value(q) == 1 as real);
    assert(value((m.logarithm)(p)) == 0 as real && value((m.logarithm)(q)) == 0 as real);
    let (u, v) = ((m.minus)(nothing, one), (m.minus)(one, nothing));
    assert(value((m.over)(u, p)) * (1 as real) == value(u));
    assert(value((m.over)(v, q)) * (1 as real) == value(v));
}

/// The exponential of zero is one.
proof fn lemma_exp_of_zero(e: Exponential)
    requires
        e.wf(),
    ensures
        (e.exp)(0 as real) == 1 as real,
        (e.ln)(1 as real) == 0 as real,
{
    let (zero, x) = (0 as real, (e.exp)(0 as real));
    lemma_exp(e, zero);
    lemma_exp_sum(e, zero, zero, zero);
    assert(x == x * x);
    assert(1 as real * x == x);
    crate::reals::lemma_cancel(1 as real, x, x);
}

/// What two modes with the given shares and squared distances amount to.
proof fn lemma_mixture<T>(
    m: Arithmetic<T>,
    value: spec_fn(T) -> real,
    e: Exponential,
    p: T,
    q: T,
    x: T,
    y: T,
)
    requires
        m.measures(value, e),
        (m.is_finite)(p) && (m.is_finite)(q) && (m.is_finite)(x) && (m.is_finite)(y),
        value(p) >= 0 as real,
        value(q) >= 0 as real,
        value(p) + value(q) > 0 as real,
    ensures
        ({
            let low = (m.minus)((m.logarithm)(p), x);
            let high = (m.minus)((m.logarithm)(q), y);
            let (a, b) = (value(p) * (e.exp)(-value(x)), value(q) * (e.exp)(-value(y)));
            &&& a + b > 0 as real
            &&& (m.is_finite)(m.log_sum(low, high))
            &&& (m.is_finite)(m.responsibility(low, high))
            &&& value(m.log_sum(low, high)) == (e.ln)(a + b)
            &&& value(m.responsibility(low, high)) * (a + b) == a - b
        }),
{
    let low = (m.minus)((m.logarithm)(p), x);
    let high = (m.minus)((m.logarithm)(q), y);
    let (a, b) = (value(p) * (e.exp)(-value(x)), value(q) * (e.exp)(-value(y)));
    let zero = 0 as real;
    lemma_exp(e, -value(x));
    lemma_exp(e, -value(y));
    assert(zero * (e.exp)(-value(x)) == zero && zero * (e.exp)(-value(y)) == zero);
    if value(p) > zero && value(q) > zero {
        lemma_mode(m, value, e, p, x);
        lemma_mode(m, value, e, q, y);
        lemma_two_modes(m, value, e, low, high);
        lemma_exp(e, value(low));
        lemma_exp(e, value(high));
    } else if value(p) > zero {
        lemma_mode(m, value, e, p, x);
        assert(high == m.floor());
        lemma_one_mode(m, value, e, low);
        lemma_exp(e, value(low));
        assert(1 as real * (a + b) == a - b);
    } else {
        lemma_mode(m, value, e, q, y);
        assert(low == m.floor());
        lemma_one_mode(m, value, e, high);
        lemma_exp(e, value(high));
        assert(-(1 as real) * (a + b) == a - b);
    }
}

impl<T> Arithmetic<T> {
    /// Whether all that is known of the pixel pairs are finite numbers, and no
    /// order is beyond minus one and one.
    pub open spec fn is_real(self, value: spec_fn(T) -> real, evidence: Evidence<T>) -> bool {
        &&& evidence.wf()
        &&& forall|j: int, k: int|
            0 <= j < NUM_MONOMIALS && 0 <= k < evidence.pairs() ==> (self.is_finite)(
                #[trigger] evidence.basis[j][k],
            )
        &&& forall|k: int|
            0 <= k < evidence.pairs() ==> (self.is_finite)(#[trigger] evidence.contrast[k])
        &&& forall|k: int|
            0 <= k < evidence.pairs() ==> (self.is_finite)(#[trigger] evidence.order[k]) && -(
            1 as real) <= value(evidence.order[k]) <= 1 as real
    }

    /// The share of the upper mode of pair `k`.
    pub open spec fn upper_share(self, evidence: Evidence<T>, k: int) -> T {
        (self.over)((self.plus)(self.one(), evidence.order[k]), (self.from_int)(2))
    }

    /// The share of the lower mode of pair `k`.
    pub open spec fn lower_share(self, evidence: Evidence<T>, k: int) -> T {
        (self.over)((self.minus)(self.one(), evidence.order[k]), (self.from_int)(2))
    }

    /// The likelihood of pair `k` as a real number, where the gray difference is
    /// `d`.
    pub open spec fn likelihood_of(
        self,
        value: spec_fn(T) -> real,
        e: Exponential,
        evidence: Evidence<T>,
        sigma: T,
        k: int,
        d: real,
    ) -> real {
        likelihood(
            e,
            value(self.precision(sigma)),
            value(evidence.contrast[k]),
            value(self.upper_share(evidence, k)),
            value(self.lower_share(evidence, k)),
            d,
        )
    }

    /// The gray difference of pair `k` as a real number.
    pub open spec fn difference_of(
        self,
        value: spec_fn(T) -> real,
        evidence: Evidence<T>,
        weights: Seq<T>,
        k: int,
    ) -> real {
        crate::reals::sum(
            NUM_MONOMIALS as nat,
            |j: int| value(weights[j]) * value(evidence.basis[j][k]),
        )
    }

    /// How much more of pair `k` the upper mode takes than the lower one.
    pub open spec fn pull(
        self,
        evidence: Evidence<T>,
        weights: Seq<T>,
        sigma: T,
        k: int,
    ) -> T {
        self.responsibility(
            self.upper_mode(evidence, weights, sigma, k),
            self.lower_mode(evidence, weights, sigma, k),
        )
    }
}

/// The shares of the two modes are not negative and sum to one.
pub(crate) proof fn lemma_shares<T>(
    m: Arithmetic<T>,
    value: spec_fn(T) -> real,
    evidence: Evidence<T>,
    k: int,
)
    requires
        m.is_exact(value),
        m.is_real(value, evidence),
        0 <= k < evidence.pairs(),
    ensures
        (m.is_finite)(m.upper_share(evidence, k)),
        (m.is_finite)(m.lower_share(evidence, k)),
        value(m.upper_share(evidence, k)) * (2 as real) == 1 as real + value(evidence.order[k]),
        value(m.lower_share(evidence, k)) * (2 as real) == 1 as real - value(evidence.order[k]),
{
    let order = evidence.order[k];
    let (one, two) = (m.one(), (m.from_int)(2));
    assert(value(two) == 2 as real && value(one) == 1 as real);
    assert((m.is_finite)(order));
    assert((m.is_finite)((m.plus)(one, order)) && (m.is_finite)((m.minus)(one, order)));
    assert(value(m.upper_share(evidence, k)) * value(two) == value((m.plus)(one, order)));
    assert(value(m.lower_share(evidence, k)) * value(two) == value((m.minus)(one, order)));
}

/// The precision is positive.
proof fn lemma_precision<T>(m: Arithmetic<T>, value: spec_fn(T) -> real, sigma: T)
    requires
        m.is_exact(value),
        (m.is_finite)(sigma),
        value(sigma) > 0 as real,
    ensures
        (m.is_finite)(m.precision(sigma)),
        value(m.precision(sigma)) > 0 as real,
{
    let v = value(sigma);
    let (one, two) = (m.one(), (m.from_int)(2));
    assert(value(two) == 2 as real && value(one) == 1 as real);
    let twice = (m.times)(two, sigma);
    let square = (m.times)(twice, sigma);
    assert((m.is_finite)(twice) && value(twice) == 2 as real * v);
    assert((m.is_finite)(square) && value(square) == (2 as real * v) * v);
    crate::reals::lemma_multiple(v, 0 as real, 2 as real * v);
    assert(0 as real * v == 0 as real);
    let s = value(m.precision(sigma));
    assert(s * value(square) == 1 as real);
    if s <= 0 as real {
        crate::reals::lemma_share(value(square), s, 0 as real);
        assert(0 as real * value(square) == 0 as real);
    }
}

/// What is computed of pair `k`, as real numbers.
proof fn lemma_pair_value<T>(
    m: Arithmetic<T>,
    value: spec_fn(T) -> real,
    e: Exponential,
    evidence: Evidence<T>,
    weights: Seq<T>,
    sigma: T,
    k: int,
)
    requires
        m.measures(value, e),
        m.is_real(value, evidence),
        m.all_finite(weights),
        (m.is_finite)(sigma),
        value(sigma) > 0 as real,
        0 <= k < evidence.pairs(),
    ensures
        ({
            let d = m.difference_of(value, evidence, weights, k);
            let (p, q) = (value(m.upper_share(evidence, k)), value(m.lower_share(evidence, k)));
            let (s, c) = (value(m.precision(sigma)), value(evidence.contrast[k]));
            let sum = m.log_sum(
                m.upper_mode(evidence, weights, sigma, k),
                m.lower_mode(evidence, weights, sigma, k),
            );
            &&& (m.is_finite)(sum)
            &&& value(sum) == (e.ln)(likelihood(e, s, c, p, q, d))
            &&& (m.is_finite)(m.pull(evidence, weights, sigma, k))
            &&& value(m.pull(evidence, weights, sigma, k)) * likelihood(e, s, c, p, q, d)
                == surplus(e, s, c, p, q, d)
        }),
{
    let difference = m.gray_difference(evidence, weights, k);
    let term = m.gray_term(evidence, weights, k);
    let f = |j: int| value(weights[j]) * value(evidence.basis[j][k]);
    assert forall|j: int| 0 <= j < NUM_MONOMIALS implies (m.is_finite)(#[trigger] term(j))
        && value(term(j)) == f(j) by {
        assert((m.is_finite)(weights[j]) && (m.is_finite)(evidence.basis[j][k]));
    }
    crate::exact::lemma_total_value(m, value, NUM_MONOMIALS as nat, term, f);
    let contrast = evidence.contrast[k];
    assert((m.is_finite)(contrast) && (m.is_finite)(difference));
    let (d, c) = (value(difference), value(contrast));
    lemma_shares(m, value, evidence, k);
    lemma_precision(m, value, sigma);
    let precision = m.precision(sigma);
    let (u, v) = ((m.minus)(difference, contrast), (m.plus)(difference, contrast));
    let (x, y) = (
        (m.times)((m.power)(u, 2), precision),
        (m.times)((m.power)(v, 2), precision),
    );
    assert((m.is_finite)(u) && value(u) == d - c);
    assert((m.is_finite)(v) && value(v) == d - -c);
    assert((m.is_finite)(x) && value(x) == (d - c) * (d - c) * value(precision));
    assert((m.is_finite)(y) && value(y) == (d - -c) * (d - -c) * value(precision));
    lemma_mixture(m, value, e, m.upper_share(evidence, k), m.lower_share(evidence, k), x, y);
}

impl<T> Arithmetic<T> {
    /// The logarithm of the likelihood of pair `k` under a mapping.
    pub open spec fn log_likelihood(
        self,
        value: spec_fn(T) -> real,
        e: Exponential,
        evidence: Evidence<T>,
        weights: Seq<T>,
        sigma: T,
        k: int,
    ) -> real {
        (e.ln)(
            self.likelihood_of(
                value,
                e,
                evidence,
                sigma,
                k,
                self.difference_of(value, evidence, weights, k),
            ),
        )
    }

    /// What pair `k` contributes to entry `j` of the right hand side.
    pub open spec fn drive(
        self,
        value: spec_fn(T) -> real,
        evidence: Evidence<T>,
        weights: Seq<T>,
        sigma: T,
        j: int,
        k: int,
    ) -> real {
        value(evidence.basis[j][k]) * value(evidence.contrast[k]) * value(
            self.pull(evidence, weights, sigma, k),
        )
    }

    /// The pairs of an image as the laws on their likelihood take them.
    pub open spec fn is_fittable(
        self,
        value: spec_fn(T) -> real,
        e: Exponential,
        evidence: Evidence<T>,
        sigma: T,
    ) -> bool {
        &&& self.measures(value, e)
        &&& self.is_real(value, evidence)
        &&& (self.is_finite)(sigma)
        &&& value(sigma) > 0 as real
    }
}

/// The energy of some pairs is the negative sum of their log likelihoods.
proof fn lemma_energy_value<T>(
    m: Arithmetic<T>,
    value: spec_fn(T) -> real,
    e: Exponential,
    evidence: Evidence<T>,
    weights: Seq<T>,
    sigma: T,
    start: int,
    len: nat,
)
    requires
        m.is_fittable(value, e, evidence, sigma),
        m.all_finite(weights),
        0 <= start,
        start + len <= evidence.pairs(),
    ensures
        (m.is_finite)(m.energy(evidence, weights, sigma, start, len)),
        value(m.energy(evidence, weights, sigma, start, len)) == -crate::reals::sum(
            len,
            |i: int| m.log_likelihood(value, e, evidence, weights, sigma, start + i),
        ),
    decreases len,
{
    if len > 0 {
        lemma_energy_value(m, value, e, evidence, weights, sigma, start, (len - 1) as nat);
        lemma_pair_value(m, value, e, evidence, weights, sigma, start + len - 1);
    }
}

/// The right hand side of some pairs is the sum of their contributions.
proof fn lemma_rhs_value<T>(
    m: Arithmetic<T>,
    value: spec_fn(T) -> real,
    e: Exponential,
    evidence: Evidence<T>,
    weights: Seq<T>,
    sigma: T,
    start: int,
    len: nat,
    j: int,
)
    requires
        m.is_fittable(value, e, evidence, sigma),
        m.all_finite(weights),
        0 <= start,
        start + len <= evidence.pairs(),
        0 <= j < NUM_MONOMIALS,
    ensures
        (m.is_finite)(m.total(len, m.rhs_term(evidence, weights, sigma, start, j))),
        value(m.total(len, m.rhs_term(evidence, weights, sigma, start, j))) == crate::reals::sum(
            len,
            |i: int| m.drive(value, evidence, weights, sigma, j, start + i),
        ),
{
    let term = m.rhs_term(evidence, weights, sigma, start, j);
    let f = |i: int| m.drive(value, evidence, weights, sigma, j, start + i);
    assert forall|i: int| 0 <= i < len implies (m.is_finite)(#[trigger] term(i)) && value(term(i))
        == f(i) by {
        let k = start + i;
        lemma_pair_value(m, value, e, evidence, weights, sigma, k);
        let (l, c) = (evidence.basis[j][k], evidence.contrast[k]);
        assert((m.is_finite)(l) && (m.is_finite)(c));
        let pull = m.pull(evidence, weights, sigma, k);
        assert(term(i) == (m.times)((m.times)(l, c), pull));
    }
    crate::exact::lemma_total_value(m, value, len, term, f);
}

/// The totals over the first chunks are the sums over the pairs in them.
proof fn lemma_chunked_value<T>(
    m: Arithmetic<T>,
    value: spec_fn(T) -> real,
    e: Exponential,
    evidence: Evidence<T>,
    weights: Seq<T>,
    sigma: T,
    chunks: nat,
    covered: nat,
)
    requires
        m.is_fittable(value, e, evidence, sigma),
        m.all_finite(weights),
        chunks <= Arithmetic::<T>::chunk_count(evidence.pairs()),
        covered == if chunks * PAIR_CHUNK < evidence.pairs() {
            chunks * PAIR_CHUNK
        } else {
            evidence.pairs()
        },
    ensures
        (m.is_finite)(m.chunked(evidence, weights, sigma, chunks).energy),
        value(m.chunked(evidence, weights, sigma, chunks).energy) == -crate::reals::sum(
            covered,
            |k: int| m.log_likelihood(value, e, evidence, weights, sigma, k),
        ),
        forall|j: int|
            0 <= j < NUM_MONOMIALS ==> (m.is_finite)(
                #[trigger] m.chunked(evidence, weights, sigma, chunks).rhs[j],
            ) && value(m.chunked(evidence, weights, sigma, chunks).rhs[j]) == crate::reals::sum(
                covered,
                |k: int| m.drive(value, evidence, weights, sigma, j, k),
            ),
    decreases chunks,
{
    let totals = m.chunked(evidence, weights, sigma, chunks);
    if chunks == 0 {
        assert((m.is_finite)(m.zero()) && value(m.zero()) == 0 as real);
    } else {
        let start = (chunks - 1) * PAIR_CHUNK;
        let rest = evidence.pairs() - start;
        let len: nat = if rest < PAIR_CHUNK {
            rest as nat
        } else {
            PAIR_CHUNK as nat
        };
        assert(start < evidence.pairs());
        let before = m.chunked(evidence, weights, sigma, (chunks - 1) as nat);
        let part = m.pass(evidence, weights, sigma, start, len);
        lemma_chunked_value(
            m,
            value,
            e,
            evidence,
            weights,
            sigma,
            (chunks - 1) as nat,
            start as nat,
        );
        assert(totals == m.merged(before, part));
        lemma_energy_value(m, value, e, evidence, weights, sigma, start, len);
        let f = |k: int| m.log_likelihood(value, e, evidence, weights, sigma, k);
        let g = |i: int| m.log_likelihood(value, e, evidence, weights, sigma, start + i);
        crate::reals::lemma_sum_parts(start as nat, len, f, g);
        assert(covered == start + len);
        assert forall|j: int| 0 <= j < NUM_MONOMIALS implies (m.is_finite)(#[trigger] totals.rhs[j])
            && value(totals.rhs[j]) == crate::reals::sum(
            covered,
            |k: int| m.drive(value, evidence, weights, sigma, j, k),
        ) by {
            lemma_rhs_value(m, value, e, evidence, weights, sigma, start, len, j);
            let p = |k: int| m.drive(value, evidence, weights, sigma, j, k);
            let q = |i: int| m.drive(value, evidence, weights, sigma, j, start + i);
            crate::reals::lemma_sum_parts(start as nat, len, p, q);
            assert((m.is_finite)(before.rhs[j]));
            assert(part.rhs[j] == m.total(len, m.rhs_term(evidence, weights, sigma, start, j)));
            assert(totals.rhs[j] == (m.plus)(before.rhs[j], part.rhs[j]));
        }
    }
}

/// The totals over all pairs, as real numbers.
pub(crate) proof fn lemma_totals_value<T>(
    m: Arithmetic<T>,
    value: spec_fn(T) -> real,
    e: Exponential,
    evidence: Evidence<T>,
    weights: Seq<T>,
    sigma: T,
)
    requires
        m.is_fittable(value, e, evidence, sigma),
        m.all_finite(weights),
    ensures
        (m.is_finite)(m.totals(evidence, weights, sigma).energy),
        value(m.totals(evidence, weights, sigma).energy) == -crate::reals::sum(
            evidence.pairs() as nat,
            |k: int| m.log_likelihood(value, e, evidence, weights, sigma, k),
        ),
        forall|j: int|
            0 <= j < NUM_MONOMIALS ==> (m.is_finite)(
                #[trigger] m.totals(evidence, weights, sigma).rhs[j],
            ) && value(m.totals(evidence, weights, sigma).rhs[j]) == crate::reals::sum(
                evidence.pairs() as nat,
                |k: int| m.drive(value, evidence, weights, sigma, j, k),
            ),
{
    let chunks = Arithmetic::<T>::chunk_count(evidence.pairs());
    assert(chunks * PAIR_CHUNK >= evidence.pairs());
    lemma_chunked_value(
        m,
        value,
        e,
        evidence,
        weights,
        sigma,
        chunks,
        evidence.pairs() as nat,
    );
}

impl<T> Arithmetic<T> {
    /// Whether `x` answers a system of linear equations.
    pub open spec fn answers(
        self,
        value: spec_fn(T) -> real,
        rows: Seq<Seq<T>>,
        rhs: Seq<T>,
        x: Seq<T>,
    ) -> bool {
        forall|i: int|
            0 <= i < NUM_MONOMIALS ==> crate::reals::sum(
                NUM_MONOMIALS as nat,
                |j: int| value(rows[i][j]) * value(x[j]),
            ) == value(#[trigger] rhs[i])
    }

    /// Whether all coefficients of a system of linear equations are finite.
    pub open spec fn is_finite_system(self, rows: Seq<Seq<T>>, rhs: Seq<T>) -> bool {
        &&& forall|i: int, j: int|
            0 <= i < NUM_MONOMIALS && 0 <= j < NUM_MONOMIALS ==> (self.is_finite)(
                #[trigger] rows[i][j],
            )
        &&& self.all_finite(rhs)
    }

    /// Whether `solve` solves: what it returns for finite equations answers them.
    pub open spec fn solves(self, value: spec_fn(T) -> real) -> bool {
        forall|rows: Seq<Seq<T>>, rhs: Seq<T>|
            self.is_finite_system(rows, rhs) ==> match #[trigger] (self.solve)(rows, rhs) {
                Some(x) => self.all_finite(x) ==> self.answers(value, rows, rhs, x),
                None => true,
            }
    }
}

/// An entry of the matrix of the normal equations, as a real number.
pub(crate) proof fn lemma_gram_value<T>(
    m: Arithmetic<T>,
    value: spec_fn(T) -> real,
    evidence: Evidence<T>,
    i: int,
    j: int,
)
    requires
        m.is_exact(value),
        m.is_real(value, evidence),
        0 <= i < NUM_MONOMIALS,
        0 <= j < NUM_MONOMIALS,
    ensures
        (m.is_finite)(m.gram(evidence)[i][j]),
        value(m.gram(evidence)[i][j]) == crate::reals::sum(
            evidence.pairs() as nat,
            |k: int| value(evidence.basis[i][k]) * value(evidence.basis[j][k]),
        ),
{
    let n = evidence.pairs() as nat;
    let (p, q) = if i <= j {
        (i, j)
    } else {
        (j, i)
    };
    let term = m.gram_term(evidence, p, q);
    let f = |k: int| value(evidence.basis[i][k]) * value(evidence.basis[j][k]);
    assert forall|k: int| 0 <= k < n implies (m.is_finite)(#[trigger] term(k)) && value(term(k))
        == f(k) by {
        assert((m.is_finite)(evidence.basis[i][k]) && (m.is_finite)(evidence.basis[j][k]));
        crate::reals::lemma_commute(value(evidence.basis[i][k]), value(evidence.basis[j][k]));
    }
    crate::exact::lemma_total_value(m, value, n, term, f);
    assert(m.gram(evidence)[i][j] == m.total(n, term));
}

/// The answer to the normal equations leaves residuals that are orthogonal to
/// every monomial.
proof fn lemma_residuals<T>(
    m: Arithmetic<T>,
    value: spec_fn(T) -> real,
    e: Exponential,
    evidence: Evidence<T>,
    weights: Seq<T>,
    next: Seq<T>,
    sigma: T,
    j: int,
)
    requires
        m.is_fittable(value, e, evidence, sigma),
        m.all_finite(weights),
        m.all_finite(next),
        m.answers(value, m.gram(evidence), m.totals(evidence, weights, sigma).rhs, next),
        0 <= j < NUM_MONOMIALS,
    ensures
        crate::reals::sum(
            evidence.pairs() as nat,
            |k: int|
                value(evidence.basis[j][k]) * (m.difference_of(value, evidence, next, k) - value(
                    evidence.contrast[k],
                ) * value(m.pull(evidence, weights, sigma, k))),
        ) == 0 as real,
{
    let n = evidence.pairs() as nat;
    let nine = NUM_MONOMIALS as nat;
    let rhs = m.totals(evidence, weights, sigma).rhs;
    let table = |i: int, k: int|
        value(next[i]) * (value(evidence.basis[i][k]) * value(evidence.basis[j][k]));
    crate::reals::lemma_table(nine, n, table);
    let columns = |k: int| crate::reals::column_sum(nine, table, k);
    let rows = |i: int| crate::reals::row_sum(n, table, i);
    // Row by row the table is the left hand side of the equation.
    let left = |i: int| value(m.gram(evidence)[j][i]) * value(next[i]);
    assert forall|i: int| 0 <= i < nine implies #[trigger] rows(i) == left(i) by {
        lemma_gram_value(m, value, evidence, j, i);
        let f = |k: int| value(evidence.basis[j][k]) * value(evidence.basis[i][k]);
        let g = |k: int| table(i, k);
        assert forall|k: int| 0 <= k < n implies #[trigger] g(k) == value(next[i]) * f(k) by {
            crate::reals::lemma_commute(value(evidence.basis[i][k]), value(evidence.basis[j][k]));
        }
        crate::reals::lemma_sum_multiple(n, f, g, value(next[i]));
        crate::reals::lemma_commute(value(next[i]), crate::reals::sum(n, f));
    }
    crate::reals::lemma_sum_equal(nine, rows, left);
    assert(crate::reals::sum(nine, left) == value(rhs[j]));
    // Column by column it is the gray difference times the monomial.
    let product = |k: int|
        value(evidence.basis[j][k]) * m.difference_of(value, evidence, next, k);
    assert forall|k: int| 0 <= k < n implies #[trigger] columns(k) == product(k) by {
        let l = value(evidence.basis[j][k]);
        let f = |i: int| value(next[i]) * value(evidence.basis[i][k]);
        let g = |i: int| table(i, k);
        assert forall|i: int| 0 <= i < nine implies #[trigger] g(i) == l * f(i) by {
            crate::reals::lemma_associate(value(next[i]), value(evidence.basis[i][k]), l);
            crate::reals::lemma_commute(f(i), l);
        }
        crate::reals::lemma_sum_multiple(nine, f, g, l);
    }
    crate::reals::lemma_sum_equal(n, columns, product);
    lemma_totals_value(m, value, e, evidence, weights, sigma);
    let drive = |k: int| m.drive(value, evidence, weights, sigma, j, k);
    assert((m.is_finite)(rhs[j]));
    assert(crate::reals::sum(n, product) == crate::reals::sum(n, drive));
    let residual = |k: int|
        value(evidence.basis[j][k]) * (m.difference_of(value, evidence, next, k) - value(
            evidence.contrast[k],
        ) * value(m.pull(evidence, weights, sigma, k)));
    let minus = -(1 as real);
    assert forall|k: int| 0 <= k < n implies #[trigger] residual(k) == product(k) + minus * drive(
        k,
    ) by {
        let l = value(evidence.basis[j][k]);
        let (c, r) = (value(evidence.contrast[k]), value(m.pull(evidence, weights, sigma, k)));
        crate::reals::lemma_distribute(
            m.difference_of(value, evidence, next, k),
            -(c * r),
            l,
        );
        lemma_negated_factor(l, c * r);
        crate::reals::lemma_associate(l, c, r);
        assert(minus * drive(k) == -drive(k));
    }
    crate::reals::lemma_sum_combines(n, product, drive, residual, minus);
    let total = crate::reals::sum(n, drive);
    assert(minus * total == -total);
}

/// The step to the answer of the normal equations is orthogonal to the residuals
/// that it leaves.
proof fn lemma_step_is_orthogonal<T>(
    m: Arithmetic<T>,
    value: spec_fn(T) -> real,
    e: Exponential,
    evidence: Evidence<T>,
    weights: Seq<T>,
    next: Seq<T>,
    sigma: T,
)
    requires
        m.is_fittable(value, e, evidence, sigma),
        m.all_finite(weights),
        m.all_finite(next),
        m.answers(value, m.gram(evidence), m.totals(evidence, weights, sigma).rhs, next),
    ensures
        crate::reals::sum(
            evidence.pairs() as nat,
            |k: int|
                (m.difference_of(value, evidence, next, k) - m.difference_of(
                    value,
                    evidence,
                    weights,
                    k,
                )) * (m.difference_of(value, evidence, next, k) - value(evidence.contrast[k])
                    * value(m.pull(evidence, weights, sigma, k))),
        ) == 0 as real,
{
    let n = evidence.pairs() as nat;
    let nine = NUM_MONOMIALS as nat;
    let residual = |k: int|
        m.difference_of(value, evidence, next, k) - value(evidence.contrast[k]) * value(
            m.pull(evidence, weights, sigma, k),
        );
    let step = |j: int| value(next[j]) - value(weights[j]);
    let table = |j: int, k: int| step(j) * (value(evidence.basis[j][k]) * residual(k));
    crate::reals::lemma_table(nine, n, table);
    let columns = |k: int| crate::reals::column_sum(nine, table, k);
    let rows = |j: int| crate::reals::row_sum(n, table, j);
    assert forall|j: int| 0 <= j < nine implies #[trigger] rows(j) == 0 as real by {
        lemma_residuals(m, value, e, evidence, weights, next, sigma, j);
        let f = |k: int|
            value(evidence.basis[j][k]) * (m.difference_of(value, evidence, next, k) - value(
                evidence.contrast[k],
            ) * value(m.pull(evidence, weights, sigma, k)));
        let g = |k: int| table(j, k);
        crate::reals::lemma_sum_multiple(n, f, g, step(j));
        assert(step(j) * (0 as real) == 0 as real);
    }
    crate::reals::lemma_sum_zero(nine, rows);
    let goal = |k: int|
        (m.difference_of(value, evidence, next, k) - m.difference_of(
            value,
            evidence,
            weights,
            k,
        )) * (m.difference_of(value, evidence, next, k) - value(evidence.contrast[k]) * value(
            m.pull(evidence, weights, sigma, k),
        ));
    assert forall|k: int| 0 <= k < n implies #[trigger] columns(k) == goal(k) by {
        let u = residual(k);
        let f = |j: int| value(next[j]) * value(evidence.basis[j][k]);
        let g = |j: int| value(weights[j]) * value(evidence.basis[j][k]);
        let h = |j: int| step(j) * value(evidence.basis[j][k]);
        let minus = -(1 as real);
        assert forall|j: int| 0 <= j < nine implies #[trigger] h(j) == f(j) + minus * g(j) by {
            let l = value(evidence.basis[j][k]);
            crate::reals::lemma_distribute(value(next[j]), -value(weights[j]), l);
            lemma_negated_factor(value(weights[j]), l);
            assert(minus * g(j) == -g(j));
        }
        crate::reals::lemma_sum_combines(nine, f, g, h, minus);
        let before = crate::reals::sum(nine, g);
        assert(minus * before == -before);
        let t = |j: int| table(j, k);
        assert forall|j: int| 0 <= j < nine implies #[trigger] t(j) == u * h(j) by {
            crate::reals::lemma_associate(step(j), value(evidence.basis[j][k]), u);
            crate::reals::lemma_commute(h(j), u);
        }
        crate::reals::lemma_sum_multiple(nine, h, t, u);
        crate::reals::lemma_commute(u, crate::reals::sum(nine, h));
    }
    crate::reals::lemma_sum_equal(n, columns, goal);
}

/// A fixed point iteration never makes the objective worse: where the normal
/// equations are answered, the energy at the answer is at most the energy
/// before.
pub proof fn law_an_iteration_fits_no_worse<T>(
    m: Arithmetic<T>,
    value: spec_fn(T) -> real,
    e: Exponential,
    evidence: Evidence<T>,
    weights: Seq<T>,
    next: Seq<T>,
    sigma: T,
)
    requires
        m.is_fittable(value, e, evidence, sigma),
        m.all_finite(weights),
        m.all_finite(next),
        m.answers(value, m.gram(evidence), m.totals(evidence, weights, sigma).rhs, next),
    ensures
        value(m.totals(evidence, next, sigma).energy) <= value(
            m.totals(evidence, weights, sigma).energy,
        ),
{
    let n = evidence.pairs() as nat;
    lemma_totals_value(m, value, e, evidence, weights, sigma);
    lemma_totals_value(m, value, e, evidence, next, sigma);
    lemma_step_is_orthogonal(m, value, e, evidence, weights, next, sigma);
    lemma_precision(m, value, sigma);
    let s = value(m.precision(sigma));
    let factor = -(2 as real * s);
    let before = |k: int| m.log_likelihood(value, e, evidence, weights, sigma, k);
    let after = |k: int| m.log_likelihood(value, e, evidence, next, sigma, k);
    let change = |k: int|
        (m.difference_of(value, evidence, next, k) - m.difference_of(
            value,
            evidence,
            weights,
            k,
        )) * (m.difference_of(value, evidence, next, k) - value(evidence.contrast[k]) * value(
            m.pull(evidence, weights, sigma, k),
        ));
    let bound = |k: int| before(k) + factor * change(k);
    assert forall|k: int| 0 <= k < n implies #[trigger] bound(k) <= after(k) by {
        lemma_pair_value(m, value, e, evidence, weights, sigma, k);
        lemma_shares(m, value, evidence, k);
        assert((m.is_finite)(evidence.order[k]));
        let (p, q) = (value(m.upper_share(evidence, k)), value(m.lower_share(evidence, k)));
        assert(p >= 0 as real && q >= 0 as real && p + q == 1 as real);
        let (d0, d1) = (
            m.difference_of(value, evidence, weights, k),
            m.difference_of(value, evidence, next, k),
        );
        let r = value(m.pull(evidence, weights, sigma, k));
        lemma_pair_improves(e, s, value(evidence.contrast[k]), p, q, d0, d1, r);
        crate::reals::lemma_associate(2 as real, s, change(k));
        lemma_negated_factor(2 as real * s, change(k));
    }
    crate::reals::lemma_sum_order(n, bound, after);
    crate::reals::lemma_sum_combines(n, before, change, bound, factor);
    assert(factor * (0 as real) == 0 as real);
}

/// The number of iterations is a budget that is never spent in vain: with a
/// larger budget the objective is not worse, and it is never worse than at the
/// weights that the iteration starts from.
pub proof fn law_a_larger_budget_fits_no_worse<T>(
    m: Arithmetic<T>,
    value: spec_fn(T) -> real,
    e: Exponential,
    evidence: Evidence<T>,
    options: DecolorizeOptions<T>,
    weights: Seq<T>,
    previous: T,
    budget: nat,
    larger: nat,
)
    requires
        m.is_fittable(value, e, evidence, options.sigma),
        m.solves(value),
        m.all_finite(weights),
        budget <= larger,
    ensures
        value(
            m.totals(
                evidence,
                m.iterated(evidence, options, weights, previous, larger),
                options.sigma,
            ).energy,
        ) <= value(
            m.totals(
                evidence,
                m.iterated(evidence, options, weights, previous, budget),
                options.sigma,
            ).energy,
        ),
    decreases larger,
{
    if larger > 0 {
        let totals = m.totals(evidence, weights, options.sigma);
        let energy = (m.over)(totals.energy, (m.from_int)(evidence.pairs() as u64));
        if !(m.less)((m.absolute)((m.minus)(energy, previous)), options.tolerance) {
            match (m.solve)(m.gram(evidence), totals.rhs) {
                Some(next) if m.all_finite(next) => {
                    lemma_system_is_finite(m, value, e, evidence, weights, options.sigma);
                    assert(m.answers(value, m.gram(evidence), totals.rhs, next));
                    law_an_iteration_fits_no_worse(
                        m,
                        value,
                        e,
                        evidence,
                        weights,
                        next,
                        options.sigma,
                    );
                    let fewer: nat = if budget > 0 {
                        (budget - 1) as nat
                    } else {
                        0
                    };
                    law_a_larger_budget_fits_no_worse(
                        m,
                        value,
                        e,
                        evidence,
                        options,
                        next,
                        energy,
                        fewer,
                        (larger - 1) as nat,
                    );
                },
                _ => {},
            }
        }
    }
}

/// The normal equations of real pairs have finite coefficients.
pub(crate) proof fn lemma_system_is_finite<T>(
    m: Arithmetic<T>,
    value: spec_fn(T) -> real,
    e: Exponential,
    evidence: Evidence<T>,
    weights: Seq<T>,
    sigma: T,
)
    requires
        m.is_fittable(value, e, evidence, sigma),
        m.all_finite(weights),
    ensures
        m.is_finite_system(m.gram(evidence), m.totals(evidence, weights, sigma).rhs),
{
    lemma_totals_value(m, value, e, evidence, weights, sigma);
    assert forall|i: int, j: int| 0 <= i < NUM_MONOMIALS && 0 <= j < NUM_MONOMIALS implies (
    m.is_finite)(#[trigger] m.gram(evidence)[i][j]) by {
        lemma_gram_value(m, value, evidence, i, j);
    }
}

/// Of two fits of the same planes that differ in their budget, the one with the
/// larger budget has no worse a likelihood, and neither is worse than the
/// channel average.
pub proof fn law_fitting_longer_fits_no_worse<T>(
    m: Arithmetic<T>,
    value: spec_fn(T) -> real,
    e: Exponential,
    planes: PlaneSet<T>,
    options: DecolorizeOptions<T>,
    longer: DecolorizeOptions<T>,
)
    requires
        m.is_fittable(value, e, m.evidence(planes), options.sigma),
        m.solves(value),
        longer == (DecolorizeOptions { max_iterations: longer.max_iterations, ..options }),
        options.max_iterations <= longer.max_iterations,
    ensures
        ({
            let energy = |weights: Seq<T>|
                value(m.totals(m.evidence(planes), weights, options.sigma).energy);
            &&& energy(m.fitted_weights(planes, longer)) <= energy(
                m.fitted_weights(planes, options),
            )
            &&& energy(m.fitted_weights(planes, options)) <= energy(m.initial_weights())
        }),
{
    let evidence = m.evidence(planes);
    let weights = m.initial_weights();
    crate::exact::lemma_initial_weights_are_finite(m, value);
    let (short, long) = (options.max_iterations as nat, longer.max_iterations as nat);
    law_a_larger_budget_fits_no_worse(
        m,
        value,
        e,
        evidence,
        options,
        weights,
        m.infinity,
        short,
        long,
    );
    law_a_larger_budget_fits_no_worse(
        m,
        value,
        e,
        evidence,
        options,
        weights,
        m.infinity,
        0,
        short,
    );
    lemma_budget_is_the_limit(m, evidence, options, longer, weights, m.infinity, long);
}

/// Iterating does not depend on the budget beyond the number of iterations left.
pub(crate) proof fn lemma_budget_is_the_limit<T>(
    m: Arithmetic<T>,
    evidence: Evidence<T>,
    options: DecolorizeOptions<T>,
    other: DecolorizeOptions<T>,
    weights: Seq<T>,
    previous: T,
    left: nat,
)
    requires
        options.sigma == other.sigma,
        options.tolerance == other.tolerance,
    ensures
        m.iterated(evidence, options, weights, previous, left) == m.iterated(
            evidence,
            other,
            weights,
            previous,
            left,
        ),
    decreases left,
{
    if left > 0 {
        let totals = m.totals(evidence, weights, options.sigma);
        let energy = (m.over)(totals.energy, (m.from_int)(evidence.pairs() as u64));
        match (m.solve)(m.gram(evidence), totals.rhs) {
            Some(next) if m.all_finite(next) => {
                lemma_budget_is_the_limit(
                    m,
                    evidence,
                    options,
                    other,
                    next,
                    energy,
                    (left - 1) as nat,
                );
            },
            _ => {},
        }
    }
}

impl<T> Arithmetic<T> {
    /// Whether pair `k` of `turned` is that of `evidence`, or that pair with its
    /// two pixels exchanged: then the differences and the order have the opposite
    /// sign.
    pub open spec fn is_turned(
        self,
        value: spec_fn(T) -> real,
        evidence: Evidence<T>,
        turned: Evidence<T>,
        k: int,
    ) -> bool {
        &&& value(turned.contrast[k]) == value(evidence.contrast[k])
        &&& exists|sign: real|
            #![trigger self.has_sign(value, evidence, turned, k, sign)]
            (sign == 1 as real || sign == -(1 as real)) && self.has_sign(
                value,
                evidence,
                turned,
                k,
                sign,
            )
    }

    /// Whether the differences and the order of pair `k` of `turned` are those of
    /// `evidence`, multiplied with a sign.
    pub open spec fn has_sign(
        self,
        value: spec_fn(T) -> real,
        evidence: Evidence<T>,
        turned: Evidence<T>,
        k: int,
        sign: real,
    ) -> bool {
        &&& value(turned.order[k]) == sign * value(evidence.order[k])
        &&& forall|j: int|
            0 <= j < NUM_MONOMIALS ==> value(#[trigger] turned.basis[j][k]) == sign * value(
                evidence.basis[j][k],
            )
    }
}

/// Exchanging the two modes and the sign of the gray difference changes neither
/// the likelihood nor, up to its sign, the surplus.
proof fn lemma_exchanged(e: Exponential, s: real, c: real, p: real, q: real, d: real)
    ensures
        likelihood(e, s, c, q, p, -d) == likelihood(e, s, c, p, q, d),
        surplus(e, s, c, q, p, -d) == -surplus(e, s, c, p, q, d),
{
    lemma_negated_factor(d - -c, d - -c);
    lemma_negated_factor(d - c, d - c);
    assert(-d - c == -(d - -c) && -d - -c == -(d - c));
    assert(match_of(e, s, c, -d) == match_of(e, s, -c, d));
    assert(match_of(e, s, -c, -d) == match_of(e, s, c, d));
}

/// Turning a pair round changes neither its log likelihood nor what it
/// contributes to the right hand side.
proof fn lemma_turned_pair<T>(
    m: Arithmetic<T>,
    value: spec_fn(T) -> real,
    e: Exponential,
    evidence: Evidence<T>,
    turned: Evidence<T>,
    weights: Seq<T>,
    sigma: T,
    k: int,
)
    requires
        m.is_fittable(value, e, evidence, sigma),
        m.is_fittable(value, e, turned, sigma),
        m.all_finite(weights),
        turned.pairs() == evidence.pairs(),
        0 <= k < evidence.pairs(),
        m.is_turned(value, evidence, turned, k),
    ensures
        m.log_likelihood(value, e, turned, weights, sigma, k) == m.log_likelihood(
            value,
            e,
            evidence,
            weights,
            sigma,
            k,
        ),
        forall|j: int|
            0 <= j < NUM_MONOMIALS ==> #[trigger] m.drive(value, turned, weights, sigma, j, k)
                == m.drive(value, evidence, weights, sigma, j, k),
{
    let sign = choose|sign: real|
        #![trigger m.has_sign(value, evidence, turned, k, sign)]
        (sign == 1 as real || sign == -(1 as real)) && m.has_sign(
            value,
            evidence,
            turned,
            k,
            sign,
        );
    let nine = NUM_MONOMIALS as nat;
    lemma_pair_value(m, value, e, evidence, weights, sigma, k);
    lemma_pair_value(m, value, e, turned, weights, sigma, k);
    lemma_shares(m, value, evidence, k);
    lemma_shares(m, value, turned, k);
    lemma_precision(m, value, sigma);
    let (s, c) = (value(m.precision(sigma)), value(evidence.contrast[k]));
    let (p, q) = (value(m.upper_share(evidence, k)), value(m.lower_share(evidence, k)));
    let (d, o) = (m.difference_of(value, evidence, weights, k), value(evidence.order[k]));
    let turned_d = m.difference_of(value, turned, weights, k);
    let f = |j: int| value(weights[j]) * value(evidence.basis[j][k]);
    let g = |j: int| value(weights[j]) * value(turned.basis[j][k]);
    assert forall|j: int| 0 <= j < nine implies #[trigger] g(j) == sign * f(j) by {
        let (w, l) = (value(weights[j]), value(evidence.basis[j][k]));
        assert(value(turned.basis[j][k]) == sign * l);
        crate::reals::lemma_associate(w, sign, l);
        crate::reals::lemma_commute(w, sign);
        crate::reals::lemma_associate(sign, w, l);
    }
    crate::reals::lemma_sum_multiple(nine, f, g, sign);
    assert(turned_d == sign * d);
    let (r, t) = (
        value(m.pull(evidence, weights, sigma, k)),
        value(m.pull(turned, weights, sigma, k)),
    );
    let n = likelihood(e, s, c, p, q, d);
    lemma_pair_improves(e, s, c, p, q, d, d, r);
    if sign == 1 as real {
        assert(1 as real * d == d && 1 as real * o == o);
        crate::reals::lemma_cancel(t, r, n);
    } else {
        assert(-(1 as real) * d == -d && -(1 as real) * o == -o);
        lemma_exchanged(e, s, c, p, q, d);
        lemma_negated_factor(r, n);
        crate::reals::lemma_cancel(t, -r, n);
    }
    assert(t == sign * r) by {
        assert(1 as real * r == r && -(1 as real) * r == -r);
    }
    assert forall|j: int| 0 <= j < nine implies #[trigger] m.drive(
        value,
        turned,
        weights,
        sigma,
        j,
        k,
    ) == m.drive(value, evidence, weights, sigma, j, k) by {
        let l = value(evidence.basis[j][k]);
        assert(value(turned.basis[j][k]) == sign * l);
        if sign == 1 as real {
            assert(1 as real * l == l);
        } else {
            assert(-(1 as real) * l == -l);
            lemma_negated_factor(l, c);
            lemma_negated_factor(l * c, r);
        }
    }
}

/// Which pixel of a pair comes first does not matter: turning any of the pairs
/// round changes neither the energy nor the right hand side of a pass.
/// [`crate::symmetry`] has the same of numbers that round, to the last bit.
pub proof fn law_turning_pairs_changes_nothing<T>(
    m: Arithmetic<T>,
    value: spec_fn(T) -> real,
    e: Exponential,
    evidence: Evidence<T>,
    turned: Evidence<T>,
    weights: Seq<T>,
    sigma: T,
    start: int,
    len: nat,
)
    requires
        m.is_fittable(value, e, evidence, sigma),
        m.is_fittable(value, e, turned, sigma),
        m.all_finite(weights),
        turned.pairs() == evidence.pairs(),
        0 <= start,
        start + len <= evidence.pairs(),
        forall|k: int|
            start <= k < start + len ==> #[trigger] m.is_turned(value, evidence, turned, k),
    ensures
        value(m.pass(turned, weights, sigma, start, len).energy) == value(
            m.pass(evidence, weights, sigma, start, len).energy,
        ),
        forall|j: int|
            0 <= j < NUM_MONOMIALS ==> value(
                #[trigger] m.pass(turned, weights, sigma, start, len).rhs[j],
            ) == value(m.pass(evidence, weights, sigma, start, len).rhs[j]),
{
    lemma_energy_value(m, value, e, evidence, weights, sigma, start, len);
    lemma_energy_value(m, value, e, turned, weights, sigma, start, len);
    let f = |i: int| m.log_likelihood(value, e, evidence, weights, sigma, start + i);
    let g = |i: int| m.log_likelihood(value, e, turned, weights, sigma, start + i);
    assert forall|i: int| 0 <= i < len implies #[trigger] g(i) == f(i) by {
        assert(m.is_turned(value, evidence, turned, start + i));
        lemma_turned_pair(m, value, e, evidence, turned, weights, sigma, start + i);
    }
    crate::reals::lemma_sum_equal(len, g, f);
    assert forall|j: int| 0 <= j < NUM_MONOMIALS implies value(
        #[trigger] m.pass(turned, weights, sigma, start, len).rhs[j],
    ) == value(m.pass(evidence, weights, sigma, start, len).rhs[j]) by {
        lemma_rhs_value(m, value, e, evidence, weights, sigma, start, len, j);
        lemma_rhs_value(m, value, e, turned, weights, sigma, start, len, j);
        let p = |i: int| m.drive(value, evidence, weights, sigma, j, start + i);
        let q = |i: int| m.drive(value, turned, weights, sigma, j, start + i);
        assert forall|i: int| 0 <= i < len implies #[trigger] q(i) == p(i) by {
            assert(m.is_turned(value, evidence, turned, start + i));
            lemma_turned_pair(m, value, e, evidence, turned, weights, sigma, start + i);
        }
        crate::reals::lemma_sum_equal(len, q, p);
    }
}

/// The precision is determined by the deviation.
pub(crate) proof fn lemma_precision_value<T>(
    m: Arithmetic<T>,
    value: spec_fn(T) -> real,
    sigma: T,
    precision: real,
)
    requires
        m.is_exact(value),
        (m.is_finite)(sigma),
        value(sigma) > 0 as real,
        precision * (2 as real * value(sigma) * value(sigma)) == 1 as real,
    ensures
        (m.is_finite)(m.precision(sigma)),
        value(m.precision(sigma)) == precision,
        precision > 0 as real,
{
    lemma_precision(m, value, sigma);
    let v = value(sigma);
    let (one, two) = (m.one(), (m.from_int)(2));
    assert(value(two) == 2 as real && value(one) == 1 as real);
    let square = (m.times)((m.times)(two, sigma), sigma);
    assert((m.is_finite)(square) && value(square) == 2 as real * v * v);
    crate::reals::lemma_multiple(v, 0 as real, 2 as real * v);
    assert(0 as real * v == 0 as real);
    let s = value(m.precision(sigma));
    assert(s * value(square) == 1 as real);
    crate::reals::lemma_cancel(s, precision, value(square));
}

/// The objective is the negative log likelihood of all pairs: a pair adds the
/// logarithm of two Gaussians, around its contrast and around the opposite, at
/// the gray difference that the mapping gives it. The weak order says how much
/// each of the two counts.
pub proof fn law_the_energy_is_the_negative_log_likelihood<T>(
    m: Arithmetic<T>,
    value: spec_fn(T) -> real,
    e: Exponential,
    evidence: Evidence<T>,
    weights: Seq<T>,
    sigma: T,
    precision: real,
    term: spec_fn(int) -> real,
)
    requires
        m.is_fittable(value, e, evidence, sigma),
        m.all_finite(weights),
        precision * (2 as real * value(sigma) * value(sigma)) == 1 as real,
        forall|k: int|
            0 <= k < evidence.pairs() ==> #[trigger] term(k) == {
                let d = crate::reals::sum(
                    NUM_MONOMIALS as nat,
                    |j: int| value(weights[j]) * value(evidence.basis[j][k]),
                );
                let (c, order) = (value(evidence.contrast[k]), value(evidence.order[k]));
                (e.ln)(
                    (1 as real + order) / 2 as real * (e.exp)(-((d - c) * (d - c) * precision)) + (
                    1 as real - order) / 2 as real * (e.exp)(-((d + c) * (d + c) * precision)),
                )
            },
    ensures
        value(m.totals(evidence, weights, sigma).energy) == -crate::reals::sum(
            evidence.pairs() as nat,
            term,
        ),
{
    lemma_totals_value(m, value, e, evidence, weights, sigma);
    lemma_precision_value(m, value, sigma, precision);
    let f = |k: int| m.log_likelihood(value, e, evidence, weights, sigma, k);
    assert forall|k: int| 0 <= k < evidence.pairs() implies #[trigger] f(k) == term(k) by {
        lemma_shares(m, value, evidence, k);
        let d = m.difference_of(value, evidence, weights, k);
        let g = |j: int| value(weights[j]) * value(evidence.basis[j][k]);
        assert(crate::reals::sum(NUM_MONOMIALS as nat, g) == d);
        let (c, order) = (value(evidence.contrast[k]), value(evidence.order[k]));
        assert(value(m.upper_share(evidence, k)) == (1 as real + order) / 2 as real);
        assert(value(m.lower_share(evidence, k)) == (1 as real - order) / 2 as real);
        assert(d - -c == d + c);
        assert(term(k) == f(k));
    }
    crate::reals::lemma_sum_equal(evidence.pairs() as nat, f, term);
}

/// An entry of the matrix of the normal equations is the sum over all pairs of
/// the product of their two monomial differences.
pub proof fn law_the_normal_equations_hold_inner_products<T>(
    m: Arithmetic<T>,
    value: spec_fn(T) -> real,
    evidence: Evidence<T>,
    i: int,
    j: int,
    term: spec_fn(int) -> real,
)
    requires
        m.is_exact(value),
        m.is_real(value, evidence),
        0 <= i < NUM_MONOMIALS,
        0 <= j < NUM_MONOMIALS,
        forall|k: int|
            0 <= k < evidence.pairs() ==> #[trigger] term(k) == value(evidence.basis[i][k]) * value(
                evidence.basis[j][k],
            ),
    ensures
        value(m.gram(evidence)[i][j]) == crate::reals::sum(evidence.pairs() as nat, term),
{
    lemma_gram_value(m, value, evidence, i, j);
    let f = |k: int| value(evidence.basis[i][k]) * value(evidence.basis[j][k]);
    assert forall|k: int| 0 <= k < evidence.pairs() implies #[trigger] f(k) == term(k) by {
        assert(term(k) == value(evidence.basis[i][k]) * value(evidence.basis[j][k]));
    }
    crate::reals::lemma_sum_equal(evidence.pairs() as nat, f, term);
}

/// The right hand side weights the contrast of a pair by how much more of it the
/// mode around its contrast takes than the one around the opposite.
pub proof fn law_the_right_hand_side_weights_contrast_by_mode<T>(
    m: Arithmetic<T>,
    value: spec_fn(T) -> real,
    e: Exponential,
    evidence: Evidence<T>,
    weights: Seq<T>,
    sigma: T,
    precision: real,
    j: int,
    pull: spec_fn(int) -> real,
    term: spec_fn(int) -> real,
)
    requires
        m.is_fittable(value, e, evidence, sigma),
        m.all_finite(weights),
        precision * (2 as real * value(sigma) * value(sigma)) == 1 as real,
        0 <= j < NUM_MONOMIALS,
        forall|k: int|
            0 <= k < evidence.pairs() ==> {
                let d = crate::reals::sum(
                    NUM_MONOMIALS as nat,
                    |i: int| value(weights[i]) * value(evidence.basis[i][k]),
                );
                let (c, order) = (value(evidence.contrast[k]), value(evidence.order[k]));
                let a = (1 as real + order) / 2 as real * (e.exp)(
                    -((d - c) * (d - c) * precision),
                );
                let b = (1 as real - order) / 2 as real * (e.exp)(
                    -((d + c) * (d + c) * precision),
                );
                #[trigger] pull(k) * (a + b) == a - b
            },
        forall|k: int|
            0 <= k < evidence.pairs() ==> #[trigger] term(k) == value(evidence.basis[j][k]) * value(
                evidence.contrast[k],
            ) * pull(k),
    ensures
        value(m.totals(evidence, weights, sigma).rhs[j]) == crate::reals::sum(
            evidence.pairs() as nat,
            term,
        ),
{
    lemma_totals_value(m, value, e, evidence, weights, sigma);
    lemma_precision_value(m, value, sigma, precision);
    let f = |k: int| m.drive(value, evidence, weights, sigma, j, k);
    assert forall|k: int| 0 <= k < evidence.pairs() implies #[trigger] f(k) == term(k) by {
        lemma_shares(m, value, evidence, k);
        lemma_pair_value(m, value, e, evidence, weights, sigma, k);
        let d = m.difference_of(value, evidence, weights, k);
        let g = |i: int| value(weights[i]) * value(evidence.basis[i][k]);
        assert(crate::reals::sum(NUM_MONOMIALS as nat, g) == d);
        let (c, order) = (value(evidence.contrast[k]), value(evidence.order[k]));
        assert((m.is_finite)(evidence.order[k]));
        let (p, q) = (value(m.upper_share(evidence, k)), value(m.lower_share(evidence, k)));
        assert(p == (1 as real + order) / 2 as real && q == (1 as real - order) / 2 as real);
        assert(d - -c == d + c);
        let (u, v) = (match_of(e, precision, c, d), match_of(e, precision, -c, d));
        lemma_exp(e, -((d - c) * (d - c) * precision));
        lemma_exp(e, -((d - -c) * (d - -c) * precision));
        lemma_positive_mixture(p, q, u, v);
        let r = value(m.pull(evidence, weights, sigma, k));
        assert(pull(k) * (p * u + q * v) == p * u - q * v);
        crate::reals::lemma_cancel(r, pull(k), p * u + q * v);
        assert(term(k) == value(evidence.basis[j][k]) * value(evidence.contrast[k]) * pull(k));
    }
    crate::reals::lemma_sum_equal(evidence.pairs() as nat, f, term);
}

/// A mixture of positive numbers is positive.
proof fn lemma_positive_mixture(p: real, q: real, u: real, v: real)
    requires
        0 as real <= p,
        0 as real <= q,
        p + q == 1 as real,
        u > 0 as real,
        v > 0 as real,
    ensures
        p * u + q * v > 0 as real,
{
    crate::reals::lemma_share(u, 0 as real, p);
    crate::reals::lemma_share(v, 0 as real, q);
    assert(0 as real * u == 0 as real && 0 as real * v == 0 as real);
    if p > 0 as real {
        crate::reals::lemma_multiple(u, 0 as real, p);
    } else {
        crate::reals::lemma_multiple(v, 0 as real, q);
    }
}

/// Passes add up: the totals over some pairs are those over the first of them plus
/// those over the rest.
pub proof fn law_passes_add_up<T>(
    m: Arithmetic<T>,
    value: spec_fn(T) -> real,
    e: Exponential,
    evidence: Evidence<T>,
    weights: Seq<T>,
    sigma: T,
    start: int,
    first: nat,
    rest: nat,
)
    requires
        m.is_fittable(value, e, evidence, sigma),
        m.all_finite(weights),
        0 <= start,
        start + first + rest <= evidence.pairs(),
    ensures
        ({
            let whole = m.pass(evidence, weights, sigma, start, first + rest);
            let a = m.pass(evidence, weights, sigma, start, first);
            let b = m.pass(evidence, weights, sigma, start + first, rest);
            &&& value(whole.energy) == value(a.energy) + value(b.energy)
            &&& forall|j: int|
                0 <= j < NUM_MONOMIALS ==> value(#[trigger] whole.rhs[j]) == value(a.rhs[j])
                    + value(b.rhs[j])
        }),
{
    let middle = start + first;
    lemma_energy_value(m, value, e, evidence, weights, sigma, start, first + rest);
    lemma_energy_value(m, value, e, evidence, weights, sigma, start, first);
    lemma_energy_value(m, value, e, evidence, weights, sigma, middle, rest);
    let f = |i: int| m.log_likelihood(value, e, evidence, weights, sigma, start + i);
    let g = |i: int| m.log_likelihood(value, e, evidence, weights, sigma, middle + i);
    assert forall|i: int| 0 <= i < rest implies #[trigger] g(i) == f(first + i) by {
        assert(start + (first + i) == middle + i);
    }
    crate::reals::lemma_sum_parts(first, rest, f, g);
    let whole = m.pass(evidence, weights, sigma, start, first + rest);
    let a = m.pass(evidence, weights, sigma, start, first);
    let b = m.pass(evidence, weights, sigma, middle, rest);
    assert forall|j: int| 0 <= j < NUM_MONOMIALS implies value(#[trigger] whole.rhs[j]) == value(
        a.rhs[j],
    ) + value(b.rhs[j]) by {
        lemma_rhs_value(m, value, e, evidence, weights, sigma, start, first + rest, j);
        lemma_rhs_value(m, value, e, evidence, weights, sigma, start, first, j);
        lemma_rhs_value(m, value, e, evidence, weights, sigma, middle, rest, j);
        let p = |i: int| m.drive(value, evidence, weights, sigma, j, start + i);
        let q = |i: int| m.drive(value, evidence, weights, sigma, j, middle + i);
        assert forall|i: int| 0 <= i < rest implies #[trigger] q(i) == p(first + i) by {
            assert(start + (first + i) == middle + i);
        }
        crate::reals::lemma_sum_parts(first, rest, p, q);
    }
}

} // verus!
