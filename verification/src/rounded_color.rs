//! What rounding does to CIELAB.
use crate::scalar::Arithmetic;
use vstd::prelude::*;

verus! {

/// The roots that the color conversion takes, before rounding.
pub struct Roots {
    /// The cube root.
    pub cube: spec_fn(real) -> real,
    /// The power of `12 / 5`.
    pub curve: spec_fn(real) -> real,
}

impl Roots {
    /// Whether these are the roots.
    pub open spec fn wf(self) -> bool {
        &&& forall|t: real| crate::reals::cubed(#[trigger] (self.cube)(t)) == t
        &&& forall|t: real|
            0 as real <= t ==> 0 as real <= #[trigger] (self.curve)(t) && crate::reals::fifth_power(
                (self.curve)(t),
            ) == crate::reals::twelfth_power(t)
    }
}

impl<T> Arithmetic<T> {
    /// Whether cube roots and powers of `24 / 10` come close to those of the real
    /// numbers. Double precision has this with a few times `2^-53`.
    pub open spec fn takes_roots(
        self,
        value: spec_fn(T) -> real,
        error: real,
        roots: Roots,
    ) -> bool {
        &&& roots.wf()
        &&& forall|a: T|
            (self.is_finite)(a) && 0 as real <= value(a) <= 8 as real ==> self.approximates(
                value,
                error,
                #[trigger] (self.cube_root)(a),
                (roots.cube)(value(a)),
            )
        &&& forall|a: T|
            (self.is_finite)(a) && 0 as real <= value(a) <= 2 as real ==> self.approximates(
                value,
                error,
                #[trigger] (self.raised)(a, self.ratio(24, 10)),
                (roots.curve)(value(a)),
            )
    }
}

/// A quotient of integers comes close to it.
proof fn lemma_ratio<T>(
    m: Arithmetic<T>,
    value: spec_fn(T) -> real,
    error: real,
    n: u64,
    d: u64,
    quotient: real,
    scale: real,
)
    requires
        m.is_accurate(value, error),
        n <= u32::MAX,
        0 < d <= u32::MAX,
        quotient * d as real == n as real,
        0 as real <= quotient,
        1 as real + quotient <= scale <= 1_000 as real,
    ensures
        (m.is_finite)(m.ratio(n, d)),
        crate::accuracy::close(value(m.ratio(n, d)), quotient, error * scale),
{
    let (a, b) = ((m.from_int)(n), (m.from_int)(d));
    assert(value(a) == n as real && value(b) == d as real);
    assert((m.is_finite)(a) && (m.is_finite)(b));
    crate::rounding::lemma_over(m, value, error, a, b, quotient, scale);
}

/// A quotient of numbers that are close to others comes close to theirs.
proof fn lemma_divided<T>(
    m: Arithmetic<T>,
    value: spec_fn(T) -> real,
    error: real,
    a: T,
    b: T,
    quotient: real,
    divisor: real,
    alpha: real,
    beta: real,
)
    requires
        m.is_accurate(value, error),
        (m.is_finite)(a),
        (m.is_finite)(b),
        crate::accuracy::close(value(a), quotient * divisor, alpha),
        crate::accuracy::close(value(b), divisor, beta),
        -(4 as real) <= quotient <= 4 as real,
        divisor * (10 as real) >= 9 as real,
        0 as real <= alpha * (100 as real) <= 1 as real,
        0 as real <= beta * (100 as real) <= 1 as real,
    ensures
        (m.is_finite)((m.over)(a, b)),
        crate::accuracy::close(
            value((m.over)(a, b)),
            quotient,
            2 as real * alpha + 8 as real * beta + 6 as real * error,
        ),
{
    let (x, y) = (value(a), value(b));
    let q = x / y;
    assert(q * y == x) by (nonlinear_arith)
        requires
            q == x / y,
            y > 0 as real,
    ;
    let gap = q - quotient;
    crate::accuracy::lemma_bounded_product(quotient, y - divisor, 4 as real, beta);
    assert(gap * y == q * y - quotient * y) by (nonlinear_arith)
        requires
            gap == q - quotient,
    ;
    assert(quotient * (y - divisor) == quotient * y - quotient * divisor) by (nonlinear_arith);
    let slack = alpha + 4 as real * beta;
    assert(-slack <= gap * y <= slack);
    let half = 1 as real / 2 as real;
    if gap >= 0 as real {
        crate::reals::lemma_share(gap, half, y);
        assert(gap * half == gap / 2 as real);
    } else {
        crate::reals::lemma_share(-gap, half, y);
        assert(-gap * half == -gap / 2 as real);
        assert(-gap * y == -(gap * y)) by (nonlinear_arith);
    }
    crate::rounding::lemma_over(m, value, error, a, b, q, 6 as real);
}

/// A weighted channel comes close to the exact one.
proof fn lemma_weight<T>(
    m: Arithmetic<T>,
    value: spec_fn(T) -> real,
    error: real,
    n: u64,
    c: T,
    weight: real,
)
    requires
        m.is_accurate(value, error),
        n <= 1_000_000,
        weight * (1_000_000 as real) == n as real,
        (m.is_finite)(c),
        -(3 as real) <= value(c) <= 3 as real,
    ensures
        (m.is_finite)((m.times)(m.ratio(n, 1_000_000), c)),
        crate::accuracy::close(
            value((m.times)(m.ratio(n, 1_000_000), c)),
            weight * value(c),
            11 as real * error,
        ),
        -(3 as real) <= weight * value(c) <= 3 as real,
{
    let (r, v) = (m.ratio(n, 1_000_000), value(c));
    lemma_ratio(m, value, error, n, 1_000_000, weight, 2 as real);
    let w = value(r);
    crate::accuracy::lemma_bounded_product(weight, v, 1 as real, 3 as real);
    crate::accuracy::lemma_bounded_product(w - weight, v, error * (2 as real), 3 as real);
    assert((w - weight) * v == w * v - weight * v) by (nonlinear_arith);
    crate::rounding::lemma_times(m, value, error, r, c, 5 as real);
}

/// A weighted sum comes close to the exact one.
proof fn lemma_weighted<T>(
    m: Arithmetic<T>,
    value: spec_fn(T) -> real,
    error: real,
    weights: (u64, u64, u64),
    r: T,
    g: T,
    b: T,
    u: real,
    v: real,
    w: real,
)
    requires
        m.is_accurate(value, error),
        weights.0 <= 1_000_000 && weights.1 <= 1_000_000 && weights.2 <= 1_000_000,
        u * (1_000_000 as real) == weights.0 as real,
        v * (1_000_000 as real) == weights.1 as real,
        w * (1_000_000 as real) == weights.2 as real,
        (m.is_finite)(r) && (m.is_finite)(g) && (m.is_finite)(b),
        -(3 as real) <= value(r) <= 3 as real,
        -(3 as real) <= value(g) <= 3 as real,
        -(3 as real) <= value(b) <= 3 as real,
    ensures
        (m.is_finite)(m.weighted(weights, r, g, b)),
        crate::accuracy::close(
            value(m.weighted(weights, r, g, b)),
            u * value(r) + v * value(g) + w * value(b),
            52 as real * error,
        ),
{
    lemma_weight(m, value, error, weights.0, r, u);
    lemma_weight(m, value, error, weights.1, g, v);
    lemma_weight(m, value, error, weights.2, b, w);
    let p = (m.times)(m.ratio(weights.0, 1_000_000), r);
    let q = (m.times)(m.ratio(weights.1, 1_000_000), g);
    let s = (m.times)(m.ratio(weights.2, 1_000_000), b);
    crate::rounding::lemma_plus(m, value, error, p, q, 8 as real);
    crate::rounding::lemma_plus(m, value, error, (m.plus)(p, q), s, 11 as real);
}

/// Numbers are at most nine times as far apart as their cubes.
proof fn lemma_cube_gap(a: real, b: real, distance: real)
    requires
        a * (5 as real) >= 1 as real,
        b * (5 as real) >= 1 as real,
        0 as real <= distance,
        crate::reals::cubed(a) <= crate::reals::cubed(b) + distance,
    ensures
        a <= b + 9 as real * distance,
{
    if a > b {
        let fifth = 1 as real / 5 as real;
        crate::reals::lemma_products(fifth, a, fifth, a);
        crate::reals::lemma_products(fifth, a, fifth, b);
        crate::reals::lemma_products(fifth, b, fifth, b);
        assert(fifth * fifth == 1 as real / 25 as real);
        let (gap, rest) = (a - b, a * a + a * b + b * b);
        let ninth = 1 as real / 9 as real;
        crate::reals::lemma_share(gap, ninth, rest);
        assert(gap * rest == a * a * a - b * b * b) by (nonlinear_arith)
            requires
                gap == a - b,
                rest == a * a + a * b + b * b,
        ;
        assert(gap * ninth == gap / 9 as real);
    }
}

/// The line of the CIELAB transfer function, before rounding.
pub open spec fn line(v: real) -> real {
    (v * (24_389 as real / 27 as real) + 16 as real) / 116 as real
}

/// The line comes close to the exact one.
proof fn lemma_line<T>(m: Arithmetic<T>, value: spec_fn(T) -> real, error: real, t: T)
    requires
        m.is_accurate(value, error),
        (m.is_finite)(t),
        -(1 as real) <= value(t) * (10 as real),
        !(m.less)(m.ratio(216, 24_389), t),
    ensures
        value(t) <= 216 as real / 24_389 as real + 2 as real * error,
        (m.is_finite)(m.lab_curve(t)),
        crate::accuracy::close(value(m.lab_curve(t)), line(value(t)), 5 as real * error),
{
    let (edge, kappa) = (216 as real / 24_389 as real, 24_389 as real / 27 as real);
    lemma_ratio(m, value, error, 216, 24_389, edge, 2 as real);
    lemma_ratio(m, value, error, 24_389, 27, kappa, 905 as real);
    let (k, v) = (m.ratio(24_389, 27), value(t));
    let w = value(k);
    let tenth = 1 as real / 10 as real;
    crate::accuracy::lemma_bounded_product(w, v, 904 as real, tenth);
    crate::accuracy::lemma_bounded_product(w - kappa, v, error * (905 as real), tenth);
    assert((w - kappa) * v == w * v - kappa * v) by (nonlinear_arith);
    assert((error * (905 as real)) * tenth <= 91 as real * error);
    crate::rounding::lemma_times(m, value, error, k, t, 92 as real);
    let (product, sixteen, whole) = ((m.times)(k, t), (m.from_int)(16), (m.from_int)(116));
    assert(value(sixteen) == 16 as real && value(whole) == 116 as real);
    assert((m.is_finite)(sixteen) && (m.is_finite)(whole));
    assert(kappa * v == v * kappa) by (nonlinear_arith);
    crate::rounding::lemma_plus(m, value, error, product, sixteen, 110 as real);
    let sum = (m.plus)(product, sixteen);
    let q = value(sum) / 116 as real;
    assert(q * (116 as real) == value(sum));
    crate::rounding::lemma_over(m, value, error, sum, whole, q, 2 as real);
}

/// The cube root comes close to the exact one.
proof fn lemma_root<T>(
    m: Arithmetic<T>,
    value: spec_fn(T) -> real,
    error: real,
    roots: Roots,
    t: T,
) -> (root: real)
    requires
        m.is_accurate(value, error),
        m.takes_roots(value, error, roots),
        (m.is_finite)(t),
        value(t) <= 4 as real,
        (m.less)(m.ratio(216, 24_389), t),
    ensures
        value(t) >= 216 as real / 24_389 as real - 2 as real * error,
        (m.is_finite)(m.lab_curve(t)),
        crate::accuracy::close(value(m.lab_curve(t)), root, 3 as real * error),
        root * (5 as real) >= 1 as real,
        root <= 2 as real,
        crate::reals::cubed(root) == value(t),
{
    let edge = 216 as real / 24_389 as real;
    lemma_ratio(m, value, error, 216, 24_389, edge, 2 as real);
    let v = value(t);
    let root = (roots.cube)(v);
    assert(crate::reals::cubed(root) == v);
    crate::reals::lemma_cube_sign(root);
    let (fifth, two) = (1 as real / 5 as real, 2 as real);
    assert(crate::reals::cubed(fifth) == 1 as real / 125 as real);
    assert(crate::reals::cubed(two) == 8 as real);
    crate::reals::lemma_cube_order(fifth, root);
    crate::reals::lemma_cube_order(root, two);
    assert(m.approximates(value, error, (m.cube_root)(t), root));
    crate::reals::lemma_share(error, 1 as real + root, 3 as real);
    root
}

/// The CIELAB transfer function of a number that is hardly larger is hardly
/// larger.
proof fn lemma_curve_fall<T>(
    m: Arithmetic<T>,
    value: spec_fn(T) -> real,
    error: real,
    roots: Roots,
    s: T,
    t: T,
)
    requires
        m.is_accurate(value, error),
        m.takes_roots(value, error, roots),
        (m.is_finite)(s),
        (m.is_finite)(t),
        -(1 as real) <= value(s) * (10 as real) <= 40 as real,
        -(1 as real) <= value(t) * (10 as real) <= 40 as real,
        value(s) <= value(t) + 500 as real * error,
    ensures
        (m.is_finite)(m.lab_curve(s)),
        (m.is_finite)(m.lab_curve(t)),
        value(m.lab_curve(s)) <= value(m.lab_curve(t)) + 9_000 as real * error,
        -(1 as real) <= value(m.lab_curve(s)) <= 3 as real,
        -(1 as real) <= value(m.lab_curve(t)) <= 3 as real,
{
    let knee = m.ratio(216, 24_389);
    let six = 6 as real / 29 as real;
    assert(crate::reals::cubed(six) == 216 as real / 24_389 as real) by (nonlinear_arith)
        requires
            six == 6 as real / 29 as real,
    ;
    if (m.less)(knee, s) {
        let a = lemma_root(m, value, error, roots, s);
        if (m.less)(knee, t) {
            let b = lemma_root(m, value, error, roots, t);
            lemma_cube_gap(a, b, 500 as real * error);
        } else {
            lemma_line(m, value, error, t);
            lemma_cube_gap(a, six, 502 as real * error);
        }
    } else {
        lemma_line(m, value, error, s);
        if (m.less)(knee, t) {
            let b = lemma_root(m, value, error, roots, t);
            lemma_cube_gap(six, b, 2 as real * error);
        } else {
            lemma_line(m, value, error, t);
        }
    }
}

/// Growths multiply to little more than their sum.
proof fn lemma_growth(u: real, v: real)
    requires
        0 as real <= u,
        u * (1_000 as real) <= 12 as real,
        0 as real <= v,
    ensures
        1 as real + u + v <= (1 as real + u) * (1 as real + v),
        (1 as real + u) * (1 as real + v) <= 1 as real + u + v + v * (12 as real / 1_000 as real),
{
    let most = 12 as real / 1_000 as real;
    crate::reals::lemma_share(v, u, most);
    crate::reals::lemma_products(0 as real, u, 0 as real, v);
    assert((1 as real + u) * (1 as real + v) == 1 as real + u + v + u * v) by (nonlinear_arith);
    assert(0 as real * (0 as real) == 0 as real);
}

/// The twelfth power of what is hardly larger than one.
proof fn lemma_twelfth_growth(d: real)
    requires
        0 as real <= d,
        d * (1_000 as real) <= 1 as real,
    ensures
        crate::reals::twelfth_power(1 as real + d) <= 1 as real + 15 as real * d,
{
    let y = 1 as real + d;
    lemma_growth(d, d);
    let a = 1 as real + d * (2_012 as real / 1_000 as real);
    crate::reals::lemma_products(y * y, a, y, y);
    lemma_growth(d * (2_012 as real / 1_000 as real), d);
    let b = 1 as real + d * (3_024 as real / 1_000 as real);
    crate::reals::lemma_products(y * y * y, b, y, y);
    lemma_growth(d * (3_024 as real / 1_000 as real), d);
    let e = d * (4_036 as real / 1_000 as real);
    let (c, four) = (1 as real + e, y * y * y * y);
    crate::reals::lemma_products(four, c, four, c);
    lemma_growth(e, e);
    let f = d * (82 as real / 10 as real);
    crate::reals::lemma_products(four * four, 1 as real + f, four, c);
    lemma_growth(f, e);
}

/// The fifth power of what is hardly larger than one.
proof fn lemma_fifth_growth(d: real)
    requires
        0 as real <= d,
        d * (1_000 as real) <= 1 as real,
    ensures
        crate::reals::fifth_power(1 as real + 3 as real * d) >= 1 as real + 15 as real * d,
{
    let u = 3 as real * d;
    let z = 1 as real + u;
    lemma_growth(u, u);
    crate::reals::lemma_products(1 as real + 2 as real * u, z * z, z, z);
    lemma_growth(u, 2 as real * u);
    crate::reals::lemma_commute(1 as real + 2 as real * u, z);
    crate::reals::lemma_products(1 as real + 3 as real * u, z * z * z, z, z);
    lemma_growth(u, 3 as real * u);
    crate::reals::lemma_commute(1 as real + 3 as real * u, z);
    crate::reals::lemma_products(1 as real + 4 as real * u, z * z * z * z, z, z);
    lemma_growth(u, 4 as real * u);
    crate::reals::lemma_commute(1 as real + 4 as real * u, z);
}

/// The curve of what is hardly larger than one is hardly larger than one.
proof fn lemma_curve_top(roots: Roots, x: real, d: real)
    requires
        roots.wf(),
        0 as real <= x <= 1 as real + d,
        0 as real <= d,
        d * (1_000 as real) <= 1 as real,
    ensures
        0 as real <= (roots.curve)(x) <= 1 as real + 3 as real * d,
{
    let c = (roots.curve)(x);
    assert(crate::reals::fifth_power(c) == crate::reals::twelfth_power(x));
    crate::reals::lemma_twelfth_order(x, 1 as real + d);
    lemma_twelfth_growth(d);
    lemma_fifth_growth(d);
    crate::reals::lemma_fifth_order(c, 1 as real + 3 as real * d);
}

/// The linear part of the sRGB transfer function comes close to the exact one.
proof fn lemma_linear_part<T>(m: Arithmetic<T>, value: spec_fn(T) -> real, error: real, c: T)
    requires
        m.is_accurate(value, error),
        (m.is_finite)(c),
        0 as real <= value(c) <= 1 as real,
        (m.at_most)(c, m.ratio(4_045, 100_000)),
    ensures
        value(c) <= 4_045 as real / 100_000 as real + 2 as real * error,
        (m.is_finite)(m.linear(c)),
        crate::accuracy::close(
            value(m.linear(c)),
            value(c) / (1_292 as real / 100 as real),
            118 as real * error,
        ),
{
    let slope = 1_292 as real / 100 as real;
    lemma_ratio(m, value, error, 4_045, 100_000, 4_045 as real / 100_000 as real, 2 as real);
    lemma_ratio(m, value, error, 1_292, 100, slope, 14 as real);
    let q = value(c) / slope;
    assert(q * slope == value(c));
    lemma_divided(
        m,
        value,
        error,
        c,
        m.ratio(1_292, 100),
        q,
        slope,
        0 as real,
        14 as real * error,
    );
}

impl<T> Arithmetic<T> {
    /// What the curved part of the sRGB transfer function is a power of.
    pub open spec fn curve_base(self, channel: T) -> T {
        (self.over)((self.plus)(channel, self.ratio(55, 1_000)), self.ratio(1_055, 1_000))
    }
}

/// The curved part of the sRGB transfer function comes close to the exact one.
proof fn lemma_curved_part<T>(
    m: Arithmetic<T>,
    value: spec_fn(T) -> real,
    error: real,
    roots: Roots,
    c: T,
)
    requires
        m.is_accurate(value, error),
        m.takes_roots(value, error, roots),
        (m.is_finite)(c),
        0 as real <= value(c) <= 1 as real,
        !(m.at_most)(c, m.ratio(4_045, 100_000)),
    ensures
        (m.is_finite)(m.curve_base(c)),
        value(m.curve_base(c)) * (100_000_000 as real) >= 9_047_391 as real,
        (m.is_finite)(m.linear(c)),
        crate::accuracy::close(
            value(m.linear(c)),
            (roots.curve)(value(m.curve_base(c))),
            3 as real * error,
        ),
        0 as real <= (roots.curve)(value(m.curve_base(c))) <= 1 as real + 120 as real * error,
{
    let (knee, offset, whole) = (
        4_045 as real / 100_000 as real,
        55 as real / 1_000 as real,
        1_055 as real / 1_000 as real,
    );
    lemma_ratio(m, value, error, 4_045, 100_000, knee, 2 as real);
    lemma_ratio(m, value, error, 55, 1_000, offset, 2 as real);
    lemma_ratio(m, value, error, 1_055, 1_000, whole, 3 as real);
    let o = m.ratio(55, 1_000);
    crate::rounding::lemma_plus(m, value, error, c, o, 3 as real);
    let sum = (m.plus)(c, o);
    let q = (value(c) + offset) / whole;
    assert(q * whole == value(c) + offset);
    lemma_divided(
        m,
        value,
        error,
        sum,
        m.ratio(1_055, 1_000),
        q,
        whole,
        5 as real * error,
        3 as real * error,
    );
    let base = m.curve_base(c);
    assert(crate::accuracy::close(value(base), q, 40 as real * error));
    lemma_curve_top(roots, value(base), 40 as real * error);
    let light = (roots.curve)(value(base));
    assert(m.approximates(value, error, (m.raised)(base, m.ratio(24, 10)), light));
    crate::reals::lemma_share(error, 1 as real + light, 3 as real);
}

/// Linear light hardly leaves the unit interval.
proof fn lemma_light<T>(
    m: Arithmetic<T>,
    value: spec_fn(T) -> real,
    error: real,
    roots: Roots,
    c: T,
)
    requires
        m.is_accurate(value, error),
        m.takes_roots(value, error, roots),
        (m.is_finite)(c),
        0 as real <= value(c) <= 1 as real,
    ensures
        (m.is_finite)(m.linear(c)),
        -(118 as real * error) <= value(m.linear(c)) <= 1 as real + 123 as real * error,
{
    if (m.at_most)(c, m.ratio(4_045, 100_000)) {
        lemma_linear_part(m, value, error, c);
    } else {
        lemma_curved_part(m, value, error, roots, c);
    }
}

/// Moving onto the unit interval.
proof fn lemma_clamped<T>(m: Arithmetic<T>, value: spec_fn(T) -> real, error: real, c: T)
    requires
        m.is_accurate(value, error),
        (m.is_finite)(c),
    ensures
        (m.is_finite)(m.clamp(c, m.zero(), m.one())),
        0 as real <= value(m.clamp(c, m.zero(), m.one())) <= 1 as real,
        value(c) < 0 as real ==> value(m.clamp(c, m.zero(), m.one())) == 0 as real,
        0 as real <= value(c) <= 1 as real ==> value(m.clamp(c, m.zero(), m.one())) == value(c),
        value(c) > 1 as real ==> value(m.clamp(c, m.zero(), m.one())) == 1 as real,
{
    assert(value((m.from_int)(0)) == 0 as real && value((m.from_int)(1)) == 1 as real);
    assert((m.is_finite)(m.zero()) && (m.is_finite)(m.one()));
}

/// Dividing by the white point gives back the light of a gray, nearly.
proof fn lemma_white_point<T>(
    m: Arithmetic<T>,
    value: spec_fn(T) -> real,
    error: real,
    weights: (u64, u64, u64),
    white: T,
    light: T,
    u: real,
    v: real,
    w: real,
)
    requires
        m.is_accurate(value, error),
        weights.0 <= 1_000_000 && weights.1 <= 1_000_000 && weights.2 <= 1_000_000,
        u * (1_000_000 as real) == weights.0 as real,
        v * (1_000_000 as real) == weights.1 as real,
        w * (1_000_000 as real) == weights.2 as real,
        (u + v + w) * (10 as real) >= 9 as real,
        (m.is_finite)(white),
        crate::accuracy::close(value(white), u + v + w, 3 as real * error),
        (m.is_finite)(light),
        -(3 as real) <= value(light) <= 3 as real,
    ensures
        (m.is_finite)((m.over)(m.weighted(weights, light, light, light), white)),
        crate::accuracy::close(
            value((m.over)(m.weighted(weights, light, light, light), white)),
            value(light),
            134 as real * error,
        ),
{
    lemma_weighted(m, value, error, weights, light, light, light, u, v, w);
    let l = value(light);
    crate::reals::lemma_shares(u, v, w, l);
    crate::reals::lemma_commute(u + v + w, l);
    lemma_divided(
        m,
        value,
        error,
        m.weighted(weights, light, light, light),
        white,
        l,
        u + v + w,
        52 as real * error,
        3 as real * error,
    );
}

/// A multiple of the difference of two numbers that are hardly apart.
proof fn lemma_chroma<T>(
    m: Arithmetic<T>,
    value: spec_fn(T) -> real,
    error: real,
    a: T,
    b: T,
    factor: u64,
)
    requires
        m.is_accurate(value, error),
        (m.is_finite)(a),
        (m.is_finite)(b),
        crate::accuracy::close(value(a), value(b), 9_000 as real * error),
        factor <= 500,
    ensures
        (m.is_finite)((m.times)((m.from_int)(factor), (m.minus)(a, b))),
        crate::accuracy::close(
            value((m.times)((m.from_int)(factor), (m.minus)(a, b))),
            0 as real,
            5_000_000 as real * error,
        ),
{
    let (n, d) = ((m.from_int)(factor), (m.minus)(a, b));
    assert(value(n) == factor as real && (m.is_finite)(n));
    crate::rounding::lemma_minus(m, value, error, a, b, 2 as real);
    crate::accuracy::lemma_bounded_product(
        value(n),
        value(d),
        500 as real,
        9_002 as real * error,
    );
    crate::rounding::lemma_times(m, value, error, n, d, 2 as real);
}

/// Grays are neutral in CIELAB up to rounding: both of their color coordinates
/// are within five million errors of zero.
pub proof fn law_rounded_grays_are_nearly_neutral<T>(
    m: Arithmetic<T>,
    value: spec_fn(T) -> real,
    error: real,
    roots: Roots,
    gray: T,
)
    requires
        m.is_accurate(value, error),
        m.takes_roots(value, error, roots),
        (m.is_finite)(gray),
    ensures
        crate::accuracy::close(
            value(m.lab(gray, gray, gray).1),
            0 as real,
            5_000_000 as real * error,
        ),
        crate::accuracy::close(
            value(m.lab(gray, gray, gray).2),
            0 as real,
            5_000_000 as real * error,
        ),
{
    let million = 1_000_000 as real;
    let clamped = m.clamp(gray, m.zero(), m.one());
    lemma_clamped(m, value, error, gray);
    lemma_light(m, value, error, roots, clamped);
    let light = m.linear(clamped);
    let (wx, wz) = (m.ratio(950_456, 1_000_000), m.ratio(1_088_754, 1_000_000));
    lemma_ratio(m, value, error, 950_456, 1_000_000, 950_456 as real / million, 3 as real);
    lemma_ratio(m, value, error, 1_088_754, 1_000_000, 1_088_754 as real / million, 3 as real);
    assert(value((m.from_int)(1)) == 1 as real && (m.is_finite)(m.one()));
    lemma_white_point(
        m,
        value,
        error,
        (412_453, 357_580, 180_423),
        wx,
        light,
        412_453 as real / million,
        357_580 as real / million,
        180_423 as real / million,
    );
    lemma_white_point(
        m,
        value,
        error,
        (212_671, 715_160, 72_169),
        m.one(),
        light,
        212_671 as real / million,
        715_160 as real / million,
        72_169 as real / million,
    );
    lemma_white_point(
        m,
        value,
        error,
        (19_334, 119_193, 950_227),
        wz,
        light,
        19_334 as real / million,
        119_193 as real / million,
        950_227 as real / million,
    );
    let x = (m.over)(m.weighted((412_453, 357_580, 180_423), light, light, light), wx);
    let y = (m.over)(m.weighted((212_671, 715_160, 72_169), light, light, light), m.one());
    let z = (m.over)(m.weighted((19_334, 119_193, 950_227), light, light, light), wz);
    lemma_curve_fall(m, value, error, roots, x, y);
    lemma_curve_fall(m, value, error, roots, y, x);
    lemma_curve_fall(m, value, error, roots, y, z);
    lemma_curve_fall(m, value, error, roots, z, y);
    lemma_chroma(m, value, error, m.lab_curve(x), m.lab_curve(y), 500);
    lemma_chroma(m, value, error, m.lab_curve(y), m.lab_curve(z), 200);
}

impl<T> Arithmetic<T> {
    /// Powers of `24 / 10` keep the order of what they are powers of, as
    /// correctly rounded powers do.
    pub open spec fn keeps_powers(self) -> bool {
        forall|a: T, b: T|
            #![trigger (self.raised)(a, self.ratio(24, 10)), (self.raised)(b, self.ratio(24, 10))]
            (self.at_most)(self.zero(), a) && (self.at_most)(a, b) ==> (self.at_most)(
                (self.raised)(a, self.ratio(24, 10)),
                (self.raised)(b, self.ratio(24, 10)),
            )
    }
}

/// The curved part of the sRGB transfer function keeps the order.
proof fn lemma_curved_order<T>(
    m: Arithmetic<T>,
    value: spec_fn(T) -> real,
    error: real,
    roots: Roots,
    a: T,
    b: T,
)
    requires
        m.is_accurate(value, error),
        m.takes_roots(value, error, roots),
        m.keeps_order(),
        m.keeps_powers(),
        (m.is_finite)(a),
        (m.is_finite)(b),
        0 as real <= value(a) <= value(b) <= 1 as real,
        !(m.at_most)(a, m.ratio(4_045, 100_000)),
        !(m.at_most)(b, m.ratio(4_045, 100_000)),
    ensures
        value(m.linear(a)) <= value(m.linear(b)),
{
    lemma_curved_part(m, value, error, roots, a);
    lemma_curved_part(m, value, error, roots, b);
    lemma_ratio(m, value, error, 55, 1_000, 55 as real / 1_000 as real, 2 as real);
    lemma_ratio(m, value, error, 1_055, 1_000, 1_055 as real / 1_000 as real, 3 as real);
    let (offset, whole, e) = (m.ratio(55, 1_000), m.ratio(1_055, 1_000), m.ratio(24, 10));
    assert(value((m.from_int)(0)) == 0 as real && (m.is_finite)(m.zero()));
    assert((m.at_most)(a, b) && (m.at_most)(offset, offset));
    assert((m.at_most)((m.plus)(a, offset), (m.plus)(b, offset)));
    assert(m.is_positive(whole));
    let (p, q) = (m.curve_base(a), m.curve_base(b));
    assert((m.at_most)(p, q));
    assert((m.at_most)(m.zero(), p));
    assert((m.at_most)((m.raised)(p, e), (m.raised)(q, e)));
}

/// Linear light hardly falls as the channel rises.
proof fn lemma_light_fall<T>(
    m: Arithmetic<T>,
    value: spec_fn(T) -> real,
    error: real,
    roots: Roots,
    a: T,
    b: T,
)
    requires
        m.is_accurate(value, error),
        m.takes_roots(value, error, roots),
        m.keeps_order(),
        m.keeps_powers(),
        (m.is_finite)(a),
        (m.is_finite)(b),
        0 as real <= value(a) <= value(b) <= 1 as real,
    ensures
        value(m.linear(a)) <= value(m.linear(b)) + 236 as real * error,
{
    let knee = m.ratio(4_045, 100_000);
    lemma_ratio(m, value, error, 4_045, 100_000, 4_045 as real / 100_000 as real, 2 as real);
    if (m.at_most)(b, knee) {
        assert((m.at_most)(a, knee));
        lemma_linear_part(m, value, error, a);
        lemma_linear_part(m, value, error, b);
    } else if (m.at_most)(a, knee) {
        lemma_linear_part(m, value, error, a);
        lemma_curved_part(m, value, error, roots, b);
        let (x, y) = (809 as real / 258_400 as real, 9_047_391 as real / 100_000_000 as real);
        let base = value(m.curve_base(b));
        let light = (roots.curve)(base);
        assert(crate::reals::fifth_power(light) == crate::reals::twelfth_power(base));
        crate::lightness::lemma_parts_meet();
        crate::reals::lemma_twelfth_order(y, base);
        crate::reals::lemma_fifth_order(x, light);
    } else {
        lemma_curved_order(m, value, error, roots, a, b);
    }
}

impl<T> Arithmetic<T> {
    /// The luminance of linear light, against that of white.
    pub open spec fn luminance(self, r: T, g: T, b: T) -> T {
        (self.over)(self.weighted((212_671, 715_160, 72_169), r, g, b), self.one())
    }
}

/// Luminance, before rounding.
pub open spec fn exact_luminance(r: real, g: real, b: real) -> real {
    (212_671 as real / 1_000_000 as real) * r + (715_160 as real / 1_000_000 as real) * g + (
    72_169 as real / 1_000_000 as real) * b
}

/// Luminance comes close to the exact one.
proof fn lemma_luminance<T>(
    m: Arithmetic<T>,
    value: spec_fn(T) -> real,
    error: real,
    r: T,
    g: T,
    b: T,
)
    requires
        m.is_accurate(value, error),
        (m.is_finite)(r) && (m.is_finite)(g) && (m.is_finite)(b),
        -(3 as real) <= value(r) <= 3 as real,
        -(3 as real) <= value(g) <= 3 as real,
        -(3 as real) <= value(b) <= 3 as real,
    ensures
        (m.is_finite)(m.luminance(r, g, b)),
        crate::accuracy::close(
            value(m.luminance(r, g, b)),
            exact_luminance(value(r), value(g), value(b)),
            110 as real * error,
        ),
{
    let million = 1_000_000 as real;
    let weights = (212_671u64, 715_160u64, 72_169u64);
    assert(value((m.from_int)(1)) == 1 as real && (m.is_finite)(m.one()));
    lemma_weighted(
        m,
        value,
        error,
        weights,
        r,
        g,
        b,
        212_671 as real / million,
        715_160 as real / million,
        72_169 as real / million,
    );
    let exact = exact_luminance(value(r), value(g), value(b));
    assert(exact * (1 as real) == exact);
    lemma_divided(
        m,
        value,
        error,
        m.weighted(weights, r, g, b),
        m.one(),
        exact,
        1 as real,
        52 as real * error,
        0 as real,
    );
}

/// The CIELAB transfer function hardly leaves the range from `16 / 116` to one.
proof fn lemma_curve_range<T>(
    m: Arithmetic<T>,
    value: spec_fn(T) -> real,
    error: real,
    roots: Roots,
    t: T,
)
    requires
        m.is_accurate(value, error),
        m.takes_roots(value, error, roots),
        (m.is_finite)(t),
        -(300 as real * error) <= value(t) <= 1 as real + 300 as real * error,
    ensures
        (m.is_finite)(m.lab_curve(t)),
        16 as real / 116 as real - 2_800 as real * error <= value(m.lab_curve(t)),
        value(m.lab_curve(t)) <= 1 as real + 2_800 as real * error,
{
    if (m.less)(m.ratio(216, 24_389), t) {
        let root = lemma_root(m, value, error, roots, t);
        assert(crate::reals::cubed(1 as real) == 1 as real);
        lemma_cube_gap(root, 1 as real, 300 as real * error);
    } else {
        lemma_line(m, value, error, t);
    }
}

/// Lightness comes close to what the transfer function makes it.
proof fn lemma_lightness<T>(m: Arithmetic<T>, value: spec_fn(T) -> real, error: real, f: T)
    requires
        m.is_accurate(value, error),
        (m.is_finite)(f),
        -(1 as real) <= value(f) <= 2 as real,
    ensures
        (m.is_finite)((m.minus)((m.times)((m.from_int)(116), f), (m.from_int)(16))),
        crate::accuracy::close(
            value((m.minus)((m.times)((m.from_int)(116), f), (m.from_int)(16))),
            116 as real * value(f) - 16 as real,
            500 as real * error,
        ),
{
    let (whole, sixteen) = ((m.from_int)(116), (m.from_int)(16));
    assert(value(whole) == 116 as real && value(sixteen) == 16 as real);
    assert((m.is_finite)(whole) && (m.is_finite)(sixteen));
    crate::rounding::lemma_times(m, value, error, whole, f, 234 as real);
    crate::rounding::lemma_minus(m, value, error, (m.times)(whole, f), sixteen, 250 as real);
}

/// The luminance of a color of linear light that hardly leaves the unit interval.
proof fn lemma_color<T>(
    m: Arithmetic<T>,
    value: spec_fn(T) -> real,
    error: real,
    roots: Roots,
    c: (T, T, T),
)
    requires
        m.is_accurate(value, error),
        m.takes_roots(value, error, roots),
        (m.is_finite)(c.0) && (m.is_finite)(c.1) && (m.is_finite)(c.2),
        0 as real <= value(c.0) <= 1 as real,
        0 as real <= value(c.1) <= 1 as real,
        0 as real <= value(c.2) <= 1 as real,
    ensures
        ({
            let y = m.luminance(m.linear(c.0), m.linear(c.1), m.linear(c.2));
            let exact = exact_luminance(
                value(m.linear(c.0)),
                value(m.linear(c.1)),
                value(m.linear(c.2)),
            );
            &&& (m.is_finite)(y)
            &&& crate::accuracy::close(value(y), exact, 110 as real * error)
            &&& -(300 as real * error) <= value(y) <= 1 as real + 300 as real * error
        }),
{
    lemma_light(m, value, error, roots, c.0);
    lemma_light(m, value, error, roots, c.1);
    lemma_light(m, value, error, roots, c.2);
    lemma_luminance(m, value, error, m.linear(c.0), m.linear(c.1), m.linear(c.2));
}

/// Lightness rises with each channel up to rounding: a color that is at most as
/// high in each channel is lighter by no more than `1_100_000` errors. Both leave
/// the range `[0, 100]` by no more than that.
pub proof fn law_rounded_lightness_hardly_falls<T>(
    m: Arithmetic<T>,
    value: spec_fn(T) -> real,
    error: real,
    roots: Roots,
    a: (T, T, T),
    b: (T, T, T),
)
    requires
        m.is_accurate(value, error),
        m.takes_roots(value, error, roots),
        m.keeps_order(),
        m.keeps_powers(),
        (m.is_finite)(a.0) && (m.is_finite)(a.1) && (m.is_finite)(a.2),
        (m.is_finite)(b.0) && (m.is_finite)(b.1) && (m.is_finite)(b.2),
        value(a.0) <= value(b.0),
        value(a.1) <= value(b.1),
        value(a.2) <= value(b.2),
    ensures
        -(1_100_000 as real * error) <= value(m.lab(a.0, a.1, a.2).0),
        value(m.lab(a.0, a.1, a.2).0) <= value(m.lab(b.0, b.1, b.2).0) + 1_100_000 as real * error,
        value(m.lab(b.0, b.1, b.2).0) <= 100 as real + 1_100_000 as real * error,
{
    let (zero, one) = (m.zero(), m.one());
    lemma_clamped(m, value, error, a.0);
    lemma_clamped(m, value, error, a.1);
    lemma_clamped(m, value, error, a.2);
    lemma_clamped(m, value, error, b.0);
    lemma_clamped(m, value, error, b.1);
    lemma_clamped(m, value, error, b.2);
    let p = (m.clamp(a.0, zero, one), m.clamp(a.1, zero, one), m.clamp(a.2, zero, one));
    let q = (m.clamp(b.0, zero, one), m.clamp(b.1, zero, one), m.clamp(b.2, zero, one));
    lemma_light_fall(m, value, error, roots, p.0, q.0);
    lemma_light_fall(m, value, error, roots, p.1, q.1);
    lemma_light_fall(m, value, error, roots, p.2, q.2);
    lemma_color(m, value, error, roots, p);
    lemma_color(m, value, error, roots, q);
    let s = m.luminance(m.linear(p.0), m.linear(p.1), m.linear(p.2));
    let t = m.luminance(m.linear(q.0), m.linear(q.1), m.linear(q.2));
    lemma_curve_fall(m, value, error, roots, s, t);
    lemma_curve_range(m, value, error, roots, s);
    lemma_curve_range(m, value, error, roots, t);
    lemma_lightness(m, value, error, m.lab_curve(s));
    lemma_lightness(m, value, error, m.lab_curve(t));
}

} // verus!
