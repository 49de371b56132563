//! What holds of CIELAB before rounding.
use crate::scalar::Arithmetic;
use vstd::prelude::*;

verus! {

/// Moving onto the unit interval keeps the order.
pub(crate) proof fn lemma_clamped<T>(m: Arithmetic<T>, value: spec_fn(T) -> real, a: T, b: T)
    requires
        m.is_exact(value),
        (m.is_finite)(a),
        (m.is_finite)(b),
        value(a) <= value(b),
    ensures
        (m.is_finite)(m.clamp(a, m.zero(), m.one())),
        (m.is_finite)(m.clamp(b, m.zero(), m.one())),
        0 as real <= value(m.clamp(a, m.zero(), m.one())),
        value(m.clamp(a, m.zero(), m.one())) <= value(m.clamp(b, m.zero(), m.one())),
        value(m.clamp(b, m.zero(), m.one())) <= 1 as real,
{
    assert(value(m.zero()) == 0 as real && value(m.one()) == 1 as real);
    assert((m.is_finite)(m.zero()) && (m.is_finite)(m.one()));
}

/// The linear part of the sRGB transfer function.
pub(crate) proof fn lemma_linear_part<T>(m: Arithmetic<T>, value: spec_fn(T) -> real, a: T)
    requires
        m.is_exact(value),
        (m.is_finite)(a),
        0 as real <= value(a),
        value(a) * (100_000 as real) <= 4_045 as real,
    ensures
        (m.is_finite)(m.linear(a)),
        value(m.linear(a)) * (1_292 as real) == value(a) * (100 as real),
{
    crate::exact::lemma_ratio(m, value, 4_045, 100_000);
    crate::exact::lemma_ratio(m, value, 1_292, 100);
    let slope = m.ratio(1_292, 100);
    assert((m.is_finite)(m.ratio(4_045, 100_000)) && (m.is_finite)(slope));
    assert((m.at_most)(a, m.ratio(4_045, 100_000)));
    let r = value((m.over)(a, slope));
    assert(r * value(slope) == value(a));
    assert(value(slope) == 1_292 as real / 100 as real);
    assert(r * (1_292 as real / 100 as real) == value(a));
}

/// The curved part of the sRGB transfer function.
pub(crate) proof fn lemma_curved_part<T>(
    m: Arithmetic<T>,
    value: spec_fn(T) -> real,
    a: T,
) -> (base: real)
    requires
        m.is_exact(value),
        (m.is_finite)(a),
        value(a) * (100_000 as real) > 4_045 as real,
    ensures
        base * (1_055 as real) == value(a) * (1_000 as real) + 55 as real,
        (m.is_finite)(m.linear(a)),
        0 as real <= value(m.linear(a)),
        crate::reals::fifth_power(value(m.linear(a))) == crate::reals::twelfth_power(base),
{
    crate::exact::lemma_ratio(m, value, 4_045, 100_000);
    crate::exact::lemma_ratio(m, value, 55, 1_000);
    crate::exact::lemma_ratio(m, value, 1_055, 1_000);
    crate::exact::lemma_ratio(m, value, 24, 10);
    let (offset, whole, e) = (m.ratio(55, 1_000), m.ratio(1_055, 1_000), m.ratio(24, 10));
    assert((m.is_finite)(m.ratio(4_045, 100_000)));
    assert((m.is_finite)(offset) && (m.is_finite)(whole) && (m.is_finite)(e));
    assert(!(m.at_most)(a, m.ratio(4_045, 100_000)));
    let sum = (m.plus)(a, offset);
    let quotient = (m.over)(sum, whole);
    let base = value(quotient);
    assert(value(whole) == 1_055 as real / 1_000 as real);
    assert(base * value(whole) == value(sum));
    assert(base * (1_055 as real / 1_000 as real) == value(sum));
    assert(value(e) * (5 as real) == 12 as real);
    assert(base >= 0 as real);
    base
}

/// The curved part begins, a little early even, where the linear part ends.
pub(crate) proof fn lemma_parts_meet()
    ensures
        crate::reals::fifth_power(809 as real / 258_400 as real) <= crate::reals::twelfth_power(
            9_047_391 as real / 100_000_000 as real,
        ),
{
    let x = 809 as real / 258_400 as real;
    let y = 9_047_391 as real / 100_000_000 as real;
    let u1 = 3_130_804_954 as real / 1_000_000_000_000 as real;
    let u2 = 9_801_939_660 as real / 1_000_000_000_000_000 as real;
    let u3 = 30_687_961_247 as real / 1_000_000_000_000_000_000 as real;
    let u4 = 9_607_802_111 as real / 100_000_000_000_000_000_000 as real;
    let u5 = 30_080_154_447 as real / 100_000_000_000_000_000_000_000 as real;
    let l1 = 9_047_391 as real / 100_000_000 as real;
    let l2 = 81_855_283_906 as real / 10_000_000_000_000 as real;
    let l3 = 74_057_675_891 as real / 100_000_000_000_000 as real;
    let l4 = 67_002_875_033 as real / 1_000_000_000_000_000 as real;
    let l8 = 448_938_526_268 as real / 100_000_000_000_000_000_000 as real;
    let l12 = 300_801_719_730 as real / 1_000_000_000_000_000_000_000_000 as real;
    assert(u1 * u1 <= u2) by (nonlinear_arith)
        requires
            u1 == 3_130_804_954 as real / 1_000_000_000_000 as real,
            u2 == 9_801_939_660 as real / 1_000_000_000_000_000 as real,
    ;
    assert(u2 * u1 <= u3) by (nonlinear_arith)
        requires
            u2 == 9_801_939_660 as real / 1_000_000_000_000_000 as real,
            u1 == 3_130_804_954 as real / 1_000_000_000_000 as real,
            u3 == 30_687_961_247 as real / 1_000_000_000_000_000_000 as real,
    ;
    assert(u3 * u1 <= u4) by (nonlinear_arith)
        requires
            u3 == 30_687_961_247 as real / 1_000_000_000_000_000_000 as real,
            u1 == 3_130_804_954 as real / 1_000_000_000_000 as real,
            u4 == 9_607_802_111 as real / 100_000_000_000_000_000_000 as real,
    ;
    assert(u4 * u1 <= u5) by (nonlinear_arith)
        requires
            u4 == 9_607_802_111 as real / 100_000_000_000_000_000_000 as real,
            u1 == 3_130_804_954 as real / 1_000_000_000_000 as real,
            u5 == 30_080_154_447 as real / 100_000_000_000_000_000_000_000 as real,
    ;
    assert(l1 * l1 >= l2) by (nonlinear_arith)
        requires
            l1 == 9_047_391 as real / 100_000_000 as real,
            l2 == 81_855_283_906 as real / 10_000_000_000_000 as real,
    ;
    assert(l2 * l1 >= l3) by (nonlinear_arith)
        requires
            l2 == 81_855_283_906 as real / 10_000_000_000_000 as real,
            l1 == 9_047_391 as real / 100_000_000 as real,
            l3 == 74_057_675_891 as real / 100_000_000_000_000 as real,
    ;
    assert(l3 * l1 >= l4) by (nonlinear_arith)
        requires
            l3 == 74_057_675_891 as real / 100_000_000_000_000 as real,
            l1 == 9_047_391 as real / 100_000_000 as real,
            l4 == 67_002_875_033 as real / 1_000_000_000_000_000 as real,
    ;
    assert(l4 * l4 >= l8) by (nonlinear_arith)
        requires
            l4 == 67_002_875_033 as real / 1_000_000_000_000_000 as real,
            l8 == 448_938_526_268 as real / 100_000_000_000_000_000_000 as real,
    ;
    assert(l8 * l4 >= l12) by (nonlinear_arith)
        requires
            l8 == 448_938_526_268 as real / 100_000_000_000_000_000_000 as real,
            l4 == 67_002_875_033 as real / 1_000_000_000_000_000 as real,
            l12 == 300_801_719_730 as real / 1_000_000_000_000_000_000_000_000 as real,
    ;
    crate::reals::lemma_products(x, u1, x, u1);
    crate::reals::lemma_products(x * x, u2, x, u1);
    crate::reals::lemma_products(x * x * x, u3, x, u1);
    crate::reals::lemma_products(x * x * x * x, u4, x, u1);
    crate::reals::lemma_products(l1, y, l1, y);
    crate::reals::lemma_products(l2, y * y, l1, y);
    crate::reals::lemma_products(l3, y * y * y, l1, y);
    let four = y * y * y * y;
    crate::reals::lemma_products(l4, four, l4, four);
    crate::reals::lemma_products(l8, four * four, l4, four);
}

/// Linear light rises with the channel, and stays on the unit interval.
pub(crate) proof fn lemma_linear_light<T>(m: Arithmetic<T>, value: spec_fn(T) -> real, a: T, b: T)
    requires
        m.is_exact(value),
        (m.is_finite)(a),
        (m.is_finite)(b),
        0 as real <= value(a) <= value(b),
        value(b) <= 1 as real,
    ensures
        (m.is_finite)(m.linear(a)),
        (m.is_finite)(m.linear(b)),
        0 as real <= value(m.linear(a)) <= value(m.linear(b)),
        value(m.linear(b)) <= 1 as real,
{
    let knee = 4_045 as real;
    let (p, q) = (value(m.linear(a)), value(m.linear(b)));
    if value(b) * (100_000 as real) <= knee {
        lemma_linear_part(m, value, a);
        lemma_linear_part(m, value, b);
    } else {
        let high = lemma_curved_part(m, value, b);
        crate::reals::lemma_twelfth_order(high, 1 as real);
        assert(crate::reals::twelfth_power(1 as real) == 1 as real);
        assert(crate::reals::fifth_power(1 as real) == 1 as real);
        crate::reals::lemma_fifth_order(q, 1 as real);
        if value(a) * (100_000 as real) <= knee {
            lemma_linear_part(m, value, a);
            let (x, y) = (809 as real / 258_400 as real, 9_047_391 as real / 100_000_000 as real);
            lemma_parts_meet();
            crate::reals::lemma_twelfth_order(y, high);
            crate::reals::lemma_fifth_order(x, q);
        } else {
            let low = lemma_curved_part(m, value, a);
            crate::reals::lemma_twelfth_order(low, high);
            crate::reals::lemma_fifth_order(p, q);
        }
    }
}

/// The luminance of linear light rises with each channel, and stays on the unit
/// interval.
proof fn lemma_luminance<T>(
    m: Arithmetic<T>,
    value: spec_fn(T) -> real,
    a: (T, T, T),
    b: (T, T, T),
)
    requires
        m.is_exact(value),
        (m.is_finite)(a.0) && (m.is_finite)(a.1) && (m.is_finite)(a.2),
        (m.is_finite)(b.0) && (m.is_finite)(b.1) && (m.is_finite)(b.2),
        0 as real <= value(a.0) <= value(b.0) <= 1 as real,
        0 as real <= value(a.1) <= value(b.1) <= 1 as real,
        0 as real <= value(a.2) <= value(b.2) <= 1 as real,
    ensures
        ({
            let y = |c: (T, T, T)|
                (m.over)(m.weighted((212_671, 715_160, 72_169), c.0, c.1, c.2), m.one());
            &&& (m.is_finite)(y(a)) && (m.is_finite)(y(b))
            &&& 0 as real <= value(y(a)) <= value(y(b)) <= 1 as real
        }),
{
    crate::exact::lemma_ratio(m, value, 212_671, 1_000_000);
    crate::exact::lemma_ratio(m, value, 715_160, 1_000_000);
    crate::exact::lemma_ratio(m, value, 72_169, 1_000_000);
    let (r, g, b_weight) = (
        value(m.ratio(212_671, 1_000_000)),
        value(m.ratio(715_160, 1_000_000)),
        value(m.ratio(72_169, 1_000_000)),
    );
    let one = 1 as real;
    crate::reals::lemma_share(r, 0 as real, value(a.0));
    crate::reals::lemma_share(g, 0 as real, value(a.1));
    crate::reals::lemma_share(b_weight, 0 as real, value(a.2));
    crate::reals::lemma_share(r, value(a.0), value(b.0));
    crate::reals::lemma_share(g, value(a.1), value(b.1));
    crate::reals::lemma_share(b_weight, value(a.2), value(b.2));
    crate::reals::lemma_share(r, value(b.0), one);
    crate::reals::lemma_share(g, value(b.1), one);
    crate::reals::lemma_share(b_weight, value(b.2), one);
    assert(r * one == r && g * one == g && b_weight * one == b_weight);
    assert(r * (0 as real) == 0 as real && g * (0 as real) == 0 as real && b_weight * (0 as real)
        == 0 as real);
    assert(value(m.one()) == one);
    let (p, q) = (
        m.weighted((212_671, 715_160, 72_169), a.0, a.1, a.2),
        m.weighted((212_671, 715_160, 72_169), b.0, b.1, b.2),
    );
    assert(value((m.over)(p, m.one())) * one == value(p));
    assert(value((m.over)(q, m.one())) * one == value(q));
}

/// The line of the CIELAB transfer function near zero.
pub(crate) proof fn lemma_line<T>(m: Arithmetic<T>, value: spec_fn(T) -> real, t: T)
    requires
        m.is_exact(value),
        (m.is_finite)(t),
        value(t) * (24_389 as real) <= 216 as real,
    ensures
        (m.is_finite)(m.lab_curve(t)),
        value(m.lab_curve(t)) * (116 as real) * (27 as real) == value(t) * (24_389 as real) + (
        16 as real) * (27 as real),
{
    crate::exact::lemma_ratio(m, value, 216, 24_389);
    crate::exact::lemma_ratio(m, value, 24_389, 27);
    let (knee, kappa) = (m.ratio(216, 24_389), m.ratio(24_389, 27));
    assert((m.is_finite)(knee) && (m.is_finite)(kappa));
    assert(!(m.less)(knee, t));
    let v = value(t);
    let product = (m.times)(kappa, t);
    assert(value(product) == value(kappa) * v);
    assert(value(product) * (27 as real) == v * (24_389 as real)) by (nonlinear_arith)
        requires
            value(product) == value(kappa) * v,
            value(kappa) * (27 as real) == 24_389 as real,
    ;
    let (sixteen, whole) = ((m.from_int)(16), (m.from_int)(116));
    assert(value(sixteen) == 16 as real && value(whole) == 116 as real);
    let sum = (m.plus)(product, sixteen);
    assert(value((m.over)(sum, whole)) * value(whole) == value(sum));
}

/// The cube root of the CIELAB transfer function.
pub(crate) proof fn lemma_root<T>(m: Arithmetic<T>, value: spec_fn(T) -> real, t: T)
    requires
        m.is_exact(value),
        (m.is_finite)(t),
        value(t) * (24_389 as real) > 216 as real,
    ensures
        (m.is_finite)(m.lab_curve(t)),
        crate::reals::cubed(value(m.lab_curve(t))) == value(t),
        value(m.lab_curve(t)) * (29 as real) >= 6 as real,
{
    crate::exact::lemma_ratio(m, value, 216, 24_389);
    let knee = m.ratio(216, 24_389);
    assert((m.is_finite)(knee));
    assert((m.less)(knee, t));
    let c = value((m.cube_root)(t));
    crate::reals::lemma_cube_sign(c);
    let six = 6 as real / 29 as real;
    assert(crate::reals::cubed(six) == 216 as real / 24_389 as real) by (nonlinear_arith)
        requires
            six == 6 as real / 29 as real,
    ;
    crate::reals::lemma_cube_order(six, c);
}

/// The CIELAB transfer function rises from `16 / 116` to one.
proof fn lemma_lab_curve<T>(m: Arithmetic<T>, value: spec_fn(T) -> real, a: T, b: T)
    requires
        m.is_exact(value),
        (m.is_finite)(a),
        (m.is_finite)(b),
        0 as real <= value(a) <= value(b) <= 1 as real,
    ensures
        (m.is_finite)(m.lab_curve(a)),
        (m.is_finite)(m.lab_curve(b)),
        16 as real <= value(m.lab_curve(a)) * (116 as real),
        value(m.lab_curve(a)) <= value(m.lab_curve(b)) <= 1 as real,
{
    let knee = 216 as real;
    let (p, q) = (value(m.lab_curve(a)), value(m.lab_curve(b)));
    if value(b) * (24_389 as real) <= knee {
        lemma_line(m, value, a);
        lemma_line(m, value, b);
    } else {
        lemma_root(m, value, b);
        crate::reals::lemma_cube_sign(q);
        assert(crate::reals::cubed(1 as real) == 1 as real);
        crate::reals::lemma_cube_order(q, 1 as real);
        if value(a) * (24_389 as real) <= knee {
            lemma_line(m, value, a);
        } else {
            lemma_root(m, value, a);
            crate::reals::lemma_cube_sign(p);
            crate::reals::lemma_cube_order(p, q);
        }
    }
}

/// Lightness runs over `[0, 100]` and rises with each channel: a color that is
/// at most as high in each channel is at most as light.
/// [`crate::rounded_color`] bounds what rounding changes.
pub proof fn law_lightness_rises_with_each_channel<T>(
    m: Arithmetic<T>,
    value: spec_fn(T) -> real,
    a: (T, T, T),
    b: (T, T, T),
)
    requires
        m.is_exact(value),
        (m.is_finite)(a.0) && (m.is_finite)(a.1) && (m.is_finite)(a.2),
        (m.is_finite)(b.0) && (m.is_finite)(b.1) && (m.is_finite)(b.2),
        value(a.0) <= value(b.0),
        value(a.1) <= value(b.1),
        value(a.2) <= value(b.2),
    ensures
        0 as real <= value(m.lab(a.0, a.1, a.2).0),
        value(m.lab(a.0, a.1, a.2).0) <= value(m.lab(b.0, b.1, b.2).0),
        value(m.lab(b.0, b.1, b.2).0) <= 100 as real,
{
    let (zero, one) = (m.zero(), m.one());
    lemma_clamped(m, value, a.0, b.0);
    lemma_clamped(m, value, a.1, b.1);
    lemma_clamped(m, value, a.2, b.2);
    let p = (m.clamp(a.0, zero, one), m.clamp(a.1, zero, one), m.clamp(a.2, zero, one));
    let q = (m.clamp(b.0, zero, one), m.clamp(b.1, zero, one), m.clamp(b.2, zero, one));
    lemma_linear_light(m, value, p.0, q.0);
    lemma_linear_light(m, value, p.1, q.1);
    lemma_linear_light(m, value, p.2, q.2);
    let (u, v) = (
        (m.linear(p.0), m.linear(p.1), m.linear(p.2)),
        (m.linear(q.0), m.linear(q.1), m.linear(q.2)),
    );
    lemma_luminance(m, value, u, v);
    let s = (m.over)(m.weighted((212_671, 715_160, 72_169), u.0, u.1, u.2), one);
    let t = (m.over)(m.weighted((212_671, 715_160, 72_169), v.0, v.1, v.2), one);
    lemma_lab_curve(m, value, s, t);
    let (whole, sixteen) = ((m.from_int)(116), (m.from_int)(16));
    assert(value(whole) == 116 as real && value(sixteen) == 16 as real);
    assert(value((m.times)(whole, m.lab_curve(s))) == (116 as real) * value(m.lab_curve(s)));
    assert(value((m.times)(whole, m.lab_curve(t))) == (116 as real) * value(m.lab_curve(t)));
}

/// Weights in millionths that sum to the white point leave a gray as it is.
proof fn lemma_white_point<T>(
    m: Arithmetic<T>,
    value: spec_fn(T) -> real,
    weights: (u64, u64, u64),
    white: T,
    light: T,
)
    requires
        m.is_exact(value),
        (m.is_finite)(white),
        (m.is_finite)(light),
        value(white) > 0 as real,
        value(white) * (1_000_000 as real) == weights.0 as real + weights.1 as real
            + weights.2 as real,
    ensures
        (m.is_finite)((m.over)(m.weighted(weights, light, light, light), white)),
        value((m.over)(m.weighted(weights, light, light, light), white)) == value(light),
{
    crate::exact::lemma_ratio(m, value, weights.0, 1_000_000);
    crate::exact::lemma_ratio(m, value, weights.1, 1_000_000);
    crate::exact::lemma_ratio(m, value, weights.2, 1_000_000);
    let (a, b, c) = (
        value(m.ratio(weights.0, 1_000_000)),
        value(m.ratio(weights.1, 1_000_000)),
        value(m.ratio(weights.2, 1_000_000)),
    );
    let v = value(light);
    crate::reals::lemma_shares(a, b, c, v);
    assert(a + b + c == value(white));
    let sum = m.weighted(weights, light, light, light);
    assert(value(sum) == value(white) * v);
    assert(value(white) * v == v * value(white)) by (nonlinear_arith);
    crate::reals::lemma_cancel(value((m.over)(sum, white)), v, value(white));
}

/// Grays are neutral in CIELAB: they have a lightness and no color.
/// [`crate::rounded_color`] bounds what rounding leaves.
pub proof fn law_grays_are_neutral<T>(m: Arithmetic<T>, value: spec_fn(T) -> real, gray: T)
    requires
        m.is_exact(value),
        (m.is_finite)(gray),
    ensures
        value(m.lab(gray, gray, gray).1) == 0 as real,
        value(m.lab(gray, gray, gray).2) == 0 as real,
{
    let clamped = m.clamp(gray, m.zero(), m.one());
    lemma_clamped(m, value, gray, gray);
    lemma_linear_light(m, value, clamped, clamped);
    let light = m.linear(clamped);
    let (wx, wz) = (m.ratio(950_456, 1_000_000), m.ratio(1_088_754, 1_000_000));
    crate::exact::lemma_ratio(m, value, 950_456, 1_000_000);
    crate::exact::lemma_ratio(m, value, 1_088_754, 1_000_000);
    lemma_white_point(m, value, (412_453, 357_580, 180_423), wx, light);
    lemma_white_point(m, value, (212_671, 715_160, 72_169), m.one(), light);
    lemma_white_point(m, value, (19_334, 119_193, 950_227), wz, light);
    let x = (m.over)(m.weighted((412_453, 357_580, 180_423), light, light, light), wx);
    let y = (m.over)(m.weighted((212_671, 715_160, 72_169), light, light, light), m.one());
    let z = (m.over)(m.weighted((19_334, 119_193, 950_227), light, light, light), wz);
    lemma_lab_curve(m, value, x, y);
    lemma_lab_curve(m, value, y, x);
    lemma_lab_curve(m, value, y, z);
    lemma_lab_curve(m, value, z, y);
    let (fx, fy, fz) = (m.lab_curve(x), m.lab_curve(y), m.lab_curve(z));
    assert(value((m.minus)(fx, fy)) == 0 as real);
    assert(value((m.minus)(fy, fz)) == 0 as real);
    assert(value((m.from_int)(500)) == 500 as real && value((m.from_int)(200)) == 200 as real);
}

/// Linear light is determined by the channel: in proportion to it up to the knee,
/// and beyond the knee the fifth root of a twelfth power.
pub open spec fn is_linear_light(light: real, channel: real) -> bool {
    if channel * (100_000 as real) <= 4_045 as real {
        light * (1_292 as real) == channel * (100 as real)
    } else {
        0 as real <= light && crate::reals::fifth_power(light) == crate::reals::twelfth_power(
            (channel * (1_000 as real) + 55 as real) / 1_055 as real,
        )
    }
}

/// A channel of linear light is what its channel determines.
pub proof fn law_linear_light_is_determined_by_the_channel<T>(
    m: Arithmetic<T>,
    value: spec_fn(T) -> real,
    channel: T,
    light: real,
)
    requires
        m.is_exact(value),
        (m.is_finite)(channel),
        0 as real <= value(channel),
        is_linear_light(light, value(channel)),
    ensures
        (m.is_finite)(m.linear(channel)),
        value(m.linear(channel)) == light,
{
    let v = value(channel);
    if v * (100_000 as real) <= 4_045 as real {
        lemma_linear_part(m, value, channel);
    } else {
        let base = lemma_curved_part(m, value, channel);
        assert(base == (v * (1_000 as real) + 55 as real) / 1_055 as real);
        crate::reals::lemma_fifth_order(light, value(m.linear(channel)));
        crate::reals::lemma_fifth_order(value(m.linear(channel)), light);
    }
}

/// The transfer function of CIELAB: the cube root, or a line up to the knee.
pub open spec fn is_lab_curve(f: real, t: real) -> bool {
    if t * (24_389 as real) > 216 as real {
        crate::reals::cubed(f) == t
    } else {
        f * (116 as real) == t * (24_389 as real / 27 as real) + 16 as real
    }
}

/// The transfer function gives what it is to.
proof fn lemma_lab_curve_value<T>(m: Arithmetic<T>, value: spec_fn(T) -> real, t: T, f: real)
    requires
        m.is_exact(value),
        (m.is_finite)(t),
        is_lab_curve(f, value(t)),
    ensures
        (m.is_finite)(m.lab_curve(t)),
        value(m.lab_curve(t)) == f,
{
    if value(t) * (24_389 as real) > 216 as real {
        lemma_root(m, value, t);
        let r = value(m.lab_curve(t));
        crate::reals::lemma_cube_sign(f);
        crate::reals::lemma_cube_sign(r);
        crate::reals::lemma_cube_order(f, r);
        crate::reals::lemma_cube_order(r, f);
    } else {
        lemma_line(m, value, t);
    }
}

/// A weighted sum against a white point, as a real number.
proof fn lemma_tristimulus<T>(
    m: Arithmetic<T>,
    value: spec_fn(T) -> real,
    weights: (u64, u64, u64),
    r: T,
    g: T,
    b: T,
    white: T,
    point: real,
    t: real,
)
    requires
        m.is_exact(value),
        (m.is_finite)(r) && (m.is_finite)(g) && (m.is_finite)(b) && (m.is_finite)(white),
        value(white) * (1_000_000 as real) == point,
        point > 0 as real,
        t * point == weights.0 as real * value(r) + weights.1 as real * value(g)
            + weights.2 as real * value(b),
    ensures
        (m.is_finite)((m.over)(m.weighted(weights, r, g, b), white)),
        value((m.over)(m.weighted(weights, r, g, b), white)) == t,
{
    let million = 1_000_000 as real;
    crate::exact::lemma_ratio(m, value, weights.0, 1_000_000);
    crate::exact::lemma_ratio(m, value, weights.1, 1_000_000);
    crate::exact::lemma_ratio(m, value, weights.2, 1_000_000);
    assert(value((m.from_int)(1_000_000)) == million);
    let (u, v, w) = (
        m.ratio(weights.0, 1_000_000),
        m.ratio(weights.1, 1_000_000),
        m.ratio(weights.2, 1_000_000),
    );
    assert((m.is_finite)(u) && (m.is_finite)(v) && (m.is_finite)(w));
    let sum = m.weighted(weights, r, g, b);
    let (x, y, z) = (value(r), value(g), value(b));
    assert((m.is_finite)(sum) && value(sum) == value(u) * x + value(v) * y + value(w) * z);
    lemma_millionths(value(u), x, weights.0 as real);
    lemma_millionths(value(v), y, weights.1 as real);
    lemma_millionths(value(w), z, weights.2 as real);
    assert(value(sum) * million == t * point);
    let q = value((m.over)(sum, white));
    assert(q * value(white) == value(sum));
    let half = value(white);
    assert(t * point == t * half * million) by {
        crate::reals::lemma_associate(t, half, million);
    }
    crate::reals::lemma_cancel(q, t, half);
}

/// A share in millionths.
proof fn lemma_millionths(share: real, x: real, n: real)
    requires
        share * (1_000_000 as real) == n,
    ensures
        share * x * (1_000_000 as real) == n * x,
{
    let million = 1_000_000 as real;
    crate::reals::lemma_associate(share, million, x);
    crate::reals::lemma_commute(million, x);
    crate::reals::lemma_associate(share, x, million);
}

/// The color conversion is that from sRGB to CIELAB under the D65 white point:
/// `red`, `green` and `blue` are the linear light of the channels, moved onto the
/// unit interval, and `x`, `y` and `z` are what the transfer function makes of the
/// tristimulus values of that light against those of white.
pub proof fn law_colors_are_converted_to_cielab<T>(
    m: Arithmetic<T>,
    value: spec_fn(T) -> real,
    r: T,
    g: T,
    b: T,
    red: real,
    green: real,
    blue: real,
    x: real,
    y: real,
    z: real,
)
    requires
        m.is_exact(value),
        (m.is_finite)(r) && (m.is_finite)(g) && (m.is_finite)(b),
        is_linear_light(red, on_unit_interval(value(r))),
        is_linear_light(green, on_unit_interval(value(g))),
        is_linear_light(blue, on_unit_interval(value(b))),
        is_lab_curve(
            x,
            (412_453 as real * red + 357_580 as real * green + 180_423 as real * blue)
                / 950_456 as real,
        ),
        is_lab_curve(
            y,
            (212_671 as real * red + 715_160 as real * green + 72_169 as real * blue)
                / 1_000_000 as real,
        ),
        is_lab_curve(
            z,
            (19_334 as real * red + 119_193 as real * green + 950_227 as real * blue)
                / 1_088_754 as real,
        ),
    ensures
        value(m.lab(r, g, b).0) == 116 as real * y - 16 as real,
        value(m.lab(r, g, b).1) == 500 as real * (x - y),
        value(m.lab(r, g, b).2) == 200 as real * (y - z),
{
    let (zero, one) = (m.zero(), m.one());
    assert(value(zero) == 0 as real && value(one) == 1 as real);
    assert((m.is_finite)(zero) && (m.is_finite)(one));
    let (p, q, s) = (m.clamp(r, zero, one), m.clamp(g, zero, one), m.clamp(b, zero, one));
    law_linear_light_is_determined_by_the_channel(m, value, p, red);
    law_linear_light_is_determined_by_the_channel(m, value, q, green);
    law_linear_light_is_determined_by_the_channel(m, value, s, blue);
    let (u, v, w) = (m.linear(p), m.linear(q), m.linear(s));
    let (wx, wz) = (m.ratio(950_456, 1_000_000), m.ratio(1_088_754, 1_000_000));
    crate::exact::lemma_ratio(m, value, 950_456, 1_000_000);
    crate::exact::lemma_ratio(m, value, 1_088_754, 1_000_000);
    assert(value((m.from_int)(1_000_000)) == 1_000_000 as real);
    assert((m.is_finite)(wx) && (m.is_finite)(wz));
    let tx = (412_453 as real * red + 357_580 as real * green + 180_423 as real * blue)
        / 950_456 as real;
    let ty = (212_671 as real * red + 715_160 as real * green + 72_169 as real * blue)
        / 1_000_000 as real;
    let tz = (19_334 as real * red + 119_193 as real * green + 950_227 as real * blue)
        / 1_088_754 as real;
    lemma_tristimulus(
        m,
        value,
        (412_453, 357_580, 180_423),
        u,
        v,
        w,
        wx,
        950_456 as real,
        tx,
    );
    lemma_tristimulus(
        m,
        value,
        (212_671, 715_160, 72_169),
        u,
        v,
        w,
        one,
        1_000_000 as real,
        ty,
    );
    lemma_tristimulus(
        m,
        value,
        (19_334, 119_193, 950_227),
        u,
        v,
        w,
        wz,
        1_088_754 as real,
        tz,
    );
    let fx = (m.over)(m.weighted((412_453, 357_580, 180_423), u, v, w), wx);
    let fy = (m.over)(m.weighted((212_671, 715_160, 72_169), u, v, w), one);
    let fz = (m.over)(m.weighted((19_334, 119_193, 950_227), u, v, w), wz);
    lemma_lab_curve_value(m, value, fx, x);
    lemma_lab_curve_value(m, value, fy, y);
    lemma_lab_curve_value(m, value, fz, z);
    assert(value((m.from_int)(116)) == 116 as real && value((m.from_int)(16)) == 16 as real);
    assert(value((m.from_int)(500)) == 500 as real && value((m.from_int)(200)) == 200 as real);
    let (cx, cy, cz) = (m.lab_curve(fx), m.lab_curve(fy), m.lab_curve(fz));
    assert(value((m.minus)(cx, cy)) == x - y && value((m.minus)(cy, cz)) == y - z);
}

/// A number moved onto the unit interval.
pub open spec fn on_unit_interval(x: real) -> real {
    if x < 0 as real {
        0 as real
    } else if x > 1 as real {
        1 as real
    } else {
        x
    }
}

} // verus!
