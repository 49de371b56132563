//! What rounding does to the polynomial that maps colors to grays.
use crate::planes::PlaneSet;
use crate::polynomial::Monomial;
use crate::scalar::{Arithmetic, NUM_MONOMIALS};
use vstd::prelude::*;

verus! {

/// A product of numbers that are close to others.
proof fn lemma_near_product(
    p: real,
    q: real,
    x: real,
    y: real,
    alpha: real,
    beta: real,
    most_x: real,
    most_q: real,
)
    requires
        crate::accuracy::close(p, x, alpha),
        crate::accuracy::close(q, y, beta),
        -most_x <= x <= most_x,
        -most_q <= q <= most_q,
    ensures
        crate::accuracy::close(p * q, x * y, alpha * most_q + most_x * beta),
{
    crate::accuracy::lemma_bounded_product(p - x, q, alpha, most_q);
    crate::accuracy::lemma_bounded_product(x, q - y, most_x, beta);
    assert((p - x) * q + x * (q - y) == p * q - x * y) by (nonlinear_arith);
}

/// A product of numbers on the unit interval lies there too.
proof fn lemma_unit_product(x: real, y: real)
    requires
        0 as real <= x <= 1 as real,
        0 as real <= y <= 1 as real,
    ensures
        0 as real <= x * y <= 1 as real,
{
    crate::reals::lemma_products(0 as real, x, 0 as real, y);
    crate::reals::lemma_products(x, 1 as real, y, 1 as real);
    assert(0 as real * (0 as real) == 0 as real && 1 as real * (1 as real) == 1 as real);
}

/// The square of a number, the number, or one.
pub open spec fn raised_to(x: real, exponent: u32) -> real {
    if exponent == 0 {
        1 as real
    } else if exponent == 1 {
        x
    } else {
        x * x
    }
}

/// A power of a number on the unit interval comes close to the exact one.
proof fn lemma_power<T>(
    m: Arithmetic<T>,
    value: spec_fn(T) -> real,
    error: real,
    a: T,
    exponent: u32,
)
    requires
        m.is_accurate(value, error),
        (m.is_finite)(a),
        0 as real <= value(a) <= 1 as real,
        exponent <= 2,
    ensures
        (m.is_finite)((m.power)(a, exponent)),
        crate::accuracy::close(
            value((m.power)(a, exponent)),
            raised_to(value(a), exponent),
            2 as real * error,
        ),
        0 as real <= raised_to(value(a), exponent) <= 1 as real,
{
    let x = value(a);
    lemma_unit_product(x, x);
    let exact = raised_to(x, exponent);
    if exponent == 0 {
        assert(m.approximates(value, error, (m.power)(a, 0), exact));
    } else if exponent == 1 {
        assert(m.approximates(value, error, (m.power)(a, 1), exact));
    } else {
        assert(m.approximates(value, error, (m.power)(a, 2), exact));
    }
    crate::reals::lemma_share(error, 1 as real + exact, 2 as real);
    assert(error * (2 as real) == 2 as real * error);
}

impl<T> Arithmetic<T> {
    /// Whether the color of the pixel at `index` stands for a color on the unit
    /// interval.
    pub open spec fn is_unit_color(
        self,
        value: spec_fn(T) -> real,
        planes: PlaneSet<T>,
        index: int,
    ) -> bool {
        &&& self.is_finite_color(planes, index)
        &&& 0 as real <= value(planes.r[index]) <= 1 as real
        &&& 0 as real <= value(planes.g[index]) <= 1 as real
        &&& 0 as real <= value(planes.b[index]) <= 1 as real
    }

    /// A monomial of the color of the pixel at `index`, before rounding.
    #[verifier::opaque]
    pub open spec fn exact_monomial(
        self,
        value: spec_fn(T) -> real,
        planes: PlaneSet<T>,
        index: int,
        j: int,
    ) -> real {
        let e = Monomial::nth(j);
        raised_to(value(planes.r[index]), e.r) * raised_to(value(planes.g[index]), e.g) * raised_to(
            value(planes.b[index]),
            e.b,
        )
    }
}

/// A monomial comes close to the exact one.
proof fn lemma_monomial<T>(
    m: Arithmetic<T>,
    value: spec_fn(T) -> real,
    error: real,
    planes: PlaneSet<T>,
    index: int,
    j: int,
)
    requires
        m.is_accurate(value, error),
        m.is_unit_color(value, planes, index),
        0 <= j < NUM_MONOMIALS,
    ensures
        ({
            let v = m.monomial_value(j, planes.r[index], planes.g[index], planes.b[index]);
            let exact = m.exact_monomial(value, planes, index, j);
            &&& (m.is_finite)(v)
            &&& crate::accuracy::close(value(v), exact, 23 as real * error)
            &&& 0 as real <= exact <= 1 as real
        }),
{
    reveal(Arithmetic::exact_monomial);
    let (r, g, b) = (planes.r[index], planes.g[index], planes.b[index]);
    let e = Monomial::nth(j);
    lemma_power(m, value, error, r, e.r);
    lemma_power(m, value, error, g, e.g);
    lemma_power(m, value, error, b, e.b);
    let (p, q, s) = ((m.power)(r, e.r), (m.power)(g, e.g), (m.power)(b, e.b));
    let (x, y, z) = (
        raised_to(value(r), e.r),
        raised_to(value(g), e.g),
        raised_to(value(b), e.b),
    );
    let (two, one) = (2 as real, 1 as real);
    lemma_unit_product(x, y);
    lemma_unit_product(x * y, z);
    lemma_near_product(value(p), value(q), x, y, two * error, two * error, one, two);
    assert((two * error) * two + one * (two * error) == 6 as real * error);
    let u = (m.times)(p, q);
    crate::rounding::lemma_times(m, value, error, p, q, 3 as real);
    assert(crate::accuracy::close(value(u), x * y, 9 as real * error));
    lemma_near_product(value(u), value(s), x * y, z, 9 as real * error, two * error, one, two);
    assert((9 as real * error) * two + one * (two * error) == 20 as real * error);
    crate::rounding::lemma_times(m, value, error, u, s, 3 as real);
}

/// An error on the scale of a coefficient of size `g`.
proof fn lemma_scale(error: real, g: real, a: real, b: real)
    ensures
        error * (a + b * g) == a * error + b * (error * g),
{
    assert(error * (a + b * g) == a * error + b * (error * g)) by (nonlinear_arith);
}

/// The size of an error on the scale of a coefficient.
proof fn lemma_small(error: real, g: real)
    requires
        0 as real <= error,
        error * (1_099_511_627_776 as real) <= 1 as real,
        0 as real <= g <= 1_000_000 as real,
    ensures
        0 as real <= error * g,
        error * g * (1_000_000 as real) <= 1 as real,
{
    crate::reals::lemma_share(error, 0 as real, g);
    crate::reals::lemma_share(error, g, 1_000_000 as real);
    assert(error * (0 as real) == 0 as real);
    assert(error * (1_000_000 as real) == 1_000_000 as real * error);
    assert(error * g <= 1_000_000 as real * error);
}

/// A number near a share of a coefficient, times a number near one on the unit
/// interval.
proof fn lemma_shared_product<T>(
    m: Arithmetic<T>,
    value: spec_fn(T) -> real,
    error: real,
    a: T,
    b: T,
    w: real,
    x: real,
    y: real,
    base: real,
    slope: real,
)
    requires
        m.is_accurate(value, error),
        (m.is_finite)(a),
        (m.is_finite)(b),
        crate::rounding::magnitude(w) <= 1_000_000 as real,
        0 as real <= x <= 1 as real,
        0 as real <= y <= 1 as real,
        0 as real <= base <= 100 as real,
        0 as real <= slope <= 100 as real,
        crate::accuracy::close(
            value(a),
            w * x,
            base * error + slope * (error * crate::rounding::magnitude(w)),
        ),
        crate::accuracy::close(value(b), y, 2 as real * error),
    ensures
        (m.is_finite)((m.times)(a, b)),
        crate::accuracy::close(
            value((m.times)(a, b)),
            w * (x * y),
            (2 as real * base + 3 as real) * error + (2 as real * slope + 4 as real) * (error
                * crate::rounding::magnitude(w)),
        ),
        0 as real <= x * y <= 1 as real,
{
    let g = crate::rounding::magnitude(w);
    let (u, one, two) = (error * g, 1 as real, 2 as real);
    lemma_small(error, g);
    lemma_unit_product(x, y);
    crate::accuracy::lemma_bounded_product(w, x, g, one);
    crate::reals::lemma_share(error, base, 100 as real);
    crate::reals::lemma_share(u, slope, 100 as real);
    let slack = base * error + slope * u;
    assert(slack <= one);
    lemma_near_product(value(a), value(b), w * x, y, slack, two * error, g, two);
    assert(g * (two * error) == two * u) by (nonlinear_arith)
        requires
            u == error * g,
    ;
    assert(slack * two == two * base * error + two * slope * u) by (nonlinear_arith)
        requires
            slack == base * error + slope * u,
    ;
    crate::reals::lemma_associate(w, x, y);
    let p = value(a) * value(b);
    crate::accuracy::lemma_bounded_product(value(a), value(b), g + one, two);
    assert((g + one) * two == two * g + two);
    crate::rounding::lemma_times(m, value, error, a, b, 3 as real + two * g);
    lemma_scale(error, g, 3 as real, two);
    assert((two * base + 3 as real) * error == two * base * error + 3 as real * error)
        by (nonlinear_arith);
    assert((two * slope + 4 as real) * u == two * slope * u + 4 as real * u) by (nonlinear_arith);
}

/// A term of the polynomial comes close to the exact one.
proof fn lemma_polynomial_term<T>(
    m: Arithmetic<T>,
    value: spec_fn(T) -> real,
    error: real,
    weights: Seq<T>,
    planes: PlaneSet<T>,
    index: int,
    j: int,
)
    requires
        m.is_accurate(value, error),
        m.is_unit_color(value, planes, index),
        (m.is_finite)(weights[j]),
        crate::rounding::magnitude(value(weights[j])) <= 1_000_000 as real,
        0 <= j < NUM_MONOMIALS,
    ensures
        ({
            let t = m.polynomial_term(weights, planes.r[index], planes.g[index], planes.b[index])(
                j,
            );
            let g = crate::rounding::magnitude(value(weights[j]));
            &&& (m.is_finite)(t)
            &&& crate::accuracy::close(
                value(t),
                value(weights[j]) * m.exact_monomial(value, planes, index, j),
                21 as real * error + 28 as real * (error * g),
            )
        }),
{
    reveal(Arithmetic::exact_monomial);
    let (r, g, b) = (planes.r[index], planes.g[index], planes.b[index]);
    let e = Monomial::nth(j);
    lemma_power(m, value, error, r, e.r);
    lemma_power(m, value, error, g, e.g);
    lemma_power(m, value, error, b, e.b);
    let (p, q, s) = ((m.power)(r, e.r), (m.power)(g, e.g), (m.power)(b, e.b));
    let (x, y, z) = (
        raised_to(value(r), e.r),
        raised_to(value(g), e.g),
        raised_to(value(b), e.b),
    );
    let (a, w, one) = (weights[j], value(weights[j]), 1 as real);
    let size = crate::rounding::magnitude(w);
    assert(w * one == w) by (nonlinear_arith)
        requires
            one == 1 as real,
    ;
    assert(0 as real * error + 0 as real * (error * size) == 0 as real);
    lemma_shared_product(m, value, error, a, p, w, one, x, 0 as real, 0 as real);
    assert(one * x == x);
    let t = (m.times)(a, p);
    lemma_shared_product(m, value, error, t, q, w, x, y, 3 as real, 4 as real);
    let v = (m.times)(t, q);
    lemma_shared_product(m, value, error, v, s, w, x * y, z, 9 as real, 12 as real);
}

/// A term of a gray difference comes close to the exact one.
proof fn lemma_gray_term<T>(
    m: Arithmetic<T>,
    value: spec_fn(T) -> real,
    error: real,
    weights: Seq<T>,
    planes: PlaneSet<T>,
    k: int,
    j: int,
)
    requires
        m.is_accurate(value, error),
        0 <= k < planes.neighbors().count(),
        m.is_unit_color(value, planes, planes.neighbors().first(k)),
        m.is_unit_color(value, planes, planes.neighbors().second(k)),
        (m.is_finite)(weights[j]),
        crate::rounding::magnitude(value(weights[j])) <= 1_000_000 as real,
        0 <= j < NUM_MONOMIALS,
    ensures
        ({
            let (x, y) = (planes.neighbors().first(k), planes.neighbors().second(k));
            let t = m.gray_term(m.evidence(planes), weights, k)(j);
            let g = crate::rounding::magnitude(value(weights[j]));
            &&& (m.is_finite)(t)
            &&& crate::accuracy::close(
                value(t),
                value(weights[j]) * (m.exact_monomial(value, planes, x, j) - m.exact_monomial(
                    value,
                    planes,
                    y,
                    j,
                )),
                error + 51 as real * (error * g),
            )
            &&& crate::rounding::magnitude(
                m.exact_monomial(value, planes, x, j) - m.exact_monomial(value, planes, y, j),
            ) <= 1 as real
        }),
{
    let (x, y) = (planes.neighbors().first(k), planes.neighbors().second(k));
    lemma_monomial(m, value, error, planes, x, j);
    lemma_monomial(m, value, error, planes, y, j);
    let a = m.monomial_value(j, planes.r[x], planes.g[x], planes.b[x]);
    let b = m.monomial_value(j, planes.r[y], planes.g[y], planes.b[y]);
    let exact = m.exact_monomial(value, planes, x, j) - m.exact_monomial(value, planes, y, j);
    crate::rounding::lemma_minus(m, value, error, a, b, 3 as real);
    let d = (m.minus)(a, b);
    assert(crate::accuracy::close(value(d), exact, 49 as real * error));
    assert(m.evidence(planes).basis[j][k] == d);
    let (w, one, two) = (value(weights[j]), 1 as real, 2 as real);
    let g = crate::rounding::magnitude(w);
    lemma_small(error, g);
    lemma_near_product(w, value(d), w, exact, 0 as real, 49 as real * error, g, two);
    assert(0 as real * two == 0 as real);
    assert(g * (49 as real * error) == 49 as real * (error * g)) by (nonlinear_arith);
    crate::accuracy::lemma_bounded_product(w, value(d), g, two);
    assert(g * two == two * g);
    crate::rounding::lemma_times(m, value, error, weights[j], d, one + two * g);
    lemma_scale(error, g, one, two);
    assert(one * error == error);
}

/// A sum of a few numbers of a bounded size comes close to the exact one.
proof fn lemma_short_total<T>(
    m: Arithmetic<T>,
    value: spec_fn(T) -> real,
    error: real,
    count: nat,
    term: spec_fn(int) -> T,
    f: spec_fn(int) -> real,
    size: real,
)
    requires
        m.is_accurate(value, error),
        count <= NUM_MONOMIALS,
        2 as real <= size <= 2_000_000 as real,
        forall|k: int|
            0 <= k < count ==> (m.is_finite)(#[trigger] term(k)) && value(term(k)) == f(k)
                && crate::rounding::magnitude(f(k)) <= size,
    ensures
        (m.is_finite)(m.total(count, term)),
        crate::accuracy::close(
            value(m.total(count, term)),
            crate::reals::sum(count, f),
            count as real * (10 as real * (error * size)),
        ),
        crate::rounding::magnitude(crate::reals::sum(count, f)) <= count as real * size,
    decreases count,
{
    let step = 10 as real * (error * size);
    if count == 0 {
        assert(value((m.from_int)(0)) == 0 as real);
        assert(0 as real * step == 0 as real && 0 as real * size == 0 as real);
    } else {
        let before = (count - 1) as nat;
        lemma_short_total(m, value, error, before, term, f, size);
        crate::reals::lemma_distribute(before as real, 1 as real, size);
        crate::reals::lemma_distribute(before as real, 1 as real, step);
        assert(1 as real * size == size && 1 as real * step == step);
        crate::reals::lemma_share(error, size, 2_000_000 as real);
        crate::reals::lemma_share(error, 0 as real, size);
        assert(error * (0 as real) == 0 as real);
        crate::reals::lemma_share(step, before as real, 9 as real);
        crate::reals::lemma_share(size, count as real, 9 as real);
        let (sum, last) = (m.total(before, term), term(count - 1));
        assert((m.is_finite)(last) && value(last) == f(count - 1));
        let scale = 10 as real * size;
        crate::rounding::lemma_plus(m, value, error, sum, last, scale);
        lemma_scale(error, size, 0 as real, 10 as real);
        assert(0 as real * error == 0 as real);
    }
}

/// A sum is at most off by what its terms are.
proof fn lemma_sums_within(
    count: nat,
    f: spec_fn(int) -> real,
    g: spec_fn(int) -> real,
    sizes: spec_fn(int) -> real,
    error: real,
    base: real,
    slope: real,
)
    requires
        forall|k: int|
            0 <= k < count ==> crate::accuracy::close(
                #[trigger] f(k),
                g(k),
                base * error + slope * (error * sizes(k)),
            ),
    ensures
        crate::accuracy::close(
            crate::reals::sum(count, f),
            crate::reals::sum(count, g),
            count as real * (base * error) + slope * (error * crate::reals::sum(count, sizes)),
        ),
    decreases count,
{
    let each = base * error;
    if count == 0 {
        assert(error * (0 as real) == 0 as real);
        assert(slope * (0 as real) == 0 as real && 0 as real * each == 0 as real);
    } else {
        let before = (count - 1) as nat;
        lemma_sums_within(before, f, g, sizes, error, base, slope);
        let (sum, last) = (crate::reals::sum(before, sizes), sizes(count - 1));
        assert(crate::accuracy::close(
            f(count - 1),
            g(count - 1),
            each + slope * (error * last),
        ));
        crate::reals::lemma_distribute(before as real, 1 as real, each);
        assert(1 as real * each == each);
        crate::reals::lemma_distribute(sum, last, error);
        crate::reals::lemma_distribute(error * sum, error * last, slope);
    }
}

/// A sum of sizes is at least as large as each of them.
proof fn lemma_part_of_sum(count: nat, sizes: spec_fn(int) -> real, at: int)
    requires
        0 <= at < count,
        forall|k: int| 0 <= k < count ==> #[trigger] sizes(k) >= 0 as real,
    ensures
        sizes(at) <= crate::reals::sum(count, sizes),
{
    let none = |k: int| 0 as real;
    crate::reals::lemma_sum_zero(count, none);
    crate::averaging::lemma_sum_rise(count, none, sizes, at);
}

impl<T> Arithmetic<T> {
    /// The sum of the sizes of all coefficients.
    pub open spec fn weight_sum(self, value: spec_fn(T) -> real, weights: Seq<T>) -> real {
        crate::reals::sum(
            NUM_MONOMIALS as nat,
            |j: int| crate::rounding::magnitude(value(weights[j])),
        )
    }
}

/// What the rounding of the terms and that of their sum come to.
proof fn lemma_both(
    error: real,
    whole: real,
    size: real,
    total: real,
    sum: real,
    exact: real,
    base: real,
    slope: real,
)
    requires
        size == whole + 2 as real,
        crate::accuracy::close(total, sum, 9 as real * (10 as real * (error * size))),
        crate::accuracy::close(sum, exact, 9 as real * (base * error) + slope * (error * whole)),
    ensures
        crate::accuracy::close(
            total,
            exact,
            180 as real * error + 9 as real * (base * error) + 90 as real * (error * whole) + slope
                * (error * whole),
        ),
{
    crate::reals::lemma_distribute(whole, 2 as real, error);
    assert(error * (2 as real) == 2 as real * error);
}

/// The bounds of a term of the polynomial.
proof fn lemma_polynomial_bounds<T>(
    m: Arithmetic<T>,
    value: spec_fn(T) -> real,
    error: real,
    weights: Seq<T>,
    planes: PlaneSet<T>,
    index: int,
    j: int,
    whole: real,
)
    requires
        m.is_accurate(value, error),
        m.is_unit_color(value, planes, index),
        (m.is_finite)(weights[j]),
        crate::rounding::magnitude(value(weights[j])) <= whole <= 1_000_000 as real,
        0 <= j < NUM_MONOMIALS,
    ensures
        crate::rounding::magnitude(
            value(
                m.polynomial_term(weights, planes.r[index], planes.g[index], planes.b[index])(j),
            ),
        ) <= whole + 2 as real,
{
    lemma_polynomial_term(m, value, error, weights, planes, index, j);
    lemma_monomial(m, value, error, planes, index, j);
    let (w, x) = (value(weights[j]), m.exact_monomial(value, planes, index, j));
    let g = crate::rounding::magnitude(w);
    crate::accuracy::lemma_bounded_product(w, x, g, 1 as real);
    assert(g * (1 as real) == g);
    lemma_small(error, g);
}

/// The bounds of a term of a gray difference.
proof fn lemma_gray_bounds<T>(
    m: Arithmetic<T>,
    value: spec_fn(T) -> real,
    error: real,
    weights: Seq<T>,
    planes: PlaneSet<T>,
    k: int,
    j: int,
    whole: real,
)
    requires
        m.is_accurate(value, error),
        0 <= k < planes.neighbors().count(),
        m.is_unit_color(value, planes, planes.neighbors().first(k)),
        m.is_unit_color(value, planes, planes.neighbors().second(k)),
        (m.is_finite)(weights[j]),
        crate::rounding::magnitude(value(weights[j])) <= whole <= 1_000_000 as real,
        0 <= j < NUM_MONOMIALS,
    ensures
        crate::rounding::magnitude(value(m.gray_term(m.evidence(planes), weights, k)(j))) <= whole
            + 2 as real,
{
    lemma_gray_term(m, value, error, weights, planes, k, j);
    let (x, y) = (planes.neighbors().first(k), planes.neighbors().second(k));
    let w = value(weights[j]);
    let d = m.exact_monomial(value, planes, x, j) - m.exact_monomial(value, planes, y, j);
    let g = crate::rounding::magnitude(w);
    crate::accuracy::lemma_bounded_product(w, d, g, 1 as real);
    assert(g * (1 as real) == g);
    lemma_small(error, g);
}

/// The polynomial of a pixel comes close to the exact one.
proof fn lemma_polynomial<T>(
    m: Arithmetic<T>,
    value: spec_fn(T) -> real,
    error: real,
    planes: PlaneSet<T>,
    weights: Seq<T>,
    index: int,
    exact: spec_fn(int) -> real,
)
    requires
        m.is_accurate(value, error),
        m.is_unit_color(value, planes, index),
        m.all_finite(weights),
        m.weight_sum(value, weights) <= 1_000_000 as real,
        forall|j: int|
            0 <= j < NUM_MONOMIALS ==> #[trigger] exact(j) == value(weights[j]) * m.exact_monomial(
                value,
                planes,
                index,
                j,
            ),
    ensures
        crate::accuracy::close(
            value(m.polynomial(weights, planes.r[index], planes.g[index], planes.b[index])),
            crate::reals::sum(NUM_MONOMIALS as nat, exact),
            369 as real * error + 118 as real * (error * m.weight_sum(value, weights)),
        ),
{
    let count = NUM_MONOMIALS as nat;
    let term = m.polynomial_term(weights, planes.r[index], planes.g[index], planes.b[index]);
    let f = |j: int| value(term(j));
    let sizes = |j: int| crate::rounding::magnitude(value(weights[j]));
    let whole = m.weight_sum(value, weights);
    let size = whole + 2 as real;
    assert forall|j: int| 0 <= j < count implies (m.is_finite)(#[trigger] term(j)) && value(term(j))
        == f(j) && crate::rounding::magnitude(f(j)) <= size by {
        assert((m.is_finite)(weights[j]));
        lemma_part_of_sum(count, sizes, j);
        lemma_polynomial_term(m, value, error, weights, planes, index, j);
        lemma_polynomial_bounds(m, value, error, weights, planes, index, j, whole);
    }
    assert forall|j: int| 0 <= j < count implies crate::accuracy::close(
        #[trigger] f(j),
        exact(j),
        21 as real * error + 28 as real * (error * sizes(j)),
    ) by {
        assert((m.is_finite)(weights[j]));
        lemma_part_of_sum(count, sizes, j);
        lemma_polynomial_term(m, value, error, weights, planes, index, j);
        assert(exact(j) == value(weights[j]) * m.exact_monomial(value, planes, index, j));
    }
    lemma_part_of_sum(count, sizes, 0);
    lemma_sums_within(count, f, exact, sizes, error, 21 as real, 28 as real);
    lemma_short_total(m, value, error, count, term, f, size);
    lemma_both(
        error,
        whole,
        size,
        value(m.total(count, term)),
        crate::reals::sum(count, f),
        crate::reals::sum(count, exact),
        21 as real,
        28 as real,
    );
}

/// The gray difference of a pair comes close to the exact one.
proof fn lemma_gray_total<T>(
    m: Arithmetic<T>,
    value: spec_fn(T) -> real,
    error: real,
    planes: PlaneSet<T>,
    weights: Seq<T>,
    k: int,
    exact: spec_fn(int) -> real,
)
    requires
        m.is_accurate(value, error),
        0 <= k < planes.neighbors().count(),
        m.is_unit_color(value, planes, planes.neighbors().first(k)),
        m.is_unit_color(value, planes, planes.neighbors().second(k)),
        m.all_finite(weights),
        m.weight_sum(value, weights) <= 1_000_000 as real,
        forall|j: int|
            0 <= j < NUM_MONOMIALS ==> #[trigger] exact(j) == value(weights[j]) * (
            m.exact_monomial(value, planes, planes.neighbors().first(k), j) - m.exact_monomial(
                value,
                planes,
                planes.neighbors().second(k),
                j,
            )),
    ensures
        crate::accuracy::close(
            value(m.gray_difference(m.evidence(planes), weights, k)),
            crate::reals::sum(NUM_MONOMIALS as nat, exact),
            189 as real * error + 141 as real * (error * m.weight_sum(value, weights)),
        ),
{
    let count = NUM_MONOMIALS as nat;
    let term = m.gray_term(m.evidence(planes), weights, k);
    let f = |j: int| value(term(j));
    let sizes = |j: int| crate::rounding::magnitude(value(weights[j]));
    let whole = m.weight_sum(value, weights);
    let size = whole + 2 as real;
    assert forall|j: int| 0 <= j < count implies (m.is_finite)(#[trigger] term(j)) && value(term(j))
        == f(j) && crate::rounding::magnitude(f(j)) <= size by {
        assert((m.is_finite)(weights[j]));
        lemma_part_of_sum(count, sizes, j);
        lemma_gray_term(m, value, error, weights, planes, k, j);
        lemma_gray_bounds(m, value, error, weights, planes, k, j, whole);
    }
    assert forall|j: int| 0 <= j < count implies crate::accuracy::close(
        #[trigger] f(j),
        exact(j),
        1 as real * error + 51 as real * (error * sizes(j)),
    ) by {
        assert((m.is_finite)(weights[j]));
        lemma_part_of_sum(count, sizes, j);
        lemma_gray_term(m, value, error, weights, planes, k, j);
        assert(1 as real * error == error);
    }
    lemma_part_of_sum(count, sizes, 0);
    lemma_sums_within(count, f, exact, sizes, error, 1 as real, 51 as real);
    lemma_short_total(m, value, error, count, term, f, size);
    lemma_both(
        error,
        whole,
        size,
        value(m.total(count, term)),
        crate::reals::sum(count, f),
        crate::reals::sum(count, exact),
        1 as real,
        51 as real,
    );
}

/// A difference of sums is the sum of the differences.
proof fn lemma_difference_of_sums(
    count: nat,
    w: spec_fn(int) -> real,
    x: spec_fn(int) -> real,
    y: spec_fn(int) -> real,
    first: spec_fn(int) -> real,
    second: spec_fn(int) -> real,
    exact: spec_fn(int) -> real,
)
    requires
        forall|j: int| 0 <= j < count ==> #[trigger] exact(j) == w(j) * (x(j) - y(j)),
        forall|j: int| 0 <= j < count ==> #[trigger] first(j) == w(j) * x(j),
        forall|j: int| 0 <= j < count ==> #[trigger] second(j) == w(j) * y(j),
    ensures
        crate::reals::sum(count, exact) == crate::reals::sum(count, first) - crate::reals::sum(
            count,
            second,
        ),
    decreases count,
{
    if count > 0 {
        let before = (count - 1) as nat;
        lemma_difference_of_sums(before, w, x, y, first, second, exact);
        let (a, p, q) = (w(count - 1), x(count - 1), y(count - 1));
        assert(exact(count - 1) == a * (p - q));
        assert(first(count - 1) == a * p && second(count - 1) == a * q);
        assert(a * (p - q) == a * p - a * q) by (nonlinear_arith);
    }
}

/// The bound that all of it comes to.
proof fn lemma_thousand(
    error: real,
    whole: real,
    gray: real,
    first: real,
    second: real,
    exact: real,
    a: real,
    b: real,
)
    requires
        0 as real <= error,
        0 as real <= whole,
        exact == a - b,
        crate::accuracy::close(gray, exact, 189 as real * error + 141 as real * (error * whole)),
        crate::accuracy::close(first, a, 369 as real * error + 118 as real * (error * whole)),
        crate::accuracy::close(second, b, 369 as real * error + 118 as real * (error * whole)),
    ensures
        crate::accuracy::close(
            gray,
            first - second,
            1_000 as real * error * (1 as real + whole),
        ),
{
    let many = 1_000 as real * error;
    crate::reals::lemma_distribute(1 as real, whole, many);
    crate::reals::lemma_associate(1_000 as real, error, whole);
    crate::reals::lemma_share(error, 0 as real, whole);
    assert(error * (0 as real) == 0 as real);
    assert(many * (1 as real) == many);
}

/// Under a mapping, the weighted sum of the monomial differences of a pair is
/// the difference of the polynomial between its two pixels, up to a thousand
/// errors on the scale of the coefficients.
pub proof fn law_rounded_differences_make_gray_differences<T>(
    m: Arithmetic<T>,
    value: spec_fn(T) -> real,
    error: real,
    planes: PlaneSet<T>,
    weights: Seq<T>,
    k: int,
)
    requires
        m.is_accurate(value, error),
        0 <= k < planes.neighbors().count(),
        m.is_unit_color(value, planes, planes.neighbors().first(k)),
        m.is_unit_color(value, planes, planes.neighbors().second(k)),
        m.all_finite(weights),
        m.weight_sum(value, weights) <= 1_000_000 as real,
    ensures
        ({
            let (x, y) = (planes.neighbors().first(k), planes.neighbors().second(k));
            crate::accuracy::close(
                value(m.gray_difference(m.evidence(planes), weights, k)),
                value(m.polynomial(weights, planes.r[x], planes.g[x], planes.b[x])) - value(
                    m.polynomial(weights, planes.r[y], planes.g[y], planes.b[y]),
                ),
                1_000 as real * error * (1 as real + m.weight_sum(value, weights)),
            )
        }),
{
    let (x, y) = (planes.neighbors().first(k), planes.neighbors().second(k));
    let count = NUM_MONOMIALS as nat;
    let w = |j: int| value(weights[j]);
    let (p, q) = (
        |j: int| m.exact_monomial(value, planes, x, j),
        |j: int| m.exact_monomial(value, planes, y, j),
    );
    let (first, second) = (|j: int| w(j) * p(j), |j: int| w(j) * q(j));
    let exact = |j: int| w(j) * (p(j) - q(j));
    let sizes = |j: int| crate::rounding::magnitude(value(weights[j]));
    lemma_part_of_sum(count, sizes, 0);
    lemma_gray_total(m, value, error, planes, weights, k, exact);
    lemma_polynomial(m, value, error, planes, weights, x, first);
    lemma_polynomial(m, value, error, planes, weights, y, second);
    lemma_difference_of_sums(count, w, p, q, first, second, exact);
    lemma_thousand(
        error,
        m.weight_sum(value, weights),
        value(m.gray_difference(m.evidence(planes), weights, k)),
        value(m.polynomial(weights, planes.r[x], planes.g[x], planes.b[x])),
        value(m.polynomial(weights, planes.r[y], planes.g[y], planes.b[y])),
        crate::reals::sum(count, exact),
        crate::reals::sum(count, first),
        crate::reals::sum(count, second),
    );
}

} // verus!
