//! What rounding adds up to.
//!
//! Bounds on how far the results of whole computations are from the exact ones,
//! for an arithmetic whose single operations are accurate.
use crate::definitions::Picture;
use crate::planes::Span;
use crate::random::SplitMix64;
use crate::sampling::{Grid, Point};
use crate::scalar::Arithmetic;
use crate::subpixel::Codec;
use vstd::prelude::*;

verus! {

/// The size of a real number.
pub open spec fn magnitude(x: real) -> real {
    if x < 0 as real {
        -x
    } else {
        x
    }
}

/// Whether a real number and one more are at most `scale`.
pub open spec fn fits(x: real, scale: real) -> bool {
    1 as real + magnitude(x) <= scale <= 1_000_000_000_000_000_000 as real
}

/// A sum comes close to the exact one.
pub(crate) proof fn lemma_plus<T>(
    m: Arithmetic<T>,
    value: spec_fn(T) -> real,
    error: real,
    a: T,
    b: T,
    scale: real,
)
    requires
        m.is_accurate(value, error),
        (m.is_finite)(a),
        (m.is_finite)(b),
        fits(value(a) + value(b), scale),
    ensures
        (m.is_finite)((m.plus)(a, b)),
        crate::accuracy::close(value((m.plus)(a, b)), value(a) + value(b), error * scale),
{
    let exact = value(a) + value(b);
    assert(m.approximates(value, error, (m.plus)(a, b), exact));
    crate::reals::lemma_share(error, 1 as real + magnitude(exact), scale);
}

/// A difference comes close to the exact one.
pub(crate) proof fn lemma_minus<T>(
    m: Arithmetic<T>,
    value: spec_fn(T) -> real,
    error: real,
    a: T,
    b: T,
    scale: real,
)
    requires
        m.is_accurate(value, error),
        (m.is_finite)(a),
        (m.is_finite)(b),
        fits(value(a) - value(b), scale),
    ensures
        (m.is_finite)((m.minus)(a, b)),
        crate::accuracy::close(value((m.minus)(a, b)), value(a) - value(b), error * scale),
{
    let exact = value(a) - value(b);
    assert(m.approximates(value, error, (m.minus)(a, b), exact));
    crate::reals::lemma_share(error, 1 as real + magnitude(exact), scale);
}

/// A product comes close to the exact one.
pub(crate) proof fn lemma_times<T>(
    m: Arithmetic<T>,
    value: spec_fn(T) -> real,
    error: real,
    a: T,
    b: T,
    scale: real,
)
    requires
        m.is_accurate(value, error),
        (m.is_finite)(a),
        (m.is_finite)(b),
        fits(value(a) * value(b), scale),
    ensures
        (m.is_finite)((m.times)(a, b)),
        crate::accuracy::close(value((m.times)(a, b)), value(a) * value(b), error * scale),
{
    let exact = value(a) * value(b);
    assert(m.approximates(value, error, (m.times)(a, b), exact));
    crate::reals::lemma_share(error, 1 as real + magnitude(exact), scale);
}

/// A quotient comes close to the exact one, which is the number that gives the
/// dividend when multiplied with the divisor.
pub(crate) proof fn lemma_over<T>(
    m: Arithmetic<T>,
    value: spec_fn(T) -> real,
    error: real,
    a: T,
    b: T,
    quotient: real,
    scale: real,
)
    requires
        m.is_accurate(value, error),
        (m.is_finite)(a),
        (m.is_finite)(b),
        value(b) > 0 as real,
        quotient * value(b) == value(a),
        fits(quotient, scale),
    ensures
        (m.is_finite)((m.over)(a, b)),
        crate::accuracy::close(value((m.over)(a, b)), quotient, error * scale),
{
    let (x, y) = (value(a), value(b));
    let exact = x / y;
    assert(exact * y == x) by (nonlinear_arith)
        requires
            exact == x / y,
            y > 0 as real,
    ;
    crate::reals::lemma_cancel(exact, quotient, y);
    assert(m.approximates(value, error, (m.over)(a, b), exact));
    crate::reals::lemma_share(error, 1 as real + magnitude(exact), scale);
}

/// What a sum of `count` numbers can be off by: as much as each partial sum is
/// rounded.
pub open spec fn drift(error: real, count: nat) -> real {
    4 as real * error * (count * count) as real
}

/// The drift of one more number.
proof fn lemma_drift_step(error: real, count: nat)
    requires
        0 as real <= error,
    ensures
        drift(error, count) + error * (2 as real * count as real + 4 as real) <= drift(
            error,
            count + 1,
        ),
        0 as real <= drift(error, count) <= drift(error, count + 1),
{
    let n = count as real;
    let (c, d) = ((count * count) as real, ((count + 1) * (count + 1)) as real);
    assert((count + 1) * (count + 1) == count * count + 2 * count + 1) by (nonlinear_arith);
    assert(d == c + 2 as real * n + 1 as real);
    let q = 4 as real * error;
    crate::reals::lemma_distribute(c, 2 as real * n + 1 as real, q);
    assert(q * (2 as real * n + 1 as real) == error * (8 as real * n + 4 as real))
        by (nonlinear_arith)
        requires
            q == 4 as real * error,
    ;
    crate::reals::lemma_share(error, 2 as real * n + 4 as real, 8 as real * n + 4 as real);
    crate::reals::lemma_share(error, 0 as real, 8 as real * n + 4 as real);
    assert(error * (0 as real) == 0 as real);
    assert(count * count >= 0) by (nonlinear_arith);
    crate::reals::lemma_share(q, 0 as real, c);
    assert(q * (0 as real) == 0 as real);
}

/// The drift is not negative.
proof fn lemma_drift_is_positive(error: real, count: nat)
    requires
        0 as real <= error,
    ensures
        0 as real <= drift(error, count),
        0 as real <= 16 as real * error * (count * count) as real,
{
    let q = (count * count) as real;
    assert(count * count >= 0) by (nonlinear_arith);
    crate::reals::lemma_share(4 as real * error, 0 as real, q);
    crate::reals::lemma_share(16 as real * error, 0 as real, q);
    assert((4 as real * error) * (0 as real) == 0 as real);
    assert((16 as real * error) * (0 as real) == 0 as real);
}

/// The drift of more numbers is larger.
proof fn lemma_drift_order(error: real, count: nat, most: nat)
    requires
        0 as real <= error,
        count <= most,
    ensures
        drift(error, count) <= drift(error, most),
{
    assert(count * count <= most * most) by (nonlinear_arith)
        requires
            0 <= count <= most,
    ;
    crate::reals::lemma_share(4 as real * error, (count * count) as real, (most * most) as real);
}

/// A sum of numbers of size two at most comes close to the exact one.
proof fn lemma_total<T>(
    m: Arithmetic<T>,
    value: spec_fn(T) -> real,
    error: real,
    count: nat,
    term: spec_fn(int) -> T,
    f: spec_fn(int) -> real,
)
    requires
        m.is_accurate(value, error),
        count <= Arithmetic::<T>::exact_integers(),
        drift(error, count) <= 1 as real,
        forall|k: int|
            0 <= k < count ==> (m.is_finite)(#[trigger] term(k)) && value(term(k)) == f(k)
                && magnitude(f(k)) <= 2 as real,
    ensures
        (m.is_finite)(m.total(count, term)),
        crate::accuracy::close(
            value(m.total(count, term)),
            crate::reals::sum(count, f),
            drift(error, count),
        ),
        magnitude(crate::reals::sum(count, f)) <= 2 as real * count as real,
    decreases count,
{
    if count == 0 {
        assert(value((m.from_int)(0)) == 0 as real);
        lemma_drift_step(error, 0);
    } else {
        let before = (count - 1) as nat;
        lemma_drift_step(error, before);
        lemma_total(m, value, error, before, term, f);
        let (sum, last) = (m.total(before, term), term(count - 1));
        assert((m.is_finite)(last) && value(last) == f(count - 1));
        let scale = 2 as real * before as real + 4 as real;
        lemma_plus(m, value, error, sum, last, scale);
    }
}

/// Sums whose terms are close are close.
proof fn lemma_sums_close(
    count: nat,
    f: spec_fn(int) -> real,
    g: spec_fn(int) -> real,
    distance: real,
)
    requires
        forall|k: int|
            0 <= k < count ==> crate::accuracy::close(#[trigger] f(k), g(k), distance),
    ensures
        crate::accuracy::close(
            crate::reals::sum(count, f),
            crate::reals::sum(count, g),
            distance * count as real,
        ),
    decreases count,
{
    if count > 0 {
        lemma_sums_close((count - 1) as nat, f, g, distance);
        assert(crate::accuracy::close(f(count - 1), g(count - 1), distance));
        crate::reals::lemma_distribute((count - 1) as real, 1 as real, distance);
        assert(distance * (1 as real) == distance);
    } else {
        assert(distance * (0 as real) == 0 as real);
    }
}

impl<T> Arithmetic<T> {
    /// Whether every sample stands for a finite number on the unit interval.
    pub open spec fn reads_units<S>(self, value: spec_fn(T) -> real, c: Codec<S, T>) -> bool {
        forall|s: S|
            (self.is_finite)(#[trigger] (c.to_unit)(s)) && 0 as real <= value((c.to_unit)(s))
                <= 1 as real
    }
}

/// The differences of the randomly matched pairs cancel up to rounding, whatever
/// the seed: over `n` pairs, they sum to at most `2 n` errors, and their rounded
/// sum is at most `6 n^2` errors.
pub proof fn law_rounded_matched_differences_nearly_cancel<S, T>(
    m: Arithmetic<T>,
    value: spec_fn(T) -> real,
    error: real,
    c: Codec<S, T>,
    picture: Picture<S>,
    grid: Grid,
    seed: u64,
    channel: int,
)
    requires
        m.is_accurate(value, error),
        m.reads_units(value, c),
        ({
            let n = m.matched(grid, picture.width, picture.height, seed).len();
            n <= Arithmetic::<T>::exact_integers() && drift(error, n) <= 1 as real
        }),
    ensures
        ({
            let matched = m.matched(grid, picture.width, picture.height, seed);
            let gap = |k: int| m.channel_gap(c, picture, matched[k], channel);
            let n = matched.len();
            &&& magnitude(crate::reals::sum(n, |k: int| value(gap(k)))) <= 2 as real * error
                * n as real
            &&& magnitude(value(m.total(n, gap))) <= 6 as real * error * (n * n) as real
        }),
{
    let points = m.grid_points(grid, picture.width, picture.height);
    let matched = m.matched(grid, picture.width, picture.height, seed);
    let n = matched.len();
    let partners = SplitMix64::shuffled(points, seed, points.len() - 1);
    let sample = |p: Point| value((c.to_unit)(picture.channel(p.y * picture.width + p.x, channel)));
    crate::exact::lemma_shuffled_sum(points, sample, seed, points.len() - 1);
    let (f, g) = (|k: int| sample(points[k]), |k: int| sample(partners[k]));
    let gap = |k: int| m.channel_gap(c, picture, matched[k], channel);
    let (h, exact) = (|k: int| value(gap(k)), |k: int| f(k) + -(1 as real) * g(k));
    let distance = 2 as real * error;
    assert forall|k: int| 0 <= k < n implies (m.is_finite)(#[trigger] gap(k)) && magnitude(h(k))
        <= 2 as real && crate::accuracy::close(h(k), exact(k), distance) by {
        let a = (c.to_unit)(
            picture.channel(points[k].y * picture.width + points[k].x, channel),
        );
        let b = (c.to_unit)(
            picture.channel(partners[k].y * picture.width + partners[k].x, channel),
        );
        assert(gap(k) == (m.minus)(a, b));
        assert(-(1 as real) * value(b) == -value(b));
        lemma_minus(m, value, error, a, b, 2 as real);
    }
    assert forall|k: int| 0 <= k < n implies crate::accuracy::close(
        #[trigger] h(k),
        exact(k),
        distance,
    ) by {
        assert((m.is_finite)(gap(k)));
    }
    lemma_sums_close(n, h, exact, distance);
    crate::reals::lemma_sum_combines(n, f, g, exact, -(1 as real));
    let whole = crate::reals::sum(n, f);
    assert(-(1 as real) * whole == -whole);
    lemma_total(m, value, error, n, gap, h);
    let (count, square) = (n as real, (n * n) as real);
    assert(n <= n * n) by (nonlinear_arith)
        requires
            0 <= n,
    ;
    crate::reals::lemma_share(distance, count, square);
    crate::reals::lemma_distribute(4 as real * error, distance, square);
    assert(4 as real * error + distance == 6 as real * error);
    assert(crate::reals::sum(n, |k: int| value(gap(k))) == crate::reals::sum(n, h));
}

/// A mean times the number of its samples comes close to their sum.
proof fn lemma_mean<S, T>(
    m: Arithmetic<T>,
    value: spec_fn(T) -> real,
    error: real,
    c: Codec<S, T>,
    picture: Picture<S>,
    columns: Span,
    rows: Span,
    channel: int,
    f: spec_fn(int) -> real,
)
    requires
        m.is_accurate(value, error),
        m.reads_units(value, c),
        0 < columns.len() * rows.len() <= Arithmetic::<T>::exact_integers(),
        drift(error, (columns.len() * rows.len()) as nat) <= 1 as real,
        forall|k: int|
            0 <= k < columns.len() * rows.len() ==> #[trigger] f(k) == value(
                Arithmetic::<T>::box_term(c, picture, columns, rows, channel)(k),
            ),
    ensures
        (m.is_finite)(m.box_mean(c, picture, columns, rows, channel)),
        crate::accuracy::close(
            value(m.box_mean(c, picture, columns, rows, channel))
                * (columns.len() * rows.len()) as real,
            crate::reals::sum((columns.len() * rows.len()) as nat, f),
            2 as real * drift(error, (columns.len() * rows.len()) as nat),
        ),
{
    let count = (columns.len() * rows.len()) as nat;
    let term = Arithmetic::<T>::box_term(c, picture, columns, rows, channel);
    assert forall|k: int| 0 <= k < count implies (m.is_finite)(#[trigger] term(k)) && value(term(k))
        == f(k) && magnitude(f(k)) <= 2 as real by {
        assert(f(k) == value(term(k)));
    }
    lemma_total(m, value, error, count, term, f);
    let (sum, number) = (m.total(count, term), (m.from_int)(count as u64));
    let (v, n) = (value(sum), count as real);
    assert(value(number) == n && (m.is_finite)(number));
    let quotient = v / n;
    assert(quotient * n == v) by (nonlinear_arith)
        requires
            quotient == v / n,
            n > 0 as real,
    ;
    if quotient > 3 as real {
        crate::reals::lemma_multiple(n, 3 as real, quotient);
    }
    if quotient < -(3 as real) {
        crate::reals::lemma_multiple(n, quotient, -(3 as real));
        assert(-(3 as real) * n == -(3 as real * n));
    }
    lemma_over(m, value, error, sum, number, quotient, 4 as real);
    let mean = value((m.over)(sum, number));
    let slack = error * (4 as real);
    crate::reals::lemma_share(n, mean - quotient, slack);
    crate::reals::lemma_share(n, -slack, mean - quotient);
    assert((mean - quotient) * n == mean * n - quotient * n) by (nonlinear_arith);
    assert(-slack * n == -(slack * n)) by (nonlinear_arith);
    let square = (count * count) as real;
    assert(count <= count * count) by (nonlinear_arith)
        requires
            0 <= count,
    ;
    crate::reals::lemma_share(slack, n, square);
    assert(slack == 4 as real * error);
}

impl<T> Arithmetic<T> {
    /// Number of pixels of a picture that the pixel at `index` of a copy covers.
    pub open spec fn box_pixels(
        source_width: int,
        source_height: int,
        width: int,
        height: int,
        index: int,
    ) -> int {
        Span::of(index % width, source_width, width).len() * Span::of(
            index / width,
            source_height,
            height,
        ).len()
    }
}

/// The means of a box whose samples do not fall and one of which rises.
proof fn lemma_mean_rises<S, T>(
    m: Arithmetic<T>,
    value: spec_fn(T) -> real,
    error: real,
    c: Codec<S, T>,
    darker: Picture<S>,
    lighter: Picture<S>,
    columns: Span,
    rows: Span,
    x: int,
    y: int,
)
    requires
        m.is_accurate(value, error),
        m.reads_units(value, c),
        darker.width == lighter.width,
        darker.height == lighter.height,
        0 <= columns.start <= x < columns.end <= darker.width,
        0 <= rows.start <= y < rows.end <= darker.height,
        0 < columns.len() * rows.len() <= Arithmetic::<T>::exact_integers(),
        drift(error, (columns.len() * rows.len()) as nat) <= 1 as real,
        forall|i: int|
            0 <= i < darker.area() ==> value((c.to_unit)(#[trigger] darker.channel(i, 0))) <= value(
                (c.to_unit)(lighter.channel(i, 0)),
            ),
        4 as real * drift(error, (columns.len() * rows.len()) as nat) < value(
            (c.to_unit)(lighter.channel(y * darker.width + x, 0)),
        ) - value((c.to_unit)(darker.channel(y * darker.width + x, 0))),
    ensures
        value(m.box_mean(c, darker, columns, rows, 0)) < value(
            m.box_mean(c, lighter, columns, rows, 0),
        ),
{
    let count = columns.len() * rows.len();
    let n = count as real;
    let f = |k: int| value(Arithmetic::<T>::box_term(c, darker, columns, rows, 0)(k));
    let g = |k: int| value(Arithmetic::<T>::box_term(c, lighter, columns, rows, 0)(k));
    lemma_mean(m, value, error, c, darker, columns, rows, 0, f);
    lemma_mean(m, value, error, c, lighter, columns, rows, 0, g);
    assert forall|k: int| 0 <= k < count implies #[trigger] f(k) <= g(k) by {
        crate::averaging::lemma_box_index(columns, rows, darker.width, darker.height, k);
        let at = (rows.start + k / columns.len()) * darker.width + columns.start + k
            % columns.len();
        assert(value((c.to_unit)(darker.channel(at, 0))) <= value(
            (c.to_unit)(lighter.channel(at, 0)),
        ));
    }
    let k = (y - rows.start) * columns.len() + (x - columns.start);
    crate::laws::law_a_box_holds_each_pixel_once::<S, T>(c, darker, columns, rows, 0, x, y);
    crate::laws::law_a_box_holds_each_pixel_once::<S, T>(c, lighter, columns, rows, 0, x, y);
    crate::averaging::lemma_sum_rise(count as nat, f, g, k);
    let (p, q) = (
        value(m.box_mean(c, darker, columns, rows, 0)),
        value(m.box_mean(c, lighter, columns, rows, 0)),
    );
    if q <= p {
        crate::reals::lemma_share(n, q, p);
    }
}

/// Every source pixel counts, up to rounding: raising one red sample of a picture
/// leaves the extents and the other planes of the copy as they are, lowers no
/// value of the red plane, and raises one, where the rise exceeds `16 n^2` errors
/// and no box of the copy covers more than `n` pixels. The mean over a box of `n`
/// pixels rises by an `n`th of that, so this is `16 n` errors of the mean.
pub proof fn law_raising_a_rounded_sample_raises_a_mean<S, T>(
    m: Arithmetic<T>,
    value: spec_fn(T) -> real,
    error: real,
    c: Codec<S, T>,
    darker: Picture<S>,
    lighter: Picture<S>,
    max_extent: int,
    at: int,
    largest: nat,
)
    requires
        m.is_accurate(value, error),
        m.is_monotone(),
        m.reads_units(value, c),
        0 < darker.width,
        0 < darker.height,
        darker.area() <= Arithmetic::<T>::exact_integers(),
        0 < max_extent,
        lighter.width == darker.width,
        lighter.height == darker.height,
        0 <= at < darker.area(),
        forall|i: int|
            0 <= i < darker.area() && i != at ==> #[trigger] lighter.colors[i] == darker.colors[i],
        lighter.colors[at].1 == darker.colors[at].1,
        lighter.colors[at].2 == darker.colors[at].2,
        ({
            let (width, height) = m.fitted_extents(darker.width, darker.height, max_extent);
            forall|i: int|
                0 <= i < width * height ==> #[trigger] Arithmetic::<T>::box_pixels(
                    darker.width,
                    darker.height,
                    width,
                    height,
                    i,
                ) <= largest
        }),
        value((c.to_unit)(lighter.colors[at].0)) - value((c.to_unit)(darker.colors[at].0))
            > 16 as real * error * (largest * largest) as real,
    ensures
        ({
            let before = m.downscaled_planes(c, darker, max_extent);
            let after = m.downscaled_planes(c, lighter, max_extent);
            &&& after.width == before.width && after.height == before.height
            &&& after.g == before.g && after.b == before.b
            &&& after.r.len() == before.r.len()
            &&& forall|i: int|
                0 <= i < before.r.len() ==> (m.at_most)(#[trigger] before.r[i], after.r[i])
            &&& exists|i: int|
                0 <= i < before.r.len() && (m.less)(#[trigger] before.r[i], after.r[i])
        }),
{
    let (w, h) = (darker.width, darker.height);
    let before = m.downscaled_planes(c, darker, max_extent);
    let after = m.downscaled_planes(c, lighter, max_extent);
    crate::averaging::law_the_copy_is_no_larger(m, w, h, max_extent);
    let (width, height) = (before.width, before.height);
    lemma_drift_is_positive(error, largest);
    assert forall|i: int| 0 <= i < darker.area() implies value(
        (c.to_unit)(#[trigger] darker.channel(i, 0)),
    ) <= value((c.to_unit)(lighter.channel(i, 0))) && (m.at_most)(
        (c.to_unit)(darker.channel(i, 0)),
        (c.to_unit)(lighter.channel(i, 0)),
    ) by {
        if i != at {
            assert(lighter.colors[i] == darker.colors[i]);
        }
    }
    assert(value((m.from_int)(0)) == 0 as real && value((m.from_int)(1)) == 1 as real);
    assert forall|s: S| m.on_unit(#[trigger] (c.to_unit)(s)) by {
        assert((m.is_finite)(m.zero()) && (m.is_finite)(m.one()));
    }
    assert forall|i: int| 0 <= i < width * height implies (m.at_most)(
        #[trigger] before.r[i],
        after.r[i],
    ) && before.g[i] == after.g[i] && before.b[i] == after.b[i] by {
        crate::averaging::lemma_spans(i, width, height, w, h);
        let columns = Span::of(i % width, w, width);
        let rows = Span::of(i / width, h, height);
        crate::monotone::law_raising_samples_lowers_no_mean(
            m,
            c,
            darker,
            lighter,
            columns,
            rows,
            0,
        );
        assert forall|k: int| 0 <= k < darker.area() implies #[trigger] darker.channel(k, 1)
            == lighter.channel(k, 1) by {
            assert(k != at ==> lighter.colors[k] == darker.colors[k]);
        }
        assert forall|k: int| 0 <= k < darker.area() implies #[trigger] darker.channel(k, 2)
            == lighter.channel(k, 2) by {
            assert(k != at ==> lighter.colors[k] == darker.colors[k]);
        }
        crate::averaging::lemma_mean_equal(m, c, darker, lighter, columns, rows, 1);
        crate::averaging::lemma_mean_equal(m, c, darker, lighter, columns, rows, 2);
    }
    assert forall|i: int| 0 <= i < width * height implies #[trigger] before.g[i] == after.g[i] by {
        assert((m.at_most)(before.r[i], after.r[i]));
    }
    assert forall|i: int| 0 <= i < width * height implies #[trigger] before.b[i] == after.b[i] by {
        assert((m.at_most)(before.r[i], after.r[i]));
    }
    assert(after.g =~= before.g);
    assert(after.b =~= before.b);
    let i = crate::averaging::lemma_covering_box(at, width, height, w, h);
    crate::averaging::lemma_spans(i, width, height, w, h);
    let columns = Span::of(i % width, w, width);
    let rows = Span::of(i / width, h, height);
    let count = (columns.len() * rows.len()) as nat;
    assert(Arithmetic::<T>::box_pixels(w, h, width, height, i) == count);
    lemma_drift_order(error, count, largest);
    let (x, y) = (at % w, at / w);
    assert(darker.channel(at, 0) == darker.colors[at].0);
    assert(4 as real * drift(error, largest) == 16 as real * error * (largest * largest) as real)
        by {
        let q = (largest * largest) as real;
        assert(4 as real * (4 as real * error * q) == 16 as real * error * q) by (nonlinear_arith);
    }
    lemma_mean_rises(m, value, error, c, darker, lighter, columns, rows, x, y);
    let f = |k: int| value(Arithmetic::<T>::box_term(c, darker, columns, rows, 0)(k));
    let g = |k: int| value(Arithmetic::<T>::box_term(c, lighter, columns, rows, 0)(k));
    lemma_mean(m, value, error, c, darker, columns, rows, 0, f);
    lemma_mean(m, value, error, c, lighter, columns, rows, 0, g);
    assert((m.less)(before.r[i], after.r[i]));
}

} // verus!
