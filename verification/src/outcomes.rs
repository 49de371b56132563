//! What the conversions as a whole do to a picture of any extents.
use crate::definitions::Picture;
use crate::fit::Evidence;
use crate::likelihood::Exponential;
use crate::options::{DecolorizeOptions, FastDecolorizeOptions};
use crate::planes::{PlaneSet, Span};
use crate::sampling::{Pair, Point};
use crate::scalar::{Arithmetic, NUM_MONOMIALS};
use crate::search::{Weighting, WEIGHT_STEPS};
use crate::subpixel::Codec;
use vstd::prelude::*;

verus! {

impl<T> Arithmetic<T> {
    /// Nothing finite is less than any distance away from infinity.
    pub open spec fn infinity_is_far(self) -> bool {
        forall|x: T, distance: T|
            (self.is_finite)(x) ==> !#[trigger] (self.less)(
                (self.absolute)((self.minus)(x, self.infinity)),
                distance,
            )
    }

    /// Whether the objective changes by less than a tolerance per pair from one
    /// mapping to the next.
    pub open spec fn has_settled(
        self,
        value: spec_fn(T) -> real,
        evidence: Evidence<T>,
        sigma: T,
        tolerance: T,
        before: Seq<T>,
        after: Seq<T>,
    ) -> bool {
        crate::rounding::magnitude(
            value(self.totals(evidence, after, sigma).energy) - value(
                self.totals(evidence, before, sigma).energy,
            ),
        ) < value(tolerance) * evidence.pairs() as real
    }

    /// Whether the normal equations at a mapping have a finite answer.
    pub open spec fn is_answered(self, evidence: Evidence<T>, sigma: T, weights: Seq<T>) -> bool {
        (self.solve)(self.gram(evidence), self.totals(evidence, weights, sigma).rhs) matches Some(
            next,
        ) && self.all_finite(next)
    }
}

/// The mapping of a picture of any extents is the one that is fitted on its
/// downscaled copy, with the deviation, the budget and the tolerance that the
/// caller gives.
pub proof fn law_the_mapping_is_fitted_on_the_copy<S, T>(
    m: Arithmetic<T>,
    c: Codec<S, T>,
    picture: Picture<S>,
    options: DecolorizeOptions<T>,
    fitting: DecolorizeOptions<T>,
)
    requires
        0 < picture.width,
        0 < picture.height,
        fitting.sigma == options.sigma,
        fitting.max_iterations == options.max_iterations,
        fitting.tolerance == options.tolerance,
    ensures
        m.decolorized(c, picture, options) == m.polynomial_grays(
            c,
            picture,
            m.fitted_weights(
                m.downscaled_planes(c, picture, options.fitting_size as int),
                fitting,
            ),
        ),
{
    let copy = m.downscaled_planes(c, picture, options.fitting_size as int);
    crate::likelihood::lemma_budget_is_the_limit(
        m,
        m.evidence(copy),
        options,
        fitting,
        m.initial_weights(),
        m.infinity,
        options.max_iterations as nat,
    );
}

/// Only the copy matters: two pictures, of whatever extents, whose copies are the
/// same get the same mapping. It is returned.
pub proof fn law_equal_copies_get_equal_mappings<S, T>(
    m: Arithmetic<T>,
    c: Codec<S, T>,
    a: Picture<S>,
    b: Picture<S>,
    options: DecolorizeOptions<T>,
    other: DecolorizeOptions<T>,
) -> (weights: Seq<T>)
    requires
        0 < a.width && 0 < a.height,
        0 < b.width && 0 < b.height,
        m.downscaled_planes(c, a, options.fitting_size as int) == m.downscaled_planes(
            c,
            b,
            other.fitting_size as int,
        ),
        other.sigma == options.sigma,
        other.max_iterations == options.max_iterations,
        other.tolerance == options.tolerance,
    ensures
        m.decolorized(c, a, options) == m.polynomial_grays(c, a, weights),
        m.decolorized(c, b, other) == m.polynomial_grays(c, b, weights),
{
    law_the_mapping_is_fitted_on_the_copy(m, c, a, options, options);
    law_the_mapping_is_fitted_on_the_copy(m, c, b, other, options);
    m.fitted_weights(m.downscaled_planes(c, a, options.fitting_size as int), options)
}

/// The objective per pair is finite.
proof fn lemma_mean_energy<T>(
    m: Arithmetic<T>,
    value: spec_fn(T) -> real,
    e: Exponential,
    evidence: Evidence<T>,
    weights: Seq<T>,
    sigma: T,
)
    requires
        m.is_fittable(value, e, evidence, sigma),
        m.all_finite(weights),
        0 < evidence.pairs() <= u64::MAX,
    ensures
        (m.is_finite)(m.mean_energy(evidence, weights, sigma)),
{
    crate::likelihood::lemma_totals_value(m, value, e, evidence, weights, sigma);
    assert(value((m.from_int)(evidence.pairs() as u64)) == evidence.pairs() as real);
}

/// The pixels of a copy are finite.
proof fn lemma_copy_is_finite<S, T>(
    m: Arithmetic<T>,
    value: spec_fn(T) -> real,
    c: Codec<S, T>,
    picture: Picture<S>,
    max_extent: int,
    i: int,
)
    requires
        m.is_exact(value),
        forall|s: S| (m.is_finite)(#[trigger] (c.to_unit)(s)),
        0 < picture.width,
        0 < picture.height,
        picture.area() <= u64::MAX,
        0 < max_extent,
        ({
            let copy = m.downscaled_planes(c, picture, max_extent);
            0 <= i < copy.width * copy.height
        }),
    ensures
        m.is_finite_color(m.downscaled_planes(c, picture, max_extent), i),
{
    let (w, h) = (picture.width, picture.height);
    let copy = m.downscaled_planes(c, picture, max_extent);
    let (width, height) = (copy.width, copy.height);
    crate::averaging::law_the_copy_is_no_larger(m, w, h, max_extent);
    crate::averaging::lemma_spans(i, width, height, w, h);
    let columns = Span::of(i % width, w, width);
    let rows = Span::of(i / width, h, height);
    let f = |k: int| value(Arithmetic::<T>::box_term(c, picture, columns, rows, 0)(k));
    let g = |k: int| value(Arithmetic::<T>::box_term(c, picture, columns, rows, 1)(k));
    let b = |k: int| value(Arithmetic::<T>::box_term(c, picture, columns, rows, 2)(k));
    crate::averaging::lemma_mean_value(m, value, c, picture, columns, rows, 0, f);
    crate::averaging::lemma_mean_value(m, value, c, picture, columns, rows, 1, g);
    crate::averaging::lemma_mean_value(m, value, c, picture, columns, rows, 2, b);
}

/// All that is known of the pairs of a copy are finite numbers, and no order is
/// beyond minus one and one.
proof fn lemma_copy_is_real<S, T>(
    m: Arithmetic<T>,
    value: spec_fn(T) -> real,
    c: Codec<S, T>,
    picture: Picture<S>,
    max_extent: int,
)
    requires
        m.is_ideal(value),
        forall|s: S| (m.is_finite)(#[trigger] (c.to_unit)(s)),
        0 < picture.width,
        0 < picture.height,
        picture.area() <= u64::MAX,
        0 < max_extent,
    ensures
        m.is_real(value, m.evidence(m.downscaled_planes(c, picture, max_extent))),
{
    let copy = m.downscaled_planes(c, picture, max_extent);
    let pairs = copy.neighbors();
    let evidence = m.evidence(copy);
    crate::averaging::law_the_copy_is_no_larger(m, picture.width, picture.height, max_extent);
    crate::pairs::lemma_count_bound(pairs);
    assert forall|k: int| 0 <= k < pairs.count() implies m.is_finite_color(
        copy,
        #[trigger] pairs.first(k),
    ) && m.is_finite_color(copy, pairs.second(k)) by {
        crate::pairs::lemma_ends(pairs, k);
        lemma_copy_is_finite(m, value, c, picture, max_extent, pairs.first(k));
        lemma_copy_is_finite(m, value, c, picture, max_extent, pairs.second(k));
    }
    assert forall|j: int, k: int|
        0 <= j < NUM_MONOMIALS && 0 <= k < evidence.pairs() implies (m.is_finite)(
        #[trigger] evidence.basis[j][k],
    ) by {
        let (x, y) = (pairs.first(k), pairs.second(k));
        assert(m.is_finite_color(copy, x) && m.is_finite_color(copy, y));
        crate::formulas::lemma_monomial_is_finite(m, value, copy, x, j);
        crate::formulas::lemma_monomial_is_finite(m, value, copy, y, j);
    }
    assert forall|k: int| 0 <= k < evidence.pairs() implies (m.is_finite)(
        #[trigger] evidence.contrast[k],
    ) by {
        assert(m.is_finite_color(copy, pairs.first(k)));
        crate::formulas::law_contrast_is_the_distance_in_cielab(m, value, copy, k);
    }
    assert forall|k: int| 0 <= k < evidence.pairs() implies (m.is_finite)(
        #[trigger] evidence.order[k],
    ) && -(1 as real) <= value(evidence.order[k]) <= 1 as real by {
        assert(m.is_finite_color(copy, pairs.first(k)));
        crate::formulas::law_the_weak_order_compares_all_channels(m, value, copy, k);
        assert((m.is_finite)(m.one()) && (m.is_finite)(m.zero()));
        assert((m.is_finite)((m.negated)(m.one())));
    }
}

/// Every picture is fitted, whatever its extents: where there is a budget and the
/// normal equations at the channel average are answered, the mapping that is
/// applied fits the copy at least as well as that answer does, and that answer at
/// least as well as the channel average. The mapping is returned.
pub proof fn law_every_picture_is_fitted<S, T>(
    m: Arithmetic<T>,
    value: spec_fn(T) -> real,
    e: Exponential,
    c: Codec<S, T>,
    picture: Picture<S>,
    options: DecolorizeOptions<T>,
    next: Seq<T>,
) -> (weights: Seq<T>)
    requires
        0 < picture.width,
        0 < picture.height,
        picture.area() <= u64::MAX,
        options.fitting_size > 0,
        options.max_iterations >= 1,
        (m.is_finite)(options.sigma),
        value(options.sigma) > 0 as real,
        m.is_ideal(value),
        m.measures(value, e),
        m.solves(value),
        m.infinity_is_far(),
        forall|s: S| (m.is_finite)(#[trigger] (c.to_unit)(s)),
        ({
            let copy = m.downscaled_planes(c, picture, options.fitting_size as int);
            let evidence = m.evidence(copy);
            &&& 0 < evidence.pairs() <= u64::MAX
            &&& (m.solve)(
                m.gram(evidence),
                m.totals(evidence, m.initial_weights(), options.sigma).rhs,
            ) == Some(next)
        }),
        m.all_finite(next),
    ensures
        ({
            let copy = m.downscaled_planes(c, picture, options.fitting_size as int);
            let energy = |w: Seq<T>| value(m.totals(m.evidence(copy), w, options.sigma).energy);
            &&& m.decolorized(c, picture, options) == m.polynomial_grays(c, picture, weights)
            &&& m.all_finite(weights)
            &&& energy(weights) <= energy(next)
            &&& energy(next) <= energy(m.initial_weights())
        }),
{
    let copy = m.downscaled_planes(c, picture, options.fitting_size as int);
    let evidence = m.evidence(copy);
    let initial = m.initial_weights();
    lemma_copy_is_real(m, value, c, picture, options.fitting_size as int);
    crate::exact::lemma_initial_weights_are_finite(m, value);
    crate::laws::law_the_coefficients_are_finite(m, copy, options);
    law_the_mapping_is_fitted_on_the_copy(m, c, picture, options, options);
    lemma_mean_energy(m, value, e, evidence, initial, options.sigma);
    let budget = options.max_iterations as nat;
    crate::likelihood::law_a_larger_budget_fits_no_worse(
        m,
        value,
        e,
        evidence,
        options,
        initial,
        m.infinity,
        1,
        budget,
    );
    let energy = m.mean_energy(evidence, initial, options.sigma);
    assert(!(m.less)((m.absolute)((m.minus)(energy, m.infinity)), options.tolerance));
    assert(m.iterated(evidence, options, next, energy, 0) == next);
    assert(m.iterated(evidence, options, initial, m.infinity, 1) == next);
    crate::likelihood::lemma_system_is_finite(m, value, e, evidence, initial, options.sigma);
    crate::likelihood::law_an_iteration_fits_no_worse(
        m,
        value,
        e,
        evidence,
        initial,
        next,
        options.sigma,
    );
    m.fitted_weights(copy, options)
}

/// The objective has settled where the change per pair is less than the
/// tolerance.
proof fn lemma_settled<T>(
    m: Arithmetic<T>,
    value: spec_fn(T) -> real,
    e: Exponential,
    evidence: Evidence<T>,
    sigma: T,
    tolerance: T,
    before: Seq<T>,
    after: Seq<T>,
)
    requires
        m.is_fittable(value, e, evidence, sigma),
        m.is_ideal(value),
        (m.is_finite)(tolerance),
        0 < evidence.pairs() <= u64::MAX,
        m.all_finite(before),
        m.all_finite(after),
    ensures
        m.has_settled(value, evidence, sigma, tolerance, before, after) <==> (m.less)(
            (m.absolute)(
                (m.minus)(
                    m.mean_energy(evidence, after, sigma),
                    m.mean_energy(evidence, before, sigma),
                ),
            ),
            tolerance,
        ),
{
    crate::likelihood::lemma_totals_value(m, value, e, evidence, before, sigma);
    crate::likelihood::lemma_totals_value(m, value, e, evidence, after, sigma);
    let number = (m.from_int)(evidence.pairs() as u64);
    let n = evidence.pairs() as real;
    assert(value(number) == n && (m.is_finite)(number));
    let (p, q) = (m.mean_energy(evidence, before, sigma), m.mean_energy(evidence, after, sigma));
    assert((m.is_finite)(p) && (m.is_finite)(q));
    let change = (m.minus)(q, p);
    let size = (m.absolute)(change);
    assert((m.is_finite)(change) && (m.is_finite)(size));
    let d = value(q) - value(p);
    let total = value(m.totals(evidence, after, sigma).energy) - value(
        m.totals(evidence, before, sigma).energy,
    );
    assert(value(p) * n == value(m.totals(evidence, before, sigma).energy));
    assert(value(q) * n == value(m.totals(evidence, after, sigma).energy));
    lemma_magnitude_product(value(q), value(p), n);
    let (s, t) = (crate::rounding::magnitude(d), value(tolerance));
    assert(value(size) == s);
    if s < t {
        crate::reals::lemma_multiple(n, s, t);
    } else {
        crate::reals::lemma_share(n, t, s);
    }
}

/// The size of a difference, times a positive number.
proof fn lemma_magnitude_product(q: real, p: real, n: real)
    requires
        n > 0 as real,
    ensures
        crate::rounding::magnitude(q * n - p * n) == crate::rounding::magnitude(q - p) * n,
{
    let d = q - p;
    assert(d * n == q * n - p * n) by (nonlinear_arith)
        requires
            d == q - p,
    ;
    assert(-d * n == -(d * n)) by (nonlinear_arith);
    if d < 0 as real {
        crate::reals::lemma_multiple(n, d, 0 as real);
    } else {
        crate::reals::lemma_share(n, 0 as real, d);
    }
    assert(0 as real * n == 0 as real);
}

/// The mappings that an iteration goes through.
proof fn lemma_trace<T>(
    m: Arithmetic<T>,
    value: spec_fn(T) -> real,
    e: Exponential,
    evidence: Evidence<T>,
    options: DecolorizeOptions<T>,
    before: Seq<T>,
    weights: Seq<T>,
    left: nat,
) -> (trace: Seq<Seq<T>>)
    requires
        m.is_fittable(value, e, evidence, options.sigma),
        m.is_ideal(value),
        m.solves(value),
        (m.is_finite)(options.tolerance),
        0 < evidence.pairs() <= u64::MAX,
        m.all_finite(before),
        m.all_finite(weights),
    ensures
        1 <= trace.len() <= left + 1,
        trace[0] == weights,
        trace[trace.len() - 1] == m.iterated(
            evidence,
            options,
            weights,
            m.mean_energy(evidence, before, options.sigma),
            left,
        ),
        forall|i: int| 0 <= i < trace.len() ==> m.all_finite(#[trigger] trace[i]),
        forall|i: int|
            0 <= i < trace.len() - 1 ==> m.answers(
                value,
                m.gram(evidence),
                m.totals(evidence, #[trigger] trace[i], options.sigma).rhs,
                trace[i + 1],
            ),
        forall|i: int|
            0 <= i < trace.len() - 1 ==> !m.has_settled(
                value,
                evidence,
                options.sigma,
                options.tolerance,
                if i == 0 {
                    before
                } else {
                    trace[i - 1]
                },
                #[trigger] trace[i],
            ),
        ({
            let last = trace.len() - 1;
            ||| trace.len() == left + 1
            ||| !m.is_answered(evidence, options.sigma, trace[last])
            ||| m.has_settled(
                value,
                evidence,
                options.sigma,
                options.tolerance,
                if last == 0 {
                    before
                } else {
                    trace[last - 1]
                },
                trace[last],
            )
        }),
    decreases left,
{
    let sigma = options.sigma;
    let alone = seq![weights];
    if left == 0 {
        alone
    } else {
        let totals = m.totals(evidence, weights, sigma);
        let energy = m.mean_energy(evidence, weights, sigma);
        lemma_settled(m, value, e, evidence, sigma, options.tolerance, before, weights);
        if m.has_settled(value, evidence, sigma, options.tolerance, before, weights) {
            alone
        } else {
            match (m.solve)(m.gram(evidence), totals.rhs) {
                Some(next) if m.all_finite(next) => {
                    crate::likelihood::lemma_system_is_finite(
                        m,
                        value,
                        e,
                        evidence,
                        weights,
                        sigma,
                    );
                    let rest = lemma_trace(
                        m,
                        value,
                        e,
                        evidence,
                        options,
                        weights,
                        next,
                        (left - 1) as nat,
                    );
                    let trace = alone + rest;
                    assert(trace[trace.len() - 1] == rest[rest.len() - 1]);
                    assert forall|i: int| 0 <= i < trace.len() implies m.all_finite(
                        #[trigger] trace[i],
                    ) by {
                        if i > 0 {
                            assert(trace[i] == rest[i - 1]);
                        }
                    }
                    assert forall|i: int| 0 <= i < trace.len() - 1 implies m.answers(
                        value,
                        m.gram(evidence),
                        m.totals(evidence, #[trigger] trace[i], sigma).rhs,
                        trace[i + 1],
                    ) by {
                        if i > 0 {
                            assert(trace[i] == rest[i - 1] && trace[i + 1] == rest[i]);
                        }
                    }
                    assert forall|i: int| 0 <= i < trace.len() - 1 implies !m.has_settled(
                        value,
                        evidence,
                        sigma,
                        options.tolerance,
                        if i == 0 {
                            before
                        } else {
                            trace[i - 1]
                        },
                        #[trigger] trace[i],
                    ) by {
                        if i > 0 {
                            assert(trace[i] == rest[i - 1]);
                            if i > 1 {
                                assert(trace[i - 1] == rest[i - 2]);
                            }
                        }
                    }
                    if rest.len() > 1 {
                        assert(trace[trace.len() - 2] == rest[rest.len() - 2]);
                    }
                    trace
                },
                _ => alone,
            }
        }
    }
}

/// How a mapping comes about: from the channel average, each mapping answers the
/// normal equations at the one before, and the iteration goes on until its budget
/// is spent, the equations have no answer or the objective has settled, and no
/// longer. The mappings are returned, the first to the last.
pub proof fn law_fitting_iterates_until_it_settles<T>(
    m: Arithmetic<T>,
    value: spec_fn(T) -> real,
    e: Exponential,
    planes: PlaneSet<T>,
    options: DecolorizeOptions<T>,
) -> (trace: Seq<Seq<T>>)
    requires
        m.is_fittable(value, e, m.evidence(planes), options.sigma),
        m.is_ideal(value),
        m.solves(value),
        m.infinity_is_far(),
        (m.is_finite)(options.tolerance),
        0 < m.evidence(planes).pairs() <= u64::MAX,
    ensures
        ({
            let evidence = m.evidence(planes);
            let (sigma, tolerance) = (options.sigma, options.tolerance);
            let last = trace.len() - 1;
            &&& 1 <= trace.len() <= options.max_iterations + 1
            &&& trace[last] == m.fitted_weights(planes, options)
            &&& forall|j: int|
                0 <= j < NUM_MONOMIALS ==> value(#[trigger] trace[0][j]) * (3 as real) == if j < 3 {
                    1 as real
                } else {
                    0 as real
                }
            &&& forall|i: int|
                0 <= i < last ==> m.answers(
                    value,
                    m.gram(evidence),
                    m.totals(evidence, #[trigger] trace[i], sigma).rhs,
                    trace[i + 1],
                )
            &&& forall|i: int|
                1 <= i < last ==> !m.has_settled(
                    value,
                    evidence,
                    sigma,
                    tolerance,
                    trace[i - 1],
                    #[trigger] trace[i],
                )
            &&& {
                ||| trace.len() == options.max_iterations + 1
                ||| !m.is_answered(evidence, sigma, trace[last])
                ||| last >= 1 && m.has_settled(
                    value,
                    evidence,
                    sigma,
                    tolerance,
                    trace[last - 1],
                    trace[last],
                )
            }
        }),
{
    let evidence = m.evidence(planes);
    let initial = m.initial_weights();
    let sigma = options.sigma;
    crate::exact::lemma_initial_weights_are_finite(m, value);
    crate::exact::lemma_ratio(m, value, 1, 3);
    assert(value(m.zero()) == 0 as real);
    lemma_mean_energy(m, value, e, evidence, initial, sigma);
    let energy = m.mean_energy(evidence, initial, sigma);
    assert(!(m.less)((m.absolute)((m.minus)(energy, m.infinity)), options.tolerance));
    let alone = seq![initial];
    let left = options.max_iterations as nat;
    if left == 0 {
        alone
    } else {
        let totals = m.totals(evidence, initial, sigma);
        match (m.solve)(m.gram(evidence), totals.rhs) {
            Some(next) if m.all_finite(next) => {
                crate::likelihood::lemma_system_is_finite(m, value, e, evidence, initial, sigma);
                let rest = lemma_trace(
                    m,
                    value,
                    e,
                    evidence,
                    options,
                    initial,
                    next,
                    (left - 1) as nat,
                );
                let trace = alone + rest;
                assert(trace[trace.len() - 1] == rest[rest.len() - 1]);
                assert forall|i: int| 0 <= i < trace.len() - 1 implies m.answers(
                    value,
                    m.gram(evidence),
                    m.totals(evidence, #[trigger] trace[i], sigma).rhs,
                    trace[i + 1],
                ) by {
                    if i > 0 {
                        assert(trace[i] == rest[i - 1] && trace[i + 1] == rest[i]);
                    }
                }
                assert forall|i: int| 1 <= i < trace.len() - 1 implies !m.has_settled(
                    value,
                    evidence,
                    sigma,
                    options.tolerance,
                    trace[i - 1],
                    #[trigger] trace[i],
                ) by {
                    assert(trace[i] == rest[i - 1]);
                    if i > 1 {
                        assert(trace[i - 1] == rest[i - 2]);
                    }
                }
                if rest.len() > 1 {
                    assert(trace[trace.len() - 2] == rest[rest.len() - 2]);
                }
                trace
            },
            _ => alone,
        }
    }
}

/// The candidates are ordered by their red weight, then by their green weight.
proof fn lemma_weighting_order(end: int)
    requires
        0 <= end <= WEIGHT_STEPS + 1,
    ensures
        forall|i: int|
            0 <= i < Weighting::rows(end).len() ==> (#[trigger] Weighting::rows(end)[i]).r < end,
        forall|i: int, j: int|
            0 <= i < j < Weighting::rows(end).len() ==> {
                let a = #[trigger] Weighting::rows(end)[i];
                let b = #[trigger] Weighting::rows(end)[j];
                a.r < b.r || a.r == b.r && a.g < b.g
            },
    decreases end,
{
    if end > 0 {
        lemma_weighting_order(end - 1);
        let (before, row) = (Weighting::rows(end - 1), Weighting::row(end - 1));
        let all = Weighting::rows(end);
        assert(all == before + row);
        assert forall|i: int, j: int| 0 <= i < j < all.len() implies ({
            let (a, b) = (#[trigger] all[i], #[trigger] all[j]);
            a.r < b.r || a.r == b.r && a.g < b.g
        }) by {
            if j < before.len() {
                assert(all[i] == before[i] && all[j] == before[j]);
            } else if i < before.len() {
                assert(all[i] == before[i] && before[i].r < end - 1);
            }
        }
    }
}

/// The largest of some finite numbers, the last one where several are largest.
proof fn lemma_last_largest<T>(
    m: Arithmetic<T>,
    value: spec_fn(T) -> real,
    numbers: Seq<T>,
    count: int,
)
    requires
        m.is_ideal(value),
        1 <= count <= numbers.len(),
        forall|i: int| 0 <= i < count ==> (m.is_finite)(#[trigger] numbers[i]),
    ensures
        ({
            let best = m.last_largest(numbers, count);
            &&& 0 <= best < count
            &&& forall|i: int|
                0 <= i < count ==> value(#[trigger] numbers[i]) <= value(numbers[best])
            &&& forall|i: int|
                best < i < count ==> value(#[trigger] numbers[i]) < value(numbers[best])
        }),
    decreases count,
{
    if count > 1 {
        lemma_last_largest(m, value, numbers, count - 1);
        let before = m.last_largest(numbers, count - 1);
        assert((m.is_finite)(numbers[before]) && (m.is_finite)(numbers[count - 1]));
    }
}

/// The search finds a best weighting in steps of a tenth: the weights that it
/// returns are tenths that sum to one, no other such weights score higher, and
/// none that score as high have more red, or as much red and more green. The
/// tenths are returned.
pub proof fn law_the_search_finds_the_best_tenths<T>(
    m: Arithmetic<T>,
    value: spec_fn(T) -> real,
    e: Exponential,
    pairs: Seq<Pair<T>>,
    sigma: T,
) -> (best: Weighting)
    requires
        m.is_ideal(value),
        m.measures(value, e),
        m.are_real_pairs(pairs),
        (m.is_finite)(sigma),
        value(sigma) > 0 as real,
        0 < pairs.len() <= u64::MAX,
    ensures
        best.r + best.g + best.b == 10,
        ({
            let found = m.best_weights(pairs, sigma);
            &&& found == seq![m.ratio(best.r, 10), m.ratio(best.g, 10), m.ratio(best.b, 10)]
            &&& value(found[0]) * (10 as real) == best.r as real
            &&& value(found[1]) * (10 as real) == best.g as real
            &&& value(found[2]) * (10 as real) == best.b as real
            &&& forall|other: Seq<T>, r: u64, g: u64, b: u64|
                #![trigger m.score(pairs, other, sigma), tenths(r, g, b)]
                tenths(r, g, b) && other == seq![m.ratio(r, 10), m.ratio(g, 10), m.ratio(b, 10)]
                    ==> {
                    &&& value(m.score(pairs, other, sigma)) <= value(m.score(pairs, found, sigma))
                    &&& value(m.score(pairs, other, sigma)) == value(m.score(pairs, found, sigma))
                        ==> r < best.r || r == best.r && g <= best.g
                }
        }),
{
    let v = value(sigma);
    let whole = 2 as real * v * v;
    crate::reals::lemma_multiple(v, 0 as real, 2 as real * v);
    assert(0 as real * v == 0 as real);
    let precision = 1 as real / whole;
    assert(precision * whole == 1 as real) by (nonlinear_arith)
        requires
            precision == 1 as real / whole,
            whole > 0 as real,
    ;
    crate::laws::law_the_candidates_are_the_convex_weightings();
    lemma_weighting_order(WEIGHT_STEPS + 1);
    let all = Weighting::all();
    let scores = m.scores(pairs, sigma);
    assert forall|i: int| 0 <= i < all.len() implies (m.is_finite)(#[trigger] scores[i]) by {
        lemma_tenths(m, value, all[i]);
        crate::scoring::law_a_score_is_the_mean_log_likelihood(
            m,
            value,
            e,
            pairs,
            m.channel_weights(all[i]),
            sigma,
            precision,
        );
    }
    lemma_last_largest(m, value, scores, scores.len() as int);
    let at = m.last_largest(scores, scores.len() as int);
    let best = all[at];
    let found = m.best_weights(pairs, sigma);
    assert(found == m.channel_weights(best));
    assert(found =~= seq![m.ratio(best.r, 10), m.ratio(best.g, 10), m.ratio(best.b, 10)]);
    lemma_tenths(m, value, best);
    assert forall|other: Seq<T>, r: u64, g: u64, b: u64|
        #![trigger m.score(pairs, other, sigma), tenths(r, g, b)]
        tenths(r, g, b) && other == seq![m.ratio(r, 10), m.ratio(g, 10), m.ratio(b, 10)] implies {
        &&& value(m.score(pairs, other, sigma)) <= value(m.score(pairs, found, sigma))
        &&& value(m.score(pairs, other, sigma)) == value(m.score(pairs, found, sigma)) ==> r
            < best.r || r == best.r && g <= best.g
    } by {
        let w = Weighting { r, g, b };
        assert(all.contains(w));
        let i = choose|i: int| 0 <= i < all.len() && all[i] == w;
        assert(m.channel_weights(w) =~= other);
        assert(scores[i] == m.score(pairs, other, sigma));
        assert(scores[at] == m.score(pairs, found, sigma));
        if i < at {
            assert(all[i].r < all[at].r || all[i].r == all[at].r && all[i].g < all[at].g);
        }
    }
    best
}

/// Whether three numbers of tenths sum to one.
pub open spec fn tenths(r: u64, g: u64, b: u64) -> bool {
    r + g + b == 10
}

/// The weights of a weighting are its tenths.
proof fn lemma_tenths<T>(m: Arithmetic<T>, value: spec_fn(T) -> real, w: Weighting)
    requires
        m.is_exact(value),
    ensures
        ({
            let weights = m.channel_weights(w);
            &&& (m.is_finite)(weights[0]) && value(weights[0]) * (10 as real) == w.r as real
            &&& (m.is_finite)(weights[1]) && value(weights[1]) * (10 as real) == w.g as real
            &&& (m.is_finite)(weights[2]) && value(weights[2]) * (10 as real) == w.b as real
        }),
{
    crate::exact::lemma_ratio(m, value, w.r, WEIGHT_STEPS);
    crate::exact::lemma_ratio(m, value, w.g, WEIGHT_STEPS);
    crate::exact::lemma_ratio(m, value, w.b, WEIGHT_STEPS);
    assert(value((m.from_int)(WEIGHT_STEPS)) == 10 as real);
}

/// What the search finds is what is applied, whatever the extents of the picture:
/// the weights that suit the sampled pairs best, or the channel average where no
/// pair carries contrast. The gray of a pixel is the sample for what they make of
/// its channels. The weights are returned, with what the sample of pixel `i` is
/// for.
pub proof fn law_every_picture_gets_the_weights_that_the_search_finds<S, T>(
    m: Arithmetic<T>,
    value: spec_fn(T) -> real,
    c: Codec<S, T>,
    picture: Picture<S>,
    options: FastDecolorizeOptions<T>,
    i: int,
) -> (r: (Seq<T>, T))
    requires
        m.is_exact(value),
        0 <= i < picture.area(),
        (m.is_finite)((c.to_unit)(picture.colors[i].0)),
        (m.is_finite)((c.to_unit)(picture.colors[i].1)),
        (m.is_finite)((c.to_unit)(picture.colors[i].2)),
    ensures
        ({
            let (weights, unit) = r;
            let pairs = m.sampled_pairs(c, picture, options);
            let grays = m.fast_decolorized(c, picture, options);
            &&& weights == m.best_weights(pairs, options.sigma)
            &&& pairs.len() == 0 ==> forall|k: int|
                0 <= k < 3 ==> value(#[trigger] weights[k]) * (3 as real) == 1 as real
            &&& grays.len() == picture.area()
            &&& grays[i] == (c.from_unit)(unit)
            &&& (m.is_finite)(unit)
            &&& value(unit) == value(weights[0]) * value((c.to_unit)(picture.colors[i].0)) + value(
                weights[1],
            ) * value((c.to_unit)(picture.colors[i].1)) + value(weights[2]) * value(
                (c.to_unit)(picture.colors[i].2),
            )
        }),
{
    crate::laws::lemma_not_empty(picture);
    let pairs = m.sampled_pairs(c, picture, options);
    let weights = m.best_weights(pairs, options.sigma);
    crate::exact::law_the_weights_are_convex(m, value, pairs, options.sigma);
    assert((m.is_finite)(weights[0]) && (m.is_finite)(weights[1]) && (m.is_finite)(weights[2]));
    crate::exact::lemma_ratio(m, value, 1, 3);
    let unit = crate::scoring::law_a_gray_weights_the_channels_of_its_pixel(
        m,
        value,
        c,
        picture,
        weights,
        i,
    );
    (weights, unit)
}

/// Where the items that are kept were.
proof fn lemma_kept<A>(items: Seq<A>, keep: spec_fn(A) -> bool) -> (at: Seq<int>)
    ensures
        at.len() == items.filter(keep).len(),
        forall|k: int|
            0 <= k < at.len() ==> 0 <= #[trigger] at[k] < items.len() && items.filter(keep)[k]
                == items[at[k]],
        forall|j: int, k: int| 0 <= j < k < at.len() ==> #[trigger] at[j] < #[trigger] at[k],
        forall|i: int| 0 <= i < items.len() ==> (keep(#[trigger] items[i]) <==> at.contains(i)),
    decreases items.len(),
{
    reveal(Seq::filter);
    if items.len() == 0 {
        Seq::empty()
    } else {
        let (before, n) = (items.drop_last(), items.len() - 1);
        let rest = lemma_kept(before, keep);
        assert forall|i: int| 0 <= i < n implies (keep(#[trigger] items[i]) <==> rest.contains(
            i,
        )) by {
            assert(items[i] == before[i]);
        }
        if keep(items.last()) {
            let at = rest.push(n);
            assert forall|i: int| 0 <= i < items.len() implies (keep(#[trigger] items[i])
                <==> at.contains(i)) by {
                if i < n {
                    if at.contains(i) {
                        let k = choose|k: int| 0 <= k < at.len() && at[k] == i;
                        assert(rest[k] == i);
                    }
                    if rest.contains(i) {
                        let k = choose|k: int| 0 <= k < rest.len() && rest[k] == i;
                        assert(at[k] == i);
                    }
                } else {
                    assert(at[rest.len() as int] == i);
                }
            }
            at
        } else {
            assert(!rest.contains(n));
            rest
        }
    }
}

/// The pairs that are scored are those of the drawn pairs whose contrast reaches
/// the threshold, each once and in the order in which they are drawn. It is
/// returned which of the drawn pairs they are.
pub proof fn law_the_scored_pairs_are_the_contrasting_ones<S, T>(
    m: Arithmetic<T>,
    c: Codec<S, T>,
    picture: Picture<S>,
    options: FastDecolorizeOptions<T>,
) -> (at: Seq<int>)
    ensures
        ({
            let places = m.places(picture.width, picture.height, options.samples, options.seed);
            let pairs = m.sampled_pairs(c, picture, options);
            &&& at.len() == pairs.len()
            &&& forall|k: int|
                0 <= k < at.len() ==> 0 <= #[trigger] at[k] < places.len() && pairs[k] == m.pair_at(
                    c,
                    picture,
                    places[at[k]],
                )
            &&& forall|j: int, k: int| 0 <= j < k < at.len() ==> #[trigger] at[j] < #[trigger] at[k]
            &&& forall|i: int|
                0 <= i < places.len() ==> ((m.at_most)(
                    options.contrast_threshold,
                    m.pair_at(c, picture, #[trigger] places[i]).contrast,
                ) <==> at.contains(i))
        }),
{
    let places = m.places(picture.width, picture.height, options.samples, options.seed);
    let drawn = places.map_values(|place: (Point, Point)| m.pair_at(c, picture, place));
    let reaches = |pair: Pair<T>| (m.at_most)(options.contrast_threshold, pair.contrast);
    let at = lemma_kept(drawn, reaches);
    assert(m.sampled_pairs(c, picture, options) == drawn.filter(reaches));
    assert forall|i: int| 0 <= i < places.len() implies ((m.at_most)(
        options.contrast_threshold,
        m.pair_at(c, picture, #[trigger] places[i]).contrast,
    ) <==> at.contains(i)) by {
        assert(reaches(drawn[i]) <==> at.contains(i));
    }
    at
}

/// All that is known of the pairs that are sampled from a picture are finite
/// numbers.
proof fn lemma_sampled_pairs_are_real<S, T>(
    m: Arithmetic<T>,
    value: spec_fn(T) -> real,
    c: Codec<S, T>,
    picture: Picture<S>,
    options: FastDecolorizeOptions<T>,
)
    requires
        m.is_ideal(value),
        forall|s: S| (m.is_finite)(#[trigger] (c.to_unit)(s)),
    ensures
        m.are_real_pairs(m.sampled_pairs(c, picture, options)),
{
    let places = m.places(picture.width, picture.height, options.samples, options.seed);
    let pairs = m.sampled_pairs(c, picture, options);
    let at = law_the_scored_pairs_are_the_contrasting_ones(m, c, picture, options);
    assert forall|k: int| 0 <= k < pairs.len() implies ({
        let pair = #[trigger] pairs[k];
        &&& (m.is_finite)(pair.difference.0)
        &&& (m.is_finite)(pair.difference.1)
        &&& (m.is_finite)(pair.difference.2)
        &&& (m.is_finite)(pair.contrast)
    }) by {
        assert(0 <= at[k] < places.len());
        crate::formulas::law_a_sampled_pair_measures_the_distance_in_rgb(
            m,
            value,
            c,
            picture,
            places[at[k]],
        );
    }
}

/// Every picture is searched, whatever its extents: where a sampled pair carries
/// contrast, the weights that are applied are tenths that sum to one, and no
/// tenths score higher on the sampled pairs. The tenths are returned.
pub proof fn law_every_picture_is_searched<S, T>(
    m: Arithmetic<T>,
    value: spec_fn(T) -> real,
    e: Exponential,
    c: Codec<S, T>,
    picture: Picture<S>,
    options: FastDecolorizeOptions<T>,
) -> (best: Weighting)
    requires
        m.is_ideal(value),
        m.measures(value, e),
        forall|s: S| (m.is_finite)(#[trigger] (c.to_unit)(s)),
        0 < picture.width,
        0 < picture.height,
        (m.is_finite)(options.sigma),
        value(options.sigma) > 0 as real,
        0 < m.sampled_pairs(c, picture, options).len() <= u64::MAX,
    ensures
        best.r + best.g + best.b == 10,
        ({
            let found = seq![m.ratio(best.r, 10), m.ratio(best.g, 10), m.ratio(best.b, 10)];
            let pairs = m.sampled_pairs(c, picture, options);
            &&& m.fast_decolorized(c, picture, options) == m.linear_grays(c, picture, found)
            &&& forall|other: Seq<T>, r: u64, g: u64, b: u64|
                #![trigger m.score(pairs, other, options.sigma), tenths(r, g, b)]
                tenths(r, g, b) && other == seq![m.ratio(r, 10), m.ratio(g, 10), m.ratio(b, 10)]
                    ==> value(m.score(pairs, other, options.sigma)) <= value(
                    m.score(pairs, found, options.sigma),
                )
        }),
{
    lemma_sampled_pairs_are_real(m, value, c, picture, options);
    law_the_search_finds_the_best_tenths(
        m,
        value,
        e,
        m.sampled_pairs(c, picture, options),
        options.sigma,
    )
}

} // verus!
