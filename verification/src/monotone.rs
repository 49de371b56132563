//! What rounding leaves intact.
//!
//! Double precision operations round, but they round in order: they keep what
//! is at most something else at most the rounded something else, and they are
//! exact on integers. [`Arithmetic::is_monotone`] collects these facts, and the
//! laws of this module hold of every arithmetic that has them.
use crate::definitions::Picture;
use crate::options::FastDecolorizeOptions;
use crate::planes::{PlaneSet, Span};
use crate::sampling::{Grid, Pair, Point};
use crate::scalar::Arithmetic;
use crate::search::{Weighting, WEIGHT_STEPS};
use crate::subpixel::Codec;
use vstd::prelude::*;

verus! {

impl<T> Arithmetic<T> {
    /// Whether a value is a number at all.
    pub open spec fn is_number(self, a: T) -> bool {
        (self.at_most)(a, a)
    }

    /// Whether a number is finite and greater than zero.
    pub open spec fn is_positive(self, a: T) -> bool {
        (self.is_finite)(a) && (self.less)(self.zero(), a)
    }

    /// Numbers are ordered.
    pub open spec fn orders_numbers(self) -> bool {
        &&& forall|a: T, b: T, c: T|
            #![trigger (self.at_most)(a, b), (self.at_most)(b, c)]
            (self.at_most)(a, b) && (self.at_most)(b, c) ==> (self.at_most)(a, c)
        &&& forall|a: T, b: T| #[trigger]
            (self.at_most)(a, b) ==> self.is_number(a) && self.is_number(b)
        &&& forall|a: T, b: T| #[trigger]
            (self.less)(a, b) <==> self.is_number(a) && self.is_number(b) && !(self.at_most)(b, a)
        &&& forall|a: T, b: T|
            #![trigger self.is_number(a), self.is_number(b)]
            self.is_number(a) && self.is_number(b) ==> (self.at_most)(a, b) || (self.at_most)(b, a)
        &&& forall|a: T| #[trigger] (self.is_finite)(a) ==> self.is_number(a)
        &&& forall|a: T, b: T, c: T|
            #![trigger (self.at_most)(a, b), (self.at_most)(b, c)]
            (self.is_finite)(a) && (self.at_most)(a, b) && (self.at_most)(b, c) && (self.is_finite)(
                c,
            ) ==> (self.is_finite)(b)
    }

    /// The smaller and the larger of two numbers are one of the two.
    pub open spec fn picks_extremes(self) -> bool {
        &&& forall|a: T, b: T|
            self.is_number(a) && self.is_number(b) ==> {
                let r = #[trigger] (self.smaller)(a, b);
                (r == a || r == b) && (self.at_most)(r, a) && (self.at_most)(r, b)
            }
        &&& forall|a: T, b: T|
            self.is_number(a) && self.is_number(b) ==> {
                let r = #[trigger] (self.larger)(a, b);
                (r == a || r == b) && (self.at_most)(a, r) && (self.at_most)(b, r)
            }
        &&& forall|a: T| self.is_number(a) ==> #[trigger] (self.smaller)(self.infinity, a) == a
        &&& forall|a: T|
            self.is_number(a) ==> #[trigger] (self.larger)((self.negated)(self.infinity), a) == a
    }

    /// Operations keep the order of their operands.
    pub open spec fn keeps_order(self) -> bool {
        &&& forall|a: T, b: T, c: T|
            #![trigger (self.minus)(a, c), (self.minus)(b, c)]
            (self.is_finite)(a) && (self.is_finite)(b) && (self.is_finite)(c) && (self.at_most)(
                a,
                b,
            ) ==> (self.at_most)((self.minus)(a, c), (self.minus)(b, c))
        &&& forall|a: T, b: T, c: T, d: T|
            #![trigger (self.plus)(a, c), (self.plus)(b, d)]
            (self.is_finite)(a) && (self.is_finite)(b) && (self.is_finite)(c) && (self.is_finite)(d)
                && (self.at_most)(a, b) && (self.at_most)(c, d) ==> (self.at_most)(
                (self.plus)(a, c),
                (self.plus)(b, d),
            )
        &&& forall|a: T, b: T, c: T|
            #![trigger (self.over)(a, c), (self.over)(b, c)]
            (self.at_most)(a, b) && self.is_positive(c) ==> (self.at_most)(
                (self.over)(a, c),
                (self.over)(b, c),
            )
        &&& forall|a: T, b: T|
            (self.at_most)(self.zero(), a) && (self.is_finite)(b) && (self.at_most)(self.one(), b)
                ==> (self.at_most)(#[trigger] (self.over)(a, b), a)
        &&& forall|a: T, b: T, c: T|
            #![trigger (self.times)(a, c), (self.times)(b, c)]
            (self.at_most)(a, b) && self.is_positive(c) ==> (self.at_most)(
                (self.times)(a, c),
                (self.times)(b, c),
            )
        &&& forall|a: T, b: T, c: T|
            #![trigger (self.times)(c, a), (self.times)(c, b)]
            (self.is_finite)(a) && (self.is_finite)(b) && (self.is_finite)(c) && (self.at_most)(
                a,
                b,
            ) && (self.at_most)(self.zero(), c) ==> (self.at_most)(
                (self.times)(c, a),
                (self.times)(c, b),
            )
        &&& forall|a: T, b: T|
            #![trigger (self.single)(a), (self.single)(b)]
            (self.at_most)(a, b) ==> (self.at_most)((self.single)(a), (self.single)(b))
        &&& forall|a: T, b: T|
            #![trigger (self.rounded)(a), (self.rounded)(b)]
            (self.at_most)(a, b) ==> (self.at_most)((self.rounded)(a), (self.rounded)(b))
        &&& forall|a: T, b: T|
            #![trigger (self.truncated)(a), (self.truncated)(b)]
            (self.at_most)(a, b) ==> (self.truncated)(a) <= (self.truncated)(b)
    }

    /// Operations on what is not negative do not give what is negative.
    pub open spec fn keeps_sign(self) -> bool {
        &&& forall|a: T, b: T|
            (self.is_finite)(a) && (self.is_finite)(b) && (self.at_most)(self.zero(), a) && (
            self.at_most)(self.zero(), b) ==> (self.at_most)(
                self.zero(),
                #[trigger] (self.times)(a, b),
            )
        &&& forall|a: T|
            self.is_number(a) ==> (self.at_most)(self.zero(), #[trigger] (self.times)(a, a))
        &&& forall|a: T, b: T|
            (self.at_most)(self.zero(), a) && (self.at_most)(self.zero(), b) ==> (self.at_most)(
                self.zero(),
                #[trigger] (self.plus)(a, b),
            )
        &&& forall|a: T, b: T|
            self.is_number(a) && (self.is_finite)(b) && (self.at_most)(self.zero(), b) ==> (
            self.at_most)(a, #[trigger] (self.plus)(a, b))
        &&& forall|a: T|
            (self.at_most)(self.zero(), a) ==> (self.at_most)(
                self.zero(),
                #[trigger] (self.square_root)(a),
            )
    }

    /// Single precision numbers stay as they are, and different ones have a
    /// difference.
    pub open spec fn tells_singles_apart(self) -> bool {
        &&& forall|a: T| #[trigger] (self.single)((self.single)(a)) == (self.single)(a)
        &&& forall|a: T, b: T|
            (self.single)(a) == a && (self.single)(b) == b && (self.is_finite)(a)
                && (self.is_finite)(b) && (self.less)(a, b) ==> (self.less)(
                self.zero(),
                (self.single)(#[trigger] (self.minus)(b, a)),
            )
    }

    /// Zero and one are neutral.
    pub open spec fn has_units(self) -> bool {
        &&& forall|a: T| (self.is_finite)(a) ==> #[trigger] (self.minus)(a, a) == self.zero()
        &&& forall|a: T|
            self.is_positive(a) ==> #[trigger] (self.over)(self.zero(), a) == self.zero()
        &&& forall|a: T| self.is_positive(a) ==> #[trigger] (self.over)(a, a) == self.one()
        &&& forall|a: T|
            self.is_positive(a) ==> #[trigger] (self.times)(self.zero(), a) == self.zero()
        &&& forall|a: T| self.is_positive(a) ==> #[trigger] (self.times)(self.one(), a) == a
        &&& forall|a: T| (self.is_finite)(a) ==> #[trigger] (self.times)(a, self.one()) == a
        &&& (self.times)(self.zero(), self.zero()) == self.zero()
        &&& (self.plus)(self.zero(), self.zero()) == self.zero()
        &&& (self.single)(self.zero()) == self.zero()
        &&& (self.square_root)(self.zero()) == self.zero()
        &&& self.is_positive((self.square_root)((self.from_int)(2)))
    }

    /// Integers that have a double precision number of their own are exact.
    pub open spec fn counts(self) -> bool {
        &&& forall|n: u64|
            n <= Self::exact_integers() ==> (self.is_finite)(#[trigger] (self.from_int)(n))
        &&& forall|i: u64, j: u64|
            #![trigger (self.from_int)(i), (self.from_int)(j)]
            i <= Self::exact_integers() && j <= Self::exact_integers() ==> ((self.at_most)(
                (self.from_int)(i),
                (self.from_int)(j),
            ) <==> i <= j)
        &&& forall|n: u64|
            n < Self::exact_integers() ==> #[trigger] (self.plus)(
                (self.from_int)(n),
                self.one(),
            ) == (self.from_int)((n + 1) as u64)
        &&& forall|n: u64|
            n <= u32::MAX ==> (self.rounded)(#[trigger] (self.from_int)(n)) == (self.from_int)(n)
        &&& forall|n: u64|
            n <= u32::MAX ==> (self.truncated)(#[trigger] (self.from_int)(n)) == n
        &&& forall|n: u64|
            n * n <= Self::exact_integers() ==> (self.square_root)(
                (self.from_int)(#[trigger] Self::squared(n)),
            ) == (self.from_int)(n)
    }

    /// `n * n`
    pub open spec fn squared(n: u64) -> u64 {
        (n * n) as u64
    }

    /// Up to here every integer has a double precision number of its own.
    pub open spec fn exact_integers() -> u64 {
        0x20_0000_0000_0000
    }

    /// What the laws of this module use of the numbers. Double precision has
    /// all of it.
    pub open spec fn is_monotone(self) -> bool {
        &&& self.orders_numbers()
        &&& self.picks_extremes()
        &&& self.keeps_order()
        &&& self.keeps_sign()
        &&& self.tells_singles_apart()
        &&& self.has_units()
        &&& self.counts()
    }

    /// The extent of the levels of a picture.
    pub open spec fn level_range(self, levels: Seq<T>) -> T {
        (self.single)(
            (self.minus)(self.highest(levels, levels.len()), self.lowest(levels, levels.len())),
        )
    }

    /// Every number is finite.
    pub open spec fn all_levels_finite(self, levels: Seq<T>) -> bool {
        forall|i: int| 0 <= i < levels.len() ==> (self.is_finite)(#[trigger] levels[i])
    }
}

/// Zero is less than one, and both are finite.
proof fn lemma_units<T>(m: Arithmetic<T>)
    requires
        m.is_monotone(),
    ensures
        (m.is_finite)(m.zero()),
        m.is_positive(m.one()),
        (m.at_most)(m.zero(), m.one()),
        !(m.less)(m.one(), m.zero()),
        !(m.less)(m.zero(), m.zero()),
        !(m.less)(m.one(), m.one()),
{
    let (zero, one) = ((m.from_int)(0), (m.from_int)(1));
    assert((m.is_finite)(zero) && (m.is_finite)(one));
    assert((m.at_most)(zero, one));
    assert(!(m.at_most)(one, zero));
}

/// Moving onto an interval keeps the order, and ends in the interval.
proof fn lemma_clamp<T>(m: Arithmetic<T>, a: T, b: T, low: T, high: T)
    requires
        m.is_monotone(),
        (m.at_most)(low, high),
        (m.at_most)(a, b),
    ensures
        (m.at_most)(m.clamp(a, low, high), m.clamp(b, low, high)),
        (m.at_most)(low, m.clamp(a, low, high)),
        (m.at_most)(m.clamp(a, low, high), high),
{
    assert(m.is_number(a) && m.is_number(b) && m.is_number(low) && m.is_number(high));
    assert((m.at_most)(low, a) || (m.at_most)(a, low));
    assert((m.at_most)(low, b) || (m.at_most)(b, low));
    assert((m.at_most)(high, a) || (m.at_most)(a, high));
    assert((m.at_most)(high, b) || (m.at_most)(b, high));
}

/// The lowest of finite numbers is one of them, and at most each of them.
proof fn lemma_lowest<T>(m: Arithmetic<T>, levels: Seq<T>, count: nat)
    requires
        m.is_monotone(),
        m.all_levels_finite(levels),
        0 < count <= levels.len(),
    ensures
        exists|i: int| 0 <= i < count && #[trigger] levels[i] == m.lowest(levels, count),
        forall|i: int|
            0 <= i < count ==> (m.at_most)(m.lowest(levels, count), #[trigger] levels[i]),
        (m.is_finite)(m.lowest(levels, count)),
    decreases count,
{
    let last = levels[count - 1];
    assert((m.is_finite)(last));
    if count > 1 {
        lemma_lowest(m, levels, (count - 1) as nat);
        let before = m.lowest(levels, (count - 1) as nat);
        assert(m.is_number(before) && m.is_number(last));
        let r = (m.smaller)(before, last);
        assert(r == m.lowest(levels, count));
        if r == before {
            let i = choose|i: int| 0 <= i < count - 1 && #[trigger] levels[i] == before;
            assert(levels[i] == r);
        }
        assert forall|i: int| 0 <= i < count implies (m.at_most)(r, #[trigger] levels[i]) by {
            if i < count - 1 {
                assert((m.at_most)(before, levels[i]));
            }
        }
    } else {
        assert(m.lowest(levels, 0) == m.infinity);
        assert(m.lowest(levels, 1) == last);
    }
}

/// The highest of finite numbers is one of them, and at least each of them.
proof fn lemma_highest<T>(m: Arithmetic<T>, levels: Seq<T>, count: nat)
    requires
        m.is_monotone(),
        m.all_levels_finite(levels),
        0 < count <= levels.len(),
    ensures
        exists|i: int| 0 <= i < count && #[trigger] levels[i] == m.highest(levels, count),
        forall|i: int|
            0 <= i < count ==> (m.at_most)(#[trigger] levels[i], m.highest(levels, count)),
        (m.is_finite)(m.highest(levels, count)),
    decreases count,
{
    let last = levels[count - 1];
    assert((m.is_finite)(last));
    if count > 1 {
        lemma_highest(m, levels, (count - 1) as nat);
        let before = m.highest(levels, (count - 1) as nat);
        assert(m.is_number(before) && m.is_number(last));
        let r = (m.larger)(before, last);
        assert(r == m.highest(levels, count));
        if r == before {
            let i = choose|i: int| 0 <= i < count - 1 && #[trigger] levels[i] == before;
            assert(levels[i] == r);
        }
        assert forall|i: int| 0 <= i < count implies (m.at_most)(#[trigger] levels[i], r) by {
            if i < count - 1 {
                assert((m.at_most)(levels[i], before));
            }
        }
    } else {
        assert(m.highest(levels, 0) == (m.negated)(m.infinity));
        assert(m.highest(levels, 1) == last);
    }
}

/// The polynomial mapping uses the full output range: where the levels of two
/// pixels differ at all, some pixel becomes black and some pixel becomes white.
/// This holds whatever the coefficients are, so it holds of the fitted ones.
pub proof fn law_the_output_range_is_full<S, T>(
    m: Arithmetic<T>,
    c: Codec<S, T>,
    picture: Picture<S>,
    weights: Seq<T>,
    i: int,
    j: int,
)
    requires
        m.is_monotone(),
        m.all_levels_finite(m.levels(c, picture, weights)),
        (m.is_finite)(m.level_range(m.levels(c, picture, weights))),
        0 <= i < picture.area(),
        0 <= j < picture.area(),
        (m.less)(m.level(c, picture, weights, i), m.level(c, picture, weights, j)),
    ensures
        m.polynomial_grays(c, picture, weights).contains((c.from_unit)(m.zero())),
        m.polynomial_grays(c, picture, weights).contains((c.from_unit)(m.one())),
{
    lemma_units(m);
    let levels = m.levels(c, picture, weights);
    let grays = m.polynomial_grays(c, picture, weights);
    let n = levels.len();
    lemma_lowest(m, levels, n);
    lemma_highest(m, levels, n);
    let (low, high) = (m.lowest(levels, n), m.highest(levels, n));
    let range = m.level_range(levels);
    let p = choose|p: int| 0 <= p < n && #[trigger] levels[p] == low;
    let q = choose|q: int| 0 <= q < n && #[trigger] levels[q] == high;
    assert((m.single)(levels[p]) == levels[p] && (m.single)(levels[q]) == levels[q]);
    assert((m.less)(low, high)) by {
        assert((m.at_most)(low, levels[i]));
        assert((m.at_most)(levels[j], high));
        assert(!(m.at_most)(levels[j], levels[i]));
        if (m.at_most)(high, low) {
            assert((m.at_most)(levels[j], low));
            assert((m.at_most)(levels[j], levels[i]));
        }
    }
    assert((m.less)(m.zero(), (m.single)((m.minus)(high, low))));
    assert((m.minus)(low, low) == m.zero());
    assert((m.over)(m.zero(), range) == m.zero());
    assert(m.stretched(low, high, low) == m.zero());
    assert(grays[p] == (c.from_unit)(m.zero()));
    assert((m.over)(range, range) == m.one());
    assert(m.stretched(low, high, high) == m.one());
    assert(grays[q] == (c.from_unit)(m.one()));
}

/// Stretching introduces no reversals: what the polynomial puts at most as high
/// stays at most as high on the unit interval.
pub proof fn law_stretching_keeps_the_order<T>(m: Arithmetic<T>, levels: Seq<T>, i: int, j: int)
    requires
        m.is_monotone(),
        m.all_levels_finite(levels),
        (m.is_finite)(m.level_range(levels)),
        0 <= i < levels.len(),
        0 <= j < levels.len(),
        (m.at_most)(levels[i], levels[j]),
    ensures
        ({
            let (low, high) = (m.lowest(levels, levels.len()), m.highest(levels, levels.len()));
            &&& (m.at_most)(
                m.stretched(low, high, levels[i]),
                m.stretched(low, high, levels[j]),
            )
            &&& (m.at_most)(m.zero(), m.stretched(low, high, levels[i]))
            &&& (m.at_most)(m.stretched(low, high, levels[i]), m.one())
        }),
{
    lemma_units(m);
    let n = levels.len();
    lemma_lowest(m, levels, n);
    let (low, high) = (m.lowest(levels, n), m.highest(levels, n));
    let range = m.level_range(levels);
    assert((m.is_finite)(levels[i]) && (m.is_finite)(levels[j]));
    if (m.less)(m.zero(), range) {
        let (a, b) = ((m.minus)(levels[i], low), (m.minus)(levels[j], low));
        assert((m.at_most)(a, b));
        assert((m.at_most)((m.single)(a), (m.single)(b)));
        let (p, q) = ((m.over)((m.single)(a), range), (m.over)((m.single)(b), range));
        assert((m.at_most)(p, q));
        lemma_clamp(m, p, q, m.zero(), m.one());
    } else {
        lemma_clamp(m, levels[i], levels[j], m.zero(), m.one());
    }
}

/// Integral samples span the unit interval over the whole of their range: the
/// smallest sample is zero and the largest is one, both ways.
pub proof fn law_integral_samples_span_the_unit_interval<T>(m: Arithmetic<T>, max: u64)
    requires
        m.is_monotone(),
        0 < max <= u16::MAX,
    ensures
        m.unit_from_sample(0, max) == m.zero(),
        m.unit_from_sample(max, max) == m.one(),
        m.sample_from_unit(m.zero(), max) == 0,
        m.sample_from_unit(m.one(), max) == max,
{
    lemma_units(m);
    let top = (m.from_int)(max);
    lemma_top(m, max);
    assert((m.times)(m.zero(), top) == m.zero());
    assert((m.times)(m.one(), top) == top);
    assert((m.rounded)((m.from_int)(0)) == m.zero());
    assert((m.rounded)(top) == top);
    assert((m.truncated)((m.from_int)(0)) == 0);
    assert((m.truncated)(top) == max);
    assert(!(m.less)(top, m.zero()));
    assert(!(m.less)(top, top));
}

/// The largest sample is a positive number.
proof fn lemma_top<T>(m: Arithmetic<T>, max: u64)
    requires
        m.is_monotone(),
        0 < max <= u16::MAX,
    ensures
        m.is_positive((m.from_int)(max)),
        (m.at_most)(m.zero(), (m.from_int)(max)),
{
    let (zero, top) = ((m.from_int)(0), (m.from_int)(max));
    assert((m.is_finite)(zero) && (m.is_finite)(top));
    assert((m.at_most)(zero, top));
    assert(!(m.at_most)(top, zero));
}

/// Converting to integral samples keeps the order.
pub proof fn law_integral_samples_keep_the_order<T>(m: Arithmetic<T>, a: T, b: T, max: u64)
    requires
        m.is_monotone(),
        0 < max <= u16::MAX,
        (m.at_most)(a, b),
    ensures
        0 <= m.sample_from_unit(a, max) <= m.sample_from_unit(b, max) <= max,
{
    let top = (m.from_int)(max);
    lemma_top(m, max);
    let (p, q) = ((m.times)(a, top), (m.times)(b, top));
    assert((m.at_most)(p, q));
    let (p, q) = ((m.rounded)(p), (m.rounded)(q));
    assert((m.at_most)(p, q));
    lemma_clamp(m, p, q, m.zero(), top);
    let (p, q) = (m.clamp(p, m.zero(), top), m.clamp(q, m.zero(), top));
    assert((m.truncated)(p) <= (m.truncated)(q));
}

/// Converting to integral samples saturates: what is at most zero becomes the
/// smallest sample, and what is at least one becomes the largest.
pub proof fn law_integral_samples_saturate<T>(m: Arithmetic<T>, value: T, max: u64)
    requires
        m.is_monotone(),
        0 < max <= u16::MAX,
    ensures
        (m.at_most)(value, m.zero()) ==> m.sample_from_unit(value, max) == 0,
        (m.at_most)(m.one(), value) ==> m.sample_from_unit(value, max) == max,
{
    law_integral_samples_span_the_unit_interval(m, max);
    if (m.at_most)(value, m.zero()) {
        law_integral_samples_keep_the_order(m, value, m.zero(), max);
    }
    if (m.at_most)(m.one(), value) {
        law_integral_samples_keep_the_order(m, m.one(), value, max);
    }
}

/// With 8 bit samples the full output range is `0` to `255`: where the levels of
/// two pixels differ at all, both occur.
pub proof fn law_black_and_white_occur<T>(
    m: Arithmetic<T>,
    picture: Picture<u8>,
    weights: Seq<T>,
    i: int,
    j: int,
)
    requires
        m.is_monotone(),
        m.all_levels_finite(m.levels(m.codec_u8(), picture, weights)),
        (m.is_finite)(m.level_range(m.levels(m.codec_u8(), picture, weights))),
        0 <= i < picture.area(),
        0 <= j < picture.area(),
        (m.less)(
            m.level(m.codec_u8(), picture, weights, i),
            m.level(m.codec_u8(), picture, weights, j),
        ),
    ensures
        m.polynomial_grays(m.codec_u8(), picture, weights).contains(0),
        m.polynomial_grays(m.codec_u8(), picture, weights).contains(255),
{
    law_the_output_range_is_full(m, m.codec_u8(), picture, weights, i, j);
    law_integral_samples_span_the_unit_interval(m, u8::MAX as u64);
}

/// With 16 bit samples the full output range is `0` to `65535`: where the levels
/// of two pixels differ at all, both occur.
pub proof fn law_wide_black_and_white_occur<T>(
    m: Arithmetic<T>,
    picture: Picture<u16>,
    weights: Seq<T>,
    i: int,
    j: int,
)
    requires
        m.is_monotone(),
        m.all_levels_finite(m.levels(m.codec_u16(), picture, weights)),
        (m.is_finite)(m.level_range(m.levels(m.codec_u16(), picture, weights))),
        0 <= i < picture.area(),
        0 <= j < picture.area(),
        (m.less)(
            m.level(m.codec_u16(), picture, weights, i),
            m.level(m.codec_u16(), picture, weights, j),
        ),
    ensures
        m.polynomial_grays(m.codec_u16(), picture, weights).contains(0),
        m.polynomial_grays(m.codec_u16(), picture, weights).contains(65535),
{
    law_the_output_range_is_full(m, m.codec_u16(), picture, weights, i, j);
    law_integral_samples_span_the_unit_interval(m, u16::MAX as u64);
}

/// No reversals come out of a polynomial mapping: of two pixels of an image with
/// 8 bit samples, the one that the polynomial puts at most as high gets at most
/// as high a gray.
pub proof fn law_grays_follow_the_polynomial<T>(
    m: Arithmetic<T>,
    picture: Picture<u8>,
    weights: Seq<T>,
    i: int,
    j: int,
)
    requires
        m.is_monotone(),
        m.all_levels_finite(m.levels(m.codec_u8(), picture, weights)),
        (m.is_finite)(m.level_range(m.levels(m.codec_u8(), picture, weights))),
        0 <= i < picture.area(),
        0 <= j < picture.area(),
        (m.at_most)(
            m.level(m.codec_u8(), picture, weights, i),
            m.level(m.codec_u8(), picture, weights, j),
        ),
    ensures
        m.polynomial_grays(m.codec_u8(), picture, weights)[i] <= m.polynomial_grays(
            m.codec_u8(),
            picture,
            weights,
        )[j],
{
    let levels = m.levels(m.codec_u8(), picture, weights);
    law_stretching_keeps_the_order(m, levels, i, j);
    let (low, high) = (m.lowest(levels, levels.len()), m.highest(levels, levels.len()));
    law_integral_samples_keep_the_order(
        m,
        m.stretched(low, high, levels[i]),
        m.stretched(low, high, levels[j]),
        u8::MAX as u64,
    );
}

/// No reversals come out of a polynomial mapping: of two pixels of an image with
/// 16 bit samples, the one that the polynomial puts at most as high gets at most
/// as high a gray.
pub proof fn law_wide_grays_follow_the_polynomial<T>(
    m: Arithmetic<T>,
    picture: Picture<u16>,
    weights: Seq<T>,
    i: int,
    j: int,
)
    requires
        m.is_monotone(),
        m.all_levels_finite(m.levels(m.codec_u16(), picture, weights)),
        (m.is_finite)(m.level_range(m.levels(m.codec_u16(), picture, weights))),
        0 <= i < picture.area(),
        0 <= j < picture.area(),
        (m.at_most)(
            m.level(m.codec_u16(), picture, weights, i),
            m.level(m.codec_u16(), picture, weights, j),
        ),
    ensures
        m.polynomial_grays(m.codec_u16(), picture, weights)[i] <= m.polynomial_grays(
            m.codec_u16(),
            picture,
            weights,
        )[j],
{
    let levels = m.levels(m.codec_u16(), picture, weights);
    law_stretching_keeps_the_order(m, levels, i, j);
    let (low, high) = (m.lowest(levels, levels.len()), m.highest(levels, levels.len()));
    law_integral_samples_keep_the_order(
        m,
        m.stretched(low, high, levels[i]),
        m.stretched(low, high, levels[j]),
        u16::MAX as u64,
    );
}

/// Samples on the unit interval, summed up one by one, stay between zero and
/// their number.
proof fn lemma_total_between<T>(m: Arithmetic<T>, count: nat, term: spec_fn(int) -> T)
    requires
        m.is_monotone(),
        count <= Arithmetic::<T>::exact_integers(),
        forall|k: int|
            0 <= k < count ==> (m.at_most)(m.zero(), #[trigger] term(k)) && (m.at_most)(
                term(k),
                m.one(),
            ),
    ensures
        (m.at_most)(m.zero(), m.total(count, term)),
        (m.at_most)(m.total(count, term), (m.from_int)(count as u64)),
        (m.is_finite)(m.total(count, term)),
    decreases count,
{
    lemma_units(m);
    let (zero, one) = (m.zero(), m.one());
    if count > 0 {
        let before = m.total((count - 1) as nat, term);
        let (part, counted) = (term(count - 1), (m.from_int)((count - 1) as u64));
        lemma_total_between(m, (count - 1) as nat, term);
        assert((m.at_most)(zero, part) && (m.at_most)(part, one));
        assert((m.is_finite)(part));
        assert((m.is_finite)(counted));
        assert((m.at_most)((m.plus)(zero, zero), (m.plus)(before, part)));
        assert((m.at_most)((m.plus)(before, part), (m.plus)(counted, one)));
        assert((m.plus)(counted, one) == (m.from_int)(count as u64));
        assert((m.is_finite)((m.from_int)(count as u64)));
    }
}

/// The copy that a mapping is fitted on lies on the unit interval: where all
/// samples do, so does every mean.
pub proof fn law_means_lie_on_the_unit_interval<S, T>(
    m: Arithmetic<T>,
    c: Codec<S, T>,
    picture: Picture<S>,
    columns: Span,
    rows: Span,
    channel: int,
)
    requires
        m.is_monotone(),
        0 < columns.len() * rows.len() <= Arithmetic::<T>::exact_integers(),
        forall|s: S|
            (m.at_most)(m.zero(), #[trigger] (c.to_unit)(s)) && (m.at_most)(
                (c.to_unit)(s),
                m.one(),
            ),
    ensures
        (m.at_most)(m.zero(), m.box_mean(c, picture, columns, rows, channel)),
        (m.at_most)(m.box_mean(c, picture, columns, rows, channel), m.one()),
{
    let count = columns.len() * rows.len();
    let term = Arithmetic::<T>::box_term(c, picture, columns, rows, channel);
    lemma_total_between(m, count as nat, term);
    lemma_count_is_positive(m, count as u64);
    let (sum, pixels) = (m.total(count as nat, term), (m.from_int)(count as u64));
    assert((m.at_most)((m.over)(m.zero(), pixels), (m.over)(sum, pixels)));
    assert((m.at_most)((m.over)(sum, pixels), (m.over)(pixels, pixels)));
    assert((m.over)(m.zero(), pixels) == m.zero());
    assert((m.over)(pixels, pixels) == m.one());
}

/// Larger samples on the unit interval have larger sums.
proof fn lemma_total_order<T>(
    m: Arithmetic<T>,
    count: nat,
    f: spec_fn(int) -> T,
    g: spec_fn(int) -> T,
)
    requires
        m.is_monotone(),
        count <= Arithmetic::<T>::exact_integers(),
        forall|k: int|
            #![trigger f(k)]
            #![trigger g(k)]
            0 <= k < count ==> (m.at_most)(m.zero(), f(k)) && (m.at_most)(f(k), g(k))
                && (m.at_most)(g(k), m.one()),
    ensures
        (m.at_most)(m.total(count, f), m.total(count, g)),
    decreases count,
{
    if count > 0 {
        lemma_total_order(m, (count - 1) as nat, f, g);
        assert forall|k: int| 0 <= k < count implies (m.at_most)(m.zero(), #[trigger] f(k))
            && (m.at_most)(f(k), m.one()) by {
            assert((m.at_most)(f(k), g(k)));
        }
        assert forall|k: int| 0 <= k < count implies (m.at_most)(m.zero(), #[trigger] g(k))
            && (m.at_most)(g(k), m.one()) by {
            assert((m.at_most)(f(k), g(k)));
        }
        lemma_total_between(m, (count - 1) as nat, f);
        lemma_total_between(m, (count - 1) as nat, g);
        lemma_units(m);
        let (a, b) = (f(count - 1), g(count - 1));
        assert((m.at_most)(a, b));
        assert((m.is_finite)(a) && (m.is_finite)(b));
    } else {
        lemma_units(m);
    }
}

/// Raising samples lowers no mean.
pub proof fn law_raising_samples_lowers_no_mean<S, T>(
    m: Arithmetic<T>,
    c: Codec<S, T>,
    darker: Picture<S>,
    lighter: Picture<S>,
    columns: Span,
    rows: Span,
    channel: int,
)
    requires
        m.is_monotone(),
        0 < columns.len() * rows.len() <= Arithmetic::<T>::exact_integers(),
        darker.width == lighter.width,
        0 <= columns.start < columns.end <= darker.width,
        0 <= rows.start < rows.end <= darker.height,
        forall|s: S| m.on_unit(#[trigger] (c.to_unit)(s)),
        forall|i: int|
            0 <= i < darker.area() ==> (m.at_most)(
                (c.to_unit)(#[trigger] darker.channel(i, channel)),
                (c.to_unit)(lighter.channel(i, channel)),
            ),
    ensures
        (m.at_most)(
            m.box_mean(c, darker, columns, rows, channel),
            m.box_mean(c, lighter, columns, rows, channel),
        ),
{
    let count = columns.len() * rows.len();
    let f = Arithmetic::<T>::box_term(c, darker, columns, rows, channel);
    let g = Arithmetic::<T>::box_term(c, lighter, columns, rows, channel);
    assert forall|k: int|
        #![trigger f(k)]
        #![trigger g(k)]
        0 <= k < count implies (m.at_most)(m.zero(), f(k)) && (m.at_most)(f(k), g(k))
        && (m.at_most)(g(k), m.one()) by {
        crate::averaging::lemma_box_index(columns, rows, darker.width, darker.height, k);
        let at = (rows.start + k / columns.len()) * darker.width + columns.start + k
            % columns.len();
        let (a, b) = (darker.channel(at, channel), lighter.channel(at, channel));
        assert(f(k) == (c.to_unit)(a) && g(k) == (c.to_unit)(b));
    }
    lemma_total_order(m, count as nat, f, g);
    lemma_count_is_positive(m, count as u64);
}

/// A count is a positive number.
proof fn lemma_count_is_positive<T>(m: Arithmetic<T>, count: u64)
    requires
        m.is_monotone(),
        0 < count <= Arithmetic::<T>::exact_integers(),
    ensures
        m.is_positive((m.from_int)(count)),
{
    let (zero, pixels) = ((m.from_int)(0), (m.from_int)(count));
    assert((m.is_finite)(zero) && (m.is_finite)(pixels));
    assert(!(m.at_most)(pixels, zero));
}

/// Integral samples lie on the unit interval.
pub proof fn law_integral_samples_lie_on_the_unit_interval<T>(
    m: Arithmetic<T>,
    sample: u64,
    max: u64,
)
    requires
        m.is_monotone(),
        sample <= max,
        0 < max <= u16::MAX,
    ensures
        (m.at_most)(m.zero(), m.unit_from_sample(sample, max)),
        (m.at_most)(m.unit_from_sample(sample, max), m.one()),
{
    let (zero, value, top) = ((m.from_int)(0), (m.from_int)(sample), (m.from_int)(max));
    lemma_top(m, max);
    assert((m.at_most)(zero, value) && (m.at_most)(value, top));
    assert((m.at_most)((m.over)(zero, top), (m.over)(value, top)));
    assert((m.at_most)((m.over)(value, top), (m.over)(top, top)));
    assert((m.over)(zero, top) == zero);
    assert((m.over)(top, top) == m.one());
}

/// Neighbors of equal color have no contrast.
pub proof fn law_equal_neighbors_have_no_contrast<T>(m: Arithmetic<T>, planes: PlaneSet<T>, k: int)
    requires
        m.is_monotone(),
        m.lab_at(planes, planes.neighbors().first(k)) == m.lab_at(
            planes,
            planes.neighbors().second(k),
        ),
        (m.is_finite)(m.lab_at(planes, planes.neighbors().first(k)).0),
        (m.is_finite)(m.lab_at(planes, planes.neighbors().first(k)).1),
        (m.is_finite)(m.lab_at(planes, planes.neighbors().first(k)).2),
    ensures
        m.contrast(planes, k) == m.zero(),
{
    let a = m.lab_at(planes, planes.neighbors().first(k));
    assert((m.minus)(a.0, a.0) == m.zero());
    assert((m.minus)(a.1, a.1) == m.zero());
    assert((m.minus)(a.2, a.2) == m.zero());
    lemma_count_is_positive(m, 100);
    assert((m.over)(m.zero(), (m.from_int)(100)) == m.zero());
}

/// A flat image gives the search nothing to tell the candidates apart by, so it
/// falls back to the channel average.
pub proof fn law_flat_images_get_the_channel_average<S, T>(
    m: Arithmetic<T>,
    c: Codec<S, T>,
    picture: Picture<S>,
    options: FastDecolorizeOptions<T>,
)
    requires
        m.is_monotone(),
        0 < picture.width <= usize::MAX,
        0 < picture.height <= usize::MAX,
        picture.colors.len() == picture.area(),
        forall|i: int, j: int|
            0 <= i < picture.area() && 0 <= j < picture.area() ==> #[trigger] picture.colors[i]
                == #[trigger] picture.colors[j],
        forall|s: S| (m.is_finite)(#[trigger] (c.to_unit)(s)),
        (m.less)(m.zero(), options.contrast_threshold),
    ensures
        m.sampled_pairs(c, picture, options).len() == 0,
        m.weighting(c, picture, options) == m.equal_weights(),
{
    let places = m.places(picture.width, picture.height, options.samples, options.seed);
    let drawn = places.map_values(|place: (Point, Point)| m.pair_at(c, picture, place));
    let reaches = |pair: Pair<T>| (m.at_most)(options.contrast_threshold, pair.contrast);
    assert forall|k: int| 0 <= k < drawn.len() implies !reaches(#[trigger] drawn[k]) by {
        crate::laws::law_drawn_pairs_lie_in_the_picture(
            m,
            picture.width,
            picture.height,
            options.samples,
            options.seed,
            k,
        );
        let (a, b) = places[k];
        lemma_index_fits(a.x as int, a.y as int, picture.width, picture.height);
        lemma_index_fits(b.x as int, b.y as int, picture.width, picture.height);
        lemma_flat_pair(m, c, picture, places[k]);
    }
    lemma_nothing_kept(drawn, reaches);
}

/// Where no item is to be kept, none is.
proof fn lemma_nothing_kept<A>(items: Seq<A>, keep: spec_fn(A) -> bool)
    requires
        forall|k: int| 0 <= k < items.len() ==> !keep(#[trigger] items[k]),
    ensures
        items.filter(keep).len() == 0,
    decreases items.len(),
{
    reveal(Seq::filter);
    if items.len() > 0 {
        assert(!keep(items.last()));
        lemma_nothing_kept(items.drop_last(), keep);
    }
}

/// The index of a pixel in a picture is less than the number of its pixels.
proof fn lemma_index_fits(x: int, y: int, width: int, height: int)
    requires
        0 <= x < width,
        0 <= y < height,
    ensures
        0 <= y * width + x < width * height,
{
    assert(0 <= y * width + x < width * height) by (nonlinear_arith)
        requires
            0 <= x < width,
            0 <= y < height,
    ;
}

/// A pair of pixels of equal color has no contrast.
proof fn lemma_flat_pair<S, T>(
    m: Arithmetic<T>,
    c: Codec<S, T>,
    picture: Picture<S>,
    place: (Point, Point),
)
    requires
        m.is_monotone(),
        picture.colors[place.0.y * picture.width + place.0.x] == picture.colors[place.1.y
            * picture.width + place.1.x],
        forall|s: S| (m.is_finite)(#[trigger] (c.to_unit)(s)),
    ensures
        m.pair_at(c, picture, place).contrast == m.zero(),
{
    assert forall|channel: int| 0 <= channel < 3 implies #[trigger] m.channel_gap(
        c,
        picture,
        place,
        channel,
    ) == m.zero() by {
        let s = picture.channel(place.0.y * picture.width + place.0.x, channel);
        assert((m.is_finite)((c.to_unit)(s)));
        assert((m.minus)((c.to_unit)(s), (c.to_unit)(s)) == m.zero());
    }
    assert(m.channel_gap(c, picture, place, 0) == m.zero());
    assert(m.channel_gap(c, picture, place, 1) == m.zero());
    assert(m.channel_gap(c, picture, place, 2) == m.zero());
    let root = (m.square_root)((m.from_int)(2));
    assert((m.over)(m.zero(), root) == m.zero());
}

/// Filtering twice is filtering once where the second filter is the finer one.
proof fn lemma_filtered_twice<A>(
    items: Seq<A>,
    coarse: spec_fn(A) -> bool,
    fine: spec_fn(A) -> bool,
)
    requires
        forall|item: A| #[trigger] fine(item) ==> coarse(item),
    ensures
        items.filter(coarse).filter(fine) == items.filter(fine),
    decreases items.len(),
{
    reveal(Seq::filter);
    if items.len() > 0 {
        let before = items.drop_last();
        let last = items.last();
        lemma_filtered_twice(before, coarse, fine);
        if coarse(last) {
            let kept = before.filter(coarse);
            assert(kept.push(last).drop_last() =~= kept);
            assert(kept.push(last).last() == last);
        }
    }
}

/// A threshold selects: the pairs that reach it are those pairs of a threshold
/// of zero that reach it, in the same order and as often. The contrast of each
/// is the length of its difference, divided by the square root of two.
pub proof fn law_a_threshold_selects_pairs<S, T>(
    m: Arithmetic<T>,
    c: Codec<S, T>,
    picture: Picture<S>,
    options: FastDecolorizeOptions<T>,
    all: FastDecolorizeOptions<T>,
)
    requires
        m.is_monotone(),
        (m.at_most)(m.zero(), options.contrast_threshold),
        all == (FastDecolorizeOptions { contrast_threshold: m.zero(), ..options }),
    ensures
        m.sampled_pairs(c, picture, options) == m.sampled_pairs(c, picture, all).filter(
            |pair: Pair<T>| (m.at_most)(options.contrast_threshold, pair.contrast),
        ),
        forall|k: int|
            0 <= k < m.places(
                picture.width,
                picture.height,
                options.samples,
                options.seed,
            ).len() ==> m.is_scaled_length(
                #[trigger] m.pair_at(
                    c,
                    picture,
                    m.places(picture.width, picture.height, options.samples, options.seed)[k],
                ),
            ),
{
    let places = m.places(picture.width, picture.height, options.samples, options.seed);
    let drawn = places.map_values(|place: (Point, Point)| m.pair_at(c, picture, place));
    let coarse = |pair: Pair<T>| (m.at_most)(m.zero(), pair.contrast);
    let fine = |pair: Pair<T>| (m.at_most)(options.contrast_threshold, pair.contrast);
    assert(m.sampled_pairs(c, picture, all) == drawn.filter(coarse));
    assert(m.sampled_pairs(c, picture, options) == drawn.filter(fine));
    lemma_filtered_twice(drawn, coarse, fine);
}

impl<T> Arithmetic<T> {
    /// Whether the contrast of a pair is the length of its difference, divided
    /// by the square root of two.
    pub open spec fn is_scaled_length(self, pair: Pair<T>) -> bool {
        let (x, y, z) = pair.difference;
        pair.contrast == (self.over)(
            self.length(x, y, z),
            (self.square_root)((self.from_int)(2)),
        )
    }
}

impl<T> Arithmetic<T> {
    /// Whether a number lies on the unit interval.
    pub open spec fn on_unit(self, a: T) -> bool {
        (self.at_most)(self.zero(), a) && (self.at_most)(a, self.one())
    }
}

/// What lies on the unit interval is finite.
proof fn lemma_on_unit<T>(m: Arithmetic<T>, a: T)
    requires
        m.is_monotone(),
        m.on_unit(a),
    ensures
        (m.is_finite)(a),
{
    lemma_units(m);
}

/// A share of a number on the unit interval lies there too, and a share of a
/// larger number is larger.
proof fn lemma_share_order<T>(m: Arithmetic<T>, weight: T, a: T, b: T)
    requires
        m.is_monotone(),
        m.on_unit(weight),
        m.on_unit(a),
        m.on_unit(b),
        (m.at_most)(a, b),
    ensures
        m.on_unit((m.times)(weight, a)),
        m.on_unit((m.times)(weight, b)),
        (m.at_most)((m.times)(weight, a), (m.times)(weight, b)),
{
    lemma_units(m);
    lemma_on_unit(m, weight);
    lemma_on_unit(m, a);
    lemma_on_unit(m, b);
    assert((m.times)(weight, m.one()) == weight);
    assert((m.at_most)((m.times)(weight, a), (m.times)(weight, m.one())));
    assert((m.at_most)((m.times)(weight, b), (m.times)(weight, m.one())));
}

/// Sums of larger numbers are larger.
proof fn lemma_sum_order<T>(m: Arithmetic<T>, n: u64, a: T, b: T, c: T, d: T)
    requires
        m.is_monotone(),
        n < 1_000,
        (m.at_most)(m.zero(), a),
        (m.at_most)(a, b),
        (m.at_most)(b, (m.from_int)(n)),
        m.on_unit(c),
        m.on_unit(d),
        (m.at_most)(c, d),
    ensures
        (m.at_most)(m.zero(), (m.plus)(a, c)),
        (m.at_most)((m.plus)(a, c), (m.plus)(b, d)),
        (m.at_most)((m.plus)(b, d), (m.from_int)((n + 1) as u64)),
{
    lemma_units(m);
    lemma_on_unit(m, c);
    lemma_on_unit(m, d);
    let most = (m.from_int)(n);
    assert((m.is_finite)(most));
    assert((m.at_most)(m.zero(), b) && (m.at_most)(a, most));
    assert((m.is_finite)(a) && (m.is_finite)(b));
    assert((m.at_most)((m.plus)(b, d), (m.plus)(most, m.one())));
    assert((m.plus)(most, m.one()) == (m.from_int)((n + 1) as u64));
}

/// A combination with weights that are not negative keeps the order: what is at
/// most as high in each channel is at most as high.
pub proof fn law_combinations_keep_the_order<T>(
    m: Arithmetic<T>,
    weights: Seq<T>,
    a: (T, T, T),
    b: (T, T, T),
)
    requires
        m.is_monotone(),
        m.on_unit(weights[0]) && m.on_unit(weights[1]) && m.on_unit(weights[2]),
        m.on_unit(a.0) && m.on_unit(a.1) && m.on_unit(a.2),
        m.on_unit(b.0) && m.on_unit(b.1) && m.on_unit(b.2),
        (m.at_most)(a.0, b.0),
        (m.at_most)(a.1, b.1),
        (m.at_most)(a.2, b.2),
    ensures
        (m.at_most)(
            m.combined(weights, a.0, a.1, a.2),
            m.combined(weights, b.0, b.1, b.2),
        ),
{
    lemma_share_order(m, weights[0], a.0, b.0);
    lemma_share_order(m, weights[1], a.1, b.1);
    lemma_share_order(m, weights[2], a.2, b.2);
    let (p, q) = ((m.times)(weights[0], a.0), (m.times)(weights[0], b.0));
    let (r, s) = ((m.times)(weights[1], a.1), (m.times)(weights[1], b.1));
    let (t, u) = ((m.times)(weights[2], a.2), (m.times)(weights[2], b.2));
    lemma_sum_order(m, 1, p, q, r, s);
    lemma_sum_order(m, 2, (m.plus)(p, r), (m.plus)(q, s), t, u);
}

/// Larger integral samples are larger on the unit interval.
proof fn lemma_unit_order<T>(m: Arithmetic<T>, a: u64, b: u64, max: u64)
    requires
        m.is_monotone(),
        a <= b <= max,
        0 < max <= u16::MAX,
    ensures
        m.on_unit(m.unit_from_sample(a, max)),
        m.on_unit(m.unit_from_sample(b, max)),
        (m.at_most)(m.unit_from_sample(a, max), m.unit_from_sample(b, max)),
{
    law_integral_samples_lie_on_the_unit_interval(m, a, max);
    law_integral_samples_lie_on_the_unit_interval(m, b, max);
    lemma_top(m, max);
    assert((m.at_most)((m.from_int)(a), (m.from_int)(b)));
}

/// The weights that the search returns lie on the unit interval.
proof fn lemma_search_weights<T>(m: Arithmetic<T>, pairs: Seq<Pair<T>>, sigma: T)
    requires
        m.is_monotone(),
    ensures
        m.on_unit(m.best_weights(pairs, sigma)[0]),
        m.on_unit(m.best_weights(pairs, sigma)[1]),
        m.on_unit(m.best_weights(pairs, sigma)[2]),
{
    if pairs.len() > 0 {
        let scores = m.scores(pairs, sigma);
        crate::laws::law_the_candidates_are_the_convex_weightings();
        crate::laws::lemma_last_largest_is_an_index(m, scores, scores.len() as int);
        let best = Weighting::all()[m.last_largest(scores, scores.len() as int)];
        law_integral_samples_lie_on_the_unit_interval(m, best.r, WEIGHT_STEPS);
        law_integral_samples_lie_on_the_unit_interval(m, best.g, WEIGHT_STEPS);
        law_integral_samples_lie_on_the_unit_interval(m, best.b, WEIGHT_STEPS);
    } else {
        law_integral_samples_lie_on_the_unit_interval(m, 1, 3);
    }
}

/// What is at most as high in each channel gets at most as high a sample.
pub(crate) proof fn lemma_gray_order<T>(
    m: Arithmetic<T>,
    pairs: Seq<Pair<T>>,
    sigma: T,
    p: (u64, u64, u64),
    q: (u64, u64, u64),
    max: u64,
)
    requires
        m.is_monotone(),
        0 < max <= u16::MAX,
        p.0 <= q.0 <= max,
        p.1 <= q.1 <= max,
        p.2 <= q.2 <= max,
    ensures
        m.sample_from_unit(
            m.combined(
                m.best_weights(pairs, sigma),
                m.unit_from_sample(p.0, max),
                m.unit_from_sample(p.1, max),
                m.unit_from_sample(p.2, max),
            ),
            max,
        ) <= m.sample_from_unit(
            m.combined(
                m.best_weights(pairs, sigma),
                m.unit_from_sample(q.0, max),
                m.unit_from_sample(q.1, max),
                m.unit_from_sample(q.2, max),
            ),
            max,
        ),
{
    let weights = m.best_weights(pairs, sigma);
    lemma_search_weights(m, pairs, sigma);
    lemma_unit_order(m, p.0, q.0, max);
    lemma_unit_order(m, p.1, q.1, max);
    lemma_unit_order(m, p.2, q.2, max);
    let a = (
        m.unit_from_sample(p.0, max),
        m.unit_from_sample(p.1, max),
        m.unit_from_sample(p.2, max),
    );
    let b = (
        m.unit_from_sample(q.0, max),
        m.unit_from_sample(q.1, max),
        m.unit_from_sample(q.2, max),
    );
    law_combinations_keep_the_order(m, weights, a, b);
    law_integral_samples_keep_the_order(
        m,
        m.combined(weights, a.0, a.1, a.2),
        m.combined(weights, b.0, b.1, b.2),
        max,
    );
}

/// The search introduces no reversals: of two pixels of an image with 8 bit
/// samples, the one that is at most as high in each channel gets at most as high
/// a gray.
pub proof fn law_the_search_keeps_the_order<T>(
    m: Arithmetic<T>,
    picture: Picture<u8>,
    options: FastDecolorizeOptions<T>,
    i: int,
    j: int,
)
    requires
        m.is_monotone(),
        0 <= i < picture.area(),
        0 <= j < picture.area(),
        picture.colors[i].0 <= picture.colors[j].0,
        picture.colors[i].1 <= picture.colors[j].1,
        picture.colors[i].2 <= picture.colors[j].2,
    ensures
        m.fast_decolorized(m.codec_u8(), picture, options)[i] <= m.fast_decolorized(
            m.codec_u8(),
            picture,
            options,
        )[j],
{
    crate::laws::lemma_not_empty(picture);
    let (p, q) = (picture.colors[i], picture.colors[j]);
    lemma_gray_order(
        m,
        m.sampled_pairs(m.codec_u8(), picture, options),
        options.sigma,
        (p.0 as u64, p.1 as u64, p.2 as u64),
        (q.0 as u64, q.1 as u64, q.2 as u64),
        u8::MAX as u64,
    );
}

/// The search introduces no reversals: of two pixels of an image with 16 bit
/// samples, the one that is at most as high in each channel gets at most as high
/// a gray.
pub proof fn law_the_search_keeps_the_wide_order<T>(
    m: Arithmetic<T>,
    picture: Picture<u16>,
    options: FastDecolorizeOptions<T>,
    i: int,
    j: int,
)
    requires
        m.is_monotone(),
        0 <= i < picture.area(),
        0 <= j < picture.area(),
        picture.colors[i].0 <= picture.colors[j].0,
        picture.colors[i].1 <= picture.colors[j].1,
        picture.colors[i].2 <= picture.colors[j].2,
    ensures
        m.fast_decolorized(m.codec_u16(), picture, options)[i] <= m.fast_decolorized(
            m.codec_u16(),
            picture,
            options,
        )[j],
{
    crate::laws::lemma_not_empty(picture);
    let (p, q) = (picture.colors[i], picture.colors[j]);
    lemma_gray_order(
        m,
        m.sampled_pairs(m.codec_u16(), picture, options),
        options.sigma,
        (p.0 as u64, p.1 as u64, p.2 as u64),
        (q.0 as u64, q.1 as u64, q.2 as u64),
        u16::MAX as u64,
    );
}

/// Colors beyond the unit interval convert to CIELAB like the nearest colors on
/// it.
pub proof fn law_clamped_colors_convert_alike<T>(m: Arithmetic<T>, r: T, g: T, b: T)
    requires
        m.is_monotone(),
    ensures
        m.lab(
            m.clamp(r, m.zero(), m.one()),
            m.clamp(g, m.zero(), m.one()),
            m.clamp(b, m.zero(), m.one()),
        ) == m.lab(r, g, b),
{
    lemma_units(m);
}

/// A threshold of zero discards nothing: where all samples are finite, every
/// drawn pair is scored.
pub proof fn law_a_zero_threshold_keeps_everything<S, T>(
    m: Arithmetic<T>,
    c: Codec<S, T>,
    picture: Picture<S>,
    options: FastDecolorizeOptions<T>,
)
    requires
        m.is_monotone(),
        options.contrast_threshold == m.zero(),
        forall|s: S| (m.is_finite)(#[trigger] (c.to_unit)(s)),
    ensures
        m.sampled_pairs(c, picture, options) == m.places(
            picture.width,
            picture.height,
            options.samples,
            options.seed,
        ).map_values(|place: (Point, Point)| m.pair_at(c, picture, place)),
{
    let places = m.places(picture.width, picture.height, options.samples, options.seed);
    let drawn = places.map_values(|place: (Point, Point)| m.pair_at(c, picture, place));
    let reaches = |pair: Pair<T>| (m.at_most)(options.contrast_threshold, pair.contrast);
    assert forall|k: int| 0 <= k < drawn.len() implies reaches(#[trigger] drawn[k]) by {
        lemma_contrast_is_not_negative(m, c, picture, places[k]);
    }
    lemma_everything_kept(drawn, reaches);
}

/// The contrast of a pair is not negative.
proof fn lemma_contrast_is_not_negative<S, T>(
    m: Arithmetic<T>,
    c: Codec<S, T>,
    picture: Picture<S>,
    place: (Point, Point),
)
    requires
        m.is_monotone(),
        forall|s: S| (m.is_finite)(#[trigger] (c.to_unit)(s)),
    ensures
        (m.at_most)(m.zero(), m.pair_at(c, picture, place).contrast),
{
    assert forall|channel: int| 0 <= channel < 3 implies m.is_number(
        #[trigger] m.channel_gap(c, picture, place, channel),
    ) by {
        let a = (c.to_unit)(
            picture.channel(place.0.y * picture.width + place.0.x, channel),
        );
        let b = (c.to_unit)(
            picture.channel(place.1.y * picture.width + place.1.x, channel),
        );
        assert((m.is_finite)(a) && (m.is_finite)(b));
        assert((m.at_most)(a, a));
        assert((m.at_most)((m.minus)(a, b), (m.minus)(a, b)));
    }
    let (x, y, z) = m.pair_at(c, picture, place).difference;
    assert(m.is_number(x) && m.is_number(y) && m.is_number(z));
    let sum = (m.plus)((m.plus)(m.square(x), m.square(y)), m.square(z));
    assert((m.at_most)(m.zero(), sum));
    let root = (m.square_root)((m.from_int)(2));
    assert((m.at_most)((m.over)(m.zero(), root), (m.over)((m.square_root)(sum), root)));
    assert((m.over)(m.zero(), root) == m.zero());
}

/// Where every item is to be kept, every item is.
proof fn lemma_everything_kept<A>(items: Seq<A>, keep: spec_fn(A) -> bool)
    requires
        forall|k: int| 0 <= k < items.len() ==> keep(#[trigger] items[k]),
    ensures
        items.filter(keep) == items,
    decreases items.len(),
{
    reveal(Seq::filter);
    if items.len() > 0 {
        assert(keep(items.last()));
        lemma_everything_kept(items.drop_last(), keep);
        assert(items.drop_last().push(items.last()) =~= items);
    }
}

/// Where a square picture has no more pixels along a side than there are
/// samples, the grid has a line for every pixel, and the number of drawn pairs
/// is known: one per pixel, and the neighbors of a grid half as fine.
pub proof fn law_small_squares_are_sampled_whole<T>(
    m: Arithmetic<T>,
    n: u32,
    samples: u32,
    seed: u64,
)
    requires
        m.is_monotone(),
        1 <= n <= samples,
        n * n <= Arithmetic::<T>::exact_integers(),
    ensures
        m.grid(n as int, n as int, samples) == (Grid { columns: n as int, rows: n as int }),
        m.places(n as int, n as int, samples, seed).len() == n * n + 2 * Grid::edges(
            n as int / 2,
            n as int / 2,
        ),
{
    let side = (m.from_int)(n as u64);
    assert((n * n) as u64 == Arithmetic::<T>::squared(n as u64));
    assert((m.square_root)((m.from_int)((n * n) as u64)) == side);
    lemma_count_is_positive(m, n as u64);
    lemma_units(m);
    let scale = (m.over)((m.from_int)(samples as u64), side);
    assert((m.at_most)(side, (m.from_int)(samples as u64)));
    assert((m.at_most)((m.over)(side, side), scale));
    assert((m.at_most)(m.one(), scale));
    lemma_scale_is_finite(m, n as u64, samples as u64);
    let product = (m.times)(side, scale);
    assert((m.times)(side, m.one()) == side);
    assert((m.at_most)(m.zero(), side));
    assert((m.at_most)((m.times)(side, m.one()), product));
    law_integral_samples_lie_on_the_unit_interval(m, 1, 2);
    let half = m.ratio(1, 2);
    lemma_on_unit(m, half);
    assert((m.at_most)(product, (m.plus)(product, half)));
    assert((m.at_most)(side, (m.plus)(product, half)));
    assert((m.truncated)(side) <= (m.truncated)((m.plus)(product, half)));
    assert((m.truncated)(side) == n);
    let budget: int = samples * samples;
    let most = 2 * budget + 1;
    assert(n * n <= budget && n <= most) by (nonlinear_arith)
        requires
            budget == samples * samples,
            most == 2 * budget + 1,
            1 <= n <= samples,
    ;
    assert(most / n as int >= n) by {
        vstd::arithmetic::div_mod::lemma_div_is_ordered(n * n, most, n as int);
        vstd::arithmetic::div_mod::lemma_div_multiples_vanish(n as int, n as int);
    }
    let half_side = n as int / 2;
    assert(0 <= Grid::edges(half_side, half_side)) by (nonlinear_arith)
        requires
            half_side >= 0,
    ;
}

/// Of a square picture with no more pixels along a side than there are samples,
/// a threshold of zero scores a known number of pairs, whatever the seed.
pub proof fn law_small_squares_give_every_pair<S, T>(
    m: Arithmetic<T>,
    c: Codec<S, T>,
    picture: Picture<S>,
    options: FastDecolorizeOptions<T>,
    n: u32,
)
    requires
        m.is_monotone(),
        picture.width == n,
        picture.height == n,
        1 <= n <= options.samples,
        n * n <= Arithmetic::<T>::exact_integers(),
        options.contrast_threshold == m.zero(),
        forall|s: S| (m.is_finite)(#[trigger] (c.to_unit)(s)),
    ensures
        m.sampled_pairs(c, picture, options).len() == n * n + 2 * Grid::edges(
            n as int / 2,
            n as int / 2,
        ),
{
    law_a_zero_threshold_keeps_everything(m, c, picture, options);
    law_small_squares_are_sampled_whole(m, n, options.samples, options.seed);
}

/// The scale of a grid with a line for every pixel is finite.
proof fn lemma_scale_is_finite<T>(m: Arithmetic<T>, n: u64, samples: u64)
    requires
        m.is_monotone(),
        1 <= n <= samples <= u32::MAX,
    ensures
        (m.is_finite)((m.over)((m.from_int)(samples), (m.from_int)(n))),
{
    lemma_units(m);
    lemma_count_is_positive(m, n);
    lemma_count_is_positive(m, samples);
    let (side, many) = ((m.from_int)(n), (m.from_int)(samples));
    assert((m.at_most)((m.over)(side, side), (m.over)(many, side)));
    assert((m.at_most)((m.from_int)(1), side) && (m.at_most)((m.from_int)(0), many));
    assert((m.at_most)((m.over)(many, side), many));
}

} // verus!
