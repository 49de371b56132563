//! The degree-2 polynomial color mapping.
use crate::definitions::{Image, Layout, Picture};
use crate::pairs::differences;
use crate::planes::{PlaneSet, Planes};
use crate::scalar::{clamp, Arithmetic, Scalar, NUM_MONOMIALS};
use crate::subpixel::{Codec, DecolorizeSubpixel};
use vstd::prelude::*;

verus! {

/// A monomial `r^a g^b b^c`.
pub struct Monomial {
    pub r: u32,
    pub g: u32,
    pub b: u32,
}

impl Monomial {
    /// The monomials of degree one and two, in the order
    /// `r, g, b, rg, rb, gb, r^2, g^2, b^2`.
    pub open spec fn nth(index: int) -> Monomial {
        if index == 0 {
            Monomial { r: 1, g: 0, b: 0 }
        } else if index == 1 {
            Monomial { r: 0, g: 1, b: 0 }
        } else if index == 2 {
            Monomial { r: 0, g: 0, b: 1 }
        } else if index == 3 {
            Monomial { r: 1, g: 1, b: 0 }
        } else if index == 4 {
            Monomial { r: 1, g: 0, b: 1 }
        } else if index == 5 {
            Monomial { r: 0, g: 1, b: 1 }
        } else if index == 6 {
            Monomial { r: 2, g: 0, b: 0 }
        } else if index == 7 {
            Monomial { r: 0, g: 2, b: 0 }
        } else {
            Monomial { r: 0, g: 0, b: 2 }
        }
    }
}

/// The exponents of a monomial.
pub fn monomial(index: usize) -> (r: Monomial)
    requires
        index < NUM_MONOMIALS,
    ensures
        r == Monomial::nth(index as int),
{
    match index {
        0 => Monomial { r: 1, g: 0, b: 0 },
        1 => Monomial { r: 0, g: 1, b: 0 },
        2 => Monomial { r: 0, g: 0, b: 1 },
        3 => Monomial { r: 1, g: 1, b: 0 },
        4 => Monomial { r: 1, g: 0, b: 1 },
        5 => Monomial { r: 0, g: 1, b: 1 },
        6 => Monomial { r: 2, g: 0, b: 0 },
        7 => Monomial { r: 0, g: 2, b: 0 },
        _ => Monomial { r: 0, g: 0, b: 2 },
    }
}

impl<T> Arithmetic<T> {
    /// The value of a monomial at a color.
    pub open spec fn monomial_value(self, index: int, r: T, g: T, b: T) -> T {
        let e = Monomial::nth(index);
        (self.times)((self.times)((self.power)(r, e.r), (self.power)(g, e.g)), (self.power)(b, e.b))
    }

    /// The difference of a monomial between the two pixels of pair `k`.
    pub open spec fn monomial_difference(self, planes: PlaneSet<T>, index: int, k: int) -> T {
        let x = planes.neighbors().first(k);
        let y = planes.neighbors().second(k);
        (self.minus)(
            self.monomial_value(index, planes.r[x], planes.g[x], planes.b[x]),
            self.monomial_value(index, planes.r[y], planes.g[y], planes.b[y]),
        )
    }

    /// The polynomial with the given coefficients, term by term.
    pub open spec fn polynomial_term(self, weights: Seq<T>, r: T, g: T, b: T) -> spec_fn(int) -> T {
        |i: int|
            {
                let e = Monomial::nth(i);
                (self.times)(
                    (self.times)(
                        (self.times)(weights[i], (self.power)(r, e.r)),
                        (self.power)(g, e.g),
                    ),
                    (self.power)(b, e.b),
                )
            }
    }

    /// The polynomial with the given coefficients at a color.
    pub open spec fn polynomial(self, weights: Seq<T>, r: T, g: T, b: T) -> T {
        self.total(NUM_MONOMIALS as nat, self.polynomial_term(weights, r, g, b))
    }

    /// The polynomial at the color of a pixel, in single precision.
    pub open spec fn level<S>(
        self,
        codec: Codec<S, T>,
        picture: Picture<S>,
        weights: Seq<T>,
        index: int,
    ) -> T {
        (self.single)(
            self.polynomial(
                weights,
                (codec.to_unit)(picture.channel(index, 0)),
                (codec.to_unit)(picture.channel(index, 1)),
                (codec.to_unit)(picture.channel(index, 2)),
            ),
        )
    }

    /// The polynomial at every pixel.
    pub open spec fn levels<S>(
        self,
        codec: Codec<S, T>,
        picture: Picture<S>,
        weights: Seq<T>,
    ) -> Seq<T> {
        Seq::new(picture.area() as nat, |i: int| self.level(codec, picture, weights, i))
    }

    /// The smallest of the first `count` numbers.
    pub open spec fn lowest(self, levels: Seq<T>, count: nat) -> T
        decreases count,
    {
        if count == 0 {
            self.infinity
        } else {
            (self.smaller)(self.lowest(levels, (count - 1) as nat), levels[count - 1])
        }
    }

    /// The largest of the first `count` numbers.
    pub open spec fn highest(self, levels: Seq<T>, count: nat) -> T
        decreases count,
    {
        if count == 0 {
            (self.negated)(self.infinity)
        } else {
            (self.larger)(self.highest(levels, (count - 1) as nat), levels[count - 1])
        }
    }

    /// `level` moved linearly so that `[low, high]` becomes the unit interval.
    /// Where the interval has no extent, `level` stays where it lands on the
    /// unit interval.
    pub open spec fn stretched(self, low: T, high: T, level: T) -> T {
        let range = (self.single)((self.minus)(high, low));
        if (self.less)(self.zero(), range) {
            self.clamp(
                (self.over)((self.single)((self.minus)(level, low)), range),
                self.zero(),
                self.one(),
            )
        } else {
            self.clamp(level, self.zero(), self.one())
        }
    }

    /// The grays of a picture under the polynomial with the given
    /// coefficients, stretched to the full output range.
    pub open spec fn polynomial_grays<S>(
        self,
        codec: Codec<S, T>,
        picture: Picture<S>,
        weights: Seq<T>,
    ) -> Seq<S> {
        let levels = self.levels(codec, picture, weights);
        let low = self.lowest(levels, levels.len());
        let high = self.highest(levels, levels.len());
        Seq::new(
            picture.area() as nat,
            |i: int| (codec.from_unit)(self.stretched(low, high, levels[i])),
        )
    }
}

/// Per-pair differences of each monomial between the two pixels of the pair.
pub fn monomial_differences<T: Scalar>(planes: &Planes<T>) -> (r: Vec<Vec<T>>)
    requires
        planes.wf(),
    ensures
        r@.len() == NUM_MONOMIALS,
        forall|i: int|
            0 <= i < NUM_MONOMIALS ==> (#[trigger] r@[i])@.len() == planes@.neighbors().count(),
        forall|m: Arithmetic<T>, i: int, k: int|
            #![trigger m.describes(), r@[i]@[k]]
            m.describes() && 0 <= i < NUM_MONOMIALS && 0 <= k < planes@.neighbors().count()
                ==> r@[i]@[k] == m.monomial_difference(planes@, i, k),
{
    let mut r: Vec<Vec<T>> = Vec::new();
    let mut i: usize = 0;
    while i < NUM_MONOMIALS
        invariant
            planes.wf(),
            0 <= i <= NUM_MONOMIALS,
            r@.len() == i,
            forall|j: int| 0 <= j < i ==> (#[trigger] r@[j])@.len() == planes@.neighbors().count(),
            forall|m: Arithmetic<T>, j: int, k: int|
                #![trigger m.describes(), r@[j]@[k]]
                m.describes() && 0 <= j < i && 0 <= k < planes@.neighbors().count() ==> r@[j]@[k]
                    == m.monomial_difference(planes@, j, k),
        decreases NUM_MONOMIALS - i,
    {
        r.push(monomial_difference_row(planes, i));
        i = i + 1;
    }
    r
}

/// Per-pair differences of one monomial.
fn monomial_difference_row<T: Scalar>(planes: &Planes<T>, index: usize) -> (r: Vec<T>)
    requires
        planes.wf(),
        index < NUM_MONOMIALS,
    ensures
        r@.len() == planes@.neighbors().count(),
        forall|m: Arithmetic<T>, k: int|
            #![trigger m.describes(), r@[k]]
            m.describes() && 0 <= k < r@.len() ==> r@[k] == m.monomial_difference(
                planes@,
                index as int,
                k,
            ),
{
    let e = monomial(index);
    let pixels = planes.r.len();
    let mut values: Vec<T> = Vec::new();
    let mut i: usize = 0;
    while i < pixels
        invariant
            planes.wf(),
            e == Monomial::nth(index as int),
            0 <= i <= pixels == planes.r@.len(),
            values@.len() == i,
            forall|m: Arithmetic<T>, j: int|
                #![trigger m.describes(), values@[j]]
                m.describes() && 0 <= j < i ==> values@[j] == m.monomial_value(
                    index as int,
                    planes.r@[j],
                    planes.g@[j],
                    planes.b@[j],
                ),
        decreases pixels - i,
    {
        values.push(
            planes.r[i].power(e.r).times(planes.g[i].power(e.g)).times(planes.b[i].power(e.b)),
        );
        i = i + 1;
    }
    let r = differences(&values, planes.width, planes.height);
    proof {
        assert forall|m: Arithmetic<T>, k: int|
            #![trigger m.describes(), r@[k]]
            m.describes() && 0 <= k < r@.len() implies r@[k] == m.monomial_difference(
            planes@,
            index as int,
            k,
        ) by {
            crate::pairs::lemma_ends(planes@.neighbors(), k);
        }
    }
    r
}

/// Evaluates the polynomial with the given coefficients at a color.
pub fn evaluate<T: Scalar>(weights: &[T; NUM_MONOMIALS], r: T, g: T, b: T) -> (sum: T)
    ensures
        forall|m: Arithmetic<T>| #[trigger]
            m.describes() ==> sum == m.polynomial(weights@, r, g, b),
{
    let mut sum = T::from_int(0);
    let mut i: usize = 0;
    while i < NUM_MONOMIALS
        invariant
            0 <= i <= NUM_MONOMIALS,
            forall|m: Arithmetic<T>| #[trigger]
                m.describes() ==> sum == m.total(
                    i as nat,
                    m.polynomial_term(weights@, r, g, b),
                ),
        decreases NUM_MONOMIALS - i,
    {
        let e = monomial(i);
        let term = weights[i].times(r.power(e.r)).times(g.power(e.g)).times(b.power(e.b));
        sum = sum.plus(term);
        i = i + 1;
    }
    sum
}

/// Applies a polynomial at full resolution and rescales the result to the
/// output range.
///
/// The polynomial is unconstrained, so its range depends on the image. That
/// range is mapped linearly onto the displayable one.
pub fn apply_polynomial<T: Scalar, S: DecolorizeSubpixel<T>>(
    image: &Image<S>,
    weights: &[T; NUM_MONOMIALS],
) -> (r: Image<S>)
    requires
        image.wf(),
    ensures
        r.wf(),
        r.width == image.width,
        r.height == image.height,
        r.layout == Layout::Luma,
        forall|m: Arithmetic<T>, c: Codec<S, T>|
            #![trigger m.describes(), c.describes()]
            m.describes() && c.describes() ==> r.samples@ == m.polynomial_grays(
                c,
                image@,
                weights@,
            ),
{
    proof {
        image.lemma_area_fits();
    }
    let pixels: usize = image.width as usize * image.height as usize;
    let mut gray: Vec<T> = Vec::new();
    let mut low = T::infinity();
    let mut high = T::infinity().negated();
    let mut i: usize = 0;
    while i < pixels
        invariant
            image.wf(),
            0 <= i <= pixels == image.width * image.height,
            gray@.len() == i,
            forall|m: Arithmetic<T>, c: Codec<S, T>, j: int|
                #![trigger m.describes(), c.describes(), gray@[j]]
                m.describes() && c.describes() && 0 <= j < i ==> gray@[j] == m.level(
                    c,
                    image@,
                    weights@,
                    j,
                ),
            forall|m: Arithmetic<T>, c: Codec<S, T>|
                #![trigger m.describes(), c.describes()]
                m.describes() && c.describes() ==> low == m.lowest(
                    m.levels(c, image@, weights@),
                    i as nat,
                ) && high == m.highest(m.levels(c, image@, weights@), i as nat),
        decreases pixels - i,
    {
        let rgb = image.rgb(i);
        let level = evaluate(weights, rgb[0].to_unit(), rgb[1].to_unit(), rgb[2].to_unit())
            .single();
        gray.push(level);
        low = low.smaller(level);
        high = high.larger(level);
        i = i + 1;
    }
    let zero = T::from_int(0);
    let one = T::from_int(1);
    let range = high.minus(low).single();
    let mut samples: Vec<S> = Vec::new();
    let stretch = zero.less(range);
    i = 0;
    while i < pixels
        invariant
            0 <= i <= pixels == image.width * image.height,
            gray@.len() == pixels,
            samples@.len() == i,
            forall|m: Arithmetic<T>| #[trigger]
                m.describes() ==> {
                    &&& zero == m.zero()
                    &&& one == m.one()
                    &&& range == (m.single)((m.minus)(high, low))
                    &&& stretch == (m.less)(zero, range)
                },
            forall|m: Arithmetic<T>, c: Codec<S, T>, j: int|
                #![trigger m.describes(), c.describes(), samples@[j]]
                m.describes() && c.describes() && 0 <= j < i ==> samples@[j] == (c.from_unit)(
                    m.stretched(low, high, gray@[j]),
                ),
        decreases pixels - i,
    {
        let level = gray[i];
        let unit = if stretch {
            clamp(level.minus(low).single().over(range), zero, one)
        } else {
            // Constant output: nothing to stretch, so keep it where it lands.
            clamp(level, zero, one)
        };
        samples.push(S::from_unit(unit));
        i = i + 1;
    }
    Image { width: image.width, height: image.height, layout: Layout::Luma, samples }
}

} // verus!
