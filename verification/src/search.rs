//! The search for the best channel weighting.
use crate::definitions::{Image, Layout, Picture};
use crate::fit::mixture;
use crate::options::FastDecolorizeOptions;
use crate::sampling::{sample_pairs, Pair};
use crate::scalar::{ratio, Arithmetic, Scalar};
use crate::subpixel::{Codec, DecolorizeSubpixel};
use vstd::prelude::*;

verus! {

/// Quantization of the weight simplex: weights are multiples of
/// `1 / WEIGHT_STEPS`.
pub const WEIGHT_STEPS: u64 = 10;

/// A channel weighting, in units of `1 / WEIGHT_STEPS`.
pub struct Weighting {
    pub r: u64,
    pub g: u64,
    pub b: u64,
}

impl Weighting {
    /// The weightings whose red weight is `r`, by increasing green weight.
    pub open spec fn row(r: int) -> Seq<Weighting> {
        Seq::new(
            (WEIGHT_STEPS - r + 1) as nat,
            |g: int|
                Weighting { r: r as u64, g: g as u64, b: (WEIGHT_STEPS - r - g) as u64 },
        )
    }

    /// The weightings whose red weight is less than `end`, by increasing red
    /// weight.
    pub open spec fn rows(end: int) -> Seq<Weighting>
        decreases end,
    {
        if end <= 0 {
            Seq::empty()
        } else {
            Self::rows(end - 1) + Self::row(end - 1)
        }
    }

    /// All weightings whose weights sum to one.
    pub open spec fn all() -> Seq<Weighting> {
        Self::rows(WEIGHT_STEPS + 1)
    }
}

impl<T> Arithmetic<T> {
    /// The weights of a weighting.
    pub open spec fn channel_weights(self, weighting: Weighting) -> Seq<T> {
        seq![
            self.ratio(weighting.r, WEIGHT_STEPS),
            self.ratio(weighting.g, WEIGHT_STEPS),
            self.ratio(weighting.b, WEIGHT_STEPS),
        ]
    }

    /// The channel average.
    pub open spec fn equal_weights(self) -> Seq<T> {
        seq![self.ratio(1, 3), self.ratio(1, 3), self.ratio(1, 3)]
    }

    /// A weighted sum of three numbers.
    pub open spec fn combined(self, weights: Seq<T>, x: T, y: T, z: T) -> T {
        (self.plus)(
            (self.plus)((self.times)(weights[0], x), (self.times)(weights[1], y)),
            (self.times)(weights[2], z),
        )
    }

    /// The logarithm of an unnormalized Gaussian.
    pub open spec fn log_gaussian(self, gap: T, sigma: T) -> T {
        (self.times)((self.negated)((self.power)(gap, 2)), self.precision(sigma))
    }

    /// The log likelihood of the pairs under a weighting, pair by pair. The
    /// mixture is evenly weighted.
    pub open spec fn score_term(
        self,
        pairs: Seq<Pair<T>>,
        weights: Seq<T>,
        sigma: T,
    ) -> spec_fn(int) -> T {
        |k: int|
            {
                let d = pairs[k].difference;
                let difference = self.combined(weights, d.0, d.1, d.2);
                self.log_sum(
                    self.log_gaussian((self.minus)(difference, pairs[k].contrast), sigma),
                    self.log_gaussian((self.plus)(difference, pairs[k].contrast), sigma),
                )
            }
    }

    /// The mean log likelihood of the pairs under a weighting.
    pub open spec fn score(self, pairs: Seq<Pair<T>>, weights: Seq<T>, sigma: T) -> T {
        (self.over)(
            self.total(pairs.len(), self.score_term(pairs, weights, sigma)),
            (self.from_int)(pairs.len() as u64),
        )
    }

    /// The scores of all weightings.
    pub open spec fn scores(self, pairs: Seq<Pair<T>>, sigma: T) -> Seq<T> {
        Seq::new(
            Weighting::all().len(),
            |i: int| self.score(pairs, self.channel_weights(Weighting::all()[i]), sigma),
        )
    }

    /// Index of the largest of the first `count` numbers, the last one where
    /// several are largest.
    pub open spec fn last_largest(self, numbers: Seq<T>, count: int) -> int
        decreases count,
    {
        if count <= 1 {
            0
        } else {
            let best = self.last_largest(numbers, count - 1);
            if (self.precedes)(numbers[best], numbers[count - 1]) {
                count - 1
            } else {
                best
            }
        }
    }

    /// The weights that suit the sampled pairs best.
    pub open spec fn best_weights(self, pairs: Seq<Pair<T>>, sigma: T) -> Seq<T> {
        if pairs.len() == 0 {
            self.equal_weights()
        } else {
            let scores = self.scores(pairs, sigma);
            self.channel_weights(
                Weighting::all()[self.last_largest(scores, scores.len() as int)],
            )
        }
    }

    /// The grays of a picture under a channel weighting.
    pub open spec fn linear_grays<S>(
        self,
        codec: Codec<S, T>,
        picture: Picture<S>,
        weights: Seq<T>,
    ) -> Seq<S> {
        Seq::new(
            picture.area() as nat,
            |i: int|
                (codec.from_unit)(
                    self.combined(
                        weights,
                        (codec.to_unit)(picture.channel(i, 0)),
                        (codec.to_unit)(picture.channel(i, 1)),
                        (codec.to_unit)(picture.channel(i, 2)),
                    ),
                ),
        )
    }
}

/// There are 66 weightings.
pub proof fn lemma_weighting_count()
    ensures
        Weighting::all().len() == 66,
{
    reveal_with_fuel(Weighting::rows, 12);
}

/// The 66 candidate weight triples, every `(i, j, k) / 10` with
/// `i + j + k = 10`.
pub fn candidate_weights<T: Scalar>() -> (r: Vec<[T; 3]>)
    ensures
        r@.len() == Weighting::all().len() == 66,
        forall|m: Arithmetic<T>, i: int|
            #![trigger m.describes(), r@[i]]
            m.describes() && 0 <= i < r@.len() ==> r@[i]@ == m.channel_weights(
                Weighting::all()[i],
            ),
{
    proof {
        lemma_weighting_count();
    }
    let steps = T::from_int(WEIGHT_STEPS);
    let mut candidates: Vec<[T; 3]> = Vec::with_capacity(66);
    let mut i: u64 = 0;
    while i <= WEIGHT_STEPS
        invariant
            0 <= i <= WEIGHT_STEPS + 1,
            candidates@.len() == Weighting::rows(i as int).len(),
            forall|m: Arithmetic<T>| #[trigger]
                m.describes() ==> steps == (m.from_int)(WEIGHT_STEPS),
            forall|m: Arithmetic<T>, l: int|
                #![trigger m.describes(), candidates@[l]]
                m.describes() && 0 <= l < candidates@.len() ==> candidates@[l]@
                    == m.channel_weights(Weighting::rows(i as int)[l]),
        decreases WEIGHT_STEPS + 1 - i,
    {
        let mut j: u64 = 0;
        let ghost before = candidates@.len();
        while j <= WEIGHT_STEPS - i
            invariant
                0 <= i <= WEIGHT_STEPS,
                0 <= j <= WEIGHT_STEPS - i + 1,
                before == Weighting::rows(i as int).len(),
                candidates@.len() == before + j,
                Weighting::rows(i + 1) == Weighting::rows(i as int) + Weighting::row(i as int),
                forall|m: Arithmetic<T>| #[trigger]
                    m.describes() ==> steps == (m.from_int)(WEIGHT_STEPS),
                forall|m: Arithmetic<T>, l: int|
                    #![trigger m.describes(), candidates@[l]]
                    m.describes() && 0 <= l < candidates@.len() ==> candidates@[l]@
                        == m.channel_weights(Weighting::rows(i + 1)[l]),
            decreases WEIGHT_STEPS + 1 - i - j,
        {
            let k: u64 = WEIGHT_STEPS - i - j;
            let candidate = [
                T::from_int(i).over(steps),
                T::from_int(j).over(steps),
                T::from_int(k).over(steps),
            ];
            assert(Weighting::rows(i + 1)[before + j] == (Weighting { r: i, g: j, b: k }));
            assert(forall|m: Arithmetic<T>| #[trigger]
                m.describes() ==> candidate@ =~= m.channel_weights(
                    Weighting { r: i, g: j, b: k },
                ));
            candidates.push(candidate);
            j = j + 1;
        }
        i = i + 1;
    }
    candidates
}

/// A weighted sum of three numbers.
fn combined<T: Scalar>(weights: &[T; 3], x: T, y: T, z: T) -> (r: T)
    ensures
        forall|m: Arithmetic<T>| #[trigger] m.describes() ==> r == m.combined(weights@, x, y, z),
{
    weights[0].times(x).plus(weights[1].times(y)).plus(weights[2].times(z))
}

/// The mean log likelihood of the pairs under a weighting.
pub fn score<T: Scalar>(pairs: &Vec<Pair<T>>, weights: &[T; 3], sigma: T) -> (r: T)
    ensures
        forall|m: Arithmetic<T>| #[trigger] m.describes() ==> r == m.score(pairs@, weights@, sigma),
{
    let scale = T::from_int(1).over(T::from_int(2).times(sigma).times(sigma));
    let count = pairs.len();
    let mut total = T::from_int(0);
    let mut k: usize = 0;
    while k < count
        invariant
            0 <= k <= count == pairs@.len(),
            forall|m: Arithmetic<T>| #[trigger]
                m.describes() ==> scale == m.precision(sigma) && total == m.total(
                    k as nat,
                    m.score_term(pairs@, weights@, sigma),
                ),
        decreases count - k,
    {
        let pair = &pairs[k];
        let (x, y, z) = pair.difference;
        let difference = combined(weights, x, y, z);
        let low = difference.minus(pair.contrast).power(2).negated().times(scale);
        let high = difference.plus(pair.contrast).power(2).negated().times(scale);
        let (likelihood, _) = mixture(low, high);
        total = total.plus(likelihood);
        k = k + 1;
    }
    total.over(T::from_int(count as u64))
}

/// Chooses the weighting that suits the sampled pairs best.
pub fn best_weights<T: Scalar>(pairs: &Vec<Pair<T>>, sigma: T) -> (r: [T; 3])
    ensures
        forall|m: Arithmetic<T>| #[trigger] m.describes() ==> r@ == m.best_weights(pairs@, sigma),
{
    if pairs.len() == 0 {
        // Nothing carries enough contrast to tell the candidates apart, so the
        // image is grayscale or near flat. Fall back to the channel average.
        let third = ratio::<T>(1, 3);
        let r = [third, third, third];
        assert(forall|m: Arithmetic<T>| #[trigger] m.describes() ==> r@ =~= m.equal_weights());
        return r;
    }
    let candidates = candidate_weights::<T>();
    let count = candidates.len();
    let mut best: usize = 0;
    let mut best_score = score(pairs, &candidates[0], sigma);
    let mut i: usize = 1;
    while i < count
        invariant
            1 <= i <= count == candidates@.len(),
            count == Weighting::all().len(),
            best < i,
            forall|m: Arithmetic<T>, l: int|
                #![trigger m.describes(), candidates@[l]]
                m.describes() && 0 <= l < count ==> candidates@[l]@ == m.channel_weights(
                    Weighting::all()[l],
                ),
            forall|m: Arithmetic<T>| #[trigger]
                m.describes() ==> {
                    &&& best == m.last_largest(m.scores(pairs@, sigma), i as int)
                    &&& best_score == m.scores(pairs@, sigma)[best as int]
                },
        decreases count - i,
    {
        let next = score(pairs, &candidates[i], sigma);
        assert(forall|m: Arithmetic<T>| #[trigger]
            m.describes() ==> next == m.scores(pairs@, sigma)[i as int]);
        if best_score.precedes(next) {
            best = i;
            best_score = next;
        }
        i = i + 1;
    }
    candidates[best]
}

/// Chooses the best of the 66 candidate channel weightings.
pub fn search_linear_weights<T: Scalar, S: DecolorizeSubpixel<T>>(
    image: &Image<S>,
    options: FastDecolorizeOptions<T>,
) -> (r: [T; 3])
    requires
        image.wf(),
        image.width > 0,
        image.height > 0,
        options.samples > 0,
    ensures
        forall|m: Arithmetic<T>, c: Codec<S, T>|
            #![trigger m.describes(), c.describes()]
            m.describes() && c.describes() ==> r@ == m.best_weights(
                m.sampled_pairs(c, image@, options),
                options.sigma,
            ),
{
    let pairs = sample_pairs(image, options);
    best_weights(&pairs, options.sigma)
}

/// Applies a convex combination of the channels. No rescaling is needed, since
/// the weights sum to one.
pub fn apply_linear<T: Scalar, S: DecolorizeSubpixel<T>>(
    image: &Image<S>,
    weights: [T; 3],
) -> (r: Image<S>)
    requires
        image.wf(),
    ensures
        r.wf(),
        r.width == image.width,
        r.height == image.height,
        r.layout == Layout::Luma,
        forall|m: Arithmetic<T>, c: Codec<S, T>|
            #![trigger m.describes(), c.describes()]
            m.describes() && c.describes() ==> r.samples@ == m.linear_grays(
                c,
                image@,
                weights@,
            ),
{
    proof {
        image.lemma_area_fits();
    }
    let pixels: usize = image.width as usize * image.height as usize;
    let mut samples: Vec<S> = Vec::new();
    let mut i: usize = 0;
    while i < pixels
        invariant
            image.wf(),
            0 <= i <= pixels == image.width * image.height,
            samples@.len() == i,
            forall|m: Arithmetic<T>, c: Codec<S, T>, j: int|
                #![trigger m.describes(), c.describes(), samples@[j]]
                m.describes() && c.describes() && 0 <= j < i ==> samples@[j] == m.linear_grays(
                    c,
                    image@,
                    weights@,
                )[j],
        decreases pixels - i,
    {
        let rgb = image.rgb(i);
        let value = combined(&weights, rgb[0].to_unit(), rgb[1].to_unit(), rgb[2].to_unit());
        samples.push(S::from_unit(value));
        i = i + 1;
    }
    Image { width: image.width, height: image.height, layout: Layout::Luma, samples }
}

} // verus!
