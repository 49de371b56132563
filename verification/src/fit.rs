//! Fitting the polynomial mapping.
//!
//! Write `d` for the difference of the output grays of a pixel pair and `c` for
//! the color contrast of that pair. The gray difference is modeled as a mixture
//! of two Gaussians centered at `+c` and `-c`, so that the sign of the contrast
//! is left to the optimizer, and the mapping is the one that maximizes the
//! likelihood of all pairs:
//!
//! ```text
//! E = - sum ln[ a G(d - c, sigma^2) + (1 - a) G(d + c, sigma^2) ]
//! ```
//!
//! The weak color order collapses the mixture to a single mode for the pairs
//! whose order is unambiguous.
use crate::color::{color_contrast, weak_order};
use crate::options::DecolorizeOptions;
use crate::planes::{PlaneSet, Planes};
use crate::polynomial::monomial_differences;
use crate::scalar::{ratio, Arithmetic, Scalar, NUM_MONOMIALS};
use vstd::prelude::*;

verus! {

/// Number of pixel pairs handled by one unit of work. Fixing this fixes the
/// order of the reductions.
pub const PAIR_CHUNK: usize = 8192;

/// What is known of the pixel pairs of an image.
pub struct Evidence<T> {
    /// The differences of each monomial, pair by pair.
    pub basis: Seq<Seq<T>>,
    /// The color contrast of each pair.
    pub contrast: Seq<T>,
    /// The weak color order of each pair.
    pub order: Seq<T>,
}

/// Totals of a pass over pixel pairs.
pub struct Totals<T> {
    pub rhs: Seq<T>,
    pub energy: T,
}

/// Running totals of one pass over the pixel pairs.
#[derive(Clone, Copy)]
pub struct Accumulator<T> {
    /// Right hand side of the linearized normal equations.
    pub rhs: [T; NUM_MONOMIALS],
    /// Unnormalized objective.
    pub energy: T,
}

impl<T> View for Accumulator<T> {
    type V = Totals<T>;

    open spec fn view(&self) -> Totals<T> {
        Totals { rhs: self.rhs@, energy: self.energy }
    }
}

impl<T> Evidence<T> {
    /// The evidence that vectors hold.
    pub open spec fn of(basis: Seq<Vec<T>>, contrast: Seq<T>, order: Seq<T>) -> Evidence<T> {
        Evidence { basis: Seq::new(basis.len(), |i: int| basis[i]@), contrast, order }
    }

    /// Number of pixel pairs.
    pub open spec fn pairs(self) -> int {
        self.contrast.len() as int
    }

    /// Everything is known of every pair.
    pub open spec fn wf(self) -> bool {
        &&& self.basis.len() == NUM_MONOMIALS
        &&& forall|i: int|
            0 <= i < NUM_MONOMIALS ==> (#[trigger] self.basis[i]).len() == self.contrast.len()
        &&& self.order.len() == self.contrast.len()
    }
}

impl<T> Arithmetic<T> {
    /// What a downscaled image says of its pixel pairs.
    pub open spec fn evidence(self, planes: PlaneSet<T>) -> Evidence<T> {
        let pairs = planes.neighbors().count() as nat;
        Evidence {
            basis: Seq::new(
                NUM_MONOMIALS as nat,
                |i: int| Seq::new(pairs, |k: int| self.monomial_difference(planes, i, k)),
            ),
            contrast: Seq::new(pairs, |k: int| self.contrast(planes, k)),
            order: Seq::new(pairs, |k: int| self.weak_order(planes, k)),
        }
    }

    /// `ln(exp(low) + exp(high))`, computed without underflow.
    pub open spec fn log_sum(self, low: T, high: T) -> T {
        let peak = (self.larger)(low, high);
        (self.plus)(
            peak,
            (self.logarithm)(
                (self.plus)(
                    (self.exponential)((self.minus)(low, peak)),
                    (self.exponential)((self.minus)(high, peak)),
                ),
            ),
        )
    }

    /// How much more of a mixture the mode `low` takes than the mode `high`.
    pub open spec fn responsibility(self, low: T, high: T) -> T {
        let peak = (self.larger)(low, high);
        let a = (self.exponential)((self.minus)(low, peak));
        let b = (self.exponential)((self.minus)(high, peak));
        (self.over)((self.minus)(a, b), (self.plus)(a, b))
    }

    /// `1 / (2 sigma^2)`
    pub open spec fn precision(self, sigma: T) -> T {
        (self.over)(
            self.one(),
            (self.times)((self.times)((self.from_int)(2), sigma), sigma),
        )
    }

    /// The terms of the gray difference of pair `k` under a mapping.
    pub open spec fn gray_term(
        self,
        evidence: Evidence<T>,
        weights: Seq<T>,
        k: int,
    ) -> spec_fn(int) -> T {
        |j: int| (self.times)(weights[j], evidence.basis[j][k])
    }

    /// The gray difference of pair `k` under a mapping.
    pub open spec fn gray_difference(self, evidence: Evidence<T>, weights: Seq<T>, k: int) -> T {
        self.total(NUM_MONOMIALS as nat, self.gray_term(evidence, weights, k))
    }

    /// The logarithm of the weighted Gaussian at `+c` of pair `k`.
    pub open spec fn upper_mode(
        self,
        evidence: Evidence<T>,
        weights: Seq<T>,
        sigma: T,
        k: int,
    ) -> T {
        let share = (self.over)((self.plus)(self.one(), evidence.order[k]), (self.from_int)(2));
        let gap = (self.minus)(self.gray_difference(evidence, weights, k), evidence.contrast[k]);
        (self.minus)(
            (self.logarithm)(share),
            (self.times)((self.power)(gap, 2), self.precision(sigma)),
        )
    }

    /// The logarithm of the weighted Gaussian at `-c` of pair `k`.
    pub open spec fn lower_mode(
        self,
        evidence: Evidence<T>,
        weights: Seq<T>,
        sigma: T,
        k: int,
    ) -> T {
        let share = (self.over)((self.minus)(self.one(), evidence.order[k]), (self.from_int)(2));
        let gap = (self.plus)(self.gray_difference(evidence, weights, k), evidence.contrast[k]);
        (self.minus)(
            (self.logarithm)(share),
            (self.times)((self.power)(gap, 2), self.precision(sigma)),
        )
    }

    /// The contribution of pair `start + i` to entry `j` of the right hand
    /// side.
    pub open spec fn rhs_term(
        self,
        evidence: Evidence<T>,
        weights: Seq<T>,
        sigma: T,
        start: int,
        j: int,
    ) -> spec_fn(int) -> T {
        |i: int|
            (self.times)(
                (self.times)(evidence.basis[j][start + i], evidence.contrast[start + i]),
                self.responsibility(
                    self.upper_mode(evidence, weights, sigma, start + i),
                    self.lower_mode(evidence, weights, sigma, start + i),
                ),
            )
    }

    /// The negative log likelihood of the pairs `[start, start + len)`.
    pub open spec fn energy(
        self,
        evidence: Evidence<T>,
        weights: Seq<T>,
        sigma: T,
        start: int,
        len: nat,
    ) -> T
        decreases len,
    {
        if len == 0 {
            self.zero()
        } else {
            let k = start + len - 1;
            (self.minus)(
                self.energy(evidence, weights, sigma, start, (len - 1) as nat),
                self.log_sum(
                    self.upper_mode(evidence, weights, sigma, k),
                    self.lower_mode(evidence, weights, sigma, k),
                ),
            )
        }
    }

    /// The totals over the pairs `[start, start + len)`.
    pub open spec fn pass(
        self,
        evidence: Evidence<T>,
        weights: Seq<T>,
        sigma: T,
        start: int,
        len: nat,
    ) -> Totals<T> {
        Totals {
            rhs: Seq::new(
                NUM_MONOMIALS as nat,
                |j: int| self.total(len, self.rhs_term(evidence, weights, sigma, start, j)),
            ),
            energy: self.energy(evidence, weights, sigma, start, len),
        }
    }

    /// No pairs.
    pub open spec fn no_totals(self) -> Totals<T> {
        Totals { rhs: Seq::new(NUM_MONOMIALS as nat, |j: int| self.zero()), energy: self.zero() }
    }

    /// The entrywise sum of two totals.
    pub open spec fn merged(self, a: Totals<T>, b: Totals<T>) -> Totals<T> {
        Totals {
            rhs: Seq::new(NUM_MONOMIALS as nat, |j: int| (self.plus)(a.rhs[j], b.rhs[j])),
            energy: (self.plus)(a.energy, b.energy),
        }
    }
}

impl<T: Scalar> Accumulator<T> {
    /// No pairs.
    pub fn zero() -> (r: Self)
        ensures
            forall|m: Arithmetic<T>| #[trigger] m.describes() ==> r@ == m.no_totals(),
    {
        let zero = T::from_int(0);
        let r = Accumulator { rhs: [zero; NUM_MONOMIALS], energy: zero };
        assert(forall|m: Arithmetic<T>| #[trigger]
            m.describes() ==> r@.rhs =~= m.no_totals().rhs);
        r
    }

    /// The totals over the pairs of both.
    pub fn merge(self, other: Self) -> (r: Self)
        ensures
            forall|m: Arithmetic<T>| #[trigger] m.describes() ==> r@ == m.merged(self@, other@),
    {
        let mut r = self;
        let mut j: usize = 0;
        while j < NUM_MONOMIALS
            invariant
                0 <= j <= NUM_MONOMIALS,
                r.energy == self.energy,
                forall|i: int| j <= i < NUM_MONOMIALS ==> #[trigger] r.rhs@[i] == self.rhs@[i],
                forall|m: Arithmetic<T>, i: int|
                    #![trigger m.describes(), r.rhs@[i]]
                    m.describes() && 0 <= i < j ==> r.rhs@[i] == (m.plus)(
                        self.rhs@[i],
                        other.rhs@[i],
                    ),
            decreases NUM_MONOMIALS - j,
        {
            r.rhs[j] = self.rhs[j].plus(other.rhs[j]);
            j = j + 1;
        }
        r.energy = self.energy.plus(other.energy);
        assert(forall|m: Arithmetic<T>| #[trigger]
            m.describes() ==> r@.rhs =~= m.merged(self@, other@).rhs);
        r
    }
}

/// `ln(exp(low) + exp(high))` and the signed responsibility of the two modes.
///
/// Both exponentials underflow for any pair whose contrast is badly reproduced,
/// which is where the objective is largest, so the mixture is evaluated in the
/// log domain throughout. One of the two exponentials is one by construction,
/// so the quotient is well conditioned.
pub(crate) fn mixture<T: Scalar>(low: T, high: T) -> (r: (T, T))
    ensures
        forall|m: Arithmetic<T>| #[trigger]
            m.describes() ==> r.0 == m.log_sum(low, high) && r.1 == m.responsibility(low, high),
{
    let peak = low.larger(high);
    let a = low.minus(peak).exponential();
    let b = high.minus(peak).exponential();
    let sum = a.plus(b);
    (peak.plus(sum.logarithm()), a.minus(b).over(sum))
}

/// The gray difference of pair `k` under a mapping.
fn gray_difference<T: Scalar>(
    basis: &Vec<Vec<T>>,
    contrast: &Vec<T>,
    order: &Vec<T>,
    weights: &[T; NUM_MONOMIALS],
    k: usize,
) -> (r: T)
    requires
        Evidence::of(basis@, contrast@, order@).wf(),
        k < contrast@.len(),
    ensures
        forall|m: Arithmetic<T>| #[trigger]
            m.describes() ==> r == m.gray_difference(
                Evidence::of(basis@, contrast@, order@),
                weights@,
                k as int,
            ),
{
    let ghost evidence = Evidence::of(basis@, contrast@, order@);
    let mut difference = T::from_int(0);
    let mut j: usize = 0;
    while j < NUM_MONOMIALS
        invariant
            0 <= j <= NUM_MONOMIALS,
            evidence == Evidence::of(basis@, contrast@, order@),
            evidence.wf(),
            k < contrast@.len(),
            forall|m: Arithmetic<T>| #[trigger]
                m.describes() ==> difference == m.total(
                    j as nat,
                    m.gray_term(evidence, weights@, k as int),
                ),
        decreases NUM_MONOMIALS - j,
    {
        assert(evidence.basis[j as int] == basis@[j as int]@);
        difference = difference.plus(weights[j].times(basis[j][k]));
        j = j + 1;
    }
    difference
}

/// Evaluates the objective and the fixed point right hand side over the pairs
/// `[start, start + len)`.
pub fn accumulate_pairs<T: Scalar>(
    basis: &Vec<Vec<T>>,
    contrast: &Vec<T>,
    order: &Vec<T>,
    weights: &[T; NUM_MONOMIALS],
    sigma: T,
    start: usize,
    len: usize,
) -> (r: Accumulator<T>)
    requires
        Evidence::of(basis@, contrast@, order@).wf(),
        start + len <= contrast@.len(),
    ensures
        forall|m: Arithmetic<T>| #[trigger]
            m.describes() ==> r@ == m.pass(
                Evidence::of(basis@, contrast@, order@),
                weights@,
                sigma,
                start as int,
                len as nat,
            ),
{
    let ghost evidence = Evidence::of(basis@, contrast@, order@);
    let (one, two) = (T::from_int(1), T::from_int(2));
    let scale = one.over(two.times(sigma).times(sigma));
    let mut acc = Accumulator::<T>::zero();
    let mut i: usize = 0;
    let pairs = contrast.len();
    while i < len
        invariant
            0 <= i <= len,
            start + len <= contrast@.len() == pairs,
            evidence == Evidence::of(basis@, contrast@, order@),
            evidence.wf(),
            forall|m: Arithmetic<T>| #[trigger]
                m.describes() ==> {
                    &&& one == m.one()
                    &&& two == (m.from_int)(2)
                    &&& scale == m.precision(sigma)
                    &&& acc.energy == m.energy(
                        evidence,
                        weights@,
                        sigma,
                        start as int,
                        i as nat,
                    )
                },
            forall|m: Arithmetic<T>, j: int|
                #![trigger m.describes(), acc.rhs@[j]]
                m.describes() && 0 <= j < NUM_MONOMIALS ==> acc.rhs@[j] == m.total(
                    i as nat,
                    m.rhs_term(evidence, weights@, sigma, start as int, j),
                ),
        decreases len - i,
    {
        let k: usize = start + i;
        let difference = gray_difference(basis, contrast, order, weights, k);
        let delta = contrast[k];
        let positive = one.plus(order[k]).over(two);
        let negative = one.minus(order[k]).over(two);
        let low = positive.logarithm().minus(difference.minus(delta).power(2).times(scale));
        let high = negative.logarithm().minus(difference.plus(delta).power(2).times(scale));
        let (likelihood, responsibility) = mixture(low, high);
        assert(forall|m: Arithmetic<T>| #[trigger]
            m.describes() ==> low == m.upper_mode(evidence, weights@, sigma, k as int) && high
                == m.lower_mode(evidence, weights@, sigma, k as int));
        acc.energy = acc.energy.minus(likelihood);
        let mut j: usize = 0;
        while j < NUM_MONOMIALS
            invariant
                0 <= j <= NUM_MONOMIALS,
                0 <= i < len,
                k == start + i,
                k < contrast@.len() == pairs,
                delta == contrast@[k as int],
                evidence == Evidence::of(basis@, contrast@, order@),
                evidence.wf(),
                forall|m: Arithmetic<T>| #[trigger]
                    m.describes() ==> {
                        &&& acc.energy == m.energy(
                            evidence,
                            weights@,
                            sigma,
                            start as int,
                            (i + 1) as nat,
                        )
                        &&& responsibility == m.responsibility(
                            m.upper_mode(evidence, weights@, sigma, k as int),
                            m.lower_mode(evidence, weights@, sigma, k as int),
                        )
                    },
                forall|m: Arithmetic<T>, l: int|
                    #![trigger m.describes(), acc.rhs@[l]]
                    m.describes() && 0 <= l < NUM_MONOMIALS ==> acc.rhs@[l] == m.total(
                        if l < j {
                            (i + 1) as nat
                        } else {
                            i as nat
                        },
                        m.rhs_term(evidence, weights@, sigma, start as int, l),
                    ),
            decreases NUM_MONOMIALS - j,
        {
            assert(evidence.basis[j as int] == basis@[j as int]@);
            let step = basis[j][k].times(delta).times(responsibility);
            acc.rhs[j] = acc.rhs[j].plus(step);
            j = j + 1;
        }
        i = i + 1;
    }
    assert(forall|m: Arithmetic<T>| #[trigger]
        m.describes() ==> acc@.rhs =~= m.pass(
            evidence,
            weights@,
            sigma,
            start as int,
            len as nat,
        ).rhs);
    acc
}

impl<T> Arithmetic<T> {
    /// Number of chunks that a number of pairs is divided into.
    pub open spec fn chunk_count(pairs: int) -> nat {
        ((pairs + PAIR_CHUNK - 1) / PAIR_CHUNK as int) as nat
    }

    /// The totals over the first `chunks` chunks: each chunk is totaled by
    /// itself, and the chunks are merged in order.
    pub open spec fn chunked(
        self,
        evidence: Evidence<T>,
        weights: Seq<T>,
        sigma: T,
        chunks: nat,
    ) -> Totals<T>
        decreases chunks,
    {
        if chunks == 0 {
            self.no_totals()
        } else {
            let start = (chunks - 1) * PAIR_CHUNK;
            let rest = evidence.pairs() - start;
            let len = if rest < PAIR_CHUNK {
                rest
            } else {
                PAIR_CHUNK as int
            };
            self.merged(
                self.chunked(evidence, weights, sigma, (chunks - 1) as nat),
                self.pass(evidence, weights, sigma, start, len as nat),
            )
        }
    }

    /// The totals over all pairs.
    pub open spec fn totals(self, evidence: Evidence<T>, weights: Seq<T>, sigma: T) -> Totals<T> {
        self.chunked(evidence, weights, sigma, Self::chunk_count(evidence.pairs()))
    }

    /// The terms of the inner product of two monomials over all pairs.
    pub open spec fn gram_term(self, evidence: Evidence<T>, i: int, j: int) -> spec_fn(int) -> T {
        |k: int| (self.times)(evidence.basis[i][k], evidence.basis[j][k])
    }

    /// The inner product of two monomials over all pairs.
    pub open spec fn gram_entry(self, evidence: Evidence<T>, i: int, j: int) -> T {
        if i <= j {
            self.total(evidence.pairs() as nat, self.gram_term(evidence, i, j))
        } else {
            self.total(evidence.pairs() as nat, self.gram_term(evidence, j, i))
        }
    }

    /// The matrix of the normal equations.
    pub open spec fn gram(self, evidence: Evidence<T>) -> Seq<Seq<T>> {
        Seq::new(
            NUM_MONOMIALS as nat,
            |i: int|
                Seq::new(NUM_MONOMIALS as nat, |j: int| self.gram_entry(evidence, i, j)),
        )
    }

    /// The plain channel average.
    pub open spec fn initial_weights(self) -> Seq<T> {
        Seq::new(
            NUM_MONOMIALS as nat,
            |j: int|
                if j < 3 {
                    self.ratio(1, 3)
                } else {
                    self.zero()
                },
        )
    }

    /// Whether every coefficient is a finite number.
    pub open spec fn all_finite(self, weights: Seq<T>) -> bool {
        forall|j: int| 0 <= j < NUM_MONOMIALS ==> (self.is_finite)(#[trigger] weights[j])
    }

    /// The weights after at most `left` more fixed point iterations, where
    /// `previous` is the energy of the iteration before.
    pub open spec fn iterated(
        self,
        evidence: Evidence<T>,
        options: DecolorizeOptions<T>,
        weights: Seq<T>,
        previous: T,
        left: nat,
    ) -> Seq<T>
        decreases left,
    {
        if left == 0 {
            weights
        } else {
            let totals = self.totals(evidence, weights, options.sigma);
            let energy = (self.over)(totals.energy, (self.from_int)(evidence.pairs() as u64));
            if (self.less)((self.absolute)((self.minus)(energy, previous)), options.tolerance) {
                weights
            } else {
                match (self.solve)(self.gram(evidence), totals.rhs) {
                    Some(next) if self.all_finite(next) => self.iterated(
                        evidence,
                        options,
                        next,
                        energy,
                        (left - 1) as nat,
                    ),
                    _ => weights,
                }
            }
        }
    }

    /// The coefficients of the mapping for a downscaled image.
    pub open spec fn fitted_weights(
        self,
        planes: PlaneSet<T>,
        options: DecolorizeOptions<T>,
    ) -> Seq<T> {
        if planes.neighbors().count() == 0 {
            self.initial_weights()
        } else {
            self.iterated(
                self.evidence(planes),
                options,
                self.initial_weights(),
                self.infinity,
                options.max_iterations as nat,
            )
        }
    }
}

/// Evaluates the objective and the fixed point right hand side over all pairs,
/// chunk by chunk.
fn accumulate_all<T: Scalar>(
    basis: &Vec<Vec<T>>,
    contrast: &Vec<T>,
    order: &Vec<T>,
    weights: &[T; NUM_MONOMIALS],
    sigma: T,
) -> (r: Accumulator<T>)
    requires
        Evidence::of(basis@, contrast@, order@).wf(),
    ensures
        forall|m: Arithmetic<T>| #[trigger]
            m.describes() ==> r@ == m.totals(
                Evidence::of(basis@, contrast@, order@),
                weights@,
                sigma,
            ),
{
    let ghost evidence = Evidence::of(basis@, contrast@, order@);
    let pairs = contrast.len();
    let mut total = Accumulator::<T>::zero();
    let mut start: usize = 0;
    let ghost mut chunks: nat = 0;
    while start < pairs
        invariant
            0 <= start <= pairs == contrast@.len(),
            evidence == Evidence::of(basis@, contrast@, order@),
            evidence.wf(),
            start < pairs ==> start == chunks * PAIR_CHUNK,
            start == pairs ==> chunks == Arithmetic::<T>::chunk_count(pairs as int),
            forall|m: Arithmetic<T>| #[trigger]
                m.describes() ==> total@ == m.chunked(evidence, weights@, sigma, chunks),
        decreases pairs - start,
    {
        let len: usize = if pairs - start < PAIR_CHUNK {
            pairs - start
        } else {
            PAIR_CHUNK
        };
        let part = accumulate_pairs(basis, contrast, order, weights, sigma, start, len);
        total = total.merge(part);
        start = start + len;
        proof {
            chunks = chunks + 1;
        }
    }
    total
}

/// The inner product of two monomials over all pairs.
fn inner_product<T: Scalar>(
    basis: &Vec<Vec<T>>,
    contrast: &Vec<T>,
    order: &Vec<T>,
    i: usize,
    j: usize,
) -> (r: T)
    requires
        Evidence::of(basis@, contrast@, order@).wf(),
        i <= j < NUM_MONOMIALS,
    ensures
        forall|m: Arithmetic<T>| #[trigger]
            m.describes() ==> r == m.gram_entry(
                Evidence::of(basis@, contrast@, order@),
                i as int,
                j as int,
            ),
{
    let ghost evidence = Evidence::of(basis@, contrast@, order@);
    let pairs = contrast.len();
    let mut sum = T::from_int(0);
    let mut k: usize = 0;
    while k < pairs
        invariant
            0 <= k <= pairs == contrast@.len(),
            i <= j < NUM_MONOMIALS,
            evidence == Evidence::of(basis@, contrast@, order@),
            evidence.wf(),
            forall|m: Arithmetic<T>| #[trigger]
                m.describes() ==> sum == m.total(
                    k as nat,
                    m.gram_term(evidence, i as int, j as int),
                ),
        decreases pairs - k,
    {
        assert(evidence.basis[i as int] == basis@[i as int]@);
        assert(evidence.basis[j as int] == basis@[j as int]@);
        sum = sum.plus(basis[i][k].times(basis[j][k]));
        k = k + 1;
    }
    sum
}

/// The matrix of the normal equations.
pub fn gram_matrix<T: Scalar>(
    basis: &Vec<Vec<T>>,
    contrast: &Vec<T>,
    order: &Vec<T>,
) -> (r: [[T; NUM_MONOMIALS]; NUM_MONOMIALS])
    requires
        Evidence::of(basis@, contrast@, order@).wf(),
    ensures
        forall|m: Arithmetic<T>| #[trigger]
            m.describes() ==> Arithmetic::<T>::rows(r) == m.gram(
                Evidence::of(basis@, contrast@, order@),
            ),
{
    let ghost evidence = Evidence::of(basis@, contrast@, order@);
    let zero = T::from_int(0);
    let mut gram: [[T; NUM_MONOMIALS]; NUM_MONOMIALS] = [[zero; NUM_MONOMIALS]; NUM_MONOMIALS];
    let mut i: usize = 0;
    while i < NUM_MONOMIALS
        invariant
            0 <= i <= NUM_MONOMIALS,
            evidence == Evidence::of(basis@, contrast@, order@),
            evidence.wf(),
            forall|m: Arithmetic<T>, a: int, b: int|
                #![trigger m.describes(), gram@[a]@[b]]
                m.describes() && 0 <= a < i && 0 <= b < NUM_MONOMIALS ==> gram@[a]@[b]
                    == m.gram_entry(evidence, a, b),
        decreases NUM_MONOMIALS - i,
    {
        let mut row: [T; NUM_MONOMIALS] = [zero; NUM_MONOMIALS];
        let mut j: usize = 0;
        while j < NUM_MONOMIALS
            invariant
                0 <= i < NUM_MONOMIALS,
                0 <= j <= NUM_MONOMIALS,
                evidence == Evidence::of(basis@, contrast@, order@),
                evidence.wf(),
                forall|m: Arithmetic<T>, a: int, b: int|
                    #![trigger m.describes(), gram@[a]@[b]]
                    m.describes() && 0 <= a < i && 0 <= b < NUM_MONOMIALS ==> gram@[a]@[b]
                        == m.gram_entry(evidence, a, b),
                forall|m: Arithmetic<T>, b: int|
                    #![trigger m.describes(), row@[b]]
                    m.describes() && 0 <= b < j ==> row@[b] == m.gram_entry(
                        evidence,
                        i as int,
                        b,
                    ),
            decreases NUM_MONOMIALS - j,
        {
            // The matrix is symmetric.
            row[j] = if j < i {
                gram[j][i]
            } else {
                inner_product(basis, contrast, order, i, j)
            };
            j = j + 1;
        }
        gram[i] = row;
        i = i + 1;
    }
    proof {
        assert forall|m: Arithmetic<T>| #[trigger] m.describes() implies Arithmetic::<T>::rows(gram)
            == m.gram(evidence) by {
            assert forall|a: int| 0 <= a < NUM_MONOMIALS implies Arithmetic::<T>::rows(gram)[a]
                == #[trigger] m.gram(evidence)[a] by {
                assert(gram@[a]@ =~= m.gram(evidence)[a]);
            }
            assert(Arithmetic::<T>::rows(gram) =~= m.gram(evidence));
        }
    }
    gram
}

/// Whether every coefficient is a finite number.
fn all_finite<T: Scalar>(weights: &[T; NUM_MONOMIALS]) -> (r: bool)
    ensures
        forall|m: Arithmetic<T>| #[trigger] m.describes() ==> r == m.all_finite(weights@),
{
    let mut j: usize = 0;
    while j < NUM_MONOMIALS
        invariant
            0 <= j <= NUM_MONOMIALS,
            forall|m: Arithmetic<T>, i: int|
                #![trigger m.describes(), weights@[i]]
                m.describes() && 0 <= i < j ==> (m.is_finite)(weights@[i]),
        decreases NUM_MONOMIALS - j,
    {
        if !weights[j].is_finite() {
            assert(forall|m: Arithmetic<T>| #[trigger]
                m.describes() ==> !(m.is_finite)(weights@[j as int]));
            return false;
        }
        j = j + 1;
    }
    true
}

/// Solves for the polynomial coefficients by fixed point iteration.
pub fn fit_weights<T: Scalar>(planes: &Planes<T>, options: DecolorizeOptions<T>) -> (r: [T;
    NUM_MONOMIALS])
    requires
        planes.wf(),
    ensures
        forall|m: Arithmetic<T>| #[trigger]
            m.describes() ==> r@ == m.fitted_weights(planes@, options),
{
    let (zero, third) = (T::from_int(0), ratio::<T>(1, 3));
    let mut weights: [T; NUM_MONOMIALS] = [
        third,
        third,
        third,
        zero,
        zero,
        zero,
        zero,
        zero,
        zero,
    ];
    assert(forall|m: Arithmetic<T>| #[trigger]
        m.describes() ==> weights@ =~= m.initial_weights());
    let pairs = planes.pair_count();
    if pairs == 0 {
        return weights;
    }
    let contrast = color_contrast(planes);
    let order = weak_order(planes);
    let basis = monomial_differences(planes);
    let ghost evidence = Evidence::of(basis@, contrast@, order@);
    proof {
        assert forall|m: Arithmetic<T>| #[trigger] m.describes() implies evidence == m.evidence(
            planes@,
        ) by {
            let known = m.evidence(planes@);
            assert(evidence.contrast =~= known.contrast);
            assert(evidence.order =~= known.order);
            assert forall|i: int| 0 <= i < NUM_MONOMIALS implies evidence.basis[i]
                == #[trigger] known.basis[i] by {
                assert(evidence.basis[i] =~= known.basis[i]);
            }
            assert(evidence.basis =~= known.basis);
        }
    }
    // Only the right hand side of the normal equations depends on the weights,
    // so their matrix is computed once.
    let gram = gram_matrix(&basis, &contrast, &order);
    let count = T::from_int(pairs as u64);
    let mut previous = T::infinity();
    let mut left: usize = options.max_iterations;
    while left > 0
        invariant
            pairs == contrast@.len(),
            evidence == Evidence::of(basis@, contrast@, order@),
            evidence.wf(),
            forall|m: Arithmetic<T>| #[trigger]
                m.describes() ==> {
                    &&& Arithmetic::<T>::rows(gram) == m.gram(evidence)
                    &&& count == (m.from_int)(pairs as u64)
                    &&& m.fitted_weights(planes@, options) == m.iterated(
                        evidence,
                        options,
                        weights@,
                        previous,
                        left as nat,
                    )
                },
        decreases left,
    {
        let total = accumulate_all(&basis, &contrast, &order, &weights, options.sigma);
        let energy = total.energy.over(count);
        if energy.minus(previous).absolute().less(options.tolerance) {
            return weights;
        }
        previous = energy;
        // A flat image leaves the matrix singular; there is nothing to fit, so
        // keep the weights we have.
        match T::solve(&gram, &total.rhs) {
            Some(next) => {
                if !all_finite(&next) {
                    return weights;
                }
                weights = next;
            },
            None => {
                return weights;
            },
        }
        left = left - 1;
    }
    weights
}

} // verus!
