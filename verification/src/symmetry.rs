//! What turning pixel pairs around leaves as it is, rounding and all.
use crate::fit::{Evidence, PAIR_CHUNK};
use crate::options::DecolorizeOptions;
use crate::scalar::{Arithmetic, NUM_MONOMIALS};
use vstd::prelude::*;

verus! {

/// How numbers of opposite sign relate. With signed zeros, which are equal but
/// not the same, neither `opposite` nor `alike` is a matter of negating exactly.
#[verifier::reject_recursive_types(T)]
pub struct Symmetry<T> {
    /// Whether one number has the size of the other and the opposite sign.
    pub opposite: spec_fn(T, T) -> bool,
    /// Whether two numbers are equal.
    pub alike: spec_fn(T, T) -> bool,
    /// Whether adding equal numbers to this one gives the same.
    pub steady: spec_fn(T) -> bool,
}

impl<T> Arithmetic<T> {
    /// Whether negation commutes with `plus`, `minus`, `times` and `over`, and
    /// `plus` and `larger` are commutative. Rounding keeps this: double precision
    /// has it where all that is no number counts as one value and of the two
    /// zeros `larger` always picks the same. There, numbers are opposite that sum
    /// to zero, zeros are alike, and every number but the negative zero is
    /// steady. An arithmetic without signed zeros has it with `opposite` for
    /// being the negation of and `alike` for being the same.
    pub open spec fn is_odd(self, s: Symmetry<T>) -> bool {
        &&& (s.opposite)(self.zero(), self.zero())
        &&& forall|w: T, a: T, b: T|
            #![trigger (self.times)(w, a), (self.times)(w, b)]
            (s.opposite)(a, b) ==> (s.opposite)((self.times)(w, a), (self.times)(w, b))
        &&& forall|a: T, b: T, c: T|
            #![trigger (self.times)(a, c), (self.times)(b, c)]
            (s.opposite)(a, b) ==> (s.opposite)((self.times)(a, c), (self.times)(b, c))
        &&& forall|a: T, b: T, c: T, d: T|
            #![trigger (self.times)(a, c), (self.times)(b, d)]
            (s.opposite)(a, b) && (s.opposite)(c, d) ==> (s.alike)(
                (self.times)(a, c),
                (self.times)(b, d),
            )
        &&& forall|a: T, b: T, c: T, d: T|
            #![trigger (self.plus)(a, c), (self.plus)(b, d)]
            (s.opposite)(a, b) && (s.opposite)(c, d) ==> (s.opposite)(
                (self.plus)(a, c),
                (self.plus)(b, d),
            )
        &&& forall|a: T, b: T| #[trigger]
            (s.opposite)(a, b) ==> (self.plus)(self.one(), a) == (self.minus)(self.one(), b)
                && (self.minus)(self.one(), a) == (self.plus)(self.one(), b)
        &&& forall|a: T, b: T, c: T|
            #![trigger (self.minus)(a, c), (self.plus)(b, c)]
            (s.opposite)(a, b) ==> (self.power)((self.minus)(a, c), 2) == (self.power)(
                (self.plus)(b, c),
                2,
            )
        &&& forall|a: T, b: T, c: T|
            #![trigger (self.plus)(a, c), (self.minus)(b, c)]
            (s.opposite)(a, b) ==> (self.power)((self.plus)(a, c), 2) == (self.power)(
                (self.minus)(b, c),
                2,
            )
        &&& forall|a: T, b: T|
            #![trigger (self.minus)(a, b), (self.minus)(b, a)]
            (s.opposite)((self.minus)(a, b), (self.minus)(b, a))
        &&& forall|a: T, b: T, c: T|
            #![trigger (self.over)(a, c), (self.over)(b, c)]
            (s.opposite)(a, b) ==> (s.opposite)((self.over)(a, c), (self.over)(b, c))
        &&& forall|a: T, b: T|
            #![trigger (self.plus)(a, b), (self.plus)(b, a)]
            (self.plus)(a, b) == (self.plus)(b, a)
        &&& forall|a: T, b: T|
            #![trigger (self.larger)(a, b), (self.larger)(b, a)]
            (self.larger)(a, b) == (self.larger)(b, a)
        &&& (s.steady)(self.zero())
        &&& forall|a: T, b: T| (s.steady)(a) ==> (s.steady)(#[trigger] (self.plus)(a, b))
        &&& forall|a: T, b: T, c: T|
            #![trigger (self.plus)(a, b), (self.plus)(a, c)]
            (s.steady)(a) && (s.alike)(b, c) ==> (self.plus)(a, b) == (self.plus)(a, c)
    }

    /// Whether the differences and the order of pair `k` of `turned` are the
    /// opposites of those of `evidence`.
    pub open spec fn is_opposite(
        self,
        s: Symmetry<T>,
        evidence: Evidence<T>,
        turned: Evidence<T>,
        k: int,
    ) -> bool {
        &&& (s.opposite)(turned.order[k], evidence.order[k])
        &&& forall|j: int|
            0 <= j < NUM_MONOMIALS ==> (s.opposite)(
                #[trigger] turned.basis[j][k],
                evidence.basis[j][k],
            )
    }

    /// Whether the differences and the order of pair `k` of `turned` are those of
    /// `evidence`.
    pub open spec fn is_same(self, evidence: Evidence<T>, turned: Evidence<T>, k: int) -> bool {
        &&& turned.order[k] == evidence.order[k]
        &&& forall|j: int|
            0 <= j < NUM_MONOMIALS ==> #[trigger] turned.basis[j][k] == evidence.basis[j][k]
    }

    /// Whether pair `k` of `turned` is that of `evidence`, or that pair with its
    /// two pixels exchanged.
    pub open spec fn may_be_turned(
        self,
        s: Symmetry<T>,
        evidence: Evidence<T>,
        turned: Evidence<T>,
        k: int,
    ) -> bool {
        &&& turned.contrast[k] == evidence.contrast[k]
        &&& self.is_same(evidence, turned, k) || self.is_opposite(s, evidence, turned, k)
    }
}

/// A sum of opposite terms is opposite.
proof fn lemma_opposite_total<T>(
    m: Arithmetic<T>,
    s: Symmetry<T>,
    count: nat,
    f: spec_fn(int) -> T,
    g: spec_fn(int) -> T,
)
    requires
        m.is_odd(s),
        forall|k: int| 0 <= k < count ==> (s.opposite)(#[trigger] f(k), g(k)),
    ensures
        (s.opposite)(m.total(count, f), m.total(count, g)),
    decreases count,
{
    if count > 0 {
        lemma_opposite_total(m, s, (count - 1) as nat, f, g);
        assert((s.opposite)(f(count - 1), g(count - 1)));
    }
}

/// A sum of equal terms is the same.
proof fn lemma_alike_total<T>(
    m: Arithmetic<T>,
    s: Symmetry<T>,
    count: nat,
    f: spec_fn(int) -> T,
    g: spec_fn(int) -> T,
)
    requires
        m.is_odd(s),
        forall|k: int| 0 <= k < count ==> #[trigger] f(k) == g(k) || (s.alike)(f(k), g(k)),
    ensures
        m.total(count, f) == m.total(count, g),
        (s.steady)(m.total(count, f)),
    decreases count,
{
    if count > 0 {
        lemma_alike_total(m, s, (count - 1) as nat, f, g);
        assert(f(count - 1) == g(count - 1) || (s.alike)(f(count - 1), g(count - 1)));
    }
}

/// The gray difference of a pair that may be turned.
proof fn lemma_gray_difference<T>(
    m: Arithmetic<T>,
    s: Symmetry<T>,
    evidence: Evidence<T>,
    turned: Evidence<T>,
    weights: Seq<T>,
    k: int,
)
    requires
        m.is_odd(s),
    ensures
        m.is_same(evidence, turned, k) ==> m.gray_difference(turned, weights, k)
            == m.gray_difference(evidence, weights, k),
        m.is_opposite(s, evidence, turned, k) ==> (s.opposite)(
            m.gray_difference(turned, weights, k),
            m.gray_difference(evidence, weights, k),
        ),
{
    let count = NUM_MONOMIALS as nat;
    let (f, g) = (m.gray_term(turned, weights, k), m.gray_term(evidence, weights, k));
    if m.is_same(evidence, turned, k) {
        assert forall|j: int| 0 <= j < count implies #[trigger] f(j) == g(j) by {
            assert(turned.basis[j][k] == evidence.basis[j][k]);
        }
        lemma_alike_total(m, s, count, f, g);
    }
    if m.is_opposite(s, evidence, turned, k) {
        assert forall|j: int| 0 <= j < count implies (s.opposite)(#[trigger] f(j), g(j)) by {
            let (a, b) = (turned.basis[j][k], evidence.basis[j][k]);
            assert((s.opposite)(a, b));
            assert((s.opposite)((m.times)(weights[j], a), (m.times)(weights[j], b)));
        }
        lemma_opposite_total(m, s, count, f, g);
    }
}

/// Turning a pair around exchanges its two modes.
proof fn lemma_modes<T>(
    m: Arithmetic<T>,
    s: Symmetry<T>,
    evidence: Evidence<T>,
    turned: Evidence<T>,
    weights: Seq<T>,
    sigma: T,
    k: int,
)
    requires
        m.is_odd(s),
        turned.contrast[k] == evidence.contrast[k],
    ensures
        m.is_same(evidence, turned, k) ==> m.upper_mode(turned, weights, sigma, k) == m.upper_mode(
            evidence,
            weights,
            sigma,
            k,
        ) && m.lower_mode(turned, weights, sigma, k) == m.lower_mode(evidence, weights, sigma, k),
        m.is_opposite(s, evidence, turned, k) ==> m.upper_mode(turned, weights, sigma, k)
            == m.lower_mode(evidence, weights, sigma, k) && m.lower_mode(turned, weights, sigma, k)
            == m.upper_mode(evidence, weights, sigma, k),
{
    lemma_gray_difference(m, s, evidence, turned, weights, k);
    if m.is_opposite(s, evidence, turned, k) {
        let (a, b) = (
            m.gray_difference(turned, weights, k),
            m.gray_difference(evidence, weights, k),
        );
        let c = evidence.contrast[k];
        assert((s.opposite)(turned.order[k], evidence.order[k]));
        assert((m.power)((m.minus)(a, c), 2) == (m.power)((m.plus)(b, c), 2));
        assert((m.power)((m.plus)(a, c), 2) == (m.power)((m.minus)(b, c), 2));
    }
}

/// Exchanging two modes keeps the logarithm of their sum and turns what one
/// takes more than the other.
proof fn lemma_exchanged<T>(m: Arithmetic<T>, s: Symmetry<T>, low: T, high: T)
    requires
        m.is_odd(s),
    ensures
        m.log_sum(high, low) == m.log_sum(low, high),
        (s.opposite)(m.responsibility(high, low), m.responsibility(low, high)),
{
    let peak = (m.larger)(low, high);
    assert((m.larger)(high, low) == peak);
    let a = (m.exponential)((m.minus)(low, peak));
    let b = (m.exponential)((m.minus)(high, peak));
    assert((m.plus)(a, b) == (m.plus)(b, a));
    assert((s.opposite)((m.minus)(b, a), (m.minus)(a, b)));
    let whole = (m.plus)(a, b);
    assert((s.opposite)((m.over)((m.minus)(b, a), whole), (m.over)((m.minus)(a, b), whole)));
}

/// The energy of pairs that may be turned.
proof fn lemma_energy<T>(
    m: Arithmetic<T>,
    s: Symmetry<T>,
    evidence: Evidence<T>,
    turned: Evidence<T>,
    weights: Seq<T>,
    sigma: T,
    start: int,
    len: nat,
)
    requires
        m.is_odd(s),
        forall|k: int|
            start <= k < start + len ==> #[trigger] m.may_be_turned(s, evidence, turned, k),
    ensures
        m.energy(turned, weights, sigma, start, len) == m.energy(
            evidence,
            weights,
            sigma,
            start,
            len,
        ),
    decreases len,
{
    if len > 0 {
        let k = start + len - 1;
        lemma_energy(m, s, evidence, turned, weights, sigma, start, (len - 1) as nat);
        assert(m.may_be_turned(s, evidence, turned, k));
        lemma_modes(m, s, evidence, turned, weights, sigma, k);
        lemma_exchanged(
            m,
            s,
            m.upper_mode(evidence, weights, sigma, k),
            m.lower_mode(evidence, weights, sigma, k),
        );
    }
}

/// Which pixel of a pair comes first does not matter, however the numbers round:
/// turning any of the pairs around leaves the energy and the right hand side
/// exactly as they are.
pub proof fn law_turning_rounded_pairs_changes_nothing<T>(
    m: Arithmetic<T>,
    s: Symmetry<T>,
    evidence: Evidence<T>,
    turned: Evidence<T>,
    weights: Seq<T>,
    sigma: T,
    start: int,
    len: nat,
)
    requires
        m.is_odd(s),
        forall|k: int|
            start <= k < start + len ==> #[trigger] m.may_be_turned(s, evidence, turned, k),
    ensures
        m.pass(turned, weights, sigma, start, len) == m.pass(evidence, weights, sigma, start, len),
{
    lemma_energy(m, s, evidence, turned, weights, sigma, start, len);
    let (a, b) = (
        m.pass(turned, weights, sigma, start, len),
        m.pass(evidence, weights, sigma, start, len),
    );
    assert forall|j: int| 0 <= j < NUM_MONOMIALS implies #[trigger] a.rhs[j] == b.rhs[j] by {
        let f = m.rhs_term(turned, weights, sigma, start, j);
        let g = m.rhs_term(evidence, weights, sigma, start, j);
        assert forall|i: int| 0 <= i < len implies #[trigger] f(i) == g(i) || (s.alike)(
            f(i),
            g(i),
        ) by {
            let k = start + i;
            assert(m.may_be_turned(s, evidence, turned, k));
            lemma_modes(m, s, evidence, turned, weights, sigma, k);
            let (upper, lower) = (
                m.upper_mode(evidence, weights, sigma, k),
                m.lower_mode(evidence, weights, sigma, k),
            );
            lemma_exchanged(m, s, upper, lower);
            let (p, q) = (turned.basis[j][k], evidence.basis[j][k]);
            let c = evidence.contrast[k];
            if !m.is_same(evidence, turned, k) {
                assert((s.opposite)(p, q));
                assert((s.opposite)((m.times)(p, c), (m.times)(q, c)));
                let (x, y) = (m.responsibility(lower, upper), m.responsibility(upper, lower));
                assert((s.alike)(
                    (m.times)((m.times)(p, c), x),
                    (m.times)((m.times)(q, c), y),
                ));
            } else {
                assert(p == q);
            }
        }
        lemma_alike_total(m, s, len, f, g);
    }
    assert(a.rhs =~= b.rhs);
}

/// The totals of evidence whose pairs may be turned.
proof fn lemma_chunked<T>(
    m: Arithmetic<T>,
    s: Symmetry<T>,
    evidence: Evidence<T>,
    turned: Evidence<T>,
    weights: Seq<T>,
    sigma: T,
    chunks: nat,
)
    requires
        m.is_odd(s),
        turned.pairs() == evidence.pairs(),
        chunks <= Arithmetic::<T>::chunk_count(evidence.pairs()),
        forall|k: int|
            0 <= k < evidence.pairs() ==> #[trigger] m.may_be_turned(s, evidence, turned, k),
    ensures
        m.chunked(turned, weights, sigma, chunks) == m.chunked(evidence, weights, sigma, chunks),
    decreases chunks,
{
    if chunks > 0 {
        lemma_chunked(m, s, evidence, turned, weights, sigma, (chunks - 1) as nat);
        let start = (chunks - 1) * PAIR_CHUNK;
        let rest = evidence.pairs() - start;
        let len = if rest < PAIR_CHUNK {
            rest
        } else {
            PAIR_CHUNK as int
        };
        law_turning_rounded_pairs_changes_nothing(
            m,
            s,
            evidence,
            turned,
            weights,
            sigma,
            start,
            len as nat,
        );
    }
}

/// The inner products of evidence whose pairs may be turned.
proof fn lemma_gram<T>(
    m: Arithmetic<T>,
    s: Symmetry<T>,
    evidence: Evidence<T>,
    turned: Evidence<T>,
    i: int,
    j: int,
)
    requires
        m.is_odd(s),
        turned.pairs() == evidence.pairs(),
        0 <= i < NUM_MONOMIALS,
        0 <= j < NUM_MONOMIALS,
        forall|k: int|
            0 <= k < evidence.pairs() ==> #[trigger] m.may_be_turned(s, evidence, turned, k),
    ensures
        m.total(evidence.pairs() as nat, m.gram_term(turned, i, j)) == m.total(
            evidence.pairs() as nat,
            m.gram_term(evidence, i, j),
        ),
{
    let (f, g) = (m.gram_term(turned, i, j), m.gram_term(evidence, i, j));
    let count = evidence.pairs() as nat;
    assert forall|k: int| 0 <= k < count implies #[trigger] f(k) == g(k) || (s.alike)(
        f(k),
        g(k),
    ) by {
        assert(m.may_be_turned(s, evidence, turned, k));
        let (a, b) = (turned.basis[i][k], evidence.basis[i][k]);
        let (c, d) = (turned.basis[j][k], evidence.basis[j][k]);
        if m.is_same(evidence, turned, k) {
            assert(a == b && c == d);
        } else {
            assert((s.opposite)(a, b) && (s.opposite)(c, d));
            assert((s.alike)((m.times)(a, c), (m.times)(b, d)));
        }
    }
    lemma_alike_total(m, s, count, f, g);
}

/// Turning any of the pairs around leaves the fitted mapping exactly as it is,
/// however the numbers round.
pub proof fn law_turning_pairs_fits_the_same_mapping<T>(
    m: Arithmetic<T>,
    s: Symmetry<T>,
    evidence: Evidence<T>,
    turned: Evidence<T>,
    options: DecolorizeOptions<T>,
    weights: Seq<T>,
    previous: T,
    left: nat,
)
    requires
        m.is_odd(s),
        turned.pairs() == evidence.pairs(),
        forall|k: int|
            0 <= k < evidence.pairs() ==> #[trigger] m.may_be_turned(s, evidence, turned, k),
    ensures
        m.iterated(turned, options, weights, previous, left) == m.iterated(
            evidence,
            options,
            weights,
            previous,
            left,
        ),
    decreases left,
{
    if left > 0 {
        let chunks = Arithmetic::<T>::chunk_count(evidence.pairs());
        lemma_chunked(m, s, evidence, turned, weights, options.sigma, chunks);
        let totals = m.totals(evidence, weights, options.sigma);
        assert(m.totals(turned, weights, options.sigma) == totals);
        assert forall|i: int, j: int|
            0 <= i < NUM_MONOMIALS && 0 <= j < NUM_MONOMIALS implies #[trigger] m.gram_entry(
            turned,
            i,
            j,
        ) == m.gram_entry(evidence, i, j) by {
            lemma_gram(m, s, evidence, turned, i, j);
            lemma_gram(m, s, evidence, turned, j, i);
        }
        let (a, b) = (m.gram(turned), m.gram(evidence));
        assert forall|i: int| 0 <= i < NUM_MONOMIALS implies #[trigger] a[i] == b[i] by {
            assert(a[i] =~= b[i]);
        }
        assert(a =~= b);
        let energy = (m.over)(totals.energy, (m.from_int)(evidence.pairs() as u64));
        match (m.solve)(b, totals.rhs) {
            Some(next) => {
                law_turning_pairs_fits_the_same_mapping(
                    m,
                    s,
                    evidence,
                    turned,
                    options,
                    next,
                    energy,
                    (left - 1) as nat,
                );
            },
            None => {},
        }
    }
}

} // verus!
