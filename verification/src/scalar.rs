//! The numbers the library computes in.
//!
//! Every computation is written over a type that implements [`Scalar`], the
//! operations of IEEE double precision arithmetic. Nothing is assumed of an
//! implementation. Contracts speak instead of an [`Arithmetic`], a mathematical
//! description of the operations: for every description that fits the type, the
//! result is the value that the description gives.
use vstd::prelude::*;

verus! {

/// Number of monomials spanning the degree-2 polynomial color space.
pub const NUM_MONOMIALS: usize = 9;

/// A number type with the operations of double precision arithmetic.
///
/// The names are spelled out so that they do not collide with the methods of
/// the type that is wrapped. Each operation is meant to be the one of the same
/// meaning on double precision numbers.
pub trait Scalar: Copy {
    /// The number nearest to an integer.
    fn from_int(value: u64) -> Self;

    /// Positive infinity.
    fn infinity() -> Self;

    /// `self + other`
    fn plus(self, other: Self) -> Self;

    /// `self - other`
    fn minus(self, other: Self) -> Self;

    /// `self * other`
    fn times(self, other: Self) -> Self;

    /// `self / other`
    fn over(self, other: Self) -> Self;

    /// `-self`
    fn negated(self) -> Self;

    /// The absolute value.
    fn absolute(self) -> Self;

    /// The square root.
    fn square_root(self) -> Self;

    /// The cube root.
    fn cube_root(self) -> Self;

    /// The natural logarithm.
    fn logarithm(self) -> Self;

    /// `e` raised to `self`.
    fn exponential(self) -> Self;

    /// The nearest integral number, halves away from zero.
    fn rounded(self) -> Self;

    /// The nearest number of single precision.
    fn single(self) -> Self;

    /// `self` raised to an integral power.
    fn power(self, exponent: u32) -> Self;

    /// `self` raised to a power.
    fn raised(self, exponent: Self) -> Self;

    /// The larger of two numbers, the other one where one is not a number.
    fn larger(self, other: Self) -> Self;

    /// The smaller of two numbers, the other one where one is not a number.
    fn smaller(self, other: Self) -> Self;

    /// `self < other`
    fn less(self, other: Self) -> bool;

    /// `self <= other`
    fn at_most(self, other: Self) -> bool;

    /// Whether `self` comes before `other` in the total order of all numbers,
    /// or is the same number.
    fn precedes(self, other: Self) -> bool;

    /// Whether the number is neither infinite nor not a number.
    fn is_finite(self) -> bool;

    /// The integral part, saturating at the bounds of `usize`.
    fn truncated(self) -> usize;

    /// The solution of the linear system `gram * x = rhs`, or nothing where the
    /// matrix is singular.
    fn solve(
        gram: &[[Self; NUM_MONOMIALS]; NUM_MONOMIALS],
        rhs: &[Self; NUM_MONOMIALS],
    ) -> Option<[Self; NUM_MONOMIALS]>;
}

/// A mathematical description of the operations of a [`Scalar`].
#[verifier::reject_recursive_types(T)]
pub struct Arithmetic<T> {
    pub from_int: spec_fn(u64) -> T,
    pub infinity: T,
    pub plus: spec_fn(T, T) -> T,
    pub minus: spec_fn(T, T) -> T,
    pub times: spec_fn(T, T) -> T,
    pub over: spec_fn(T, T) -> T,
    pub negated: spec_fn(T) -> T,
    pub absolute: spec_fn(T) -> T,
    pub square_root: spec_fn(T) -> T,
    pub cube_root: spec_fn(T) -> T,
    pub logarithm: spec_fn(T) -> T,
    pub exponential: spec_fn(T) -> T,
    pub rounded: spec_fn(T) -> T,
    pub single: spec_fn(T) -> T,
    pub power: spec_fn(T, u32) -> T,
    pub raised: spec_fn(T, T) -> T,
    pub larger: spec_fn(T, T) -> T,
    pub smaller: spec_fn(T, T) -> T,
    pub less: spec_fn(T, T) -> bool,
    pub at_most: spec_fn(T, T) -> bool,
    pub precedes: spec_fn(T, T) -> bool,
    pub is_finite: spec_fn(T) -> bool,
    pub truncated: spec_fn(T) -> usize,
    pub solve: spec_fn(Seq<Seq<T>>, Seq<T>) -> Option<Seq<T>>,
}

impl<T: Scalar> Arithmetic<T> {
    /// Whether the operations of `T` return what this description says.
    pub open spec fn describes(self) -> bool {
        &&& forall|v: u64, r: T| #[trigger]
            call_ensures(T::from_int, (v,), r) ==> r == (self.from_int)(v)
        &&& forall|r: T| #[trigger] call_ensures(T::infinity, (), r) ==> r == self.infinity
        &&& forall|a: T, b: T, r: T| #[trigger]
            call_ensures(T::plus, (a, b), r) ==> r == (self.plus)(a, b)
        &&& forall|a: T, b: T, r: T| #[trigger]
            call_ensures(T::minus, (a, b), r) ==> r == (self.minus)(a, b)
        &&& forall|a: T, b: T, r: T| #[trigger]
            call_ensures(T::times, (a, b), r) ==> r == (self.times)(a, b)
        &&& forall|a: T, b: T, r: T| #[trigger]
            call_ensures(T::over, (a, b), r) ==> r == (self.over)(a, b)
        &&& forall|a: T, r: T| #[trigger]
            call_ensures(T::negated, (a,), r) ==> r == (self.negated)(a)
        &&& forall|a: T, r: T| #[trigger]
            call_ensures(T::absolute, (a,), r) ==> r == (self.absolute)(a)
        &&& forall|a: T, r: T| #[trigger]
            call_ensures(T::square_root, (a,), r) ==> r == (self.square_root)(a)
        &&& forall|a: T, r: T| #[trigger]
            call_ensures(T::cube_root, (a,), r) ==> r == (self.cube_root)(a)
        &&& forall|a: T, r: T| #[trigger]
            call_ensures(T::logarithm, (a,), r) ==> r == (self.logarithm)(a)
        &&& forall|a: T, r: T| #[trigger]
            call_ensures(T::exponential, (a,), r) ==> r == (self.exponential)(a)
        &&& forall|a: T, r: T| #[trigger]
            call_ensures(T::rounded, (a,), r) ==> r == (self.rounded)(a)
        &&& forall|a: T, r: T| #[trigger]
            call_ensures(T::single, (a,), r) ==> r == (self.single)(a)
        &&& forall|a: T, e: u32, r: T| #[trigger]
            call_ensures(T::power, (a, e), r) ==> r == (self.power)(a, e)
        &&& forall|a: T, b: T, r: T| #[trigger]
            call_ensures(T::raised, (a, b), r) ==> r == (self.raised)(a, b)
        &&& forall|a: T, b: T, r: T| #[trigger]
            call_ensures(T::larger, (a, b), r) ==> r == (self.larger)(a, b)
        &&& forall|a: T, b: T, r: T| #[trigger]
            call_ensures(T::smaller, (a, b), r) ==> r == (self.smaller)(a, b)
        &&& forall|a: T, b: T, r: bool| #[trigger]
            call_ensures(T::less, (a, b), r) ==> r == (self.less)(a, b)
        &&& forall|a: T, b: T, r: bool| #[trigger]
            call_ensures(T::at_most, (a, b), r) ==> r == (self.at_most)(a, b)
        &&& forall|a: T, b: T, r: bool| #[trigger]
            call_ensures(T::precedes, (a, b), r) ==> r == (self.precedes)(a, b)
        &&& forall|a: T, r: bool| #[trigger]
            call_ensures(T::is_finite, (a,), r) ==> r == (self.is_finite)(a)
        &&& forall|a: T, r: usize| #[trigger]
            call_ensures(T::truncated, (a,), r) ==> r == (self.truncated)(a)
        &&& forall|
            gram: &[[T; NUM_MONOMIALS]; NUM_MONOMIALS],
            rhs: &[T; NUM_MONOMIALS],
            r: Option<[T; NUM_MONOMIALS]>,
        | #[trigger]
            call_ensures(T::solve, (gram, rhs), r) ==> match r {
                Some(x) => (self.solve)(Self::rows(*gram), rhs@) == Some(x@),
                None => (self.solve)(Self::rows(*gram), rhs@) is None,
            }
    }
}

impl<T> Arithmetic<T> {
    /// The rows of a matrix.
    pub open spec fn rows(matrix: [[T; NUM_MONOMIALS]; NUM_MONOMIALS]) -> Seq<Seq<T>> {
        Seq::new(NUM_MONOMIALS as nat, |i: int| matrix@[i]@)
    }

    /// The number zero.
    pub open spec fn zero(self) -> T {
        (self.from_int)(0)
    }

    /// The number one.
    pub open spec fn one(self) -> T {
        (self.from_int)(1)
    }

    /// The quotient of two integers.
    pub open spec fn ratio(self, numerator: u64, denominator: u64) -> T {
        (self.over)((self.from_int)(numerator), (self.from_int)(denominator))
    }

    /// `value`, moved onto the nearer bound where it lies outside of
    /// `[low, high]`.
    pub open spec fn clamp(self, value: T, low: T, high: T) -> T {
        let raised = if (self.less)(value, low) {
            low
        } else {
            value
        };
        if (self.less)(high, raised) {
            high
        } else {
            raised
        }
    }

    /// `value * value`
    pub open spec fn square(self, value: T) -> T {
        (self.times)(value, value)
    }

    /// `((0 + term(0)) + term(1)) + ... + term(count - 1)`
    pub open spec fn total(self, count: nat, term: spec_fn(int) -> T) -> T
        decreases count,
    {
        if count == 0 {
            self.zero()
        } else {
            (self.plus)(self.total((count - 1) as nat, term), term(count - 1))
        }
    }
}

impl<T: Scalar> Arithmetic<T> {
    /// Whether `solve` may answer `solution` to a system.
    pub open spec fn may_solve(
        gram: &[[T; NUM_MONOMIALS]; NUM_MONOMIALS],
        rhs: &[T; NUM_MONOMIALS],
        solution: Option<Seq<T>>,
    ) -> bool {
        exists|r: Option<[T; NUM_MONOMIALS]>| #[trigger]
            call_ensures(T::solve, (gram, rhs), r) && match r {
                Some(x) => solution == Some(x@),
                None => solution is None,
            }
    }

    /// Whether the operations of `T` return the same for the same operands.
    pub open spec fn is_deterministic() -> bool {
        &&& forall|v: u64, r: T, s: T| #[trigger]
            call_ensures(T::from_int, (v,), r) && #[trigger] call_ensures(T::from_int, (v,), s)
                ==> r == s
        &&& forall|r: T, s: T| #[trigger]
            call_ensures(T::infinity, (), r) && #[trigger] call_ensures(T::infinity, (), s)
                ==> r == s
        &&& forall|a: T, b: T, r: T, s: T| #[trigger]
            call_ensures(T::plus, (a, b), r) && #[trigger] call_ensures(T::plus, (a, b), s)
                ==> r == s
        &&& forall|a: T, b: T, r: T, s: T| #[trigger]
            call_ensures(T::minus, (a, b), r) && #[trigger] call_ensures(T::minus, (a, b), s)
                ==> r == s
        &&& forall|a: T, b: T, r: T, s: T| #[trigger]
            call_ensures(T::times, (a, b), r) && #[trigger] call_ensures(T::times, (a, b), s)
                ==> r == s
        &&& forall|a: T, b: T, r: T, s: T| #[trigger]
            call_ensures(T::over, (a, b), r) && #[trigger] call_ensures(T::over, (a, b), s)
                ==> r == s
        &&& forall|a: T, r: T, s: T| #[trigger]
            call_ensures(T::negated, (a,), r) && #[trigger] call_ensures(T::negated, (a,), s)
                ==> r == s
        &&& forall|a: T, r: T, s: T| #[trigger]
            call_ensures(T::absolute, (a,), r) && #[trigger] call_ensures(T::absolute, (a,), s)
                ==> r == s
        &&& forall|a: T, r: T, s: T| #[trigger]
            call_ensures(T::square_root, (a,), r)
                && #[trigger] call_ensures(T::square_root, (a,), s) ==> r == s
        &&& forall|a: T, r: T, s: T| #[trigger]
            call_ensures(T::cube_root, (a,), r) && #[trigger] call_ensures(T::cube_root, (a,), s)
                ==> r == s
        &&& forall|a: T, r: T, s: T| #[trigger]
            call_ensures(T::logarithm, (a,), r) && #[trigger] call_ensures(T::logarithm, (a,), s)
                ==> r == s
        &&& forall|a: T, r: T, s: T| #[trigger]
            call_ensures(T::exponential, (a,), r)
                && #[trigger] call_ensures(T::exponential, (a,), s) ==> r == s
        &&& forall|a: T, r: T, s: T| #[trigger]
            call_ensures(T::rounded, (a,), r) && #[trigger] call_ensures(T::rounded, (a,), s)
                ==> r == s
        &&& forall|a: T, r: T, s: T| #[trigger]
            call_ensures(T::single, (a,), r) && #[trigger] call_ensures(T::single, (a,), s)
                ==> r == s
        &&& forall|a: T, e: u32, r: T, s: T| #[trigger]
            call_ensures(T::power, (a, e), r) && #[trigger] call_ensures(T::power, (a, e), s)
                ==> r == s
        &&& forall|a: T, b: T, r: T, s: T| #[trigger]
            call_ensures(T::raised, (a, b), r) && #[trigger] call_ensures(T::raised, (a, b), s)
                ==> r == s
        &&& forall|a: T, b: T, r: T, s: T| #[trigger]
            call_ensures(T::larger, (a, b), r) && #[trigger] call_ensures(T::larger, (a, b), s)
                ==> r == s
        &&& forall|a: T, b: T, r: T, s: T| #[trigger]
            call_ensures(T::smaller, (a, b), r) && #[trigger] call_ensures(T::smaller, (a, b), s)
                ==> r == s
        &&& forall|a: T, b: T, r: bool, s: bool| #[trigger]
            call_ensures(T::less, (a, b), r) && #[trigger] call_ensures(T::less, (a, b), s)
                ==> r == s
        &&& forall|a: T, b: T, r: bool, s: bool| #[trigger]
            call_ensures(T::at_most, (a, b), r) && #[trigger] call_ensures(T::at_most, (a, b), s)
                ==> r == s
        &&& forall|a: T, b: T, r: bool, s: bool| #[trigger]
            call_ensures(T::precedes, (a, b), r) && #[trigger] call_ensures(T::precedes, (a, b), s)
                ==> r == s
        &&& forall|a: T, r: bool, s: bool| #[trigger]
            call_ensures(T::is_finite, (a,), r) && #[trigger] call_ensures(T::is_finite, (a,), s)
                ==> r == s
        &&& forall|a: T, r: usize, s: usize| #[trigger]
            call_ensures(T::truncated, (a,), r) && #[trigger] call_ensures(T::truncated, (a,), s)
                ==> r == s
        &&& forall|
            gram: &[[T; NUM_MONOMIALS]; NUM_MONOMIALS],
            rhs: &[T; NUM_MONOMIALS],
            x: Option<Seq<T>>,
            other_gram: &[[T; NUM_MONOMIALS]; NUM_MONOMIALS],
            other_rhs: &[T; NUM_MONOMIALS],
            y: Option<Seq<T>>,
        |
            #![trigger Self::may_solve(gram, rhs, x), Self::may_solve(other_gram, other_rhs, y)]
            Self::may_solve(gram, rhs, x) && Self::may_solve(other_gram, other_rhs, y)
                && Self::rows(*gram) == Self::rows(*other_gram) && rhs@ == other_rhs@ ==> x == y
    }

    /// The operations of `T`, read off `T`.
    pub open spec fn of_type() -> Arithmetic<T> {
        Arithmetic {
            from_int: |v: u64| choose|r: T| call_ensures(T::from_int, (v,), r),
            infinity: choose|r: T| call_ensures(T::infinity, (), r),
            plus: |a: T, b: T| choose|r: T| call_ensures(T::plus, (a, b), r),
            minus: |a: T, b: T| choose|r: T| call_ensures(T::minus, (a, b), r),
            times: |a: T, b: T| choose|r: T| call_ensures(T::times, (a, b), r),
            over: |a: T, b: T| choose|r: T| call_ensures(T::over, (a, b), r),
            negated: |a: T| choose|r: T| call_ensures(T::negated, (a,), r),
            absolute: |a: T| choose|r: T| call_ensures(T::absolute, (a,), r),
            square_root: |a: T| choose|r: T| call_ensures(T::square_root, (a,), r),
            cube_root: |a: T| choose|r: T| call_ensures(T::cube_root, (a,), r),
            logarithm: |a: T| choose|r: T| call_ensures(T::logarithm, (a,), r),
            exponential: |a: T| choose|r: T| call_ensures(T::exponential, (a,), r),
            rounded: |a: T| choose|r: T| call_ensures(T::rounded, (a,), r),
            single: |a: T| choose|r: T| call_ensures(T::single, (a,), r),
            power: |a: T, e: u32| choose|r: T| call_ensures(T::power, (a, e), r),
            raised: |a: T, b: T| choose|r: T| call_ensures(T::raised, (a, b), r),
            larger: |a: T, b: T| choose|r: T| call_ensures(T::larger, (a, b), r),
            smaller: |a: T, b: T| choose|r: T| call_ensures(T::smaller, (a, b), r),
            less: |a: T, b: T| choose|r: bool| call_ensures(T::less, (a, b), r),
            at_most: |a: T, b: T| choose|r: bool| call_ensures(T::at_most, (a, b), r),
            precedes: |a: T, b: T| choose|r: bool| call_ensures(T::precedes, (a, b), r),
            is_finite: |a: T| choose|r: bool| call_ensures(T::is_finite, (a,), r),
            truncated: |a: T| choose|r: usize| call_ensures(T::truncated, (a,), r),
            solve: |rows: Seq<Seq<T>>, rhs: Seq<T>|
                choose|x: Option<Seq<T>>| Self::may_answer(rows, rhs, x),
        }
    }

    /// Whether `solve` may answer `solution` to a system with the given rows
    /// and right hand side.
    pub open spec fn may_answer(
        rows: Seq<Seq<T>>,
        rhs: Seq<T>,
        solution: Option<Seq<T>>,
    ) -> bool {
        exists|a: &[[T; NUM_MONOMIALS]; NUM_MONOMIALS], b: &[T; NUM_MONOMIALS]|
            #![trigger Self::may_solve(a, b, solution)]
            Self::may_solve(a, b, solution) && Self::rows(*a) == rows && b@ == rhs
    }
}

/// Every number type whose operations return the same for the same operands has
/// a description, so what the contracts say of its results holds of them.
pub proof fn law_deterministic_numbers_are_described<T: Scalar>()
    requires
        Arithmetic::<T>::is_deterministic(),
    ensures
        Arithmetic::<T>::of_type().describes(),
{
    let m = Arithmetic::<T>::of_type();
    assert forall|
        gram: &[[T; NUM_MONOMIALS]; NUM_MONOMIALS],
        rhs: &[T; NUM_MONOMIALS],
        r: Option<[T; NUM_MONOMIALS]>,
    | #[trigger] call_ensures(T::solve, (gram, rhs), r) implies match r {
        Some(x) => (m.solve)(Arithmetic::<T>::rows(*gram), rhs@) == Some(x@),
        None => (m.solve)(Arithmetic::<T>::rows(*gram), rhs@) is None,
    } by {
        let solution = match r {
            Some(x) => Some(x@),
            None => None,
        };
        assert(Arithmetic::<T>::may_solve(gram, rhs, solution));
        let rows = Arithmetic::<T>::rows(*gram);
        assert(Arithmetic::<T>::may_answer(rows, rhs@, solution));
        let chosen = (m.solve)(rows, rhs@);
        assert(Arithmetic::<T>::may_answer(rows, rhs@, chosen));
    }
}

/// The quotient of two integers.
pub fn ratio<T: Scalar>(numerator: u64, denominator: u64) -> (r: T)
    ensures
        forall|m: Arithmetic<T>| #[trigger]
            m.describes() ==> r == m.ratio(numerator, denominator),
{
    T::from_int(numerator).over(T::from_int(denominator))
}

/// Restricts a value to an interval. What is not a number stays as it is.
pub fn clamp<T: Scalar>(value: T, low: T, high: T) -> (r: T)
    ensures
        forall|m: Arithmetic<T>| #[trigger] m.describes() ==> r == m.clamp(value, low, high),
{
    let mut r = value;
    if r.less(low) {
        r = low;
    }
    if high.less(r) {
        r = high;
    }
    r
}

} // verus!
