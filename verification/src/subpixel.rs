//! Samples and the unit interval.
use crate::scalar::{clamp, Arithmetic, Scalar};
use vstd::prelude::*;

verus! {

/// Sample types that the functions of this library accept.
///
/// Implemented for `u8` and `u16`, whose samples are taken to span the unit
/// interval over the whole of their range. Floating point samples are taken to
/// lie in `[0, 1]` already.
pub trait DecolorizeSubpixel<T>: Copy {
    /// Maps a sample onto the unit interval.
    fn to_unit(self) -> T;

    /// Maps a value on the unit interval back to a sample, saturating.
    fn from_unit(value: T) -> Self;
}

/// A mathematical description of a [`DecolorizeSubpixel`].
#[verifier::reject_recursive_types(S)]
#[verifier::reject_recursive_types(T)]
pub struct Codec<S, T> {
    pub to_unit: spec_fn(S) -> T,
    pub from_unit: spec_fn(T) -> S,
}

impl<T, S: DecolorizeSubpixel<T>> Codec<S, T> {
    /// Whether the conversions of `S` return what this description says.
    pub open spec fn describes(self) -> bool {
        &&& forall|s: S, r: T| #[trigger]
            call_ensures(<S as DecolorizeSubpixel<T>>::to_unit, (s,), r) ==> r == (self.to_unit)(s)
        &&& forall|v: T, r: S| #[trigger]
            call_ensures(<S as DecolorizeSubpixel<T>>::from_unit, (v,), r) ==> r
                == (self.from_unit)(v)
    }
}

impl<T, S: DecolorizeSubpixel<T>> Codec<S, T> {
    /// Whether the conversions of `S` return the same for the same operand.
    pub open spec fn is_deterministic() -> bool {
        &&& forall|s: S, x: T, y: T| #[trigger]
            call_ensures(<S as DecolorizeSubpixel<T>>::to_unit, (s,), x)
                && #[trigger] call_ensures(<S as DecolorizeSubpixel<T>>::to_unit, (s,), y) ==> x
                == y
        &&& forall|v: T, x: S, y: S| #[trigger]
            call_ensures(<S as DecolorizeSubpixel<T>>::from_unit, (v,), x)
                && #[trigger] call_ensures(<S as DecolorizeSubpixel<T>>::from_unit, (v,), y) ==> x
                == y
    }

    /// The conversions of `S`, read off `S`.
    pub open spec fn of_type() -> Codec<S, T> {
        Codec {
            to_unit: |s: S|
                choose|r: T| call_ensures(<S as DecolorizeSubpixel<T>>::to_unit, (s,), r),
            from_unit: |v: T|
                choose|r: S| call_ensures(<S as DecolorizeSubpixel<T>>::from_unit, (v,), r),
        }
    }
}

/// Every sample type whose conversions return the same for the same operand has
/// a description.
pub proof fn law_deterministic_samples_are_described<T, S: DecolorizeSubpixel<T>>()
    requires
        Codec::<S, T>::is_deterministic(),
    ensures
        Codec::<S, T>::of_type().describes(),
{
}

impl<T> Arithmetic<T> {
    /// An integral sample on the unit interval, where `max` is the largest
    /// sample.
    pub open spec fn unit_from_sample(self, sample: u64, max: u64) -> T {
        self.ratio(sample, max)
    }

    /// The integral sample nearest to a value on the unit interval, where `max`
    /// is the largest sample. Values beyond the interval saturate.
    pub open spec fn sample_from_unit(self, value: T, max: u64) -> int {
        let top = (self.from_int)(max);
        let level = (self.truncated)(
            self.clamp((self.rounded)((self.times)(value, top)), self.zero(), top),
        );
        if level > max {
            max as int
        } else {
            level as int
        }
    }
}

/// The integral sample nearest to a value on the unit interval, where `max` is
/// the largest sample.
fn saturated_sample<T: Scalar>(value: T, max: u16) -> (r: u16)
    ensures
        r <= max,
        forall|m: Arithmetic<T>| #[trigger]
            m.describes() ==> r == m.sample_from_unit(value, max as u64),
{
    let top = T::from_int(max as u64);
    let level = clamp(value.times(top).rounded(), T::from_int(0), top).truncated();
    if level > max as usize {
        max
    } else {
        level as u16
    }
}

impl<T: Scalar> DecolorizeSubpixel<T> for u8 {
    fn to_unit(self) -> (r: T)
        ensures
            ({
                let unit: T = r;
                forall|m: Arithmetic<T>| #[trigger]
                    m.describes() ==> unit == m.unit_from_sample(self as u64, u8::MAX as u64)
            }),
    {
        T::from_int(self as u64).over(T::from_int(u8::MAX as u64))
    }

    fn from_unit(value: T) -> (r: u8)
        ensures
            forall|m: Arithmetic<T>| #[trigger]
                m.describes() ==> r == m.sample_from_unit(value, u8::MAX as u64),
    {
        saturated_sample(value, u8::MAX as u16) as u8
    }
}

impl<T: Scalar> DecolorizeSubpixel<T> for u16 {
    fn to_unit(self) -> (r: T)
        ensures
            ({
                let unit: T = r;
                forall|m: Arithmetic<T>| #[trigger]
                    m.describes() ==> unit == m.unit_from_sample(self as u64, u16::MAX as u64)
            }),
    {
        T::from_int(self as u64).over(T::from_int(u16::MAX as u64))
    }

    fn from_unit(value: T) -> (r: u16)
        ensures
            forall|m: Arithmetic<T>| #[trigger]
                m.describes() ==> r == m.sample_from_unit(value, u16::MAX as u64),
    {
        saturated_sample(value, u16::MAX)
    }
}

impl<T> Arithmetic<T> {
    /// How 8 bit samples are converted in this arithmetic.
    pub open spec fn codec_u8(self) -> Codec<u8, T> {
        Codec {
            to_unit: |s: u8| self.unit_from_sample(s as u64, u8::MAX as u64),
            from_unit: |v: T| self.sample_from_unit(v, u8::MAX as u64) as u8,
        }
    }

    /// How 16 bit samples are converted in this arithmetic.
    pub open spec fn codec_u16(self) -> Codec<u16, T> {
        Codec {
            to_unit: |s: u16| self.unit_from_sample(s as u64, u16::MAX as u64),
            from_unit: |v: T| self.sample_from_unit(v, u16::MAX as u64) as u16,
        }
    }
}

/// A description of the numbers is enough to describe integral samples.
pub proof fn law_integral_samples_are_described<T: Scalar>(m: Arithmetic<T>)
    requires
        m.describes(),
    ensures
        m.codec_u8().describes(),
        m.codec_u16().describes(),
{
}

} // verus!
