//! Contrast preserving decolorization.
//!
//! Converts color images to grayscale while preserving the contrast between
//! colors that ordinary luminance conversions flatten out. [`decolorize`] holds
//! the two conversions, [`definitions`] the images they work on and [`options`]
//! what can be tuned.
//!
//! The conversions compute in a number type of the caller's choice that offers
//! the operations of double precision arithmetic, as [`scalar`] explains. What
//! they compute is stated there too: every contract gives the result as a
//! mathematical function of the image, the options and a description of the
//! numbers.
//!
//! The polynomial variant is made of [`planes`], [`pairs`], [`color`],
//! [`polynomial`] and [`fit`], the fast variant of [`random`], [`sampling`] and
//! [`search`].
//!
//! What holds of the library as a whole is proved apart. [`outcomes`] says what
//! the conversions do to every picture, and [`formulas`], [`scoring`] and
//! [`coverage`] what their steps compute and cover. In [`laws`] is what holds
//! whatever the numbers are, in [`monotone`] and [`symmetry`] what holds in spite
//! of rounding, in [`accuracy`], [`rounding`], [`rounded_mapping`],
//! [`rounded_stretch`] and [`rounded_color`] what holds up to it, and in [`exact`],
//! [`averaging`], [`lightness`] and [`likelihood`], with [`reals`], what holds
//! before it.
pub mod accuracy;
pub mod averaging;
pub mod color;
pub mod coverage;
pub mod decolorize;
pub mod definitions;
pub mod exact;
pub mod fit;
pub mod formulas;
pub mod laws;
pub mod lightness;
pub mod likelihood;
pub mod monotone;
pub mod options;
pub mod outcomes;
pub mod pairs;
pub mod planes;
pub mod polynomial;
pub mod random;
pub mod reals;
pub mod rounded_color;
pub mod rounded_mapping;
pub mod rounded_stretch;
pub mod rounding;
pub mod sampling;
pub mod scalar;
pub mod scoring;
pub mod search;
pub mod subpixel;
pub mod symmetry;

pub use crate::decolorize::{decolorize, decolorize_fast, decolorize_fast_with, decolorize_with};
pub use crate::definitions::{Image, Layout};
pub use crate::options::{DecolorizeOptions, FastDecolorizeOptions};
pub use crate::scalar::Scalar;
pub use crate::subpixel::DecolorizeSubpixel;
