//! Contrast preserving decolorization.
//!
//! Ordinary color-to-gray conversions map each color onto its luminance. Colors
//! that differ only in chrominance collapse onto the same gray and the contrast
//! between them is lost. Red text on a green background is the standard
//! example: it comes out as a flat block.
//!
//! The functions in this module instead pick the global mapping that best
//! reproduces the color contrast of pixel pairs. Two variants are provided:
//!
//! * [`decolorize`] fits a degree-2 polynomial mapping by maximum likelihood
//!   under a bimodal Gaussian prior.
//! * [`decolorize_fast`] restricts the model to a convex combination of the
//!   three channels and picks the best of 66 candidates by exhaustive search on
//!   a sparse sample of pixel pairs.
use crate::definitions::{Image, Layout, Picture};
use crate::fit::fit_weights;
use crate::options::{DecolorizeOptions, FastDecolorizeOptions};
use crate::planes::Planes;
use crate::polynomial::apply_polynomial;
use crate::scalar::{Arithmetic, Scalar};
use crate::search::{apply_linear, search_linear_weights};
use crate::subpixel::{Codec, DecolorizeSubpixel};
use vstd::prelude::*;

verus! {

impl<T> Arithmetic<T> {
    /// The coefficients of the polynomial mapping for a picture.
    pub open spec fn mapping<S>(
        self,
        codec: Codec<S, T>,
        picture: Picture<S>,
        options: DecolorizeOptions<T>,
    ) -> Seq<T> {
        self.fitted_weights(
            self.downscaled_planes(codec, picture, options.fitting_size as int),
            options,
        )
    }

    /// The grays of a picture under the polynomial mapping for it.
    pub open spec fn decolorized<S>(
        self,
        codec: Codec<S, T>,
        picture: Picture<S>,
        options: DecolorizeOptions<T>,
    ) -> Seq<S> {
        if picture.width == 0 || picture.height == 0 {
            Seq::empty()
        } else {
            self.polynomial_grays(codec, picture, self.mapping(codec, picture, options))
        }
    }

    /// The channel weights for a picture.
    pub open spec fn weighting<S>(
        self,
        codec: Codec<S, T>,
        picture: Picture<S>,
        options: FastDecolorizeOptions<T>,
    ) -> Seq<T> {
        self.best_weights(self.sampled_pairs(codec, picture, options), options.sigma)
    }

    /// The grays of a picture under the channel weights for it.
    pub open spec fn fast_decolorized<S>(
        self,
        codec: Codec<S, T>,
        picture: Picture<S>,
        options: FastDecolorizeOptions<T>,
    ) -> Seq<S> {
        if picture.width == 0 || picture.height == 0 {
            Seq::empty()
        } else {
            self.linear_grays(codec, picture, self.weighting(codec, picture, options))
        }
    }
}

/// An image without pixels.
fn empty_image<S>(width: u32, height: u32) -> (r: Image<S>)
    requires
        width == 0 || height == 0,
    ensures
        r.wf(),
        r.width == width,
        r.height == height,
        r.layout == Layout::Luma,
        r.samples@.len() == 0,
{
    assert(width * height == 0) by (nonlinear_arith)
        requires
            width == 0 || height == 0,
    ;
    Image { width, height, layout: Layout::Luma, samples: Vec::new() }
}

/// Converts an image to grayscale while preserving color contrast, using the
/// default [`DecolorizeOptions`].
///
/// See [`decolorize_with`] for the details.
pub fn decolorize<T: Scalar, S: DecolorizeSubpixel<T>>(image: &Image<S>) -> (r: Image<S>)
    requires
        image.wf(),
    ensures
        r.wf(),
        r.width == image.width,
        r.height == image.height,
        r.layout == Layout::Luma,
        forall|m: Arithmetic<T>, c: Codec<S, T>|
            #![trigger m.describes(), c.describes()]
            m.describes() && c.describes() ==> r.samples@ == m.decolorized(
                c,
                image@,
                m.default_options(),
            ),
{
    decolorize_with(image, DecolorizeOptions::default())
}

/// Converts an image to grayscale while preserving color contrast.
///
/// Fits the degree-2 polynomial mapping that maximizes the bimodal contrast
/// likelihood, then applies it and rescales the result to the full output
/// range.
///
/// The mapping is global, so equal colors always map to equal grays and no
/// local halos or gradient reversals are introduced. Fitting is performed on a
/// downscaled copy (see [`DecolorizeOptions::fitting_size`]), so the cost is
/// dominated by evaluating a nine term polynomial per pixel.
///
/// An image without pixels becomes a gray image without pixels. The fitting
/// size must not be zero.
pub fn decolorize_with<T: Scalar, S: DecolorizeSubpixel<T>>(
    image: &Image<S>,
    options: DecolorizeOptions<T>,
) -> (r: Image<S>)
    requires
        image.wf(),
        options.fitting_size > 0,
    ensures
        r.wf(),
        r.width == image.width,
        r.height == image.height,
        r.layout == Layout::Luma,
        forall|m: Arithmetic<T>, c: Codec<S, T>|
            #![trigger m.describes(), c.describes()]
            m.describes() && c.describes() ==> r.samples@ == m.decolorized(c, image@, options),
{
    if image.width == 0 || image.height == 0 {
        return empty_image(image.width, image.height);
    }
    let planes = Planes::<T>::downscale(image, options.fitting_size);
    let weights = fit_weights(&planes, options);
    apply_polynomial(image, &weights)
}

/// Converts an image to grayscale while preserving color contrast, using the
/// default [`FastDecolorizeOptions`].
///
/// See [`decolorize_fast_with`] for the details.
pub fn decolorize_fast<T: Scalar, S: DecolorizeSubpixel<T>>(image: &Image<S>) -> (r: Image<S>)
    requires
        image.wf(),
    ensures
        r.wf(),
        r.width == image.width,
        r.height == image.height,
        r.layout == Layout::Luma,
        forall|m: Arithmetic<T>, c: Codec<S, T>|
            #![trigger m.describes(), c.describes()]
            m.describes() && c.describes() ==> r.samples@ == m.fast_decolorized(
                c,
                image@,
                m.default_fast_options(),
            ),
{
    decolorize_fast_with(image, FastDecolorizeOptions::default())
}

/// Converts an image to grayscale while preserving color contrast, using the
/// real-time approximation.
///
/// Restricts the mapping to a combination of the channels with non-negative
/// weights summing to one, quantized to multiples of `0.1`. The resulting 66
/// candidates are scored by the same bimodal likelihood as
/// [`decolorize_with`], evaluated on a fixed size sample of pixel pairs, and
/// the best is applied.
///
/// This is far cheaper than [`decolorize_with`] and its cost is essentially
/// independent of the image size, but the linear model cannot separate colors
/// that lie on a common line through the RGB cube. Because the weights are
/// convex the output needs no rescaling, so unlike [`decolorize_with`] this
/// function preserves the absolute brightness of the input.
///
/// Contrast is measured as the Euclidean distance in RGB rather than in CIELAB.
///
/// An image without pixels becomes a gray image without pixels. The number of
/// samples must not be zero.
pub fn decolorize_fast_with<T: Scalar, S: DecolorizeSubpixel<T>>(
    image: &Image<S>,
    options: FastDecolorizeOptions<T>,
) -> (r: Image<S>)
    requires
        image.wf(),
        options.samples > 0,
    ensures
        r.wf(),
        r.width == image.width,
        r.height == image.height,
        r.layout == Layout::Luma,
        forall|m: Arithmetic<T>, c: Codec<S, T>|
            #![trigger m.describes(), c.describes()]
            m.describes() && c.describes() ==> r.samples@ == m.fast_decolorized(
                c,
                image@,
                options,
            ),
{
    if image.width == 0 || image.height == 0 {
        return empty_image(image.width, image.height);
    }
    let channel_weights = search_linear_weights(image, options);
    apply_linear(image, channel_weights)
}

} // verus!
