//! Options.
use crate::scalar::{ratio, Arithmetic, Scalar};
use vstd::prelude::*;

verus! {

/// Options for [`decolorize_with`](crate::decolorize::decolorize_with).
#[derive(Debug, Clone, Copy, PartialEq)]
pub struct DecolorizeOptions<T> {
    /// Standard deviation of the two Gaussian modes, in units of gray level.
    ///
    /// Small values demand that the gray contrast match the color contrast
    /// closely; large values let the optimizer trade individual pairs off
    /// against each other. Defaults to `0.02`.
    pub sigma: T,
    /// Maximum number of fixed point iterations, `15` by default. Some images
    /// are still drifting at that point, so this is a budget rather than a
    /// convergence criterion.
    pub max_iterations: usize,
    /// Iteration stops once the energy changes by less than this between
    /// successive iterations. Defaults to `1e-4`.
    pub tolerance: T,
    /// The mapping is fitted on a copy of the image downscaled so that
    /// `width + height` does not exceed this bound; it is then applied at full
    /// resolution. Defaults to `800`.
    ///
    /// Fitting cost is quadratic in this value while the result is almost
    /// unaffected, since a global mapping only has nine degrees of freedom.
    pub fitting_size: u32,
}

/// Options for [`decolorize_fast_with`](crate::decolorize::decolorize_fast_with).
#[derive(Debug, Clone, Copy, PartialEq)]
pub struct FastDecolorizeOptions<T> {
    /// Standard deviation of the two Gaussian modes. Defaults to `0.05`.
    pub sigma: T,
    /// Pixel pairs are drawn from a grid holding about `samples^2` points, and
    /// never more than `2 * samples^2 + 1`. Defaults to `64`.
    pub samples: u32,
    /// Pairs whose color contrast falls below this are discarded, so that the
    /// search is driven by the pairs that actually carry contrast. Defaults to
    /// `0.05`.
    pub contrast_threshold: T,
    /// Seed for the pairing of the randomly matched samples. The default of `0`
    /// makes the output reproducible; vary it to average over several draws.
    pub seed: u64,
}

impl<T> Arithmetic<T> {
    /// The default options for fitting a polynomial.
    pub open spec fn default_options(self) -> DecolorizeOptions<T> {
        DecolorizeOptions {
            sigma: self.ratio(2, 100),
            max_iterations: 15,
            tolerance: self.ratio(1, 10_000),
            fitting_size: 800,
        }
    }

    /// The default options for the search.
    pub open spec fn default_fast_options(self) -> FastDecolorizeOptions<T> {
        FastDecolorizeOptions {
            sigma: self.ratio(5, 100),
            samples: 64,
            contrast_threshold: self.ratio(5, 100),
            seed: 0,
        }
    }
}

impl<T: Scalar> Default for DecolorizeOptions<T> {
    fn default() -> (r: Self)
        ensures
            r.max_iterations == 15,
            r.fitting_size == 800,
            forall|m: Arithmetic<T>| #[trigger] m.describes() ==> r == m.default_options(),
    {
        DecolorizeOptions {
            sigma: ratio(2, 100),
            max_iterations: 15,
            tolerance: ratio(1, 10_000),
            fitting_size: 800,
        }
    }
}

impl<T: Scalar> Default for FastDecolorizeOptions<T> {
    fn default() -> (r: Self)
        ensures
            r.samples == 64,
            r.seed == 0,
            forall|m: Arithmetic<T>| #[trigger] m.describes() ==> r == m.default_fast_options(),
    {
        FastDecolorizeOptions {
            sigma: ratio(5, 100),
            samples: 64,
            contrast_threshold: ratio(5, 100),
            seed: 0,
        }
    }
}

} // verus!
