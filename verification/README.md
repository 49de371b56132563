# decolorize

Converts color images to grayscale while preserving the contrast between colors
that ordinary luminance conversions flatten out.

Two conversions are offered. `decolorize` fits a degree-2 polynomial mapping of
the colors to the contrast of neighboring pixels; `decolorize_fast` picks the
best of 66 channel weightings on a sparse sample of pixel pairs. Both take
`Luma`, `LumaA`, `Rgb` and `Rgba` images, ignore alpha and return `Luma` images
of the same extents. `decolorize_with` and `decolorize_fast_with` take options.

The library is written in Verus. Its functions compute in any number type that
implements `Scalar`, the operations of double precision arithmetic, and assume
nothing of an implementation: every contract says what a result is for every
mathematical description, an `Arithmetic`, that fits the type.

```rust
use decolorize::{decolorize, decolorize_fast};

let gray = decolorize::<Double, _>(&image);
let gray = decolorize_fast::<Double, _>(&image);
```

| Directory | Content |
| --- | --- |
| `src/` | the verified library |
| `tests/` | its tests, in double precision |
| `app/` | the library on the buffers of the `image` crate, and a command for image files |

In `src/`:

| Module | Content |
| --- | --- |
| `decolorize` | the four conversions |
| `definitions`, `options`, `scalar`, `subpixel` | images, options, numbers and samples |
| `planes`, `pairs`, `color`, `polynomial`, `fit` | the polynomial variant |
| `random`, `sampling`, `search` | the fast variant |
| `laws` | what holds whatever the numbers are |
| `monotone`, `symmetry` | what holds in spite of rounding |
| `accuracy`, `rounding`, `rounded_mapping`, `rounded_color` | what holds up to rounding |
| `exact`, `averaging`, `lightness`, `likelihood`, `reals` | what holds before rounding |
