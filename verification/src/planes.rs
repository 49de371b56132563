//! The downscaled copy of an image that a mapping is fitted on.
use crate::definitions::{Image, Picture};
use crate::scalar::{Arithmetic, Scalar};
use crate::subpixel::{Codec, DecolorizeSubpixel};
use vstd::prelude::*;

verus! {

/// A downscaled copy of an image, held as three planes on the unit interval.
pub struct Planes<T> {
    pub width: usize,
    pub height: usize,
    pub r: Vec<T>,
    pub g: Vec<T>,
    pub b: Vec<T>,
}

/// The planes as sequences.
pub struct PlaneSet<T> {
    pub width: int,
    pub height: int,
    pub r: Seq<T>,
    pub g: Seq<T>,
    pub b: Seq<T>,
}

impl<T> View for Planes<T> {
    type V = PlaneSet<T>;

    open spec fn view(&self) -> PlaneSet<T> {
        PlaneSet {
            width: self.width as int,
            height: self.height as int,
            r: self.r@,
            g: self.g@,
            b: self.b@,
        }
    }
}

/// The source pixels, along one axis, that are averaged into one pixel of a
/// downscaled image: a half open range.
pub struct Span {
    pub start: int,
    pub end: int,
}

impl Span {
    /// The range for pixel `index` of `target` pixels that stand for `source`
    /// pixels: everything that the pixel touches, and at least one pixel.
    pub open spec fn of(index: int, source: int, target: int) -> Span {
        let start = index * source / target;
        let end = ((index + 1) * source + target - 1) / target;
        Span {
            start,
            end: if end > start {
                end
            } else {
                start + 1
            },
        }
    }

    /// Number of pixels in the range.
    pub open spec fn len(self) -> int {
        self.end - self.start
    }
}

/// The range of a pixel is not empty and lies inside of the source.
pub proof fn lemma_span(index: int, source: int, target: int)
    requires
        0 <= index < target <= source,
    ensures
        0 <= Span::of(index, source, target).start,
        Span::of(index, source, target).start < Span::of(index, source, target).end,
        Span::of(index, source, target).end <= source,
{
    assert(0 <= index * source < target * source) by (nonlinear_arith)
        requires
            0 <= index < target <= source,
    ;
    vstd::arithmetic::div_mod::lemma_multiply_divide_lt(index * source, target, source);
    vstd::arithmetic::div_mod::lemma_div_pos_is_pos(index * source, target);
    assert((index + 1) * source + target - 1 < target * (source + 1)) by (nonlinear_arith)
        requires
            0 <= index < target <= source,
    ;
    vstd::arithmetic::div_mod::lemma_multiply_divide_lt(
        (index + 1) * source + target - 1,
        target,
        source + 1,
    );
}

/// The range of source pixels for one pixel of a downscaled image.
fn span(index: u64, source: u64, target: u64) -> (r: (u64, u64))
    requires
        index < target <= source <= u32::MAX,
    ensures
        r.0 == Span::of(index as int, source as int, target as int).start,
        r.1 == Span::of(index as int, source as int, target as int).end,
        r.0 < r.1 <= source,
{
    assert((index + 1) * source <= 0xffff_ffff * 0xffff_ffff) by (nonlinear_arith)
        requires
            index + 1 <= source,
            source <= 0xffff_ffff,
    ;
    assert(index * source <= (index + 1) * source) by (nonlinear_arith);
    proof {
        lemma_span(index as int, source as int, target as int);
    }
    let start: u64 = index * source / target;
    let last: u64 = (index + 1) * source;
    let whole: u64 = last / target;
    let ghost rest: int = (last % target) as int;
    proof {
        let (n, d, q) = (last as int, target as int, whole as int);
        vstd::arithmetic::div_mod::lemma_fundamental_div_mod(n, d);
        assert(n == q * d + rest) by (nonlinear_arith)
            requires
                n == d * q + rest,
        ;
        if rest == 0 {
            vstd::arithmetic::div_mod::lemma_fundamental_div_mod_converse(
                n + d - 1,
                d,
                q,
                d - 1,
            );
        } else {
            assert(n + d - 1 == (q + 1) * d + (rest - 1)) by (nonlinear_arith)
                requires
                    n == q * d + rest,
            ;
            vstd::arithmetic::div_mod::lemma_fundamental_div_mod_converse(
                n + d - 1,
                d,
                q + 1,
                rest - 1,
            );
        }
    }
    let end: u64 = if last % target == 0 {
        whole
    } else {
        whole + 1
    };
    if end > start {
        (start, end)
    } else {
        (start, start + 1)
    }
}

impl<T> Arithmetic<T> {
    /// One side of an image scaled by `max_extent / extent`, rounded, and at
    /// least one pixel.
    pub open spec fn scaled_side(self, side: int, max_extent: int, extent: int) -> int {
        let scale = self.ratio(max_extent as u64, extent as u64);
        let rounded = (self.truncated)(
            (self.rounded)((self.times)((self.from_int)(side as u64), scale)),
        );
        if rounded < 1 {
            1
        } else if rounded > side {
            side
        } else {
            rounded as int
        }
    }

    /// The extents at which a mapping is fitted: those of the image where
    /// `width + height` does not exceed `max_extent`, else the image scaled
    /// down to that bound. Where rounding exceeds the bound, the longer side
    /// gives way.
    pub open spec fn fitted_extents(self, width: int, height: int, max_extent: int) -> (int, int) {
        if width + height <= max_extent {
            (width, height)
        } else {
            let w = self.scaled_side(width, max_extent, width + height);
            let h = self.scaled_side(height, max_extent, width + height);
            if w + h <= max_extent {
                (w, h)
            } else if max_extent < 2 {
                (1, 1)
            } else if w >= h {
                let short = if h <= max_extent / 2 {
                    h
                } else {
                    max_extent / 2
                };
                (max_extent - short, short)
            } else {
                let short = if w <= max_extent / 2 {
                    w
                } else {
                    max_extent / 2
                };
                (short, max_extent - short)
            }
        }
    }

    /// The sum, row by row, of one channel over a box of pixels, divided by
    /// their number.
    pub open spec fn box_mean<S>(
        self,
        codec: Codec<S, T>,
        picture: Picture<S>,
        columns: Span,
        rows: Span,
        channel: int,
    ) -> T {
        let count = columns.len() * rows.len();
        (self.over)(
            self.total(count as nat, Self::box_term(codec, picture, columns, rows, channel)),
            (self.from_int)(count as u64),
        )
    }

    /// The samples of one channel of a box of pixels, row by row.
    pub open spec fn box_term<S>(
        codec: Codec<S, T>,
        picture: Picture<S>,
        columns: Span,
        rows: Span,
        channel: int,
    ) -> spec_fn(int) -> T {
        |k: int|
            (codec.to_unit)(
                picture.channel(
                    (rows.start + k / columns.len()) * picture.width + columns.start + k
                        % columns.len(),
                    channel,
                ),
            )
    }

    /// One plane of the copy of a picture that is `width` by `height` pixels.
    pub open spec fn downscaled<S>(
        self,
        codec: Codec<S, T>,
        picture: Picture<S>,
        width: int,
        height: int,
        channel: int,
    ) -> Seq<T> {
        Seq::new(
            (width * height) as nat,
            |i: int| self.downscaled_at(codec, picture, width, height, channel, i),
        )
    }

    /// The copy of a picture that a mapping is fitted on.
    pub open spec fn downscaled_planes<S>(
        self,
        codec: Codec<S, T>,
        picture: Picture<S>,
        max_extent: int,
    ) -> PlaneSet<T> {
        let (width, height) = self.fitted_extents(picture.width, picture.height, max_extent);
        PlaneSet {
            width,
            height,
            r: self.downscaled(codec, picture, width, height, 0),
            g: self.downscaled(codec, picture, width, height, 1),
            b: self.downscaled(codec, picture, width, height, 2),
        }
    }

    /// One channel of the pixel at `index` of the copy of a picture that is
    /// `width` by `height` pixels: the mean over everything that it covers.
    pub open spec fn downscaled_at<S>(
        self,
        codec: Codec<S, T>,
        picture: Picture<S>,
        width: int,
        height: int,
        channel: int,
        index: int,
    ) -> T {
        self.box_mean(
            codec,
            picture,
            Span::of(index % width, picture.width, width),
            Span::of(index / width, picture.height, height),
            channel,
        )
    }
}

/// One side of an image scaled by `max_extent / extent`.
fn scaled_side<T: Scalar>(side: u32, max_extent: u32, extent: u64) -> (r: u32)
    requires
        side > 0,
    ensures
        1 <= r <= side,
        forall|m: Arithmetic<T>| #[trigger]
            m.describes() ==> r == m.scaled_side(side as int, max_extent as int, extent as int),
{
    let scale = T::from_int(max_extent as u64).over(T::from_int(extent));
    let rounded: usize = T::from_int(side as u64).times(scale).rounded().truncated();
    if rounded < 1 {
        1
    } else if rounded > side as usize {
        side
    } else {
        rounded as u32
    }
}

/// The extents at which the mapping for an image is fitted.
pub fn fitted_extents<T: Scalar>(width: u32, height: u32, max_extent: u32) -> (r: (u32, u32))
    requires
        width > 0,
        height > 0,
    ensures
        1 <= r.0 <= width,
        1 <= r.1 <= height,
        max_extent >= 2 ==> r.0 + r.1 <= max_extent,
        width + height <= max_extent ==> r == (width, height),
        forall|m: Arithmetic<T>| #[trigger]
            m.describes() ==> (r.0 as int, r.1 as int) == m.fitted_extents(
                width as int,
                height as int,
                max_extent as int,
            ),
{
    let extent: u64 = width as u64 + height as u64;
    if extent <= max_extent as u64 {
        return (width, height);
    }
    let w = scaled_side::<T>(width, max_extent, extent);
    let h = scaled_side::<T>(height, max_extent, extent);
    if w as u64 + h as u64 <= max_extent as u64 {
        (w, h)
    } else if max_extent < 2 {
        (1, 1)
    } else if w >= h {
        let short: u32 = if h <= max_extent / 2 {
            h
        } else {
            max_extent / 2
        };
        (max_extent - short, short)
    } else {
        let short: u32 = if w <= max_extent / 2 {
            w
        } else {
            max_extent / 2
        };
        (short, max_extent - short)
    }
}

/// The mean color of a box of pixels.
fn box_mean<T: Scalar, S: DecolorizeSubpixel<T>>(
    image: &Image<S>,
    columns: (u64, u64),
    rows: (u64, u64),
) -> (r: [T; 3])
    requires
        image.wf(),
        columns.0 < columns.1 <= image.width,
        rows.0 < rows.1 <= image.height,
    ensures
        forall|m: Arithmetic<T>, c: Codec<S, T>, channel: int|
            #![trigger m.describes(), c.describes(), r@[channel]]
            m.describes() && c.describes() && 0 <= channel < 3 ==> r@[channel] == m.box_mean(
                c,
                image@,
                Span { start: columns.0 as int, end: columns.1 as int },
                Span { start: rows.0 as int, end: rows.1 as int },
                channel,
            ),
{
    let ghost across = Span { start: columns.0 as int, end: columns.1 as int };
    let ghost down = Span { start: rows.0 as int, end: rows.1 as int };
    let ghost bw = across.len();
    let mut r = T::from_int(0);
    let mut g = T::from_int(0);
    let mut b = T::from_int(0);
    let mut y: u64 = rows.0;
    assert((y - rows.0) * bw == 0) by (nonlinear_arith)
        requires
            y == rows.0,
    ;
    while y < rows.1
        invariant
            image.wf(),
            columns.0 < columns.1 <= image.width,
            rows.0 <= y <= rows.1 <= image.height,
            across == (Span { start: columns.0 as int, end: columns.1 as int }),
            down == (Span { start: rows.0 as int, end: rows.1 as int }),
            bw == across.len(),
            (y - rows.0) * bw >= 0,
            forall|m: Arithmetic<T>, c: Codec<S, T>|
                #![trigger m.describes(), c.describes()]
                m.describes() && c.describes() ==> {
                    let count = ((y - rows.0) * bw) as nat;
                    &&& r == m.total(
                        count,
                        Arithmetic::<T>::box_term(c, image@, across, down, 0),
                    )
                    &&& g == m.total(
                        count,
                        Arithmetic::<T>::box_term(c, image@, across, down, 1),
                    )
                    &&& b == m.total(
                        count,
                        Arithmetic::<T>::box_term(c, image@, across, down, 2),
                    )
                },
        decreases rows.1 - y,
    {
        let mut x: u64 = columns.0;
        while x < columns.1
            invariant
                image.wf(),
                columns.0 <= x <= columns.1 <= image.width,
                columns.0 < columns.1,
                rows.0 <= y < rows.1 <= image.height,
                across == (Span { start: columns.0 as int, end: columns.1 as int }),
                down == (Span { start: rows.0 as int, end: rows.1 as int }),
                bw == across.len(),
                (y - rows.0) * bw >= 0,
                forall|m: Arithmetic<T>, c: Codec<S, T>|
                    #![trigger m.describes(), c.describes()]
                    m.describes() && c.describes() ==> {
                        let count = ((y - rows.0) * bw + (x - columns.0)) as nat;
                        &&& r == m.total(
                            count,
                            Arithmetic::<T>::box_term(c, image@, across, down, 0),
                        )
                        &&& g == m.total(
                            count,
                            Arithmetic::<T>::box_term(c, image@, across, down, 1),
                        )
                        &&& b == m.total(
                            count,
                            Arithmetic::<T>::box_term(c, image@, across, down, 2),
                        )
                    },
            decreases columns.1 - x,
        {
            let width: u64 = image.width as u64;
            proof {
                let (h, w) = (image.height as int, image.width as int);
                assert(y * w + x < w * h) by (nonlinear_arith)
                    requires
                        y + 1 <= h,
                        x < w,
                        0 <= y,
                ;
                let n = image.layout.channel_count();
                assert(w * h <= w * h * n) by (nonlinear_arith)
                    requires
                        n >= 1,
                        w >= 0,
                        h >= 0,
                ;
                assert(y * w >= 0) by (nonlinear_arith)
                    requires
                        y >= 0,
                        w >= 0,
                ;
                vstd::arithmetic::div_mod::lemma_fundamental_div_mod_converse(
                    (y - rows.0) * bw + (x - columns.0),
                    bw,
                    y - rows.0,
                    x - columns.0,
                );
            }
            let index: usize = (y * width + x) as usize;
            let rgb = image.rgb(index);
            r = r.plus(rgb[0].to_unit());
            g = g.plus(rgb[1].to_unit());
            b = b.plus(rgb[2].to_unit());
            x = x + 1;
        }
        assert((y + 1 - rows.0) * bw == (y - rows.0) * bw + bw) by (nonlinear_arith);
        y = y + 1;
    }
    let ghost count = bw * down.len();
    proof {
        assert((rows.1 - rows.0) * bw == count) by (nonlinear_arith)
            requires
                count == bw * (rows.1 - rows.0),
        ;
        assert(count <= 0xffff_ffff * 0xffff_ffff) by (nonlinear_arith)
            requires
                count == bw * (rows.1 - rows.0),
                0 <= bw <= 0xffff_ffff,
                0 <= rows.1 - rows.0 <= 0xffff_ffff,
        ;
    }
    let pixels = T::from_int((columns.1 - columns.0) * (rows.1 - rows.0));
    [r.over(pixels), g.over(pixels), b.over(pixels)]
}

impl<T> Planes<T> {
    /// The planes fill the extents exactly, and so small that the number of
    /// neighboring pairs can be counted.
    pub open spec fn wf(&self) -> bool {
        &&& self.r@.len() == self.width * self.height
        &&& self.g@.len() == self.width * self.height
        &&& self.b@.len() == self.width * self.height
        &&& 2 * (self.width * self.height) <= usize::MAX
    }
}

impl<T: Scalar> Planes<T> {
    /// Box filters `image` down until `width + height <= max_extent`.
    ///
    /// Box filtering rather than point sampling matters here. The objective is
    /// a sum over *neighboring* pixel pairs, so aliasing would fabricate
    /// contrast between pixels that are not adjacent in the image.
    pub fn downscale<S: DecolorizeSubpixel<T>>(image: &Image<S>, max_extent: u32) -> (r: Planes<T>)
        requires
            image.wf(),
            image.width > 0,
            image.height > 0,
        ensures
            r.wf(),
            1 <= r.width <= image.width,
            1 <= r.height <= image.height,
            max_extent >= 2 ==> r.width + r.height <= max_extent,
            image.width + image.height <= max_extent ==> r.width == image.width && r.height
                == image.height,
            forall|m: Arithmetic<T>| #[trigger]
                m.describes() ==> (r.width as int, r.height as int) == m.fitted_extents(
                    image.width as int,
                    image.height as int,
                    max_extent as int,
                ),
            forall|m: Arithmetic<T>, c: Codec<S, T>|
                #![trigger m.describes(), c.describes()]
                m.describes() && c.describes() ==> r@ == m.downscaled_planes(
                    c,
                    image@,
                    max_extent as int,
                ),
    {
        let (width, height) = fitted_extents::<T>(image.width, image.height, max_extent);
        let mut r: Vec<T> = Vec::new();
        let mut g: Vec<T> = Vec::new();
        let mut b: Vec<T> = Vec::new();
        let mut y: u32 = 0;
        while y < height
            invariant
                image.wf(),
                1 <= width <= image.width,
                1 <= height <= image.height,
                0 <= y <= height,
                r@.len() == y * width,
                g@.len() == y * width,
                b@.len() == y * width,
                forall|m: Arithmetic<T>, c: Codec<S, T>|
                    #![trigger m.describes(), c.describes()]
                    m.describes() && c.describes() ==> {
                        let (w, h) = (width as int, height as int);
                        &&& forall|i: int|
                            0 <= i < r@.len() ==> r@[i]
                                == #[trigger] m.downscaled_at(c, image@, w, h, 0, i)
                        &&& forall|i: int|
                            0 <= i < g@.len() ==> g@[i]
                                == #[trigger] m.downscaled_at(c, image@, w, h, 1, i)
                        &&& forall|i: int|
                            0 <= i < b@.len() ==> b@[i]
                                == #[trigger] m.downscaled_at(c, image@, w, h, 2, i)
                    },
            decreases height - y,
        {
            let rows = span(y as u64, image.height as u64, height as u64);
            let mut x: u32 = 0;
            while x < width
                invariant
                    image.wf(),
                    1 <= width <= image.width,
                    1 <= height <= image.height,
                    0 <= y < height,
                    0 <= x <= width,
                    rows.0 == Span::of(y as int, image.height as int, height as int).start,
                    rows.1 == Span::of(y as int, image.height as int, height as int).end,
                    rows.0 < rows.1 <= image.height,
                    r@.len() == y * width + x,
                    g@.len() == y * width + x,
                    b@.len() == y * width + x,
                    forall|m: Arithmetic<T>, c: Codec<S, T>|
                        #![trigger m.describes(), c.describes()]
                        m.describes() && c.describes() ==> {
                            let (w, h) = (width as int, height as int);
                            &&& forall|i: int|
                                0 <= i < r@.len() ==> r@[i]
                                    == #[trigger] m.downscaled_at(c, image@, w, h, 0, i)
                            &&& forall|i: int|
                                0 <= i < g@.len() ==> g@[i]
                                    == #[trigger] m.downscaled_at(c, image@, w, h, 1, i)
                            &&& forall|i: int|
                                0 <= i < b@.len() ==> b@[i]
                                    == #[trigger] m.downscaled_at(c, image@, w, h, 2, i)
                        },
                decreases width - x,
            {
                let columns = span(x as u64, image.width as u64, width as u64);
                let mean = box_mean::<T, S>(image, columns, rows);
                proof {
                    vstd::arithmetic::div_mod::lemma_fundamental_div_mod_converse(
                        y * width + x,
                        width as int,
                        y as int,
                        x as int,
                    );
                    assert(mean@[0] == mean[0] && mean@[1] == mean[1] && mean@[2] == mean[2]);
                }
                r.push(mean[0]);
                g.push(mean[1]);
                b.push(mean[2]);
                x = x + 1;
            }
            assert((y + 1) * width == y * width + width) by (nonlinear_arith);
            y = y + 1;
        }
        proof {
            let (w, h) = (width as int, height as int);
            let (sw, sh) = (image.width as int, image.height as int);
            let n = image.layout.channel_count();
            assert(h * w == w * h) by (nonlinear_arith);
            assert(w * h <= sw * sh * n) by (nonlinear_arith)
                requires
                    1 <= w <= sw,
                    1 <= h <= sh,
                    n >= 1,
            ;
        }
        let planes = Planes { width: width as usize, height: height as usize, r, g, b };
        proof {
            assert forall|m: Arithmetic<T>, c: Codec<S, T>|
                #![trigger m.describes(), c.describes()]
                m.describes() && c.describes() implies planes@ == m.downscaled_planes(
                c,
                image@,
                max_extent as int,
            ) by {
                let copy = m.downscaled_planes(c, image@, max_extent as int);
                assert(planes@.r =~= copy.r);
                assert(planes@.g =~= copy.g);
                assert(planes@.b =~= copy.b);
            }
        }
        planes
    }
}

} // verus!
