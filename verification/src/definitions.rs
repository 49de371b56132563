//! Images.
use vstd::prelude::*;

verus! {

/// The samples that make up one pixel.
#[derive(Debug, Clone, Copy, PartialEq, Eq, Structural)]
pub enum Layout {
    /// One gray sample.
    Luma,
    /// A gray sample and an alpha sample.
    LumaA,
    /// A red, a green and a blue sample.
    Rgb,
    /// A red, a green, a blue and an alpha sample.
    Rgba,
}

impl Layout {
    /// Number of samples per pixel.
    pub open spec fn channel_count(self) -> int {
        match self {
            Layout::Luma => 1,
            Layout::LumaA => 2,
            Layout::Rgb => 3,
            Layout::Rgba => 4,
        }
    }

    /// Position, among the samples of a pixel, of the sample that stands for a
    /// color channel: red is channel 0, green 1, blue 2. A gray sample stands
    /// for all three.
    pub open spec fn position(self, channel: int) -> int {
        match self {
            Layout::Luma | Layout::LumaA => 0,
            Layout::Rgb | Layout::Rgba => channel,
        }
    }

    /// Number of samples per pixel.
    pub fn channels(self) -> (r: usize)
        ensures
            r == self.channel_count(),
    {
        match self {
            Layout::Luma => 1,
            Layout::LumaA => 2,
            Layout::Rgb => 3,
            Layout::Rgba => 4,
        }
    }
}

/// An image, row by row from the top, the samples of each pixel side by side.
#[derive(Debug, Clone, PartialEq)]
pub struct Image<S> {
    pub width: u32,
    pub height: u32,
    pub layout: Layout,
    pub samples: Vec<S>,
}

/// The colors of an image.
pub struct Picture<S> {
    pub width: int,
    pub height: int,
    /// Red, green and blue of every pixel, row by row.
    pub colors: Seq<(S, S, S)>,
}

impl<S> Picture<S> {
    /// Number of pixels.
    pub open spec fn area(self) -> int {
        self.width * self.height
    }

    /// One channel of the pixel at `index`: red is channel 0, green 1, blue 2.
    pub open spec fn channel(self, index: int, channel: int) -> S {
        if channel == 0 {
            self.colors[index].0
        } else if channel == 1 {
            self.colors[index].1
        } else {
            self.colors[index].2
        }
    }
}

impl<S> View for Image<S> {
    type V = Picture<S>;

    open spec fn view(&self) -> Picture<S> {
        Picture {
            width: self.width as int,
            height: self.height as int,
            colors: Seq::new(
                (self.width * self.height) as nat,
                |i: int|
                    (self.sample_of(i, 0), self.sample_of(i, 1), self.sample_of(i, 2)),
            ),
        }
    }
}

impl<S> Image<S> {
    /// The sample that stands for a color channel of the pixel at `index`.
    pub open spec fn sample_of(&self, index: int, channel: int) -> S {
        self.samples@[index * self.layout.channel_count() + self.layout.position(channel)]
    }

    /// The samples fill the image exactly. Their number is one that a vector
    /// can hold.
    pub open spec fn wf(&self) -> bool {
        &&& self.samples@.len() == self.width * self.height * self.layout.channel_count()
        &&& self.samples@.len() <= isize::MAX
    }

    /// The number of pixels is one that a vector can hold.
    pub proof fn lemma_area_fits(&self)
        requires
            self.wf(),
        ensures
            0 <= self.width * self.height <= isize::MAX,
    {
        let (w, h) = (self.width as int, self.height as int);
        let n = self.layout.channel_count();
        assert(0 <= w * h <= w * h * n) by (nonlinear_arith)
            requires
                0 <= w,
                0 <= h,
                n >= 1,
        ;
    }

    /// An image from its samples, or nothing if their number does not fit the
    /// extents.
    pub fn from_raw(width: u32, height: u32, layout: Layout, samples: Vec<S>) -> (r: Option<
        Image<S>,
    >)
        ensures
            r is Some <==> (Image { width, height, layout, samples }).wf(),
            r matches Some(image) ==> image == (Image { width, height, layout, samples }),
    {
        assert(width * height <= 0xffff_ffff * 0xffff_ffff) by (nonlinear_arith)
            requires
                width <= 0xffff_ffff,
                height <= 0xffff_ffff,
        ;
        let area: u128 = width as u128 * height as u128;
        let channels: u128 = layout.channels() as u128;
        assert(area * channels <= 4 * (0xffff_ffff * 0xffff_ffff)) by (nonlinear_arith)
            requires
                area <= 0xffff_ffff * 0xffff_ffff,
                channels <= 4,
        ;
        let needed: u128 = area * channels;
        if samples.len() as u128 == needed && samples.len() <= isize::MAX as usize {
            Some(Image { width, height, layout, samples })
        } else {
            None
        }
    }
}

impl<S: Copy> Image<S> {
    /// The red, green and blue samples of the pixel at `index`, counted row by
    /// row. A gray pixel has its gray sample three times. Alpha is left out.
    pub fn rgb(&self, index: usize) -> (r: [S; 3])
        requires
            self.wf(),
            index < self.width * self.height,
        ensures
            (r@[0], r@[1], r@[2]) == self@.colors[index as int],
    {
        let channels = self.layout.channels();
        proof {
            let area: int = self.width * self.height;
            assert(index * channels + channels <= area * channels) by (nonlinear_arith)
                requires
                    index + 1 <= area,
                    channels >= 0,
            ;
        }
        let at = index * channels;
        match self.layout {
            Layout::Luma | Layout::LumaA => {
                let gray = self.samples[at];
                [gray, gray, gray]
            },
            Layout::Rgb | Layout::Rgba => {
                [self.samples[at], self.samples[at + 1], self.samples[at + 2]]
            },
        }
    }
}

} // verus!
