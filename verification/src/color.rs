//! Color space conversion, and what it says of neighboring pixels.
use crate::pairs::differences;
use crate::planes::{PlaneSet, Planes};
use crate::scalar::{clamp, ratio, Arithmetic, Scalar};
use vstd::prelude::*;

verus! {

impl<T> Arithmetic<T> {
    /// Linear light of an sRGB channel.
    pub open spec fn linear(self, channel: T) -> T {
        if (self.at_most)(channel, self.ratio(4_045, 100_000)) {
            (self.over)(channel, self.ratio(1_292, 100))
        } else {
            (self.raised)(
                (self.over)(
                    (self.plus)(channel, self.ratio(55, 1_000)),
                    self.ratio(1_055, 1_000),
                ),
                self.ratio(24, 10),
            )
        }
    }

    /// A weighted sum of three channels, with the weights in millionths.
    pub open spec fn weighted(self, weights: (u64, u64, u64), r: T, g: T, b: T) -> T {
        (self.plus)(
            (self.plus)(
                (self.times)(self.ratio(weights.0, 1_000_000), r),
                (self.times)(self.ratio(weights.1, 1_000_000), g),
            ),
            (self.times)(self.ratio(weights.2, 1_000_000), b),
        )
    }

    /// The CIELAB transfer function: a cube root, and a line near zero.
    pub open spec fn lab_curve(self, t: T) -> T {
        if (self.less)(self.ratio(216, 24_389), t) {
            (self.cube_root)(t)
        } else {
            (self.over)(
                (self.plus)((self.times)(self.ratio(24_389, 27), t), (self.from_int)(16)),
                (self.from_int)(116),
            )
        }
    }

    /// CIELAB of an sRGB triple on the unit interval, under the D65 white
    /// point.
    pub open spec fn lab(self, r: T, g: T, b: T) -> (T, T, T) {
        let r = self.linear(self.clamp(r, self.zero(), self.one()));
        let g = self.linear(self.clamp(g, self.zero(), self.one()));
        let b = self.linear(self.clamp(b, self.zero(), self.one()));
        let x = self.weighted((412_453, 357_580, 180_423), r, g, b);
        let y = self.weighted((212_671, 715_160, 72_169), r, g, b);
        let z = self.weighted((19_334, 119_193, 950_227), r, g, b);
        let fx = self.lab_curve((self.over)(x, self.ratio(950_456, 1_000_000)));
        let fy = self.lab_curve((self.over)(y, self.one()));
        let fz = self.lab_curve((self.over)(z, self.ratio(1_088_754, 1_000_000)));
        (
            (self.minus)((self.times)((self.from_int)(116), fy), (self.from_int)(16)),
            (self.times)((self.from_int)(500), (self.minus)(fx, fy)),
            (self.times)((self.from_int)(200), (self.minus)(fy, fz)),
        )
    }

    /// The length of a vector.
    pub open spec fn length(self, x: T, y: T, z: T) -> T {
        (self.square_root)(
            (self.plus)((self.plus)(self.square(x), self.square(y)), self.square(z)),
        )
    }

    /// CIELAB of the pixel at `index`.
    pub open spec fn lab_at(self, planes: PlaneSet<T>, index: int) -> (T, T, T) {
        self.lab(planes.r[index], planes.g[index], planes.b[index])
    }

    /// The color contrast of pair `k`: the distance in CIELAB, divided by 100.
    pub open spec fn contrast(self, planes: PlaneSet<T>, k: int) -> T {
        let a = self.lab_at(planes, planes.neighbors().first(k));
        let b = self.lab_at(planes, planes.neighbors().second(k));
        (self.over)(
            self.length((self.minus)(a.0, b.0), (self.minus)(a.1, b.1), (self.minus)(a.2, b.2)),
            (self.from_int)(100),
        )
    }

    /// Threshold below which a channel difference is not taken as evidence of
    /// an unambiguous color order.
    pub open spec fn weak_order_level(self) -> T {
        self.ratio(5, 100)
    }

    /// The order of two colors whose channels differ by `dr`, `dg` and `db`:
    /// one where the first dominates in every channel, minus one where the
    /// second does, zero where neither does.
    pub open spec fn dominance(self, dr: T, dg: T, db: T) -> T {
        let level = self.weak_order_level();
        let below = (self.negated)(level);
        if (self.less)(level, dr) && (self.less)(level, dg) && (self.less)(level, db) {
            self.one()
        } else if (self.less)(dr, below) && (self.less)(dg, below) && (self.less)(db, below) {
            (self.negated)(self.one())
        } else {
            self.zero()
        }
    }

    /// The weak color order of pair `k`.
    pub open spec fn weak_order(self, planes: PlaneSet<T>, k: int) -> T {
        self.dominance(
            self.pair_difference(planes.r, planes.neighbors(), k),
            self.pair_difference(planes.g, planes.neighbors(), k),
            self.pair_difference(planes.b, planes.neighbors(), k),
        )
    }
}

/// Inverts the sRGB transfer function.
pub fn srgb_to_linear<T: Scalar>(channel: T) -> (r: T)
    ensures
        forall|m: Arithmetic<T>| #[trigger] m.describes() ==> r == m.linear(channel),
{
    if channel.at_most(ratio(4_045, 100_000)) {
        channel.over(ratio(1_292, 100))
    } else {
        channel.plus(ratio(55, 1_000)).over(ratio(1_055, 1_000)).raised(ratio(24, 10))
    }
}

/// A weighted sum of three channels, with the weights in millionths.
fn weighted<T: Scalar>(weights: (u64, u64, u64), r: T, g: T, b: T) -> (sum: T)
    ensures
        forall|m: Arithmetic<T>| #[trigger] m.describes() ==> sum == m.weighted(weights, r, g, b),
{
    let first = ratio::<T>(weights.0, 1_000_000).times(r);
    let second = ratio::<T>(weights.1, 1_000_000).times(g);
    let third = ratio::<T>(weights.2, 1_000_000).times(b);
    first.plus(second).plus(third)
}

/// The CIELAB transfer function.
fn lab_curve<T: Scalar>(t: T) -> (r: T)
    ensures
        forall|m: Arithmetic<T>| #[trigger] m.describes() ==> r == m.lab_curve(t),
{
    if ratio::<T>(216, 24_389).less(t) {
        t.cube_root()
    } else {
        ratio::<T>(24_389, 27).times(t).plus(T::from_int(16)).over(T::from_int(116))
    }
}

/// Converts an sRGB triple on the unit interval to CIELAB, with `L` on
/// `[0, 100]`.
pub fn srgb_to_lab<T: Scalar>(r: T, g: T, b: T) -> (lab: (T, T, T))
    ensures
        forall|m: Arithmetic<T>| #[trigger] m.describes() ==> lab == m.lab(r, g, b),
{
    let (zero, one) = (T::from_int(0), T::from_int(1));
    let r = srgb_to_linear(clamp(r, zero, one));
    let g = srgb_to_linear(clamp(g, zero, one));
    let b = srgb_to_linear(clamp(b, zero, one));
    let x = weighted((412_453, 357_580, 180_423), r, g, b);
    let y = weighted((212_671, 715_160, 72_169), r, g, b);
    let z = weighted((19_334, 119_193, 950_227), r, g, b);
    let fx = lab_curve(x.over(ratio(950_456, 1_000_000)));
    let fy = lab_curve(y.over(one));
    let fz = lab_curve(z.over(ratio(1_088_754, 1_000_000)));
    (
        T::from_int(116).times(fy).minus(T::from_int(16)),
        T::from_int(500).times(fx.minus(fy)),
        T::from_int(200).times(fy.minus(fz)),
    )
}

/// The length of a vector.
pub(crate) fn length<T: Scalar>(x: T, y: T, z: T) -> (r: T)
    ensures
        forall|m: Arithmetic<T>| #[trigger] m.describes() ==> r == m.length(x, y, z),
{
    x.times(x).plus(y.times(y)).plus(z.times(z)).square_root()
}

/// Per-pair color contrast, the CIELAB distance of the pair scaled so that it
/// is commensurate with a gray difference on the unit interval.
pub fn color_contrast<T: Scalar>(planes: &Planes<T>) -> (r: Vec<T>)
    requires
        planes.wf(),
    ensures
        r@.len() == planes@.neighbors().count(),
        forall|m: Arithmetic<T>, k: int|
            #![trigger m.describes(), r@[k]]
            m.describes() && 0 <= k < r@.len() ==> r@[k] == m.contrast(planes@, k),
{
    let pixels = planes.r.len();
    let mut lightness: Vec<T> = Vec::new();
    let mut green_red: Vec<T> = Vec::new();
    let mut blue_yellow: Vec<T> = Vec::new();
    let mut i: usize = 0;
    while i < pixels
        invariant
            planes.wf(),
            0 <= i <= pixels == planes.r@.len(),
            lightness@.len() == i,
            green_red@.len() == i,
            blue_yellow@.len() == i,
            forall|m: Arithmetic<T>, j: int|
                #![trigger m.describes(), lightness@[j]]
                m.describes() && 0 <= j < i ==> (lightness@[j], green_red@[j], blue_yellow@[j])
                    == m.lab_at(planes@, j),
        decreases pixels - i,
    {
        let (l, a, b) = srgb_to_lab(planes.r[i], planes.g[i], planes.b[i]);
        lightness.push(l);
        green_red.push(a);
        blue_yellow.push(b);
        i = i + 1;
    }
    let dl = differences(&lightness, planes.width, planes.height);
    let da = differences(&green_red, planes.width, planes.height);
    let db = differences(&blue_yellow, planes.width, planes.height);
    let pairs = dl.len();
    let mut r: Vec<T> = Vec::new();
    let mut k: usize = 0;
    while k < pairs
        invariant
            planes.wf(),
            0 <= k <= pairs == planes@.neighbors().count(),
            r@.len() == k,
            lightness@.len() == planes.width * planes.height,
            dl@.len() == pairs,
            da@.len() == pairs,
            db@.len() == pairs,
            forall|m: Arithmetic<T>, j: int|
                #![trigger m.describes(), lightness@[j]]
                m.describes() && 0 <= j < lightness@.len() ==> (
                    lightness@[j],
                    green_red@[j],
                    blue_yellow@[j],
                ) == m.lab_at(planes@, j),
            forall|m: Arithmetic<T>, j: int|
                #![trigger m.describes(), dl@[j]]
                m.describes() && 0 <= j < pairs ==> dl@[j] == m.pair_difference(
                    lightness@,
                    planes@.neighbors(),
                    j,
                ),
            forall|m: Arithmetic<T>, j: int|
                #![trigger m.describes(), da@[j]]
                m.describes() && 0 <= j < pairs ==> da@[j] == m.pair_difference(
                    green_red@,
                    planes@.neighbors(),
                    j,
                ),
            forall|m: Arithmetic<T>, j: int|
                #![trigger m.describes(), db@[j]]
                m.describes() && 0 <= j < pairs ==> db@[j] == m.pair_difference(
                    blue_yellow@,
                    planes@.neighbors(),
                    j,
                ),
            forall|m: Arithmetic<T>, j: int|
                #![trigger m.describes(), r@[j]]
                m.describes() && 0 <= j < k ==> r@[j] == m.contrast(planes@, j),
        decreases pairs - k,
    {
        // `L` runs over [0, 100], so dividing by 100 brings the distance back
        // onto roughly the same scale as a difference of grays on the unit
        // interval.
        let distance = length(dl[k], da[k], db[k]);
        r.push(distance.over(T::from_int(100)));
        proof {
            crate::pairs::lemma_ends(planes@.neighbors(), k as int);
        }
        k = k + 1;
    }
    r
}

/// Per-pair weak color order, `+1` where the first color dominates the second
/// in every channel, `-1` where it is dominated in every channel, and `0` where
/// the order is ambiguous.
///
/// It selects a prior with a single mode for the pairs that really are ordered
/// and leaves the mixture evenly weighted, free to choose a sign, everywhere
/// else.
pub fn weak_order<T: Scalar>(planes: &Planes<T>) -> (r: Vec<T>)
    requires
        planes.wf(),
    ensures
        r@.len() == planes@.neighbors().count(),
        forall|m: Arithmetic<T>, k: int|
            #![trigger m.describes(), r@[k]]
            m.describes() && 0 <= k < r@.len() ==> r@[k] == m.weak_order(planes@, k),
{
    let dr = differences(&planes.r, planes.width, planes.height);
    let dg = differences(&planes.g, planes.width, planes.height);
    let db = differences(&planes.b, planes.width, planes.height);
    let level: T = ratio(5, 100);
    let below = level.negated();
    let pairs = dr.len();
    let mut r: Vec<T> = Vec::new();
    let mut k: usize = 0;
    while k < pairs
        invariant
            0 <= k <= pairs == planes@.neighbors().count(),
            r@.len() == k,
            dr@.len() == pairs,
            dg@.len() == pairs,
            db@.len() == pairs,
            forall|m: Arithmetic<T>| #[trigger]
                m.describes() ==> level == m.weak_order_level() && below == (m.negated)(level),
            forall|m: Arithmetic<T>, j: int|
                #![trigger m.describes(), dr@[j]]
                m.describes() && 0 <= j < pairs ==> dr@[j] == m.pair_difference(
                    planes.r@,
                    planes@.neighbors(),
                    j,
                ),
            forall|m: Arithmetic<T>, j: int|
                #![trigger m.describes(), dg@[j]]
                m.describes() && 0 <= j < pairs ==> dg@[j] == m.pair_difference(
                    planes.g@,
                    planes@.neighbors(),
                    j,
                ),
            forall|m: Arithmetic<T>, j: int|
                #![trigger m.describes(), db@[j]]
                m.describes() && 0 <= j < pairs ==> db@[j] == m.pair_difference(
                    planes.b@,
                    planes@.neighbors(),
                    j,
                ),
            forall|m: Arithmetic<T>, j: int|
                #![trigger m.describes(), r@[j]]
                m.describes() && 0 <= j < k ==> r@[j] == m.weak_order(planes@, j),
        decreases pairs - k,
    {
        let (x, y, z) = (dr[k], dg[k], db[k]);
        if level.less(x) && level.less(y) && level.less(z) {
            r.push(T::from_int(1));
        } else if x.less(below) && y.less(below) && z.less(below) {
            r.push(T::from_int(1).negated());
        } else {
            r.push(T::from_int(0));
        }
        k = k + 1;
    }
    r
}

} // verus!
