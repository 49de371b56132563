//! What holds of the library as a whole, whatever the numbers are.
use crate::decolorize::{decolorize_fast_with, decolorize_with};
use crate::definitions::{Image, Layout, Picture};
use crate::fit::Evidence;
use crate::options::{DecolorizeOptions, FastDecolorizeOptions};
use crate::pairs::Neighbors;
use crate::planes::{PlaneSet, Span};
use crate::random::SplitMix64;
use crate::sampling::{Grid, Pair, Point};
use crate::scalar::{Arithmetic, Scalar, NUM_MONOMIALS};
use crate::search::{Weighting, WEIGHT_STEPS};
use crate::subpixel::{Codec, DecolorizeSubpixel};
use vstd::prelude::*;

verus! {

/// The mapping is global: pixels of equal color get equal grays.
pub proof fn law_equal_colors_get_equal_grays<S, T>(
    m: Arithmetic<T>,
    c: Codec<S, T>,
    picture: Picture<S>,
    options: DecolorizeOptions<T>,
    i: int,
    j: int,
)
    requires
        0 <= i < picture.area(),
        0 <= j < picture.area(),
        picture.colors[i] == picture.colors[j],
    ensures
        m.decolorized(c, picture, options).len() == picture.area(),
        m.decolorized(c, picture, options)[i] == m.decolorized(c, picture, options)[j],
{
    lemma_not_empty(picture);
}

/// The mapping of the search is global too: pixels of equal color get equal
/// grays.
pub proof fn law_equal_colors_get_equal_fast_grays<S, T>(
    m: Arithmetic<T>,
    c: Codec<S, T>,
    picture: Picture<S>,
    options: FastDecolorizeOptions<T>,
    i: int,
    j: int,
)
    requires
        0 <= i < picture.area(),
        0 <= j < picture.area(),
        picture.colors[i] == picture.colors[j],
    ensures
        m.fast_decolorized(c, picture, options).len() == picture.area(),
        m.fast_decolorized(c, picture, options)[i] == m.fast_decolorized(c, picture, options)[j],
{
    lemma_not_empty(picture);
}

/// A picture with pixels has extents.
pub(crate) proof fn lemma_not_empty<S>(picture: Picture<S>)
    requires
        0 < picture.area(),
    ensures
        picture.width != 0,
        picture.height != 0,
{
    let (w, h) = (picture.width, picture.height);
    assert(w != 0 && h != 0) by (nonlinear_arith)
        requires
            0 < w * h,
    ;
}

/// The conversion is deterministic: where the numbers and the samples are, two runs
/// on the same image with the same options give the same image.
pub proof fn law_runs_agree<T: Scalar, S: DecolorizeSubpixel<T>>(
    image: &Image<S>,
    options: DecolorizeOptions<T>,
    first: Image<S>,
    second: Image<S>,
)
    requires
        Arithmetic::<T>::is_deterministic(),
        Codec::<S, T>::is_deterministic(),
        image.wf(),
        options.fitting_size > 0,
        call_ensures(decolorize_with::<T, S>, (image, options), first),
        call_ensures(decolorize_with::<T, S>, (image, options), second),
    ensures
        first.width == second.width,
        first.height == second.height,
        first.layout == second.layout,
        first.samples@ == second.samples@,
{
    crate::scalar::law_deterministic_numbers_are_described::<T>();
    crate::subpixel::law_deterministic_samples_are_described::<T, S>();
}

/// The search is deterministic: where the numbers and the samples are, two runs
/// on the same image with the same options give the same image.
pub proof fn law_fast_runs_agree<T: Scalar, S: DecolorizeSubpixel<T>>(
    image: &Image<S>,
    options: FastDecolorizeOptions<T>,
    first: Image<S>,
    second: Image<S>,
)
    requires
        Arithmetic::<T>::is_deterministic(),
        Codec::<S, T>::is_deterministic(),
        image.wf(),
        options.samples > 0,
        call_ensures(decolorize_fast_with::<T, S>, (image, options), first),
        call_ensures(decolorize_fast_with::<T, S>, (image, options), second),
    ensures
        first.width == second.width,
        first.height == second.height,
        first.layout == second.layout,
        first.samples@ == second.samples@,
{
    crate::scalar::law_deterministic_numbers_are_described::<T>();
    crate::subpixel::law_deterministic_samples_are_described::<T, S>();
}

/// Alpha is ignored: an image with alpha is taken for the same image without,
/// so it decolorizes alike.
pub proof fn law_alpha_is_ignored<S, T>(
    m: Arithmetic<T>,
    c: Codec<S, T>,
    with_alpha: Image<S>,
    without: Image<S>,
    options: DecolorizeOptions<T>,
    fast_options: FastDecolorizeOptions<T>,
)
    requires
        (with_alpha.layout == Layout::Rgba && without.layout == Layout::Rgb) || (
        with_alpha.layout == Layout::LumaA && without.layout == Layout::Luma),
        with_alpha.width == without.width,
        with_alpha.height == without.height,
        forall|i: int, channel: int|
            0 <= i < without.width * without.height && 0 <= channel
                < without.layout.channel_count() ==> with_alpha.samples@[i
                * with_alpha.layout.channel_count() + channel] == #[trigger] without.samples@[i
                * without.layout.channel_count() + channel],
    ensures
        with_alpha@ == without@,
        m.decolorized(c, with_alpha@, options) == m.decolorized(c, without@, options),
        m.fast_decolorized(c, with_alpha@, fast_options) == m.fast_decolorized(
            c,
            without@,
            fast_options,
        ),
{
    assert forall|i: int, channel: int|
        0 <= i < without.width * without.height && 0 <= channel
            < 3 implies #[trigger] with_alpha.sample_of(i, channel) == without.sample_of(
        i,
        channel,
    ) by {
        let at = without.layout.position(channel);
        assert(with_alpha.samples@[i * with_alpha.layout.channel_count() + at]
            == without.samples@[i * without.layout.channel_count() + at]);
    }
    assert(with_alpha@.colors =~= without@.colors);
}

/// A gray image is taken for the color image whose three channels are that
/// gray, so it decolorizes alike.
pub proof fn law_grays_are_colors<S, T>(
    m: Arithmetic<T>,
    c: Codec<S, T>,
    gray: Image<S>,
    color: Image<S>,
    options: DecolorizeOptions<T>,
    fast_options: FastDecolorizeOptions<T>,
)
    requires
        gray.layout == Layout::Luma,
        color.layout == Layout::Rgb,
        gray.width == color.width,
        gray.height == color.height,
        forall|i: int, channel: int|
            0 <= i < gray.width * gray.height && 0 <= channel < 3 ==> #[trigger] color.samples@[i
                * 3 + channel] == gray.samples@[i],
    ensures
        gray@ == color@,
        m.decolorized(c, gray@, options) == m.decolorized(c, color@, options),
        m.fast_decolorized(c, gray@, fast_options) == m.fast_decolorized(c, color@, fast_options),
{
    assert forall|i: int, channel: int|
        0 <= i < gray.width * gray.height && 0 <= channel < 3 implies #[trigger] gray.sample_of(
        i,
        channel,
    ) == color.sample_of(i, channel) by {
        assert(color.samples@[i * 3 + channel] == gray.samples@[i]);
    }
    assert(gray@.colors =~= color@.colors);
}

/// Downscaling leaves no gaps: every source pixel counts toward some pixel of
/// the copy.
pub proof fn law_every_source_pixel_counts(pixel: int, source: int, target: int)
    requires
        0 <= pixel < source,
        0 < target <= source,
    ensures
        exists|index: int|
            0 <= index < target && (#[trigger] Span::of(index, source, target)).start <= pixel
                && pixel < Span::of(index, source, target).end,
{
    let index = pixel * target / source;
    let span = Span::of(index, source, target);
    vstd::arithmetic::div_mod::lemma_fundamental_div_mod(pixel * target, source);
    vstd::arithmetic::div_mod::lemma_mod_bound(pixel * target, source);
    assert(0 <= pixel * target < source * target) by (nonlinear_arith)
        requires
            0 <= pixel < source,
            0 < target,
    ;
    vstd::arithmetic::div_mod::lemma_multiply_divide_lt(pixel * target, source, target);
    vstd::arithmetic::div_mod::lemma_div_pos_is_pos(pixel * target, source);
    let rest = (pixel * target) % source;
    assert(index * source <= pixel * target < (index + 1) * source) by (nonlinear_arith)
        requires
            pixel * target == source * index + rest,
            0 <= rest < source,
    ;
    assert(index * source / target <= pixel) by {
        vstd::arithmetic::div_mod::lemma_div_is_ordered(index * source, pixel * target, target);
        vstd::arithmetic::div_mod::lemma_div_multiples_vanish(pixel, target);
        assert(target * pixel == pixel * target) by (nonlinear_arith);
    }
    let numerator = (index + 1) * source + target - 1;
    assert(numerator / target >= pixel + 1) by {
        assert(numerator >= target * (pixel + 1)) by (nonlinear_arith)
            requires
                numerator >= pixel * target + 1 + target - 1,
        ;
        vstd::arithmetic::div_mod::lemma_div_is_ordered(target * (pixel + 1), numerator, target);
        vstd::arithmetic::div_mod::lemma_div_multiples_vanish(pixel + 1, target);
    }
    assert(span.start <= pixel < span.end);
}

/// Each pixel of a box counts exactly once toward its mean: the pixel in column
/// `x` and row `y` is one of the terms, and no other pixel is that term.
pub proof fn law_a_box_holds_each_pixel_once<S, T>(
    c: Codec<S, T>,
    picture: Picture<S>,
    columns: Span,
    rows: Span,
    channel: int,
    x: int,
    y: int,
)
    requires
        columns.start <= x < columns.end,
        rows.start <= y < rows.end,
    ensures
        ({
            let k = (y - rows.start) * columns.len() + (x - columns.start);
            &&& 0 <= k < columns.len() * rows.len()
            &&& k / columns.len() == y - rows.start
            &&& k % columns.len() == x - columns.start
            &&& Arithmetic::<T>::box_term(c, picture, columns, rows, channel)(k) == (c.to_unit)(
                picture.channel(y * picture.width + x, channel),
            )
        }),
{
    let (len, down) = (columns.len(), rows.len());
    let (dx, dy) = (x - columns.start, y - rows.start);
    assert(0 <= dy * len + dx < len * down) by (nonlinear_arith)
        requires
            0 <= dx < len,
            0 <= dy < down,
    ;
    vstd::arithmetic::div_mod::lemma_fundamental_div_mod_converse(dy * len + dx, len, dy, dx);
}

/// Small images are left alone: where `width + height` does not exceed the
/// bound, the copy has the extents of the picture and each of its pixels is the
/// mean over one pixel.
pub proof fn law_small_images_are_left_alone<S, T>(
    m: Arithmetic<T>,
    c: Codec<S, T>,
    picture: Picture<S>,
    max_extent: int,
    index: int,
)
    requires
        0 < picture.width,
        0 < picture.height,
        picture.width + picture.height <= max_extent,
        0 <= index < picture.area(),
    ensures
        ({
            let copy = m.downscaled_planes(c, picture, max_extent);
            &&& copy.width == picture.width
            &&& copy.height == picture.height
            &&& copy.r[index] == m.mean_of_one((c.to_unit)(picture.colors[index].0))
            &&& copy.g[index] == m.mean_of_one((c.to_unit)(picture.colors[index].1))
            &&& copy.b[index] == m.mean_of_one((c.to_unit)(picture.colors[index].2))
        }),
{
    let (w, h) = (picture.width, picture.height);
    let (x, y) = (index % w, index / w);
    vstd::arithmetic::div_mod::lemma_fundamental_div_mod(index, w);
    vstd::arithmetic::div_mod::lemma_mod_bound(index, w);
    vstd::arithmetic::div_mod::lemma_div_pos_is_pos(index, w);
    vstd::arithmetic::div_mod::lemma_multiply_divide_lt(index, w, h);
    lemma_unscaled_span(x, w);
    lemma_unscaled_span(y, h);
    let (columns, rows) = (Span::of(x, w, w), Span::of(y, h, h));
    assert(w * y == y * w) by (nonlinear_arith);
    assert forall|channel: int| 0 <= channel < 3 implies #[trigger] m.box_mean(
        c,
        picture,
        columns,
        rows,
        channel,
    ) == m.mean_of_one((c.to_unit)(picture.channel(index, channel))) by {
        law_a_box_holds_each_pixel_once::<S, T>(c, picture, columns, rows, channel, x, y);
        let term = Arithmetic::<T>::box_term(c, picture, columns, rows, channel);
        assert(term(0) == (c.to_unit)(picture.channel(index, channel)));
        reveal_with_fuel(Arithmetic::total, 2);
        assert(m.total(1, term) == (m.plus)(m.zero(), term(0)));
    }
}

/// The range of a pixel of a copy as large as its source is that pixel.
proof fn lemma_unscaled_span(index: int, source: int)
    requires
        0 <= index < source,
    ensures
        Span::of(index, source, source) == (Span { start: index, end: index + 1 }),
{
    assert(index * source == source * index) by (nonlinear_arith);
    vstd::arithmetic::div_mod::lemma_div_multiples_vanish(index, source);
    vstd::arithmetic::div_mod::lemma_fundamental_div_mod_converse(
        (index + 1) * source + source - 1,
        source,
        index + 1,
        source - 1,
    );
}

impl<T> Arithmetic<T> {
    /// The mean of a single number.
    pub open spec fn mean_of_one(self, value: T) -> T {
        (self.over)((self.plus)(self.zero(), value), self.one())
    }
}

/// The two pixels of a pair share an edge: they are side by side in one row, or
/// one above the other.
pub proof fn law_pairs_share_an_edge(pairs: Neighbors, k: int)
    requires
        0 <= pairs.width,
        0 <= pairs.height,
        0 <= k < pairs.count(),
    ensures
        0 <= pairs.first(k) < pairs.second(k) < pairs.width * pairs.height,
        ({
            ||| pairs.second(k) == pairs.first(k) + 1 && pairs.second(k) / pairs.width
                == pairs.first(k) / pairs.width
            ||| pairs.second(k) == pairs.first(k) + pairs.width
        }),
{
    crate::pairs::lemma_ends(pairs, k);
    if k < pairs.horizontal() {
        let (y, x) = lemma_horizontal(pairs, k);
        vstd::arithmetic::div_mod::lemma_fundamental_div_mod_converse(
            pairs.first(k),
            pairs.width,
            y,
            x,
        );
        vstd::arithmetic::div_mod::lemma_fundamental_div_mod_converse(
            pairs.second(k),
            pairs.width,
            y,
            x + 1,
        );
    }
}

/// The row and the column of the left pixel of a horizontal pair.
proof fn lemma_horizontal(pairs: Neighbors, k: int) -> (r: (int, int))
    requires
        0 <= pairs.width,
        0 <= pairs.height,
        0 <= k < pairs.horizontal(),
    ensures
        0 <= r.0 < pairs.height,
        0 <= r.1 < pairs.width - 1,
        pairs.first(k) == r.0 * pairs.width + r.1,
        k == r.0 * (pairs.width - 1) + r.1,
{
    let (w, h, a) = (pairs.width, pairs.height, pairs.across());
    assert(a > 0) by (nonlinear_arith)
        requires
            0 <= k < a * h,
            0 <= h,
    ;
    let (y, x) = (k / a, k % a);
    vstd::arithmetic::div_mod::lemma_fundamental_div_mod(k, a);
    vstd::arithmetic::div_mod::lemma_multiply_divide_lt(k, a, h);
    vstd::arithmetic::div_mod::lemma_div_pos_is_pos(k, a);
    vstd::arithmetic::div_mod::lemma_mod_bound(k, a);
    assert(a * y == y * a) by (nonlinear_arith);
    (y, x)
}

/// Every two pixels side by side in one row are a pair.
pub proof fn law_every_horizontal_edge_is_a_pair(pairs: Neighbors, x: int, y: int)
    requires
        0 <= x < pairs.width - 1,
        0 <= y < pairs.height,
    ensures
        exists|k: int|
            0 <= k < pairs.count() && #[trigger] pairs.first(k) == y * pairs.width + x
                && pairs.second(k) == y * pairs.width + x + 1,
{
    let a = pairs.across();
    let k = y * a + x;
    assert(0 <= k < a * pairs.height) by (nonlinear_arith)
        requires
            k == y * a + x,
            0 <= x < a,
            0 <= y < pairs.height,
    ;
    crate::pairs::lemma_count_bound(pairs);
    vstd::arithmetic::div_mod::lemma_fundamental_div_mod_converse(k, a, y, x);
    assert(pairs.first(k) == y * pairs.width + x);
}

/// Every two pixels one above the other are a pair.
pub proof fn law_every_vertical_edge_is_a_pair(pairs: Neighbors, x: int, y: int)
    requires
        0 <= x < pairs.width,
        0 <= y < pairs.height - 1,
    ensures
        exists|k: int|
            0 <= k < pairs.count() && #[trigger] pairs.first(k) == y * pairs.width + x
                && pairs.second(k) == (y + 1) * pairs.width + x,
{
    let (w, d) = (pairs.width, pairs.down());
    let k = pairs.horizontal() + y * w + x;
    assert(0 <= y * w + x < w * d && (y + 1) * w == y * w + w) by (nonlinear_arith)
        requires
            0 <= x < w,
            0 <= y < d,
    ;
    crate::pairs::lemma_count_bound(pairs);
    assert(pairs.first(k) == y * w + x);
}

/// No pair is counted twice.
pub proof fn law_pairs_are_distinct(pairs: Neighbors, j: int, k: int)
    requires
        0 <= pairs.width,
        0 <= pairs.height,
        0 <= j < k < pairs.count(),
    ensures
        (pairs.first(j), pairs.second(j)) != (pairs.first(k), pairs.second(k)),
{
    let w = pairs.width;
    if j < pairs.horizontal() {
        let (y, x) = lemma_horizontal(pairs, j);
        if k < pairs.horizontal() {
            let (v, u) = lemma_horizontal(pairs, k);
            vstd::arithmetic::div_mod::lemma_fundamental_div_mod_converse(y * w + x, w, y, x);
            vstd::arithmetic::div_mod::lemma_fundamental_div_mod_converse(v * w + u, w, v, u);
        }
    }
}

/// The candidates are convex weightings, all of them, and each once: their
/// weights sum to one, whatever sums to one is a candidate, and no two are the
/// same.
pub proof fn law_the_candidates_are_the_convex_weightings()
    ensures
        Weighting::all().len() == 66,
        forall|i: int|
            0 <= i < 66 ==> (#[trigger] Weighting::all()[i]).r + Weighting::all()[i].g
                + Weighting::all()[i].b == WEIGHT_STEPS,
        forall|w: Weighting| w.r + w.g + w.b == WEIGHT_STEPS ==> Weighting::all().contains(w),
        forall|i: int, j: int|
            0 <= i < j < 66 ==> #[trigger] Weighting::all()[i] != #[trigger] Weighting::all()[j],
{
    crate::search::lemma_weighting_count();
    lemma_weighting_rows(WEIGHT_STEPS + 1);
    assert forall|w: Weighting| w.r + w.g + w.b == WEIGHT_STEPS implies Weighting::all().contains(
        w,
    ) by {
        assert(Weighting::rows(WEIGHT_STEPS + 1).contains(w));
    }
}

/// The weightings by increasing red weight.
proof fn lemma_weighting_rows(end: int)
    requires
        0 <= end <= WEIGHT_STEPS + 1,
    ensures
        forall|i: int|
            0 <= i < Weighting::rows(end).len() ==> (#[trigger] Weighting::rows(end)[i]).r < end
                && Weighting::rows(end)[i].r + Weighting::rows(end)[i].g + Weighting::rows(
                end,
            )[i].b == WEIGHT_STEPS,
        forall|w: Weighting|
            w.r < end && w.r + w.g + w.b == WEIGHT_STEPS ==> #[trigger] Weighting::rows(
                end,
            ).contains(w),
        forall|i: int, j: int|
            0 <= i < j < Weighting::rows(end).len() ==> #[trigger] Weighting::rows(end)[i]
                != #[trigger] Weighting::rows(end)[j],
    decreases end,
{
    if end > 0 {
        lemma_weighting_rows(end - 1);
        let before = Weighting::rows(end - 1);
        let row = Weighting::row(end - 1);
        let all = Weighting::rows(end);
        assert(all == before + row);
        assert forall|w: Weighting|
            w.r < end && w.r + w.g + w.b == WEIGHT_STEPS implies #[trigger] all.contains(w) by {
            if w.r < end - 1 {
                assert(before.contains(w));
                let at = choose|at: int| 0 <= at < before.len() && before[at] == w;
                assert(all[at] == w);
            } else {
                assert(row[w.g as int] == w);
                assert(all[before.len() + w.g] == w);
            }
        }
        assert forall|i: int, j: int| 0 <= i < j < all.len() implies #[trigger] all[i]
            != #[trigger] all[j] by {
            if j < before.len() {
                assert(before[i] != before[j]);
            } else if i < before.len() {
                assert(before[i].r < end - 1);
            }
        }
    }
}

/// The search picks a best candidate, and the last one where several are best.
/// `precedes` is to order all numbers.
pub proof fn law_the_search_picks_the_last_best<T>(m: Arithmetic<T>, numbers: Seq<T>, count: int)
    requires
        1 <= count <= numbers.len(),
        m.orders_all(),
    ensures
        ({
            let best = m.last_largest(numbers, count);
            &&& 0 <= best < count
            &&& forall|i: int|
                0 <= i < count ==> (m.precedes)(#[trigger] numbers[i], numbers[best])
            &&& forall|i: int|
                best < i < count ==> !(m.precedes)(numbers[best], #[trigger] numbers[i])
        }),
    decreases count,
{
    if count > 1 {
        law_the_search_picks_the_last_best(m, numbers, count - 1);
        let before = m.last_largest(numbers, count - 1);
        let best = m.last_largest(numbers, count);
        assert forall|i: int| 0 <= i < count implies (m.precedes)(
            #[trigger] numbers[i],
            numbers[best],
        ) by {
            if i < count - 1 {
                assert((m.precedes)(numbers[i], numbers[before]));
            }
        }
    }
}

/// The index of the largest number is an index.
pub(crate) proof fn lemma_last_largest_is_an_index<T>(m: Arithmetic<T>, numbers: Seq<T>, count: int)
    requires
        1 <= count,
    ensures
        0 <= m.last_largest(numbers, count) < count,
    decreases count,
{
    if count > 1 {
        lemma_last_largest_is_an_index(m, numbers, count - 1);
    }
}

/// The weights that the search returns belong to a candidate that no other
/// candidate outscores.
pub proof fn law_the_best_weights_are_not_outscored<T>(
    m: Arithmetic<T>,
    pairs: Seq<Pair<T>>,
    sigma: T,
)
    requires
        pairs.len() > 0,
        m.orders_all(),
    ensures
        exists|best: int|
            0 <= best < Weighting::all().len() && m.best_weights(pairs, sigma)
                == m.channel_weights(#[trigger] Weighting::all()[best]) && forall|other: Weighting|
                Weighting::all().contains(other) ==> (m.precedes)(
                    #[trigger] m.score(pairs, m.channel_weights(other), sigma),
                    m.score(pairs, m.channel_weights(Weighting::all()[best]), sigma),
                ),
{
    crate::search::lemma_weighting_count();
    let scores = m.scores(pairs, sigma);
    let best = m.last_largest(scores, scores.len() as int);
    law_the_search_picks_the_last_best(m, scores, scores.len() as int);
    assert forall|other: Weighting| Weighting::all().contains(other) implies (m.precedes)(
        #[trigger] m.score(pairs, m.channel_weights(other), sigma),
        m.score(pairs, m.channel_weights(Weighting::all()[best]), sigma),
    ) by {
        let at = choose|at: int| 0 <= at < Weighting::all().len() && Weighting::all()[at] == other;
        assert((m.precedes)(scores[at], scores[best]));
    }
    assert(m.best_weights(pairs, sigma) == m.channel_weights(Weighting::all()[best]));
}

impl<T> Arithmetic<T> {
    /// Whether `precedes` orders all numbers.
    pub open spec fn orders_all(self) -> bool {
        &&& forall|a: T, b: T| #[trigger] (self.precedes)(a, b) || (self.precedes)(b, a)
        &&& forall|a: T, b: T, c: T|
            #![trigger (self.precedes)(a, b), (self.precedes)(b, c)]
            (self.precedes)(a, b) && (self.precedes)(b, c) ==> (self.precedes)(a, c)
    }
}

/// Pairs without contrast are discarded, and only those: every pair that is
/// scored reaches the threshold, and every drawn pair that reaches it is scored.
pub proof fn law_only_contrasting_pairs_are_scored<S, T>(
    m: Arithmetic<T>,
    c: Codec<S, T>,
    picture: Picture<S>,
    options: FastDecolorizeOptions<T>,
)
    ensures
        forall|k: int|
            0 <= k < m.sampled_pairs(c, picture, options).len() ==> (m.at_most)(
                options.contrast_threshold,
                (#[trigger] m.sampled_pairs(c, picture, options)[k]).contrast,
            ),
        forall|k: int|
            #![trigger m.places(picture.width, picture.height, options.samples, options.seed)[k]]
            0 <= k < m.places(
                picture.width,
                picture.height,
                options.samples,
                options.seed,
            ).len() && (m.at_most)(
                options.contrast_threshold,
                m.pair_at(
                    c,
                    picture,
                    m.places(picture.width, picture.height, options.samples, options.seed)[k],
                ).contrast,
            ) ==> m.sampled_pairs(c, picture, options).contains(
                m.pair_at(
                    c,
                    picture,
                    m.places(picture.width, picture.height, options.samples, options.seed)[k],
                ),
            ),
{
    let places = m.places(picture.width, picture.height, options.samples, options.seed);
    let drawn = places.map_values(|place: (Point, Point)| m.pair_at(c, picture, place));
    let reaches = |pair: Pair<T>| (m.at_most)(options.contrast_threshold, pair.contrast);
    broadcast use vstd::seq_lib::group_filter_ensures;

    assert forall|k: int|
        #![trigger places[k]]
        0 <= k < places.len() && (m.at_most)(
            options.contrast_threshold,
            m.pair_at(c, picture, places[k]).contrast,
        ) implies m.sampled_pairs(c, picture, options).contains(
        m.pair_at(c, picture, places[k]),
    ) by {
        assert(reaches(drawn[k]));
    }
}

/// The random pairs match every grid point with a partner, and every grid point
/// is the partner of one, whatever the seed.
pub proof fn law_every_grid_point_is_matched_once<T>(
    m: Arithmetic<T>,
    grid: Grid,
    width: int,
    height: int,
    seed: u64,
)
    ensures
        ({
            let points = m.grid_points(grid, width, height);
            let matched = m.matched(grid, width, height, seed);
            &&& matched.len() == points.len()
            &&& forall|k: int| 0 <= k < matched.len() ==> (#[trigger] matched[k]).0 == points[k]
            &&& matched.map_values(|place: (Point, Point)| place.1).to_multiset()
                == points.to_multiset()
        }),
{
    let points = m.grid_points(grid, width, height);
    crate::random::law_shuffle_is_a_permutation(points, seed, points.len() - 1);
    let partners = SplitMix64::shuffled(points, seed, points.len() - 1);
    assert(m.matched(grid, width, height, seed).map_values(|place: (Point, Point)| place.1)
        =~= partners);
}

/// The seed only decides how the grid points are matched: the pairs of neighbors
/// that follow are the same for every seed.
pub proof fn law_the_seed_only_matches<T>(
    m: Arithmetic<T>,
    width: int,
    height: int,
    samples: u32,
    seed: u64,
    other: u64,
    k: int,
)
    requires
        0 <= m.grid(width, height, samples).points() <= k,
        k < m.places(width, height, samples, seed).len(),
    ensures
        m.places(width, height, samples, other).len() == m.places(
            width,
            height,
            samples,
            seed,
        ).len(),
        m.places(width, height, samples, other)[k] == m.places(width, height, samples, seed)[k],
{
}

/// The pixels of every drawn pair lie in the picture.
pub proof fn law_drawn_pairs_lie_in_the_picture<T>(
    m: Arithmetic<T>,
    width: int,
    height: int,
    samples: u32,
    seed: u64,
    k: int,
)
    requires
        0 < width <= usize::MAX,
        0 < height <= usize::MAX,
        0 <= k < m.places(width, height, samples, seed).len(),
    ensures
        crate::sampling::within(
            m.places(width, height, samples, seed)[k],
            width as usize,
            height as usize,
        ),
{
    let grid = m.grid(width, height, samples);
    let points = m.grid_points(grid, width, height);
    crate::random::lemma_shuffled_items(points, seed, points.len() - 1);
    let matched = m.matched(grid, width, height, seed);
    if k < matched.len() {
        assert(points.contains(matched[k].1));
        let at = choose|at: int| 0 <= at < points.len() && points[at] == matched[k].1;
        assert(points[at].x < width && points[at].y < height);
    }
}

/// Every pair falls into exactly one chunk.
pub proof fn law_every_pair_is_in_one_chunk<T>(pairs: int, k: int)
    requires
        0 <= k < pairs,
    ensures
        ({
            let chunk = k / crate::fit::PAIR_CHUNK as int;
            &&& 0 <= chunk < Arithmetic::<T>::chunk_count(pairs)
            &&& chunk * crate::fit::PAIR_CHUNK <= k < (chunk + 1) * crate::fit::PAIR_CHUNK
        }),
{
}

/// The matrix of the normal equations is symmetric.
pub proof fn law_the_normal_equations_are_symmetric<T>(
    m: Arithmetic<T>,
    evidence: Evidence<T>,
    i: int,
    j: int,
)
    requires
        0 <= i < NUM_MONOMIALS,
        0 <= j < NUM_MONOMIALS,
    ensures
        m.gram(evidence)[i][j] == m.gram(evidence)[j][i],
{
}

impl<T> Arithmetic<T> {
    /// Whether the fixed point iteration comes to an end of its own within
    /// `left` more iterations: by convergence, or because there is nothing to
    /// solve.
    pub open spec fn settles(
        self,
        evidence: Evidence<T>,
        options: DecolorizeOptions<T>,
        weights: Seq<T>,
        previous: T,
        left: nat,
    ) -> bool
        decreases left,
    {
        if left == 0 {
            false
        } else {
            let totals = self.totals(evidence, weights, options.sigma);
            let energy = (self.over)(totals.energy, (self.from_int)(evidence.pairs() as u64));
            if (self.less)((self.absolute)((self.minus)(energy, previous)), options.tolerance) {
                true
            } else {
                match (self.solve)(self.gram(evidence), totals.rhs) {
                    Some(next) if self.all_finite(next) => self.settles(
                        evidence,
                        options,
                        next,
                        energy,
                        (left - 1) as nat,
                    ),
                    _ => true,
                }
            }
        }
    }
}

/// The number of iterations is a budget: once the iteration settles, a larger
/// budget changes nothing.
pub proof fn law_a_larger_budget_changes_nothing_once_settled<T>(
    m: Arithmetic<T>,
    evidence: Evidence<T>,
    options: DecolorizeOptions<T>,
    weights: Seq<T>,
    previous: T,
    budget: nat,
    larger: nat,
)
    requires
        budget <= larger,
        m.settles(evidence, options, weights, previous, budget),
    ensures
        m.iterated(evidence, options, weights, previous, budget) == m.iterated(
            evidence,
            options,
            weights,
            previous,
            larger,
        ),
    decreases budget,
{
    let totals = m.totals(evidence, weights, options.sigma);
    let energy = (m.over)(totals.energy, (m.from_int)(evidence.pairs() as u64));
    if !(m.less)((m.absolute)((m.minus)(energy, previous)), options.tolerance) {
        match (m.solve)(m.gram(evidence), totals.rhs) {
            Some(next) if m.all_finite(next) => {
                law_a_larger_budget_changes_nothing_once_settled(
                    m,
                    evidence,
                    options,
                    next,
                    energy,
                    (budget - 1) as nat,
                    (larger - 1) as nat,
                );
            },
            _ => {},
        }
    }
}

/// A mapping never has a coefficient that is not a finite number, whatever it is
/// fitted on.
pub proof fn law_the_coefficients_are_finite<T>(
    m: Arithmetic<T>,
    planes: PlaneSet<T>,
    options: DecolorizeOptions<T>,
)
    requires
        m.all_finite(m.initial_weights()),
    ensures
        m.all_finite(m.fitted_weights(planes, options)),
{
    lemma_iterated_is_finite(
        m,
        m.evidence(planes),
        options,
        m.initial_weights(),
        m.infinity,
        options.max_iterations as nat,
    );
}

impl<T> Arithmetic<T> {
    /// The objective per pair.
    pub open spec fn mean_energy(self, evidence: Evidence<T>, weights: Seq<T>, sigma: T) -> T {
        (self.over)(
            self.totals(evidence, weights, sigma).energy,
            (self.from_int)(evidence.pairs() as u64),
        )
    }

    /// Nothing finite is infinitely large, and nothing finite is at a finite
    /// distance from infinity.
    pub open spec fn has_infinity(self) -> bool {
        forall|x: T| #[trigger]
            (self.is_finite)(x) ==> {
                &&& (self.less)((self.absolute)(x), self.infinity)
                &&& !(self.less)((self.absolute)((self.minus)(x, self.infinity)), self.infinity)
                &&& !(self.less)((self.absolute)((self.minus)(x, self.infinity)), self.zero())
            }
    }
}

/// Iteration stops on the change between successive iterations, so the first
/// one, which has no predecessor, updates the weights whatever the tolerance:
/// with an infinite tolerance the result is that of exactly one iteration.
pub proof fn law_the_first_iteration_always_updates<T>(
    m: Arithmetic<T>,
    planes: PlaneSet<T>,
    lenient: DecolorizeOptions<T>,
    strict: DecolorizeOptions<T>,
)
    requires
        m.has_infinity(),
        lenient.tolerance == m.infinity,
        lenient.max_iterations >= 1,
        strict.tolerance == m.zero(),
        strict.max_iterations == 1,
        lenient.sigma == strict.sigma,
        ({
            let evidence = m.evidence(planes);
            let first = m.mean_energy(evidence, m.initial_weights(), lenient.sigma);
            let rhs = m.totals(evidence, m.initial_weights(), lenient.sigma).rhs;
            &&& (m.is_finite)(first)
            &&& (m.solve)(m.gram(evidence), rhs) matches Some(next) ==> (m.is_finite)(
                (m.minus)(m.mean_energy(evidence, next, lenient.sigma), first),
            )
        }),
    ensures
        m.fitted_weights(planes, lenient) == m.fitted_weights(planes, strict),
{
    let evidence = m.evidence(planes);
    let weights = m.initial_weights();
    let totals = m.totals(evidence, weights, lenient.sigma);
    let first = m.mean_energy(evidence, weights, lenient.sigma);
    let budget = lenient.max_iterations as nat;
    match (m.solve)(m.gram(evidence), totals.rhs) {
        Some(next) if m.all_finite(next) => {
            let change = (m.minus)(m.mean_energy(evidence, next, lenient.sigma), first);
            assert((m.less)((m.absolute)(change), m.infinity));
            assert(m.iterated(evidence, lenient, next, first, (budget - 1) as nat) == next);
            assert(m.iterated(evidence, strict, next, first, 0) == next);
        },
        _ => {},
    }
    assert(m.iterated(evidence, lenient, weights, m.infinity, budget) == m.iterated(
        evidence,
        strict,
        weights,
        m.infinity,
        1,
    ));
}

/// Iterating keeps the coefficients finite.
proof fn lemma_iterated_is_finite<T>(
    m: Arithmetic<T>,
    evidence: Evidence<T>,
    options: DecolorizeOptions<T>,
    weights: Seq<T>,
    previous: T,
    left: nat,
)
    requires
        m.all_finite(weights),
    ensures
        m.all_finite(m.iterated(evidence, options, weights, previous, left)),
    decreases left,
{
    if left > 0 {
        let totals = m.totals(evidence, weights, options.sigma);
        let energy = (m.over)(totals.energy, (m.from_int)(evidence.pairs() as u64));
        if !(m.less)((m.absolute)((m.minus)(energy, previous)), options.tolerance) {
            match (m.solve)(m.gram(evidence), totals.rhs) {
                Some(next) if m.all_finite(next) => {
                    lemma_iterated_is_finite(
                        m,
                        evidence,
                        options,
                        next,
                        energy,
                        (left - 1) as nat,
                    );
                },
                _ => {},
            }
        }
    }
}

/// Pixels are read in order: with the layout that it has, the color of the pixel
/// at `i` is its red, green and blue sample, or three times its gray sample.
pub proof fn law_colors_are_read_in_order<S>(image: &Image<S>, i: int)
    requires
        image.wf(),
        0 <= i < image.width * image.height,
    ensures
        image@.width == image.width,
        image@.height == image.height,
        image@.colors.len() == image.width * image.height,
        image@.colors[i] == match image.layout {
            Layout::Luma => (image.samples@[i], image.samples@[i], image.samples@[i]),
            Layout::LumaA => (
                image.samples@[2 * i],
                image.samples@[2 * i],
                image.samples@[2 * i],
            ),
            Layout::Rgb => (
                image.samples@[3 * i],
                image.samples@[3 * i + 1],
                image.samples@[3 * i + 2],
            ),
            Layout::Rgba => (
                image.samples@[4 * i],
                image.samples@[4 * i + 1],
                image.samples@[4 * i + 2],
            ),
        },
{
}

} // verus!
