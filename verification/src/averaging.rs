//! What holds of downscaling before rounding.
use crate::definitions::Picture;
use crate::planes::Span;
use crate::scalar::Arithmetic;
use crate::subpixel::Codec;
use vstd::prelude::*;

verus! {

/// The copy that a mapping is fitted on has pixels, and no more than the
/// picture.
pub proof fn law_the_copy_is_no_larger<T>(
    m: Arithmetic<T>,
    width: int,
    height: int,
    max_extent: int,
)
    requires
        0 < width,
        0 < height,
        0 < max_extent,
    ensures
        1 <= m.fitted_extents(width, height, max_extent).0 <= width,
        1 <= m.fitted_extents(width, height, max_extent).1 <= height,
        2 <= max_extent ==> m.fitted_extents(width, height, max_extent).0 + m.fitted_extents(
            width,
            height,
            max_extent,
        ).1 <= max_extent,
{
}

/// The index of a pixel of a box is the index of a pixel of the picture.
pub(crate) proof fn lemma_box_index(columns: Span, rows: Span, width: int, height: int, k: int)
    requires
        0 <= columns.start < columns.end <= width,
        0 <= rows.start < rows.end <= height,
        0 <= k < columns.len() * rows.len(),
    ensures
        0 <= (rows.start + k / columns.len()) * width + columns.start + k % columns.len() < width
            * height,
{
    let (n, h) = (columns.len(), rows.len());
    vstd::arithmetic::div_mod::lemma_multiply_divide_lt(k, n, h);
    vstd::arithmetic::div_mod::lemma_div_pos_is_pos(k, n);
    vstd::arithmetic::div_mod::lemma_mod_bound(k, n);
    let (x, y) = (columns.start + k % n, rows.start + k / n);
    assert(0 <= y * width + x < width * height) by (nonlinear_arith)
        requires
            0 <= x < width,
            0 <= y < height,
    ;
}

/// Sums depend only on their terms.
proof fn lemma_total_equal<T>(
    m: Arithmetic<T>,
    count: nat,
    f: spec_fn(int) -> T,
    g: spec_fn(int) -> T,
)
    requires
        forall|k: int| 0 <= k < count ==> #[trigger] f(k) == g(k),
    ensures
        m.total(count, f) == m.total(count, g),
    decreases count,
{
    if count > 0 {
        lemma_total_equal(m, (count - 1) as nat, f, g);
        assert(f(count - 1) == g(count - 1));
    }
}

/// A mean depends only on the samples of its channel.
pub(crate) proof fn lemma_mean_equal<S, T>(
    m: Arithmetic<T>,
    c: Codec<S, T>,
    a: Picture<S>,
    b: Picture<S>,
    columns: Span,
    rows: Span,
    channel: int,
)
    requires
        a.width == b.width,
        a.height == b.height,
        0 <= columns.start < columns.end <= a.width,
        0 <= rows.start < rows.end <= a.height,
        forall|i: int|
            0 <= i < a.area() ==> #[trigger] a.channel(i, channel) == b.channel(i, channel),
    ensures
        m.box_mean(c, a, columns, rows, channel) == m.box_mean(c, b, columns, rows, channel),
{
    let count = columns.len() * rows.len();
    let f = Arithmetic::<T>::box_term(c, a, columns, rows, channel);
    let g = Arithmetic::<T>::box_term(c, b, columns, rows, channel);
    assert forall|k: int| 0 <= k < count implies #[trigger] f(k) == g(k) by {
        lemma_box_index(columns, rows, a.width, a.height, k);
        let at = (rows.start + k / columns.len()) * a.width + columns.start + k % columns.len();
        assert(a.channel(at, channel) == b.channel(at, channel));
    }
    if count > 0 {
        lemma_total_equal(m, count as nat, f, g);
    }
}

/// A sum with no smaller term rises by as much as each of its terms, at least.
pub(crate) proof fn lemma_sum_rise(
    count: nat,
    f: spec_fn(int) -> real,
    g: spec_fn(int) -> real,
    at: int,
)
    requires
        0 <= at < count,
        forall|k: int| 0 <= k < count ==> #[trigger] f(k) <= g(k),
    ensures
        crate::reals::sum(count, f) + (g(at) - f(at)) <= crate::reals::sum(count, g),
    decreases count,
{
    if at == count - 1 {
        crate::reals::lemma_sum_order((count - 1) as nat, f, g);
    } else {
        lemma_sum_rise((count - 1) as nat, f, g, at);
        assert(f(count - 1) <= g(count - 1));
    }
}

/// A mean is finite, and times the number of its samples it is their sum.
pub(crate) proof fn lemma_mean_value<S, T>(
    m: Arithmetic<T>,
    value: spec_fn(T) -> real,
    c: Codec<S, T>,
    picture: Picture<S>,
    columns: Span,
    rows: Span,
    channel: int,
    f: spec_fn(int) -> real,
)
    requires
        m.is_exact(value),
        forall|s: S| (m.is_finite)(#[trigger] (c.to_unit)(s)),
        0 < columns.len() * rows.len() <= u64::MAX,
        forall|k: int|
            0 <= k < columns.len() * rows.len() ==> #[trigger] f(k) == value(
                Arithmetic::<T>::box_term(c, picture, columns, rows, channel)(k),
            ),
    ensures
        (m.is_finite)(m.box_mean(c, picture, columns, rows, channel)),
        value(m.box_mean(c, picture, columns, rows, channel)) * (columns.len() * rows.len()) as real
            == crate::reals::sum((columns.len() * rows.len()) as nat, f),
{
    let count = columns.len() * rows.len();
    let term = Arithmetic::<T>::box_term(c, picture, columns, rows, channel);
    assert forall|k: int| 0 <= k < count implies (m.is_finite)(#[trigger] term(k)) && value(term(k))
        == f(k) by {
        assert(f(k) == value(term(k)));
    }
    crate::exact::lemma_total_value(m, value, count as nat, term, f);
    assert(value((m.from_int)(count as u64)) == count as real);
}

/// Means of larger samples are larger, strictly so where a sample is.
proof fn lemma_mean_order<S, T>(
    m: Arithmetic<T>,
    value: spec_fn(T) -> real,
    c: Codec<S, T>,
    darker: Picture<S>,
    lighter: Picture<S>,
    columns: Span,
    rows: Span,
    channel: int,
)
    requires
        m.is_exact(value),
        forall|s: S| (m.is_finite)(#[trigger] (c.to_unit)(s)),
        darker.width == lighter.width,
        darker.height == lighter.height,
        0 <= columns.start < columns.end <= darker.width,
        0 <= rows.start < rows.end <= darker.height,
        0 < columns.len() * rows.len() <= u64::MAX,
        forall|i: int|
            0 <= i < darker.area() ==> value(
                (c.to_unit)(#[trigger] darker.channel(i, channel)),
            ) <= value((c.to_unit)(lighter.channel(i, channel))),
    ensures
        value(m.box_mean(c, darker, columns, rows, channel)) <= value(
            m.box_mean(c, lighter, columns, rows, channel),
        ),
        forall|x: int, y: int|
            columns.start <= x < columns.end && rows.start <= y < rows.end && value(
                (c.to_unit)(#[trigger] darker.channel(y * darker.width + x, channel)),
            ) < value((c.to_unit)(lighter.channel(y * darker.width + x, channel))) ==> value(
                m.box_mean(c, darker, columns, rows, channel),
            ) < value(m.box_mean(c, lighter, columns, rows, channel)),
{
    let count = columns.len() * rows.len();
    let n = count as real;
    let f = |k: int| value(Arithmetic::<T>::box_term(c, darker, columns, rows, channel)(k));
    let g = |k: int| value(Arithmetic::<T>::box_term(c, lighter, columns, rows, channel)(k));
    lemma_mean_value(m, value, c, darker, columns, rows, channel, f);
    lemma_mean_value(m, value, c, lighter, columns, rows, channel, g);
    let (p, q) = (
        value(m.box_mean(c, darker, columns, rows, channel)),
        value(m.box_mean(c, lighter, columns, rows, channel)),
    );
    assert forall|k: int| 0 <= k < count implies #[trigger] f(k) <= g(k) by {
        lemma_box_index(columns, rows, darker.width, darker.height, k);
        let at = (rows.start + k / columns.len()) * darker.width + columns.start + k
            % columns.len();
        assert(value((c.to_unit)(darker.channel(at, channel))) <= value(
            (c.to_unit)(lighter.channel(at, channel)),
        ));
    }
    crate::reals::lemma_sum_order(count as nat, f, g);
    if q < p {
        crate::reals::lemma_multiple(n, q, p);
    }
    assert forall|x: int, y: int|
        columns.start <= x < columns.end && rows.start <= y < rows.end && value(
            (c.to_unit)(#[trigger] darker.channel(y * darker.width + x, channel)),
        ) < value((c.to_unit)(lighter.channel(y * darker.width + x, channel))) implies p < q by {
        let k = (y - rows.start) * columns.len() + (x - columns.start);
        crate::laws::law_a_box_holds_each_pixel_once::<S, T>(
            c,
            darker,
            columns,
            rows,
            channel,
            x,
            y,
        );
        crate::laws::law_a_box_holds_each_pixel_once::<S, T>(
            c,
            lighter,
            columns,
            rows,
            channel,
            x,
            y,
        );
        assert(f(k) < g(k));
        lemma_sum_rise(count as nat, f, g, k);
        if q <= p {
            crate::reals::lemma_share(n, q, p);
        }
    }
}

/// The spans of the pixel at `index` of a copy lie in the picture and hold a
/// countable number of pixels.
pub(crate) proof fn lemma_spans(
    index: int,
    width: int,
    height: int,
    source_width: int,
    source_height: int,
)
    requires
        1 <= width <= source_width,
        1 <= height <= source_height,
        0 <= index < width * height,
    ensures
        ({
            let columns = Span::of(index % width, source_width, width);
            let rows = Span::of(index / width, source_height, height);
            &&& 0 <= columns.start < columns.end <= source_width
            &&& 0 <= rows.start < rows.end <= source_height
            &&& 0 < columns.len() * rows.len() <= source_width * source_height
        }),
{
    vstd::arithmetic::div_mod::lemma_multiply_divide_lt(index, width, height);
    vstd::arithmetic::div_mod::lemma_div_pos_is_pos(index, width);
    vstd::arithmetic::div_mod::lemma_mod_bound(index, width);
    crate::planes::lemma_span(index % width, source_width, width);
    crate::planes::lemma_span(index / width, source_height, height);
    let columns = Span::of(index % width, source_width, width);
    let rows = Span::of(index / width, source_height, height);
    assert(0 < columns.len() * rows.len() <= source_width * source_height) by (nonlinear_arith)
        requires
            0 < columns.len() <= source_width,
            0 < rows.len() <= source_height,
    ;
}

/// Every source pixel counts: raising one red sample of a picture leaves the
/// extents and the other planes of the copy as they are, lowers no value of the
/// red plane, and raises one.
/// [`crate::rounding`] says how large a rise survives rounding.
pub proof fn law_raising_a_sample_raises_a_mean<S, T>(
    m: Arithmetic<T>,
    value: spec_fn(T) -> real,
    c: Codec<S, T>,
    darker: Picture<S>,
    lighter: Picture<S>,
    max_extent: int,
    at: int,
)
    requires
        m.is_exact(value),
        forall|s: S| (m.is_finite)(#[trigger] (c.to_unit)(s)),
        0 < darker.width,
        0 < darker.height,
        darker.area() <= u64::MAX,
        0 < max_extent,
        lighter.width == darker.width,
        lighter.height == darker.height,
        0 <= at < darker.area(),
        forall|i: int|
            0 <= i < darker.area() && i != at ==> #[trigger] lighter.colors[i] == darker.colors[i],
        lighter.colors[at].1 == darker.colors[at].1,
        lighter.colors[at].2 == darker.colors[at].2,
        value((c.to_unit)(darker.colors[at].0)) < value((c.to_unit)(lighter.colors[at].0)),
    ensures
        ({
            let before = m.downscaled_planes(c, darker, max_extent);
            let after = m.downscaled_planes(c, lighter, max_extent);
            &&& after.width == before.width && after.height == before.height
            &&& after.g == before.g && after.b == before.b
            &&& after.r.len() == before.r.len()
            &&& forall|i: int|
                0 <= i < before.r.len() ==> value(#[trigger] before.r[i]) <= value(after.r[i])
            &&& exists|i: int|
                0 <= i < before.r.len() && value(#[trigger] before.r[i]) < value(after.r[i])
        }),
{
    let (w, h) = (darker.width, darker.height);
    let before = m.downscaled_planes(c, darker, max_extent);
    let after = m.downscaled_planes(c, lighter, max_extent);
    law_the_copy_is_no_larger(m, w, h, max_extent);
    let (width, height) = (before.width, before.height);
    assert forall|i: int| 0 <= i < darker.area() implies value(
        (c.to_unit)(#[trigger] darker.channel(i, 0)),
    ) <= value((c.to_unit)(lighter.channel(i, 0))) by {
        if i != at {
            assert(lighter.colors[i] == darker.colors[i]);
        }
    }
    assert forall|i: int| 0 <= i < width * height implies value(#[trigger] before.r[i]) <= value(
        after.r[i],
    ) && before.g[i] == after.g[i] && before.b[i] == after.b[i] by {
        lemma_spans(i, width, height, w, h);
        let columns = Span::of(i % width, w, width);
        let rows = Span::of(i / width, h, height);
        lemma_mean_order(m, value, c, darker, lighter, columns, rows, 0);
        assert forall|k: int| 0 <= k < darker.area() implies #[trigger] darker.channel(k, 1)
            == lighter.channel(k, 1) by {
            assert(k != at ==> lighter.colors[k] == darker.colors[k]);
        }
        assert forall|k: int| 0 <= k < darker.area() implies #[trigger] darker.channel(k, 2)
            == lighter.channel(k, 2) by {
            assert(k != at ==> lighter.colors[k] == darker.colors[k]);
        }
        lemma_mean_equal(m, c, darker, lighter, columns, rows, 1);
        lemma_mean_equal(m, c, darker, lighter, columns, rows, 2);
    }
    assert forall|i: int| 0 <= i < width * height implies #[trigger] before.g[i] == after.g[i] by {
        assert(value(before.r[i]) <= value(after.r[i]));
    }
    assert forall|i: int| 0 <= i < width * height implies #[trigger] before.b[i] == after.b[i] by {
        assert(value(before.r[i]) <= value(after.r[i]));
    }
    assert(after.g =~= before.g);
    assert(after.b =~= before.b);
    let i = lemma_raised_mean(m, value, c, darker, lighter, width, height, at);
    assert(value(before.r[i]) < value(after.r[i]));
}

/// The pixel of a copy whose mean covers a pixel of the picture.
pub(crate) proof fn lemma_covering_box(
    at: int,
    width: int,
    height: int,
    source_width: int,
    source_height: int,
) -> (index: int)
    requires
        1 <= width <= source_width,
        1 <= height <= source_height,
        0 <= at < source_width * source_height,
    ensures
        0 <= index < width * height,
        ({
            let columns = Span::of(index % width, source_width, width);
            let rows = Span::of(index / width, source_height, height);
            let (x, y) = (at % source_width, at / source_width);
            &&& columns.start <= x < columns.end
            &&& rows.start <= y < rows.end
            &&& y * source_width + x == at
        }),
{
    let (w, h) = (source_width, source_height);
    let (x, y) = (at % w, at / w);
    vstd::arithmetic::div_mod::lemma_fundamental_div_mod(at, w);
    vstd::arithmetic::div_mod::lemma_mod_bound(at, w);
    vstd::arithmetic::div_mod::lemma_div_pos_is_pos(at, w);
    vstd::arithmetic::div_mod::lemma_multiply_divide_lt(at, w, h);
    assert(w * y == y * w) by (nonlinear_arith);
    crate::laws::law_every_source_pixel_counts(x, w, width);
    crate::laws::law_every_source_pixel_counts(y, h, height);
    let column = choose|column: int|
        0 <= column < width && (#[trigger] Span::of(column, w, width)).start <= x && x < Span::of(
            column,
            w,
            width,
        ).end;
    let row = choose|row: int|
        0 <= row < height && (#[trigger] Span::of(row, h, height)).start <= y && y < Span::of(
            row,
            h,
            height,
        ).end;
    let index = row * width + column;
    assert(0 <= index < width * height) by (nonlinear_arith)
        requires
            index == row * width + column,
            0 <= row < height,
            0 <= column < width,
    ;
    vstd::arithmetic::div_mod::lemma_fundamental_div_mod_converse(index, width, row, column);
    index
}

/// The pixel of a copy whose mean rises where one sample does.
proof fn lemma_raised_mean<S, T>(
    m: Arithmetic<T>,
    value: spec_fn(T) -> real,
    c: Codec<S, T>,
    darker: Picture<S>,
    lighter: Picture<S>,
    width: int,
    height: int,
    at: int,
) -> (index: int)
    requires
        m.is_exact(value),
        forall|s: S| (m.is_finite)(#[trigger] (c.to_unit)(s)),
        1 <= width <= darker.width,
        1 <= height <= darker.height,
        darker.area() <= u64::MAX,
        lighter.width == darker.width,
        lighter.height == darker.height,
        0 <= at < darker.area(),
        forall|i: int|
            0 <= i < darker.area() ==> value((c.to_unit)(#[trigger] darker.channel(i, 0))) <= value(
                (c.to_unit)(lighter.channel(i, 0)),
            ),
        value((c.to_unit)(darker.channel(at, 0))) < value((c.to_unit)(lighter.channel(at, 0))),
    ensures
        0 <= index < width * height,
        value(m.downscaled_at(c, darker, width, height, 0, index)) < value(
            m.downscaled_at(c, lighter, width, height, 0, index),
        ),
{
    let (w, h) = (darker.width, darker.height);
    let index = lemma_covering_box(at, width, height, w, h);
    lemma_spans(index, width, height, w, h);
    let columns = Span::of(index % width, w, width);
    let rows = Span::of(index / width, h, height);
    lemma_mean_order(m, value, c, darker, lighter, columns, rows, 0);
    let (x, y) = (at % w, at / w);
    assert(value((c.to_unit)(darker.channel(y * w + x, 0))) < value(
        (c.to_unit)(lighter.channel(y * w + x, 0)),
    ));
    index
}

/// A sum over a box, row by row.
proof fn lemma_box_sum(
    columns: nat,
    rows: nat,
    table: spec_fn(int, int) -> real,
    f: spec_fn(int) -> real,
)
    requires
        columns > 0,
        forall|k: int|
            0 <= k < columns * rows ==> #[trigger] f(k) == table(
                k / columns as int,
                k % columns as int,
            ),
    ensures
        crate::reals::sum(columns * rows, f) == crate::reals::sum(
            rows,
            |y: int| crate::reals::row_sum(columns, table, y),
        ),
    decreases rows,
{
    if rows == 0 {
        assert(columns * rows == 0);
    } else {
        let before = (rows - 1) as nat;
        assert(columns * before + columns == columns * rows) by (nonlinear_arith)
            requires
                before == rows - 1,
        ;
        lemma_box_sum(columns, before, table, f);
        let first = columns * before;
        assert(first == before * columns) by (nonlinear_arith)
            requires
                first == columns * before,
        ;
        let row = |x: int| table(before as int, x);
        assert forall|x: int| 0 <= x < columns implies #[trigger] row(x) == f(first + x) by {
            vstd::arithmetic::div_mod::lemma_fundamental_div_mod_converse(
                first + x,
                columns as int,
                before as int,
                x,
            );
        }
        crate::reals::lemma_sum_parts(first, columns, f, row);
        let all = |y: int| crate::reals::row_sum(columns, table, y);
        assert(crate::reals::sum(rows, all) == crate::reals::sum(before, all) + all(rows - 1));
        let rest = |x: int| table(before as int, x);
        assert(crate::reals::sum(columns, rest) == crate::reals::sum(columns, row));
    }
}

/// The pixels that one pixel of a copy touches are those from the one that its
/// lower end lies in to the one that its upper end lies in.
pub proof fn law_a_span_is_what_a_pixel_touches(
    index: int,
    source: int,
    target: int,
    start: int,
    end: int,
)
    requires
        0 <= index < target <= source,
        start * target <= index * source < (start + 1) * target,
        (end - 1) * target < (index + 1) * source <= end * target,
    ensures
        Span::of(index, source, target).start == start,
        Span::of(index, source, target).end == end,
{
    let rest = index * source - start * target;
    assert((start + 1) * target == start * target + target) by (nonlinear_arith);
    assert(start * target == target * start) by (nonlinear_arith);
    vstd::arithmetic::div_mod::lemma_fundamental_div_mod_converse(
        index * source,
        target,
        start,
        rest,
    );
    let top = (index + 1) * source + target - 1;
    let more = top - end * target;
    assert((end - 1) * target == end * target - target) by (nonlinear_arith);
    assert(end * target == target * end) by (nonlinear_arith);
    vstd::arithmetic::div_mod::lemma_fundamental_div_mod_converse(top, target, end, more);
    assert((index + 1) * source == index * source + source) by (nonlinear_arith);
    assert(end > start) by (nonlinear_arith)
        requires
            end * target > start * target,
            target > 0,
    ;
}

/// A pixel of the copy that a mapping is fitted on is the mean of all pixels of
/// the picture that it touches, in each of the three planes the mean of that
/// channel: in column `x` and row `y`, those from the first to before the second
/// of `columns`, and from the first to before the second of `rows`. `sample` is
/// the channel of the pixel that many rows and columns further.
pub proof fn law_a_copied_pixel_is_the_mean_of_what_it_touches<S, T>(
    m: Arithmetic<T>,
    value: spec_fn(T) -> real,
    c: Codec<S, T>,
    picture: Picture<S>,
    max_extent: int,
    channel: int,
    x: int,
    y: int,
    columns: (int, int),
    rows: (int, int),
    sample: spec_fn(int, int) -> real,
)
    requires
        m.is_exact(value),
        forall|s: S| (m.is_finite)(#[trigger] (c.to_unit)(s)),
        0 < picture.width,
        0 < picture.height,
        0 < max_extent,
        picture.area() <= u64::MAX,
        0 <= channel < 3,
        ({
            let (width, height) = m.fitted_extents(picture.width, picture.height, max_extent);
            &&& 0 <= x < width
            &&& 0 <= y < height
            &&& columns.0 * width <= x * picture.width < (columns.0 + 1) * width
            &&& (columns.1 - 1) * width < (x + 1) * picture.width <= columns.1 * width
            &&& rows.0 * height <= y * picture.height < (rows.0 + 1) * height
            &&& (rows.1 - 1) * height < (y + 1) * picture.height <= rows.1 * height
        }),
        forall|dy: int, dx: int|
            0 <= dy < rows.1 - rows.0 && 0 <= dx < columns.1 - columns.0 ==> #[trigger] sample(
                dy,
                dx,
            ) == {
                let color = picture.colors[(rows.0 + dy) * picture.width + columns.0 + dx];
                if channel == 0 {
                    value((c.to_unit)(color.0))
                } else if channel == 1 {
                    value((c.to_unit)(color.1))
                } else {
                    value((c.to_unit)(color.2))
                }
            },
    ensures
        ({
            let copy = m.downscaled_planes(c, picture, max_extent);
            let plane = if channel == 0 {
                copy.r
            } else if channel == 1 {
                copy.g
            } else {
                copy.b
            };
            let (across, down) = (columns.1 - columns.0, rows.1 - rows.0);
            &&& (copy.width, copy.height) == m.fitted_extents(
                picture.width,
                picture.height,
                max_extent,
            )
            &&& plane.len() == copy.width * copy.height
            &&& 0 < across && 0 < down
            &&& value(plane[y * copy.width + x]) * (across * down) as real == crate::reals::sum(
                down as nat,
                |dy: int| crate::reals::row_sum(across as nat, sample, dy),
            )
        }),
{
    let (width, height) = m.fitted_extents(picture.width, picture.height, max_extent);
    law_the_copy_is_no_larger(m, picture.width, picture.height, max_extent);
    law_a_span_is_what_a_pixel_touches(x, picture.width, width, columns.0, columns.1);
    law_a_span_is_what_a_pixel_touches(y, picture.height, height, rows.0, rows.1);
    let index = y * width + x;
    assert(0 <= index < width * height) by (nonlinear_arith)
        requires
            index == y * width + x,
            0 <= x < width,
            0 <= y < height,
    ;
    vstd::arithmetic::div_mod::lemma_fundamental_div_mod_converse(index, width, y, x);
    lemma_spans(index, width, height, picture.width, picture.height);
    let across_span = Span::of(x, picture.width, width);
    let down_span = Span::of(y, picture.height, height);
    let (across, down) = ((columns.1 - columns.0) as nat, (rows.1 - rows.0) as nat);
    let f = |k: int|
        value(Arithmetic::<T>::box_term(c, picture, across_span, down_span, channel)(k));
    lemma_mean_value(m, value, c, picture, across_span, down_span, channel, f);
    assert forall|k: int| 0 <= k < across * down implies #[trigger] f(k) == sample(
        k / across as int,
        k % across as int,
    ) by {
        vstd::arithmetic::div_mod::lemma_multiply_divide_lt(k, across as int, down as int);
        vstd::arithmetic::div_mod::lemma_div_pos_is_pos(k, across as int);
        vstd::arithmetic::div_mod::lemma_mod_bound(k, across as int);
        let (dy, dx) = (k / across as int, k % across as int);
        assert(sample(dy, dx) == value(
            (c.to_unit)(
                picture.channel((rows.0 + dy) * picture.width + columns.0 + dx, channel),
            ),
        ));
    }
    lemma_box_sum(across, down, sample, f);
    assert(width * height >= 0) by (nonlinear_arith)
        requires
            width > 0,
            height > 0,
    ;
}

} // verus!
