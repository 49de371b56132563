//! What copies and samples cover of a picture.
use crate::random::SplitMix64;
use crate::sampling::Point;
use crate::scalar::Arithmetic;
use vstd::prelude::*;

verus! {

/// A scaled side is the nearest number of pixels, and at least one.
proof fn lemma_scaled_side<T>(
    m: Arithmetic<T>,
    value: spec_fn(T) -> real,
    side: int,
    max_extent: int,
    extent: int,
)
    requires
        m.is_exact(value),
        m.finds_integers(value),
        0 < side <= u32::MAX,
        0 < max_extent < extent <= u64::MAX,
    ensures
        ({
            let s = m.scaled_side(side, max_extent, extent);
            &&& 1 <= s <= side
            &&& -extent <= 2 * (s * extent - side * max_extent)
            &&& s > 1 ==> 2 * (s * extent - side * max_extent) <= extent
        }),
{
    let scale = m.ratio(max_extent as u64, extent as u64);
    crate::exact::lemma_ratio(m, value, max_extent as u64, extent as u64);
    let (n, e, t) = (side as real, extent as real, max_extent as real);
    assert(value((m.from_int)(extent as u64)) == e && (m.is_finite)(scale));
    let pixels = (m.from_int)(side as u64);
    assert(value(pixels) == n && (m.is_finite)(pixels));
    let exact = (m.times)(pixels, scale);
    let (v, p) = (value(scale), value(exact));
    assert((m.is_finite)(exact) && p == n * v);
    crate::reals::lemma_associate(n, v, e);
    assert(p * e == n * t);
    if v < 0 as real {
        crate::reals::lemma_multiple(e, v, 0 as real);
        assert(0 as real * e == 0 as real);
    }
    if v >= 1 as real {
        crate::reals::lemma_share(e, 1 as real, v);
        assert(1 as real * e == e);
    }
    crate::reals::lemma_share(n, 0 as real, v);
    crate::reals::lemma_share(n, v, 1 as real);
    assert(n * (0 as real) == 0 as real && n * (1 as real) == n);
    let r = (m.rounded)(exact);
    let k = (m.truncated)(r);
    assert((m.is_finite)(r) && value(r) == k as real);
    let gap = k as real - p;
    assert(-(1 as real) <= 2 as real * gap <= 1 as real);
    crate::reals::lemma_share(e, -(1 as real), 2 as real * gap);
    crate::reals::lemma_share(e, 2 as real * gap, 1 as real);
    assert(-(1 as real) * e == -e && 1 as real * e == e);
    assert(2 as real * gap * e == 2 as real * (k as real * e - p * e)) by {
        let a = k as real;
        assert(2 as real * (a - p) * e == 2 as real * (a * e - p * e)) by (nonlinear_arith);
    }
    let (ke, st) = (k * extent, side * max_extent);
    assert(ke as real == k as real * e && st as real == n * t) by {
        lemma_cast(k as int, extent);
        lemma_cast(side, max_extent);
    }
    assert(-extent <= 2 * (ke - st) <= extent);
    assert(st >= 0) by (nonlinear_arith)
        requires
            st == side * max_extent,
            0 < side,
            0 < max_extent,
    ;
    if k < 1 {
        assert(ke == 0) by (nonlinear_arith)
            requires
                ke == k * extent,
                k == 0,
        ;
        assert(1 * extent == extent);
    }
    assert(k <= side);
}

/// The product of two integers, as a real number.
proof fn lemma_cast(a: int, b: int)
    ensures
        (a * b) as real == a as real * b as real,
{
    assert((a * b) as real == a as real * b as real) by (nonlinear_arith);
}

/// The copy keeps the shape of the picture: where the picture exceeds the bound,
/// each side of the copy is within one pixel of its share of the bound.
pub proof fn law_the_copy_keeps_the_shape<T>(
    m: Arithmetic<T>,
    value: spec_fn(T) -> real,
    width: int,
    height: int,
    max_extent: int,
)
    requires
        m.is_exact(value),
        m.finds_integers(value),
        0 < width <= u32::MAX,
        0 < height <= u32::MAX,
        2 <= max_extent < width + height,
    ensures
        ({
            let (w, h) = m.fitted_extents(width, height, max_extent);
            let extent = width + height;
            &&& -extent <= w * extent - width * max_extent <= extent
            &&& -extent <= h * extent - height * max_extent <= extent
            &&& w + h <= max_extent
        }),
{
    let extent = width + height;
    lemma_scaled_side(m, value, width, max_extent, extent);
    lemma_scaled_side(m, value, height, max_extent, extent);
    let w = m.scaled_side(width, max_extent, extent);
    let h = m.scaled_side(height, max_extent, extent);
    let (a, b) = (width * max_extent, height * max_extent);
    assert(a + b == extent * max_extent) by (nonlinear_arith)
        requires
            a == width * max_extent,
            b == height * max_extent,
            extent == width + height,
    ;
    assert(a >= 0 && b >= 0) by (nonlinear_arith)
        requires
            a == width * max_extent,
            b == height * max_extent,
            0 < width,
            0 < height,
            0 < max_extent,
    ;
    assert(1 * extent == extent);
    assert(w == 1 ==> w * extent == extent);
    assert(h == 1 ==> h * extent == extent);
    if w + h > max_extent {
        let half = max_extent / 2;
        if h <= half && w >= h {
            lemma_rest(max_extent, h, extent);
        } else if w <= half && w < h {
            lemma_rest(max_extent, w, extent);
        } else {
            assert(w > 1 && h > 1);
            lemma_sum_product(w, h, extent);
            assert(w + h <= max_extent + 1) by (nonlinear_arith)
                requires
                    (w + h) * extent - extent * max_extent <= extent,
                    extent > 0,
            ;
            assert(w == half + 1 && h == half + 1 && max_extent == 2 * half + 1);
            lemma_sum_product(half, half + 1, extent);
            lemma_sum_product(half, 1, extent);
            lemma_rest(max_extent, half, extent);
            assert((w + h) * extent == (max_extent + 1) * extent);
            lemma_sum_product(max_extent, 1, extent);
            assert(max_extent * extent == extent * max_extent) by (nonlinear_arith);
        }
    }
}

/// The sides of the copy are the nearest numbers of pixels to their shares of the
/// bound, and at least one, wherever these do not exceed the bound together.
pub proof fn law_the_copy_has_the_nearest_extents<T>(
    m: Arithmetic<T>,
    value: spec_fn(T) -> real,
    width: int,
    height: int,
    max_extent: int,
    across: int,
    down: int,
)
    requires
        m.is_exact(value),
        m.finds_integers(value),
        0 < width <= u32::MAX,
        0 < height <= u32::MAX,
        0 < max_extent < width + height,
        0 <= across,
        0 <= down,
        ({
            let extent = width + height;
            &&& -extent < 2 * (across * extent - width * max_extent) < extent
            &&& -extent < 2 * (down * extent - height * max_extent) < extent
        }),
    ensures
        ({
            let w = if across < 1 {
                1
            } else {
                across
            };
            let h = if down < 1 {
                1
            } else {
                down
            };
            w + h <= max_extent ==> m.fitted_extents(width, height, max_extent) == (w, h)
        }),
{
    let extent = width + height;
    lemma_scaled_side(m, value, width, max_extent, extent);
    lemma_scaled_side(m, value, height, max_extent, extent);
    lemma_nearest(
        m.scaled_side(width, max_extent, extent),
        across,
        extent,
        width * max_extent,
    );
    lemma_nearest(
        m.scaled_side(height, max_extent, extent),
        down,
        extent,
        height * max_extent,
    );
}

/// There is one nearest number of pixels.
proof fn lemma_nearest(s: int, k: int, extent: int, share: int)
    requires
        1 <= s,
        0 <= k,
        0 < extent,
        -extent <= 2 * (s * extent - share),
        s > 1 ==> 2 * (s * extent - share) <= extent,
        -extent < 2 * (k * extent - share) < extent,
    ensures
        s == if k < 1 {
            1
        } else {
            k
        },
{
    let d = s - k;
    assert(s * extent == k * extent + d * extent) by (nonlinear_arith)
        requires
            d == s - k,
    ;
    if d >= 1 {
        assert(d * extent >= extent) by (nonlinear_arith)
            requires
                d >= 1,
                extent > 0,
        ;
    }
    if d <= -1 {
        assert(d * extent <= -extent) by (nonlinear_arith)
            requires
                d <= -1,
                extent > 0,
        ;
    }
}

/// What is left of a number of pixels, against an extent.
proof fn lemma_rest(whole: int, part: int, extent: int)
    ensures
        (whole - part) * extent == extent * whole - part * extent,
{
    assert((whole - part) * extent == extent * whole - part * extent) by (nonlinear_arith);
}

/// The sum of two products with an extent.
proof fn lemma_sum_product(a: int, b: int, extent: int)
    ensures
        (a + b) * extent == a * extent + b * extent,
{
    assert((a + b) * extent == a * extent + b * extent) by (nonlinear_arith);
}

/// The point of a cell is the pixel that the middle of the cell lies in.
pub proof fn law_a_grid_point_is_the_middle_of_its_cell<T>(
    m: Arithmetic<T>,
    value: spec_fn(T) -> real,
    index: int,
    cells: int,
    extent: int,
)
    requires
        m.is_exact(value),
        m.finds_integers(value),
        0 <= index < cells <= u32::MAX,
        0 < extent <= u32::MAX,
    ensures
        ({
            let center = m.cell_center(index, cells, extent);
            2 * (center * cells) <= (2 * index + 1) * extent < 2 * ((center + 1) * cells)
        }),
{
    let (i, n, e) = (index as real, cells as real, extent as real);
    let (a, b, c) = (
        (m.from_int)(index as u64),
        (m.from_int)(cells as u64),
        (m.from_int)(extent as u64),
    );
    assert(value(a) == i && value(b) == n && value(c) == e);
    assert((m.is_finite)(a) && (m.is_finite)(b) && (m.is_finite)(c));
    crate::exact::lemma_ratio(m, value, 1, 2);
    assert(value((m.from_int)(2)) == 2 as real);
    let half = m.ratio(1, 2);
    assert((m.is_finite)(half) && value(half) * (2 as real) == 1 as real);
    let middle = (m.plus)(a, half);
    assert((m.is_finite)(middle) && value(middle) == i + 1 as real / 2 as real);
    let product = (m.times)(middle, c);
    let place = (m.over)(product, b);
    let (p, q) = (value(product), value(place));
    assert((m.is_finite)(product) && p == (i + 1 as real / 2 as real) * e);
    assert((m.is_finite)(place) && q * n == p);
    crate::reals::lemma_products(0 as real, i + 1 as real / 2 as real, 0 as real, e);
    assert(0 as real * (0 as real) == 0 as real);
    if q < 0 as real {
        crate::reals::lemma_multiple(n, q, 0 as real);
        assert(0 as real * n == 0 as real);
    }
    crate::reals::lemma_multiple(e, i + 1 as real / 2 as real, n);
    crate::reals::lemma_commute(n, e);
    if q >= e {
        crate::reals::lemma_share(n, e, q);
    }
    let t = (m.truncated)(place);
    let k = t as real;
    assert(k <= q < k + 1 as real);
    assert(t < extent);
    crate::reals::lemma_share(n, k, q);
    crate::reals::lemma_multiple(n, q, k + 1 as real);
    lemma_cast(t as int, cells);
    lemma_cast(t + 1, cells);
    lemma_cast(2 * index + 1, extent);
    assert((2 * index + 1) as real == 2 as real * i + 1 as real);
    assert((2 as real * i + 1 as real) * e == 2 as real * p) by {
        let h = i + 1 as real / 2 as real;
        crate::reals::lemma_associate(2 as real, h, e);
        assert(2 as real * h == 2 as real * i + 1 as real);
    }
}

/// As many lines as fit along a side are the nearest integer to the side times
/// the scale.
proof fn lemma_fitting_lines<T>(
    m: Arithmetic<T>,
    value: spec_fn(T) -> real,
    extent: int,
    scale: T,
    lines: int,
)
    requires
        m.is_exact(value),
        m.finds_integers(value),
        0 < extent <= u32::MAX,
        (m.is_finite)(scale),
        0 as real <= value(scale),
        0 <= lines < u32::MAX,
        2 as real * lines as real - 1 as real <= 2 as real * (extent as real * value(scale)),
        2 as real * (extent as real * value(scale)) < 2 as real * lines as real + 1 as real,
    ensures
        m.fitting_lines(extent, scale) == lines,
{
    let n = extent as real;
    let a = (m.from_int)(extent as u64);
    assert(value(a) == n && (m.is_finite)(a));
    crate::exact::lemma_ratio(m, value, 1, 2);
    assert(value((m.from_int)(2)) == 2 as real);
    let half = m.ratio(1, 2);
    assert((m.is_finite)(half) && value(half) * (2 as real) == 1 as real);
    let product = (m.times)(a, scale);
    assert((m.is_finite)(product) && value(product) == n * value(scale));
    crate::reals::lemma_share(n, 0 as real, value(scale));
    assert(n * (0 as real) == 0 as real);
    let sum = (m.plus)(product, half);
    assert((m.is_finite)(sum));
    let t = (m.truncated)(sum);
    assert(t as real <= value(sum) < t as real + 1 as real);
}

/// The grid has as many lines along each side as bring it closest to `samples^2`
/// points in the shape of the picture: `scale` is how many lines fit into the
/// width of a pixel then, and `across` and `down` are the nearest integers to how
/// many fit along the sides. There is at most one line per pixel. Where no line
/// fits along one side there is one, and at most `samples^2` along the other.
pub proof fn law_the_grid_fits_the_picture<T>(
    m: Arithmetic<T>,
    value: spec_fn(T) -> real,
    width: int,
    height: int,
    samples: u32,
    scale: real,
    across: int,
    down: int,
)
    requires
        m.is_ideal(value),
        m.finds_integers(value),
        0 < width <= u32::MAX,
        0 < height <= u32::MAX,
        width * height <= u64::MAX,
        0 < samples,
        0 as real <= scale,
        scale * scale * (width * height) as real == samples as real * samples as real,
        0 <= across < u32::MAX,
        0 <= down < u32::MAX,
        2 as real * across as real - 1 as real <= 2 as real * (width as real * scale),
        2 as real * (width as real * scale) < 2 as real * across as real + 1 as real,
        2 as real * down as real - 1 as real <= 2 as real * (height as real * scale),
        2 as real * (height as real * scale) < 2 as real * down as real + 1 as real,
    ensures
        ({
            let grid = m.grid(width, height, samples);
            let budget = samples * samples;
            let w = if across > width {
                width
            } else {
                across
            };
            let h = if down > height {
                height
            } else {
                down
            };
            &&& across >= 1 && down >= 1 && w <= 2 * budget + 1 ==> grid.columns == w
            &&& across >= 1 && down >= 1 && w <= 2 * budget + 1 && h <= (2 * budget + 1) / w
                ==> grid.rows == h
            &&& down == 0 ==> grid.rows == 1
            &&& down == 0 && 1 <= w <= budget ==> grid.columns == w
            &&& down == 0 && w > budget ==> grid.columns == budget
            &&& across == 0 && down >= 1 ==> grid.columns == 1
            &&& across == 0 && 1 <= h <= budget ==> grid.rows == h
            &&& across == 0 && h > budget ==> grid.rows == budget
        }),
{
    let area = (m.from_int)((width * height) as u64);
    let number = (m.from_int)(samples as u64);
    let (n, s) = ((width * height) as real, samples as real);
    assert(width * height > 0) by (nonlinear_arith)
        requires
            width > 0,
            height > 0,
    ;
    assert(samples * samples >= 1) by (nonlinear_arith)
        requires
            samples >= 1,
    ;
    assert(value(area) == n && value(number) == s);
    assert((m.is_finite)(area) && (m.is_finite)(number));
    let root = (m.square_root)(area);
    let r = value(root);
    assert((m.is_finite)(root) && r >= 0 as real && r * r == n);
    if r == 0 as real {
        assert(r * r == 0 as real) by (nonlinear_arith)
            requires
                r == 0 as real,
        ;
    }
    let t = (m.over)(number, root);
    let v = value(t);
    assert((m.is_finite)(t) && v * r == s);
    if v < 0 as real {
        crate::reals::lemma_multiple(r, v, 0 as real);
        assert(0 as real * r == 0 as real);
    }
    lemma_square_product(v, r);
    lemma_square_product(scale, r);
    assert(v * v * n == s * s);
    crate::reals::lemma_cancel(v * v, scale * scale, n);
    lemma_equal_squares(v, scale);
    lemma_fitting_lines(m, value, width, t, across);
    lemma_fitting_lines(m, value, height, t, down);
}

/// The square of a product.
proof fn lemma_square_product(a: real, b: real)
    ensures
        (a * b) * (a * b) == a * a * (b * b),
{
    assert((a * b) * (a * b) == a * a * (b * b)) by (nonlinear_arith);
}

/// Numbers that are not negative and have the same square are the same.
proof fn lemma_equal_squares(a: real, b: real)
    requires
        0 as real <= a,
        0 as real <= b,
        a * a == b * b,
    ensures
        a == b,
{
    if a < b {
        crate::reals::lemma_strict_products(a, b, a, b);
    }
    if b < a {
        crate::reals::lemma_strict_products(b, a, b, a);
    }
}

/// Neighbors are drawn from the whole of the grid that is half as fine: every
/// point with the one in the next column, and with the one in the next row.
pub proof fn law_all_neighbors_of_the_coarse_grid_are_drawn<T>(
    m: Arithmetic<T>,
    width: int,
    height: int,
    samples: u32,
    seed: u64,
    column: int,
    row: int,
)
    requires
        0 <= column < m.grid(width, height, samples).columns / 2,
        0 <= row < m.grid(width, height, samples).rows / 2,
    ensures
        ({
            let places = m.places(width, height, samples, seed);
            let grid = m.grid(width, height, samples);
            let point = |x: int, y: int|
                (Point {
                    x: m.cell_center(x, grid.columns / 2, width),
                    y: m.cell_center(y, grid.rows / 2, height),
                });
            &&& column + 1 < grid.columns / 2 ==> places.contains(
                (point(column, row), point(column + 1, row)),
            )
            &&& row + 1 < grid.rows / 2 ==> places.contains(
                (point(column, row), point(column, row + 1)),
            )
        }),
{
    let grid = m.grid(width, height, samples);
    let half = grid.halved();
    let places = m.places(width, height, samples, seed);
    let matched = m.matched(grid, width, height, seed);
    let (across, down) = (m.across(half, width, height), m.down(half, width, height));
    let (columns, rows) = (half.columns, half.rows);
    if column + 1 < columns {
        let k = column * rows + row;
        assert(0 <= k < (columns - 1) * rows) by (nonlinear_arith)
            requires
                k == column * rows + row,
                0 <= column < columns - 1,
                0 <= row < rows,
        ;
        vstd::arithmetic::div_mod::lemma_fundamental_div_mod_converse(k, rows, column, row);
        assert(places[matched.len() + k] == across[k]);
    }
    if row + 1 < rows {
        let steps = rows - 1;
        let k = column * steps + row;
        assert(0 <= k < steps * columns) by (nonlinear_arith)
            requires
                k == column * steps + row,
                0 <= column < columns,
                0 <= row < steps,
        ;
        vstd::arithmetic::div_mod::lemma_fundamental_div_mod_converse(k, steps, column, row);
        assert(places[matched.len() + across.len() + k] == down[k]);
    }
}

/// Every cell of the grid has a pair of its own that starts at its point, one
/// after the other, column by column. It ends at the point that the shuffle of all
/// points with the given seed puts there.
pub proof fn law_every_cell_starts_a_pair<T>(
    m: Arithmetic<T>,
    width: int,
    height: int,
    samples: u32,
    seed: u64,
    points: Seq<Point>,
    column: int,
    row: int,
)
    requires
        0 <= column < m.grid(width, height, samples).columns,
        0 <= row < m.grid(width, height, samples).rows,
        ({
            let grid = m.grid(width, height, samples);
            &&& points.len() == grid.columns * grid.rows
            &&& forall|x: int, y: int|
                0 <= x < grid.columns && 0 <= y < grid.rows ==> {
                    let point = #[trigger] points[x * grid.rows + y];
                    &&& point.x == m.cell_center(x, grid.columns, width)
                    &&& point.y == m.cell_center(y, grid.rows, height)
                }
        }),
    ensures
        ({
            let places = m.places(width, height, samples, seed);
            let k = column * m.grid(width, height, samples).rows + row;
            &&& 0 <= k < points.len() <= places.len()
            &&& places[k].0 == points[k]
            &&& places[k].1 == SplitMix64::shuffled(points, seed, points.len() - 1)[k]
        }),
{
    let grid = m.grid(width, height, samples);
    let (columns, rows) = (grid.columns, grid.rows);
    let k = column * rows + row;
    assert(0 <= k < columns * rows) by (nonlinear_arith)
        requires
            k == column * rows + row,
            0 <= column < columns,
            0 <= row < rows,
    ;
    let all = m.grid_points(grid, width, height);
    assert forall|i: int| 0 <= i < points.len() implies all[i] == #[trigger] points[i] by {
        vstd::arithmetic::div_mod::lemma_fundamental_div_mod(i, rows);
        vstd::arithmetic::div_mod::lemma_mod_bound(i, rows);
        vstd::arithmetic::div_mod::lemma_div_pos_is_pos(i, rows);
        assert(columns * rows == rows * columns) by (nonlinear_arith);
        vstd::arithmetic::div_mod::lemma_multiply_divide_lt(i, rows, columns);
        let (x, y) = (i / rows, i % rows);
        assert(rows * x == x * rows) by (nonlinear_arith);
        assert(points[x * rows + y].x == m.cell_center(x, columns, width));
        assert(points[x * rows + y].y == m.cell_center(y, rows, height));
    }
    assert(all =~= points);
    let matched = m.matched(grid, width, height, seed);
    assert(m.places(width, height, samples, seed)[k] == matched[k]);
}

/// Nothing else is drawn: there is one pair per point of the grid, and one per two
/// neighbors of the grid that is half as fine.
pub proof fn law_the_number_of_pairs<T>(
    m: Arithmetic<T>,
    width: int,
    height: int,
    samples: u32,
    seed: u64,
)
    requires
        0 < width,
        0 < height,
        0 < samples,
    ensures
        ({
            let grid = m.grid(width, height, samples);
            let (columns, rows) = (grid.columns / 2, grid.rows / 2);
            let across = if columns > 0 {
                (columns - 1) * rows
            } else {
                0
            };
            let down = if rows > 0 {
                (rows - 1) * columns
            } else {
                0
            };
            m.places(width, height, samples, seed).len() == grid.columns * grid.rows + across + down
        }),
{
    crate::sampling::law_the_grid_is_bounded(m, width, height, samples);
    let grid = m.grid(width, height, samples);
    let (columns, rows) = (grid.columns / 2, grid.rows / 2);
    assert(grid.columns * grid.rows >= 0) by (nonlinear_arith)
        requires
            grid.columns >= 1,
            grid.rows >= 1,
    ;
    assert(columns > 0 ==> (columns - 1) * rows >= 0) by (nonlinear_arith)
        requires
            columns >= 0,
            rows >= 0,
    ;
    assert(rows > 0 ==> (rows - 1) * columns >= 0) by (nonlinear_arith)
        requires
            columns >= 0,
            rows >= 0,
    ;
}

} // verus!
