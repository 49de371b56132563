//! The pixel pairs that channel weightings are scored on.
use crate::color::length;
use crate::definitions::{Image, Picture};
use crate::options::FastDecolorizeOptions;
use crate::random::{shuffle, SplitMix64};
use crate::scalar::{ratio, Arithmetic, Scalar};
use crate::subpixel::{Codec, DecolorizeSubpixel};
use vstd::prelude::*;

verus! {

/// The place of a pixel.
#[derive(Debug, Clone, Copy, PartialEq, Eq, Structural)]
pub struct Point {
    pub x: usize,
    pub y: usize,
}

/// A pixel pair, as its RGB difference and the color contrast that difference
/// carries.
pub struct Pair<T> {
    pub difference: (T, T, T),
    pub contrast: T,
}

/// A regular grid of points over a picture.
pub struct Grid {
    pub columns: int,
    pub rows: int,
}

impl Grid {
    /// A grid with half as many columns and half as many rows.
    pub open spec fn halved(self) -> Grid {
        Grid { columns: self.columns / 2, rows: self.rows / 2 }
    }

    /// Number of points.
    pub open spec fn points(self) -> int {
        self.columns * self.rows
    }

    /// Number of neighbors along `across` lines of `along` points each.
    pub open spec fn edges(along: int, across: int) -> int {
        let steps = if along > 0 {
            along - 1
        } else {
            0
        };
        steps * across
    }

    /// A number of grid lines, or a limit where it exceeds that.
    pub open spec fn capped(lines: int, limit: int) -> int {
        if lines > limit {
            limit
        } else {
            lines
        }
    }
}

impl<T> Arithmetic<T> {
    /// The nearest integer to `extent * scale`.
    pub open spec fn fitting_lines(self, extent: int, scale: T) -> usize {
        (self.truncated)(
            (self.plus)(
                (self.times)((self.from_int)(extent as u64), scale),
                self.ratio(1, 2),
            ),
        )
    }

    /// Number of grid lines along a side of `extent` pixels: as many as fit, at
    /// least one and at most one per pixel.
    pub open spec fn line_count(self, extent: int, scale: T) -> int {
        let lines = self.fitting_lines(extent, scale);
        if lines < 1 {
            1
        } else {
            Grid::capped(lines as int, extent)
        }
    }

    /// The grid over a picture that holds about `samples^2` points.
    ///
    /// Where a picture is so thin that not a single line fits across it, there
    /// is one all the same, and then at most `samples^2` lines the other way.
    /// No grid holds more than `2 * samples^2 + 1` points.
    pub open spec fn grid(self, width: int, height: int, samples: u32) -> Grid {
        let scale = (self.over)(
            (self.from_int)(samples as u64),
            (self.square_root)((self.from_int)((width * height) as u64)),
        );
        let budget: int = samples * samples;
        let columns = self.line_count(width, scale);
        let rows = self.line_count(height, scale);
        if self.fitting_lines(height, scale) < 1 {
            Grid { columns: Grid::capped(columns, budget), rows: 1 }
        } else if self.fitting_lines(width, scale) < 1 {
            Grid { columns: 1, rows: Grid::capped(rows, budget) }
        } else {
            let most = 2 * budget + 1;
            let columns = Grid::capped(columns, most);
            Grid { columns, rows: Grid::capped(rows, most / columns) }
        }
    }

    /// The pixel at the middle of cell `index`, where `extent` pixels are
    /// divided into `cells` cells. It never lies beyond the last pixel.
    pub open spec fn cell_center(self, index: int, cells: int, extent: int) -> usize {
        let center = (self.truncated)(
            (self.over)(
                (self.times)(
                    (self.plus)((self.from_int)(index as u64), self.ratio(1, 2)),
                    (self.from_int)(extent as u64),
                ),
                (self.from_int)(cells as u64),
            ),
        );
        if center < extent {
            center
        } else {
            (extent - 1) as usize
        }
    }

    /// The pixel at the middle of a cell of a grid.
    pub open spec fn grid_point(
        self,
        grid: Grid,
        width: int,
        height: int,
        column: int,
        row: int,
    ) -> Point {
        Point {
            x: self.cell_center(column, grid.columns, width),
            y: self.cell_center(row, grid.rows, height),
        }
    }

    /// All points of a grid, column by column.
    pub open spec fn grid_points(self, grid: Grid, width: int, height: int) -> Seq<Point> {
        Seq::new(
            (grid.columns * grid.rows) as nat,
            |k: int| self.grid_point(grid, width, height, k / grid.rows, k % grid.rows),
        )
    }

    /// Every point of a grid with the point that a shuffle puts in its place.
    pub open spec fn matched(self, grid: Grid, width: int, height: int, seed: u64) -> Seq<
        (Point, Point),
    > {
        let points = self.grid_points(grid, width, height);
        let partners = SplitMix64::shuffled(points, seed, points.len() - 1);
        Seq::new(points.len(), |k: int| (points[k], partners[k]))
    }

    /// Every point of a grid with its neighbor in the next column.
    pub open spec fn across(self, grid: Grid, width: int, height: int) -> Seq<(Point, Point)> {
        Seq::new(
            Grid::edges(grid.columns, grid.rows) as nat,
            |k: int|
                (
                    self.grid_point(grid, width, height, k / grid.rows, k % grid.rows),
                    self.grid_point(grid, width, height, k / grid.rows + 1, k % grid.rows),
                ),
        )
    }

    /// Every point of a grid with its neighbor in the next row.
    pub open spec fn down(self, grid: Grid, width: int, height: int) -> Seq<(Point, Point)> {
        let rows = if grid.rows > 0 {
            grid.rows - 1
        } else {
            0
        };
        Seq::new(
            Grid::edges(grid.rows, grid.columns) as nat,
            |k: int|
                (
                    self.grid_point(grid, width, height, k / rows, k % rows),
                    self.grid_point(grid, width, height, k / rows, k % rows + 1),
                ),
        )
    }

    /// The places of the pairs that are drawn from a picture: one randomly
    /// matched pair per grid point, then the neighbors of a grid half as fine.
    pub open spec fn places(self, width: int, height: int, samples: u32, seed: u64) -> Seq<
        (Point, Point),
    > {
        let grid = self.grid(width, height, samples);
        self.matched(grid, width, height, seed) + self.across(grid.halved(), width, height)
            + self.down(grid.halved(), width, height)
    }

    /// The difference of one channel between two pixels.
    pub open spec fn channel_gap<S>(
        self,
        codec: Codec<S, T>,
        picture: Picture<S>,
        place: (Point, Point),
        channel: int,
    ) -> T {
        (self.minus)(
            (codec.to_unit)(picture.channel(place.0.y * picture.width + place.0.x, channel)),
            (codec.to_unit)(picture.channel(place.1.y * picture.width + place.1.x, channel)),
        )
    }

    /// The pair at a place. Its contrast is the Euclidean distance in RGB,
    /// divided by the square root of two.
    pub open spec fn pair_at<S>(
        self,
        codec: Codec<S, T>,
        picture: Picture<S>,
        place: (Point, Point),
    ) -> Pair<T> {
        let (dr, dg, db) = (
            self.channel_gap(codec, picture, place, 0),
            self.channel_gap(codec, picture, place, 1),
            self.channel_gap(codec, picture, place, 2),
        );
        Pair {
            difference: (dr, dg, db),
            contrast: (self.over)(
                self.length(dr, dg, db),
                (self.square_root)((self.from_int)(2)),
            ),
        }
    }

    /// The pairs at the given places whose contrast reaches a threshold.
    pub open spec fn contrasting<S>(
        self,
        codec: Codec<S, T>,
        picture: Picture<S>,
        places: Seq<(Point, Point)>,
        threshold: T,
    ) -> Seq<Pair<T>> {
        places.map_values(|place: (Point, Point)| self.pair_at(codec, picture, place)).filter(
            |pair: Pair<T>| (self.at_most)(threshold, pair.contrast),
        )
    }

    /// The pairs that channel weightings are scored on.
    pub open spec fn sampled_pairs<S>(
        self,
        codec: Codec<S, T>,
        picture: Picture<S>,
        options: FastDecolorizeOptions<T>,
    ) -> Seq<Pair<T>> {
        self.contrasting(
            codec,
            picture,
            self.places(picture.width, picture.height, options.samples, options.seed),
            options.contrast_threshold,
        )
    }
}

/// A number of grid lines, or a limit where it exceeds that.
fn capped(lines: usize, limit: u128) -> (r: usize)
    ensures
        r == Grid::capped(lines as int, limit as int),
{
    if lines as u128 > limit {
        limit as usize
    } else {
        lines
    }
}

/// As many grid lines as fit along a side of `extent` pixels.
fn fitting_lines<T: Scalar>(extent: usize, scale: T) -> (r: usize)
    ensures
        forall|m: Arithmetic<T>| #[trigger]
            m.describes() ==> r == m.fitting_lines(extent as int, scale),
{
    T::from_int(extent as u64).times(scale).plus(ratio(1, 2)).truncated()
}

/// The columns and the rows of the grid over a picture.
pub fn grid_size<T: Scalar>(width: usize, height: usize, samples: u32) -> (r: (usize, usize))
    requires
        width > 0,
        height > 0,
        samples > 0,
        width * height <= isize::MAX,
    ensures
        1 <= r.0 <= width,
        1 <= r.1 <= height,
        r.0 * r.1 <= 2 * (samples * samples) + 1,
        forall|m: Arithmetic<T>| #[trigger]
            m.describes() ==> (Grid { columns: r.0 as int, rows: r.1 as int }) == m.grid(
                width as int,
                height as int,
                samples,
            ),
{
    let scale = T::from_int(samples as u64).over(
        T::from_int((width * height) as u64).square_root(),
    );
    assert(1 <= samples * samples <= 0xffff_ffff * 0xffff_ffff) by (nonlinear_arith)
        requires
            1 <= samples <= 0xffff_ffff,
    ;
    let budget: u128 = samples as u128 * samples as u128;
    let across = fitting_lines(width, scale);
    let down = fitting_lines(height, scale);
    let columns = if across < 1 {
        1
    } else {
        capped(across, width as u128)
    };
    let rows = if down < 1 {
        1
    } else {
        capped(down, height as u128)
    };
    if down < 1 {
        (capped(columns, budget), 1)
    } else if across < 1 {
        (1, capped(rows, budget))
    } else {
        let most: u128 = 2 * budget + 1;
        let columns = capped(columns, most);
        let limit: u128 = most / columns as u128;
        let rows = capped(rows, limit);
        proof {
            vstd::arithmetic::div_mod::lemma_fundamental_div_mod(most as int, columns as int);
            vstd::arithmetic::div_mod::lemma_mod_bound(most as int, columns as int);
            let rest = most as int % columns as int;
            assert(1 <= limit && columns * rows <= most) by (nonlinear_arith)
                requires
                    most == columns * limit + rest,
                    0 <= rest < columns <= most,
                    rows <= limit,
                    0 <= limit,
            ;
        }
        (columns, rows)
    }
}

/// The pixel at the middle of cell `index`.
fn cell_center<T: Scalar>(index: usize, cells: usize, extent: usize) -> (r: usize)
    requires
        extent > 0,
    ensures
        r < extent,
        forall|m: Arithmetic<T>| #[trigger]
            m.describes() ==> r == m.cell_center(index as int, cells as int, extent as int),
{
    let center: usize = T::from_int(index as u64).plus(ratio(1, 2)).times(
        T::from_int(extent as u64),
    ).over(T::from_int(cells as u64)).truncated();
    if center < extent {
        center
    } else {
        extent - 1
    }
}

/// The pixel at the middle of a cell of a grid.
fn grid_point<T: Scalar>(
    columns: usize,
    rows: usize,
    width: usize,
    height: usize,
    column: usize,
    row: usize,
) -> (r: Point)
    requires
        width > 0,
        height > 0,
    ensures
        r.x < width,
        r.y < height,
        forall|m: Arithmetic<T>| #[trigger]
            m.describes() ==> r == m.grid_point(
                Grid { columns: columns as int, rows: rows as int },
                width as int,
                height as int,
                column as int,
                row as int,
            ),
{
    Point {
        x: cell_center::<T>(column, columns, width),
        y: cell_center::<T>(row, rows, height),
    }
}

/// The points of a grid, column by column.
fn grid_points<T: Scalar>(columns: usize, rows: usize, width: usize, height: usize) -> (r: Vec<
    Point,
>)
    requires
        width > 0,
        height > 0,
    ensures
        forall|k: int| 0 <= k < r@.len() ==> (#[trigger] r@[k]).x < width && r@[k].y < height,
        r@.len() == columns * rows,
        forall|m: Arithmetic<T>| #[trigger]
            m.describes() ==> r@ == m.grid_points(
                Grid { columns: columns as int, rows: rows as int },
                width as int,
                height as int,
            ),
{
    let ghost grid = Grid { columns: columns as int, rows: rows as int };
    let mut points: Vec<Point> = Vec::new();
    let mut i: usize = 0;
    while i < columns
        invariant
            width > 0,
            height > 0,
            0 <= i <= columns,
            grid == (Grid { columns: columns as int, rows: rows as int }),
            points@.len() == i * rows,
            forall|k: int|
                0 <= k < points@.len() ==> (#[trigger] points@[k]).x < width && points@[k].y
                    < height,
            forall|m: Arithmetic<T>, k: int|
                #![trigger m.describes(), points@[k]]
                m.describes() && 0 <= k < points@.len() ==> points@[k] == m.grid_point(
                    grid,
                    width as int,
                    height as int,
                    k / grid.rows,
                    k % grid.rows,
                ),
        decreases columns - i,
    {
        let mut j: usize = 0;
        while j < rows
            invariant
                width > 0,
                height > 0,
                0 <= i < columns,
                0 <= j <= rows,
                grid == (Grid { columns: columns as int, rows: rows as int }),
                points@.len() == i * rows + j,
                forall|k: int|
                    0 <= k < points@.len() ==> (#[trigger] points@[k]).x < width && points@[k].y
                        < height,
                forall|m: Arithmetic<T>, k: int|
                    #![trigger m.describes(), points@[k]]
                    m.describes() && 0 <= k < points@.len() ==> points@[k] == m.grid_point(
                        grid,
                        width as int,
                        height as int,
                        k / grid.rows,
                        k % grid.rows,
                    ),
            decreases rows - j,
        {
            proof {
                vstd::arithmetic::div_mod::lemma_fundamental_div_mod_converse(
                    i * rows + j,
                    rows as int,
                    i as int,
                    j as int,
                );
            }
            points.push(grid_point::<T>(columns, rows, width, height, i, j));
            j = j + 1;
        }
        assert((i + 1) * rows == i * rows + rows) by (nonlinear_arith);
        i = i + 1;
    }
    assert(forall|m: Arithmetic<T>| #[trigger]
        m.describes() ==> points@ =~= m.grid_points(grid, width as int, height as int));
    points
}

/// Appends the neighbors of a grid in the next column.
fn push_across<T: Scalar>(
    columns: usize,
    rows: usize,
    width: usize,
    height: usize,
    places: &mut Vec<(Point, Point)>,
)
    requires
        width > 0,
        height > 0,
        forall|k: int|
            0 <= k < old(places)@.len() ==> within(#[trigger] old(places)@[k], width, height),
    ensures
        forall|k: int|
            0 <= k < final(places)@.len() ==> within(#[trigger] final(places)@[k], width, height),
        final(places)@.len() == old(places)@.len() + Grid::edges(columns as int, rows as int),
        forall|m: Arithmetic<T>| #[trigger]
            m.describes() ==> final(places)@ == old(places)@ + m.across(
                Grid { columns: columns as int, rows: rows as int },
                width as int,
                height as int,
            ),
{
    let ghost grid = Grid { columns: columns as int, rows: rows as int };
    let ghost before = places@;
    let last: usize = if columns > 0 {
        columns - 1
    } else {
        0
    };
    let mut i: usize = 0;
    while i < last
        invariant
            width > 0,
            height > 0,
            0 <= i <= last,
            columns > 0 ==> last == columns - 1,
            columns == 0 ==> last == 0,
            grid == (Grid { columns: columns as int, rows: rows as int }),
            places@.len() == before.len() + i * rows,
            forall|k: int|
                0 <= k < places@.len() ==> within(#[trigger] places@[k], width, height),
            forall|k: int| 0 <= k < before.len() ==> #[trigger] places@[k] == before[k],
            forall|m: Arithmetic<T>, k: int|
                #![trigger m.describes(), places@[k]]
                m.describes() && before.len() <= k < places@.len() ==> places@[k] == m.across(
                    grid,
                    width as int,
                    height as int,
                )[k - before.len()],
        decreases last - i,
    {
        let mut j: usize = 0;
        while j < rows
            invariant
                width > 0,
                height > 0,
                0 <= i < last,
                0 <= j <= rows,
                columns > 0 ==> last == columns - 1,
                columns == 0 ==> last == 0,
                grid == (Grid { columns: columns as int, rows: rows as int }),
                places@.len() == before.len() + i * rows + j,
                forall|k: int|
                    0 <= k < places@.len() ==> within(#[trigger] places@[k], width, height),
                forall|k: int| 0 <= k < before.len() ==> #[trigger] places@[k] == before[k],
                forall|m: Arithmetic<T>, k: int|
                    #![trigger m.describes(), places@[k]]
                    m.describes() && before.len() <= k < places@.len() ==> places@[k]
                        == m.across(grid, width as int, height as int)[k - before.len()],
            decreases rows - j,
        {
            proof {
                vstd::arithmetic::div_mod::lemma_fundamental_div_mod_converse(
                    i * rows + j,
                    rows as int,
                    i as int,
                    j as int,
                );
                assert(0 <= i * rows + j < last * rows) by (nonlinear_arith)
                    requires
                        0 <= i < last,
                        0 <= j < rows,
                ;
            }
            let a = grid_point::<T>(columns, rows, width, height, i, j);
            let b = grid_point::<T>(columns, rows, width, height, i + 1, j);
            places.push((a, b));
            j = j + 1;
        }
        assert((i + 1) * rows == i * rows + rows) by (nonlinear_arith);
        i = i + 1;
    }
    assert(forall|m: Arithmetic<T>| #[trigger]
        m.describes() ==> places@ =~= before + m.across(grid, width as int, height as int));
}

/// Appends the neighbors of a grid in the next row.
fn push_down<T: Scalar>(
    columns: usize,
    rows: usize,
    width: usize,
    height: usize,
    places: &mut Vec<(Point, Point)>,
)
    requires
        width > 0,
        height > 0,
        forall|k: int|
            0 <= k < old(places)@.len() ==> within(#[trigger] old(places)@[k], width, height),
    ensures
        forall|k: int|
            0 <= k < final(places)@.len() ==> within(#[trigger] final(places)@[k], width, height),
        final(places)@.len() == old(places)@.len() + Grid::edges(rows as int, columns as int),
        forall|m: Arithmetic<T>| #[trigger]
            m.describes() ==> final(places)@ == old(places)@ + m.down(
                Grid { columns: columns as int, rows: rows as int },
                width as int,
                height as int,
            ),
{
    let ghost grid = Grid { columns: columns as int, rows: rows as int };
    let ghost before = places@;
    let last: usize = if rows > 0 {
        rows - 1
    } else {
        0
    };
    let mut i: usize = 0;
    while i < columns
        invariant
            width > 0,
            height > 0,
            0 <= i <= columns,
            rows > 0 ==> last == rows - 1,
            rows == 0 ==> last == 0,
            grid == (Grid { columns: columns as int, rows: rows as int }),
            places@.len() == before.len() + i * last,
            forall|k: int|
                0 <= k < places@.len() ==> within(#[trigger] places@[k], width, height),
            forall|k: int| 0 <= k < before.len() ==> #[trigger] places@[k] == before[k],
            forall|m: Arithmetic<T>, k: int|
                #![trigger m.describes(), places@[k]]
                m.describes() && before.len() <= k < places@.len() ==> places@[k] == m.down(
                    grid,
                    width as int,
                    height as int,
                )[k - before.len()],
        decreases columns - i,
    {
        let mut j: usize = 0;
        while j < last
            invariant
                width > 0,
                height > 0,
                0 <= i < columns,
                0 <= j <= last,
                rows > 0 ==> last == rows - 1,
                rows == 0 ==> last == 0,
                grid == (Grid { columns: columns as int, rows: rows as int }),
                places@.len() == before.len() + i * last + j,
                forall|k: int|
                    0 <= k < places@.len() ==> within(#[trigger] places@[k], width, height),
                forall|k: int| 0 <= k < before.len() ==> #[trigger] places@[k] == before[k],
                forall|m: Arithmetic<T>, k: int|
                    #![trigger m.describes(), places@[k]]
                    m.describes() && before.len() <= k < places@.len() ==> places@[k] == m.down(
                        grid,
                        width as int,
                        height as int,
                    )[k - before.len()],
            decreases last - j,
        {
            proof {
                vstd::arithmetic::div_mod::lemma_fundamental_div_mod_converse(
                    i * last + j,
                    last as int,
                    i as int,
                    j as int,
                );
                assert(0 <= i * last + j < last * columns) by (nonlinear_arith)
                    requires
                        0 <= i < columns,
                        0 <= j < last,
                ;
            }
            let a = grid_point::<T>(columns, rows, width, height, i, j);
            let b = grid_point::<T>(columns, rows, width, height, i, j + 1);
            places.push((a, b));
            j = j + 1;
        }
        assert((i + 1) * last == i * last + last) by (nonlinear_arith);
        i = i + 1;
    }
    assert(columns * last == last * columns) by (nonlinear_arith);
    assert(forall|m: Arithmetic<T>| #[trigger]
        m.describes() ==> places@ =~= before + m.down(grid, width as int, height as int));
}

/// Whether both pixels of a pair lie in a picture of the given extents.
pub open spec fn within(place: (Point, Point), width: usize, height: usize) -> bool {
    &&& place.0.x < width
    &&& place.0.y < height
    &&& place.1.x < width
    &&& place.1.y < height
}

/// The places of the pairs that are drawn from a picture.
pub fn sample_places<T: Scalar>(width: u32, height: u32, samples: u32, seed: u64) -> (r: Vec<
    (Point, Point),
>)
    requires
        width > 0,
        height > 0,
        samples > 0,
        width * height <= isize::MAX,
    ensures
        forall|k: int|
            0 <= k < r@.len() ==> within(#[trigger] r@[k], width as usize, height as usize),
        r@.len() <= 3 * (samples * samples) + 1,
        forall|m: Arithmetic<T>| #[trigger]
            m.describes() ==> r@ == m.places(width as int, height as int, samples, seed),
{
    let (width, height) = (width as usize, height as usize);
    let (columns, rows) = grid_size::<T>(width, height, samples);
    let ghost grid = Grid { columns: columns as int, rows: rows as int };
    let points = grid_points::<T>(columns, rows, width, height);
    let mut partners = points.clone();
    let ghost unshuffled = points@;
    assert(partners@ =~= unshuffled);
    shuffle(&mut partners, seed);
    proof {
        crate::random::lemma_shuffled_items(unshuffled, seed, unshuffled.len() - 1);
    }
    let count = points.len();
    let mut places: Vec<(Point, Point)> = Vec::new();
    let mut k: usize = 0;
    while k < count
        invariant
            0 <= k <= count == points@.len() == partners@.len(),
            places@.len() == k,
            forall|i: int|
                0 <= i < points@.len() ==> (#[trigger] points@[i]).x < width && points@[i].y
                    < height,
            forall|i: int|
                0 <= i < unshuffled.len() ==> (#[trigger] unshuffled[i]).x < width
                    && unshuffled[i].y < height,
            forall|i: int|
                0 <= i < partners@.len() ==> unshuffled.contains(#[trigger] partners@[i]),
            forall|i: int|
                0 <= i < k ==> #[trigger] places@[i] == (points@[i], partners@[i]) && within(
                    places@[i],
                    width,
                    height,
                ),
        decreases count - k,
    {
        assert(unshuffled.contains(partners@[k as int]));
        places.push((points[k], partners[k]));
        k = k + 1;
    }
    assert(forall|m: Arithmetic<T>| #[trigger]
        m.describes() ==> places@ =~= m.matched(grid, width as int, height as int, seed));
    push_across::<T>(columns / 2, rows / 2, width, height, &mut places);
    push_down::<T>(columns / 2, rows / 2, width, height, &mut places);
    proof {
        lemma_place_count(grid, samples);
    }
    places
}

/// The random pairs and the neighbors of a bounded grid are bounded.
pub proof fn lemma_place_count(grid: Grid, samples: u32)
    requires
        1 <= grid.columns,
        1 <= grid.rows,
        grid.points() <= 2 * (samples * samples) + 1,
    ensures
        grid.points() + Grid::edges(grid.halved().columns, grid.halved().rows) + Grid::edges(
            grid.halved().rows,
            grid.halved().columns,
        ) <= 3 * (samples * samples) + 1,
{
    let (c, r) = (grid.columns, grid.rows);
    let (hc, hr) = (c / 2, r / 2);
    assert(4 * (hc * hr) <= c * r) by (nonlinear_arith)
        requires
            0 <= 2 * hc <= c,
            0 <= 2 * hr <= r,
    ;
    lemma_edges(hc, hr);
    lemma_edges(hr, hc);
    assert(hc * hr == hr * hc) by (nonlinear_arith);
}

/// The grid holds a bounded number of points, whatever the size and the shape
/// of the picture.
pub proof fn law_the_grid_is_bounded<T>(m: Arithmetic<T>, width: int, height: int, samples: u32)
    requires
        0 < width,
        0 < height,
        0 < samples,
    ensures
        1 <= m.grid(width, height, samples).columns <= width,
        1 <= m.grid(width, height, samples).rows <= height,
        m.grid(width, height, samples).points() <= 2 * (samples * samples) + 1,
{
    let grid = m.grid(width, height, samples);
    let scale = (m.over)(
        (m.from_int)(samples as u64),
        (m.square_root)((m.from_int)((width * height) as u64)),
    );
    let budget: int = samples * samples;
    assert(1 <= budget) by (nonlinear_arith)
        requires
            budget == samples * samples,
            1 <= samples,
    ;
    if m.fitting_lines(height, scale) >= 1 && m.fitting_lines(width, scale) >= 1 {
        let most = 2 * budget + 1;
        let columns = grid.columns;
        let limit = most / columns;
        vstd::arithmetic::div_mod::lemma_fundamental_div_mod(most, columns);
        vstd::arithmetic::div_mod::lemma_mod_bound(most, columns);
        let rest = most % columns;
        assert(1 <= limit && columns * grid.rows <= most) by (nonlinear_arith)
            requires
                most == columns * limit + rest,
                0 <= rest < columns <= most,
                grid.rows <= limit,
        ;
    } else {
        assert(grid.columns * grid.rows <= budget) by (nonlinear_arith)
            requires
                grid.columns == 1 && grid.rows <= budget || grid.rows == 1 && grid.columns
                    <= budget,
        ;
    }
}

/// The sample has a bounded size, whatever the size and the shape of the
/// picture.
pub proof fn law_the_sample_is_bounded<S, T>(
    m: Arithmetic<T>,
    c: Codec<S, T>,
    picture: Picture<S>,
    options: FastDecolorizeOptions<T>,
)
    requires
        0 < picture.width,
        0 < picture.height,
        0 < options.samples,
    ensures
        m.places(picture.width, picture.height, options.samples, options.seed).len() <= 3 * (
        options.samples * options.samples) + 1,
        m.sampled_pairs(c, picture, options).len() <= 3 * (options.samples * options.samples) + 1,
{
    broadcast use vstd::seq_lib::group_filter_ensures;

    let grid = m.grid(picture.width, picture.height, options.samples);
    law_the_grid_is_bounded(m, picture.width, picture.height, options.samples);
    lemma_place_count(grid, options.samples);
    lemma_edges(grid.halved().columns, grid.halved().rows);
    lemma_edges(grid.halved().rows, grid.halved().columns);
    assert(grid.points() >= 0) by (nonlinear_arith)
        requires
            grid.points() == grid.columns * grid.rows,
            grid.columns >= 1,
            grid.rows >= 1,
    ;
}

/// There are at most as many neighbors as points.
proof fn lemma_edges(along: int, across: int)
    requires
        0 <= along,
        0 <= across,
    ensures
        0 <= Grid::edges(along, across) <= along * across,
{
    let steps = if along > 0 {
        along - 1
    } else {
        0
    };
    assert(0 <= steps * across <= along * across) by (nonlinear_arith)
        requires
            0 <= steps <= along,
            0 <= across,
    ;
}

/// The pair at a place.
fn pair_at<T: Scalar, S: DecolorizeSubpixel<T>>(image: &Image<S>, place: (Point, Point)) -> (r:
    Pair<T>)
    requires
        image.wf(),
        within(place, image.width as usize, image.height as usize),
    ensures
        forall|m: Arithmetic<T>, c: Codec<S, T>|
            #![trigger m.describes(), c.describes()]
            m.describes() && c.describes() ==> r == m.pair_at(c, image@, place),
{
    let (a, b) = place;
    let width = image.width as usize;
    proof {
        image.lemma_area_fits();
        let (w, h) = (image.width as int, image.height as int);
        assert(0 <= a.y * w && a.y * w + a.x < w * h) by (nonlinear_arith)
            requires
                0 <= a.y < h,
                0 <= a.x < w,
        ;
        assert(0 <= b.y * w && b.y * w + b.x < w * h) by (nonlinear_arith)
            requires
                0 <= b.y < h,
                0 <= b.x < w,
        ;
    }
    let first = image.rgb(a.y * width + a.x);
    let second = image.rgb(b.y * width + b.x);
    let dr = first[0].to_unit().minus(second[0].to_unit());
    let dg = first[1].to_unit().minus(second[1].to_unit());
    let db = first[2].to_unit().minus(second[2].to_unit());
    let contrast = length(dr, dg, db).over(T::from_int(2).square_root());
    Pair { difference: (dr, dg, db), contrast }
}

/// The pairs at the given places whose contrast reaches a threshold.
fn contrasting_pairs<T: Scalar, S: DecolorizeSubpixel<T>>(
    image: &Image<S>,
    places: &Vec<(Point, Point)>,
    threshold: T,
) -> (r: Vec<Pair<T>>)
    requires
        image.wf(),
        forall|k: int|
            0 <= k < places@.len() ==> within(
                #[trigger] places@[k],
                image.width as usize,
                image.height as usize,
            ),
    ensures
        r@.len() <= places@.len(),
        forall|m: Arithmetic<T>, c: Codec<S, T>|
            #![trigger m.describes(), c.describes()]
            m.describes() && c.describes() ==> r@ == m.contrasting(c, image@, places@, threshold),
{
    let mut pairs: Vec<Pair<T>> = Vec::new();
    let count = places.len();
    let mut k: usize = 0;
    proof {
        assert forall|m: Arithmetic<T>, c: Codec<S, T>|
            #![trigger m.describes(), c.describes()]
            m.describes() && c.describes() implies pairs@ == m.contrasting(
            c,
            image@,
            places@.take(0),
            threshold,
        ) by {
            reveal(Seq::filter);
            assert(m.contrasting(c, image@, places@.take(0), threshold) =~= Seq::empty());
        }
    }
    while k < count
        invariant
            image.wf(),
            0 <= k <= count == places@.len(),
            pairs@.len() <= k,
            forall|i: int|
                0 <= i < places@.len() ==> within(
                    #[trigger] places@[i],
                    image.width as usize,
                    image.height as usize,
                ),
            forall|m: Arithmetic<T>, c: Codec<S, T>|
                #![trigger m.describes(), c.describes()]
                m.describes() && c.describes() ==> pairs@ == m.contrasting(
                    c,
                    image@,
                    places@.take(k as int),
                    threshold,
                ),
        decreases count - k,
    {
        let pair = pair_at::<T, S>(image, places[k]);
        if threshold.at_most(pair.contrast) {
            pairs.push(pair);
        }
        proof {
            assert forall|m: Arithmetic<T>, c: Codec<S, T>|
                #![trigger m.describes(), c.describes()]
                m.describes() && c.describes() implies pairs@ == m.contrasting(
                c,
                image@,
                places@.take(k + 1),
                threshold,
            ) by {
                lemma_contrasting_step(m, c, image@, places@, threshold, k as int);
            }
        }
        k = k + 1;
    }
    assert(places@.take(count as int) =~= places@);
    pairs
}

/// Which pairs are kept does not depend on the places that follow.
proof fn lemma_contrasting_step<S, T>(
    m: Arithmetic<T>,
    c: Codec<S, T>,
    picture: Picture<S>,
    places: Seq<(Point, Point)>,
    threshold: T,
    k: int,
)
    requires
        0 <= k < places.len(),
    ensures
        ({
            let pair = m.pair_at(c, picture, places[k]);
            let kept = m.contrasting(c, picture, places.take(k), threshold);
            m.contrasting(c, picture, places.take(k + 1), threshold) == if (m.at_most)(
                threshold,
                pair.contrast,
            ) {
                kept.push(pair)
            } else {
                kept
            }
        }),
{
    reveal(Seq::filter);
    let show = |place: (Point, Point)| m.pair_at(c, picture, place);
    let more = places.take(k + 1).map_values(show);
    assert(more.drop_last() =~= places.take(k).map_values(show));
    assert(more.last() == m.pair_at(c, picture, places[k]));
}

/// Draws the pixel pairs the candidate search is scored on: one randomly
/// matched pair per grid sample, plus the horizontal and vertical neighbors of
/// a grid half as fine.
///
/// The random pairs supply long range contrasts that a purely local objective
/// misses, between regions that never touch but must still be told apart. The
/// neighbor pairs keep local detail from being flattened.
pub fn sample_pairs<T: Scalar, S: DecolorizeSubpixel<T>>(
    image: &Image<S>,
    options: FastDecolorizeOptions<T>,
) -> (r: Vec<Pair<T>>)
    requires
        image.wf(),
        image.width > 0,
        image.height > 0,
        options.samples > 0,
    ensures
        r@.len() <= 3 * (options.samples * options.samples) + 1,
        forall|m: Arithmetic<T>, c: Codec<S, T>|
            #![trigger m.describes(), c.describes()]
            m.describes() && c.describes() ==> r@ == m.sampled_pairs(c, image@, options),
{
    proof {
        image.lemma_area_fits();
    }
    let places = sample_places::<T>(image.width, image.height, options.samples, options.seed);
    contrasting_pairs(image, &places, options.contrast_threshold)
}

} // verus!
