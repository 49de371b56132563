//! Neighboring pixel pairs.
use crate::planes::{PlaneSet, Planes};
use crate::scalar::{Arithmetic, Scalar};
use vstd::prelude::*;

verus! {

/// The pairs of pixels that share an edge, in a plane of the given extents.
///
/// Horizontal pairs come first and vertical pairs second, each kind row by row.
/// The color contrasts, the weak orders and the monomial differences all use
/// this ordering, so they can be indexed in lockstep.
pub struct Neighbors {
    pub width: int,
    pub height: int,
}

impl Neighbors {
    /// Number of horizontal pairs in one row.
    pub open spec fn across(self) -> int {
        if self.width > 0 {
            self.width - 1
        } else {
            0
        }
    }

    /// Number of rows that have a row below them.
    pub open spec fn down(self) -> int {
        if self.height > 0 {
            self.height - 1
        } else {
            0
        }
    }

    /// Number of horizontal pairs.
    pub open spec fn horizontal(self) -> int {
        self.across() * self.height
    }

    /// Number of pairs.
    pub open spec fn count(self) -> int {
        self.horizontal() + self.width * self.down()
    }

    /// Index of the left or upper pixel of pair `k`.
    pub open spec fn first(self, k: int) -> int {
        if k < self.horizontal() {
            k / self.across() * self.width + k % self.across()
        } else {
            k - self.horizontal()
        }
    }

    /// Index of the right or lower pixel of pair `k`.
    pub open spec fn second(self, k: int) -> int {
        if k < self.horizontal() {
            self.first(k) + 1
        } else {
            self.first(k) + self.width
        }
    }
}

/// Both pixels of a pair lie in the plane.
pub proof fn lemma_ends(pairs: Neighbors, k: int)
    requires
        0 <= pairs.width,
        0 <= pairs.height,
        0 <= k < pairs.count(),
    ensures
        0 <= pairs.first(k) < pairs.second(k) < pairs.width * pairs.height,
{
    let (w, h, a) = (pairs.width, pairs.height, pairs.across());
    if k < pairs.horizontal() {
        assert(a > 0) by (nonlinear_arith)
            requires
                0 <= k < a * h,
                0 <= h,
        ;
        let (y, x) = (k / a, k % a);
        vstd::arithmetic::div_mod::lemma_fundamental_div_mod(k, a);
        vstd::arithmetic::div_mod::lemma_multiply_divide_lt(k, a, h);
        vstd::arithmetic::div_mod::lemma_div_pos_is_pos(k, a);
        vstd::arithmetic::div_mod::lemma_mod_bound(k, a);
        assert(0 <= y * w && y * w + x + 1 < w * h) by (nonlinear_arith)
            requires
                0 <= y < h,
                0 <= x < w - 1,
        ;
    } else {
        assert(w > 0 && h > 0 && w * (h - 1) + w == w * h) by (nonlinear_arith)
            requires
                0 < w * pairs.down(),
                0 <= w,
                0 <= h,
                pairs.down() == if h > 0 {
                    h - 1
                } else {
                    0
                },
        ;
    }
}

/// There are fewer pairs than twice the pixels.
pub proof fn lemma_count_bound(pairs: Neighbors)
    requires
        0 <= pairs.width,
        0 <= pairs.height,
    ensures
        0 <= pairs.horizontal() <= pairs.count() <= 2 * (pairs.width * pairs.height),
{
    let (w, h) = (pairs.width, pairs.height);
    assert(0 <= pairs.across() * h <= w * h) by (nonlinear_arith)
        requires
            0 <= pairs.across() <= w,
            0 <= h,
    ;
    assert(0 <= w * pairs.down() <= w * h) by (nonlinear_arith)
        requires
            0 <= pairs.down() <= h,
            0 <= w,
    ;
}

impl<T> Arithmetic<T> {
    /// The difference between the two pixels of pair `k`.
    pub open spec fn pair_difference(self, plane: Seq<T>, pairs: Neighbors, k: int) -> T {
        (self.minus)(plane[pairs.first(k)], plane[pairs.second(k)])
    }
}

impl<T> PlaneSet<T> {
    /// The neighboring pairs of the planes.
    pub open spec fn neighbors(self) -> Neighbors {
        Neighbors { width: self.width, height: self.height }
    }
}

impl<T> Planes<T> {
    /// Number of four-neighbor pixel pairs.
    pub fn pair_count(&self) -> (r: usize)
        requires
            self.wf(),
        ensures
            r == self@.neighbors().count(),
    {
        proof {
            lemma_count_bound(self@.neighbors());
        }
        let across: usize = if self.width > 0 {
            self.width - 1
        } else {
            0
        };
        let down: usize = if self.height > 0 {
            self.height - 1
        } else {
            0
        };
        across * self.height + self.width * down
    }
}

/// Writes the difference `p(x) - p(y)` for every four-neighbor pixel pair into
/// `out`, horizontal pairs first and vertical pairs second.
pub fn pair_differences<T: Scalar>(plane: &[T], width: usize, height: usize, out: &mut [T])
    requires
        plane@.len() >= width * height,
        old(out)@.len() >= (Neighbors { width: width as int, height: height as int }).count(),
    ensures
        final(out)@.len() == old(out)@.len(),
        forall|m: Arithmetic<T>, k: int|
            #![trigger m.describes(), final(out)@[k]]
            m.describes() && 0 <= k < (Neighbors {
                width: width as int,
                height: height as int,
            }).count() ==> final(out)@[k] == m.pair_difference(
                plane@,
                Neighbors { width: width as int, height: height as int },
                k,
            ),
        forall|k: int|
            (Neighbors { width: width as int, height: height as int }).count() <= k < old(
                out,
            )@.len() ==> #[trigger] final(out)@[k] == old(out)@[k],
{
    let ghost pairs = Neighbors { width: width as int, height: height as int };
    let ghost before = out@;
    let (size, room) = (plane.len(), out.len());
    proof {
        lemma_count_bound(pairs);
    }
    let across: usize = if width > 0 {
        width - 1
    } else {
        0
    };
    let mut y: usize = 0;
    assert(0 * pairs.across() == 0);
    while y < height
        invariant
            0 <= y <= height,
            pairs == (Neighbors { width: width as int, height: height as int }),
            across == pairs.across(),
            plane@.len() == size >= width * height,
            out@.len() == before.len() == room >= pairs.count(),
            0 <= pairs.horizontal() <= pairs.count(),
            forall|m: Arithmetic<T>, k: int|
                #![trigger m.describes(), out@[k]]
                m.describes() && 0 <= k < y * across ==> out@[k] == m.pair_difference(
                    plane@,
                    pairs,
                    k,
                ),
            forall|k: int|
                pairs.count() <= k < before.len() ==> #[trigger] out@[k] == before[k],
        decreases height - y,
    {
        let mut x: usize = 0;
        while x < across
            invariant
                0 <= y < height,
                0 <= x <= across,
                pairs == (Neighbors { width: width as int, height: height as int }),
                across == pairs.across(),
                plane@.len() == size >= width * height,
                out@.len() == before.len() == room >= pairs.count(),
                0 <= pairs.horizontal() <= pairs.count(),
                forall|m: Arithmetic<T>, k: int|
                    #![trigger m.describes(), out@[k]]
                    m.describes() && 0 <= k < y * across + x ==> out@[k] == m.pair_difference(
                        plane@,
                        pairs,
                        k,
                    ),
                forall|k: int|
                    pairs.count() <= k < before.len() ==> #[trigger] out@[k] == before[k],
            decreases across - x,
        {
            proof {
                assert(0 <= y * across && y * across + x < pairs.across() * height)
                    by (nonlinear_arith)
                    requires
                        0 <= x < across,
                        0 <= y < height,
                        across == pairs.across(),
                ;
                assert(0 <= y * width && y * width + x + 1 < width * height) by (nonlinear_arith)
                    requires
                        0 <= x < width - 1,
                        0 <= y < height,
                ;
                vstd::arithmetic::div_mod::lemma_fundamental_div_mod_converse(
                    y * across + x,
                    across as int,
                    y as int,
                    x as int,
                );
            }
            let left: usize = y * width + x;
            out[y * across + x] = plane[left].minus(plane[left + 1]);
            x = x + 1;
        }
        assert((y + 1) * across == y * across + across) by (nonlinear_arith);
        y = y + 1;
    }
    assert(height * across == across * height) by (nonlinear_arith);
    let offset: usize = across * height;
    let down: usize = if height > 0 {
        height - 1
    } else {
        0
    };
    y = 0;
    while y < down
        invariant
            0 <= y <= down,
            pairs == (Neighbors { width: width as int, height: height as int }),
            down == pairs.down(),
            offset == pairs.horizontal(),
            plane@.len() == size >= width * height,
            out@.len() == before.len() == room >= pairs.count(),
            0 <= pairs.horizontal() <= pairs.count(),
            forall|m: Arithmetic<T>, k: int|
                #![trigger m.describes(), out@[k]]
                m.describes() && 0 <= k < offset + y * width ==> out@[k] == m.pair_difference(
                    plane@,
                    pairs,
                    k,
                ),
            forall|k: int|
                pairs.count() <= k < before.len() ==> #[trigger] out@[k] == before[k],
        decreases down - y,
    {
        let mut x: usize = 0;
        while x < width
            invariant
                0 <= y < down,
                0 <= x <= width,
                pairs == (Neighbors { width: width as int, height: height as int }),
                down == pairs.down(),
                offset == pairs.horizontal(),
                plane@.len() == size >= width * height,
                out@.len() == before.len() == room >= pairs.count(),
                0 <= pairs.horizontal() <= pairs.count(),
                forall|m: Arithmetic<T>, k: int|
                    #![trigger m.describes(), out@[k]]
                    m.describes() && 0 <= k < offset + y * width + x ==> out@[k]
                        == m.pair_difference(plane@, pairs, k),
                forall|k: int|
                    pairs.count() <= k < before.len() ==> #[trigger] out@[k] == before[k],
            decreases width - x,
        {
            proof {
                assert(0 <= y * width && y * width + x < width * down && y * width + x + width
                    < width * height) by (nonlinear_arith)
                    requires
                        0 <= x < width,
                        0 <= y < down,
                        down + 1 == height,
                ;
            }
            let upper: usize = y * width + x;
            out[offset + upper] = plane[upper].minus(plane[upper + width]);
            x = x + 1;
        }
        assert((y + 1) * width == y * width + width) by (nonlinear_arith);
        y = y + 1;
    }
    assert(down * width == width * down) by (nonlinear_arith);
}

/// The difference of every four-neighbor pixel pair of a plane.
pub(crate) fn differences<T: Scalar>(plane: &Vec<T>, width: usize, height: usize) -> (r: Vec<T>)
    requires
        plane@.len() == width * height,
        2 * (width * height) <= usize::MAX,
    ensures
        r@.len() == (Neighbors { width: width as int, height: height as int }).count(),
        forall|m: Arithmetic<T>, k: int|
            #![trigger m.describes(), r@[k]]
            m.describes() && 0 <= k < r@.len() ==> r@[k] == m.pair_difference(
                plane@,
                Neighbors { width: width as int, height: height as int },
                k,
            ),
{
    let ghost pairs = Neighbors { width: width as int, height: height as int };
    proof {
        lemma_count_bound(pairs);
    }
    let across: usize = if width > 0 {
        width - 1
    } else {
        0
    };
    let down: usize = if height > 0 {
        height - 1
    } else {
        0
    };
    let mut out: Vec<T> = vec![T::from_int(0); across * height + width * down];
    pair_differences(plane.as_slice(), width, height, out.as_mut_slice());
    out
}

} // verus!
