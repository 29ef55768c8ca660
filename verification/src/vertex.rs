use vstd::prelude::*;

verus! {

/// An immutable integer grid coordinate, the identity key used throughout a
/// search; compared and hashed by value.
#[derive(Clone, Copy, PartialEq, Eq, Structural, Hash, Debug)]
pub struct Vertex {
    pub x: i32,
    pub y: i32,
}

/// The square of an integer.
pub open spec fn sq(a: int) -> int {
    a * a
}

/// The squared Euclidean distance between two vertices.
pub open spec fn dist_sq(a: Vertex, b: Vertex) -> int {
    sq(a.x - b.x) + sq(a.y - b.y)
}

/// The Chebyshev distance between two vertices.
pub open spec fn cheb(a: Vertex, b: Vertex) -> int {
    vstd::math::max(vstd::math::abs(a.x - b.x) as int, vstd::math::abs(a.y - b.y) as int)
}

/// The coordinates are close enough together that the scaled Euclidean
/// distance between them fits in an `i32`.
pub open spec fn distance_fits(a: Vertex, b: Vertex) -> bool {
    100 * dist_sq(a, b) < 0x4000_0000_0000_0000
}

/// The coordinates are close enough together that the scaled Chebyshev
/// distance between them fits in an `i32`.
pub open spec fn heuristic_fits(a: Vertex, b: Vertex) -> bool {
    10 * cheb(a, b) <= 0x7fff_ffff
}

/// Floor of the square root: the unique `r` with `r * r <= n < (r + 1) * (r + 1)`,
/// found by binary search.
fn isqrt(n: u64) -> (r: u64)
    requires
        n < 0x4000_0000_0000_0000,
    ensures
        sq(r as int) <= n as int,
        (n as int) < sq(r as int + 1),
{
    let mut lo: u64 = 0;
    let mut hi: u64 = 0x8000_0000;
    proof {
        assert((0 as int) * 0 == 0 && (0x8000_0000 as int) * 0x8000_0000
            == 0x4000_0000_0000_0000) by (nonlinear_arith);
    }
    while lo + 1 < hi
        invariant
            lo < hi <= 0x8000_0000,
            sq(lo as int) <= n as int,
            (n as int) < sq(hi as int),
        decreases hi - lo,
    {
        let mid: u64 = lo + (hi - lo) / 2;
        proof {
            assert(mid * mid < 0x4000_0000_0000_0000) by (nonlinear_arith)
                requires 0 <= mid < 0x8000_0000;
        }
        if mid * mid <= n {
            lo = mid;
        } else {
            hi = mid;
        }
    }
    lo
}

impl Vertex {
    pub fn new(x: i32, y: i32) -> (r: Vertex)
        ensures
            r == (Vertex { x, y }),
    {
        Vertex { x, y }
    }

    /// Edge traversal cost: the Euclidean distance between the two points
    /// scaled by 10 and truncated to an integer.
    pub fn distance(&self, goal: &Vertex) -> (r: i32)
        requires
            distance_fits(*self, *goal),
        ensures
            0 <= r,
            sq(r as int) <= 100 * dist_sq(*self, *goal),
            100 * dist_sq(*self, *goal) < sq(r as int + 1),
            *self == *goal ==> r == 0,
            *self != *goal ==> 1 <= r,
    {
        let dx: i64 = self.x as i64 - goal.x as i64;
        let dy: i64 = self.y as i64 - goal.y as i64;
        proof {
            assert(dx * dx == sq(dx as int) && dy * dy == sq(dy as int));
            assert(sq(dx as int) >= 0 && sq(dy as int) >= 0) by (nonlinear_arith);
        }
        let s: i64 = dx * dx + dy * dy;
        proof {
            assert(s == dist_sq(*self, *goal));
        }
        let n: u64 = (100 * s) as u64;
        proof {
            assert(n as int == 100 * dist_sq(*self, *goal));
        }
        let r64 = isqrt(n);
        proof {
            assert(r64 < 0x8000_0000) by {
                if r64 >= 0x8000_0000 {
                    assert((r64 as int) * (r64 as int) >= 0x4000_0000_0000_0000)
                        by (nonlinear_arith)
                        requires r64 >= 0x8000_0000;
                }
            }
            if *self != *goal {
                assert(dx != 0 || dy != 0);
                assert(dx * dx + dy * dy >= 1) by (nonlinear_arith)
                    requires dx != 0 || dy != 0;
                assert(n >= 100);
                assert(r64 >= 1) by {
                    if r64 == 0 {
                        assert((r64 as int + 1) * (r64 as int + 1) == 1) by (nonlinear_arith)
                            requires r64 == 0;
                    }
                }
            }
            if *self == *goal {
                assert(dx == 0 && dy == 0);
                assert(dx * dx + dy * dy == 0) by (nonlinear_arith)
                    requires dx == 0 && dy == 0;
                assert(n == 0);
                assert(r64 == 0) by {
                    if r64 >= 1 {
                        assert((r64 as int) * (r64 as int) >= 1) by (nonlinear_arith)
                            requires r64 >= 1;
                    }
                }
            }
        }
        r64 as i32
    }

    /// Estimated remaining cost: the Chebyshev distance between the two
    /// points scaled by 10.
    pub fn hdistance(&self, goal: &Vertex) -> (r: i32)
        requires
            heuristic_fits(*self, *goal),
        ensures
            r == 10 * cheb(*self, *goal),
            0 <= r,
    {
        let dx: i64 = self.x as i64 - goal.x as i64;
        let dy: i64 = self.y as i64 - goal.y as i64;
        let adx: i64 = if dx < 0 { -dx } else { dx };
        let ady: i64 = if dy < 0 { -dy } else { dy };
        let m: i64 = if adx < ady { ady } else { adx };
        (10 * m) as i32
    }
}

} // verus!
