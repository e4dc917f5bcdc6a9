use vstd::prelude::*;

verus! {

/// Largest absolute difference of two `i16` coordinates.
pub const SPAN: i64 = 65535;

/// A point of the plane, in whole units.
#[derive(Clone, Copy, Debug, PartialEq, Eq, Structural)]
pub struct Pos {
    pub x: i16,
    pub y: i16,
}

/// Whether `v` fits in an `i16` coordinate.
pub open spec fn fits(v: int) -> bool {
    i16::MIN <= v <= i16::MAX
}

/// Squared Euclidean distance between two points.
pub open spec fn dist_sq(a: Pos, b: Pos) -> int {
    (a.x - b.x) * (a.x - b.x) + (a.y - b.y) * (a.y - b.y)
}

/// `r` is the integer square root of `n`: the largest integer whose square is at most `n`.
pub open spec fn is_floor_sqrt(r: int, n: int) -> bool {
    0 <= r && r * r <= n < (r + 1) * (r + 1)
}

/// The integer square root is unique.
pub proof fn lemma_floor_sqrt_unique(r1: int, r2: int, n: int)
    requires
        is_floor_sqrt(r1, n),
        is_floor_sqrt(r2, n),
    ensures
        r1 == r2,
{
    if r1 < r2 {
        assert((r1 + 1) * (r1 + 1) <= r2 * r2) by (nonlinear_arith)
            requires
                0 <= r1 < r2,
        ;
    } else if r2 < r1 {
        assert((r2 + 1) * (r2 + 1) <= r1 * r1) by (nonlinear_arith)
            requires
                0 <= r2 < r1,
        ;
    }
}

/// The absolute value of a product is bounded by the product of the bounds.
pub proof fn lemma_mul_bound(a: int, b: int, ma: int, mb: int)
    requires
        -ma <= a <= ma,
        -mb <= b <= mb,
    ensures
        -(ma * mb) <= a * b <= ma * mb,
{
    assert(-(ma * mb) <= a * b <= ma * mb) by (nonlinear_arith)
        requires
            -ma <= a <= ma,
            -mb <= b <= mb,
    ;
}

/// A square is never negative.
pub proof fn lemma_square_nonneg(a: int)
    ensures
        a * a >= 0,
{
    assert(a * a >= 0) by (nonlinear_arith);
}

/// Squared distance is exact in `u64`, and bounded by twice the square of the span.
pub fn distance_sq(a: &Pos, b: &Pos) -> (r: u64)
    ensures
        r == dist_sq(*a, *b),
        r <= 2 * SPAN * SPAN,
{
    let dx: i64 = a.x as i64 - b.x as i64;
    let dy: i64 = a.y as i64 - b.y as i64;
    proof {
        lemma_mul_bound(dx as int, dx as int, SPAN as int, SPAN as int);
        lemma_mul_bound(dy as int, dy as int, SPAN as int, SPAN as int);
        lemma_square_nonneg(dx as int);
        lemma_square_nonneg(dy as int);
    }
    (dx * dx + dy * dy) as u64
}

/// Integer square root by bisection.
pub(crate) fn floor_sqrt(n: u64) -> (r: u64)
    requires
        n <= 2 * SPAN * SPAN,
    ensures
        is_floor_sqrt(r as int, n as int),
{
    let mut lo: u64 = 0;
    let mut hi: u64 = 0x20000;
    assert(hi * hi > n);
    while hi - lo > 1
        invariant
            lo < hi <= 0x20000,
            lo * lo <= n,
            n < hi * hi,
        decreases hi - lo,
    {
        let mid: u64 = lo + (hi - lo) / 2;
        proof {
            lemma_mul_bound(mid as int, mid as int, 0x20000, 0x20000);
        }
        if mid * mid <= n {
            lo = mid;
        } else {
            hi = mid;
        }
    }
    lo
}

impl Pos {
    pub open spec fn new_spec(x: i16, y: i16) -> Pos {
        Pos { x, y }
    }

    pub fn new(x: i16, y: i16) -> (r: Pos)
        ensures
            r == Pos::new_spec(x, y),
    {
        Pos { x, y }
    }

    /// Euclidean distance to `other`, rounded down to a whole unit.
    pub fn distance(&self, other: &Pos) -> (r: u64)
        ensures
            is_floor_sqrt(r as int, dist_sq(*self, *other)),
    {
        floor_sqrt(distance_sq(self, other))
    }

    /// Vector difference `self - other`.
    pub fn sub(self, other: Pos) -> (r: Pos)
        requires
            fits(self.x - other.x),
            fits(self.y - other.y),
        ensures
            r.x == self.x - other.x,
            r.y == self.y - other.y,
    {
        Pos { x: self.x - other.x, y: self.y - other.y }
    }

    /// Scalar multiple `self * k`.
    pub fn mul(self, k: i16) -> (r: Pos)
        requires
            fits(self.x * k),
            fits(self.y * k),
        ensures
            r.x == self.x * k,
            r.y == self.y * k,
    {
        Pos { x: self.x * k, y: self.y * k }
    }
}

/// Distance is symmetric, and zero from a point to itself.
pub proof fn lemma_distance_symmetric(a: Pos, b: Pos)
    ensures
        dist_sq(a, b) == dist_sq(b, a),
        dist_sq(a, a) == 0,
{
    assert(dist_sq(a, b) == dist_sq(b, a)) by (nonlinear_arith);
}

} // verus!
