use vstd::prelude::*;
use crate::pos::{
    Pos, SPAN, fits, floor_sqrt, is_floor_sqrt, lemma_floor_sqrt_unique, lemma_mul_bound,
    lemma_square_nonneg,
};

verus! {

/// Distance cut from both ends of each segment before testing for a crossing,
/// so that segments which only share an endpoint do not count as crossing.
pub const TRIM: i64 = 2;

/// A straight segment from `start` to `end`.
#[derive(Clone, Copy, Debug, PartialEq, Eq, Structural)]
pub struct LineSegment {
    pub start: Pos,
    pub end: Pos,
}

/// Sign of `v`: 1, -1 or 0.
pub open spec fn sign(v: int) -> int {
    if v > 0 {
        1
    } else if v < 0 {
        -1
    } else {
        0
    }
}

/// Cross product of the vectors `(ax, ay)` and `(bx, by)`.
pub open spec fn cross(ax: int, ay: int, bx: int, by: int) -> int {
    ax * by - ay * bx
}

/// Turn made at `b` on the way `a -> b -> c`: positive clockwise,
/// negative counter-clockwise, zero when the three points are collinear.
pub open spec fn orientation(a: Pos, b: Pos, c: Pos) -> int {
    (b.y - a.y) * (c.x - b.x) - (b.x - a.x) * (c.y - b.y)
}

/// `p` lies in the axis-aligned box spanned by `a` and `b`, bounds included.
pub open spec fn in_box(a: Pos, b: Pos, p: Pos) -> bool {
    (a.x <= p.x <= b.x || b.x <= p.x <= a.x) && (a.y <= p.y <= b.y || b.y <= p.y <= a.y)
}

/// `n / d` times the length `sqrt(l2)` is at least `k` (for `d > 0`, `k >= 0`).
pub open spec fn scaled_at_least(n: int, d: int, l2: int, k: int) -> bool {
    n >= 0 && n * n * l2 >= k * k * (d * d)
}

/// `n / d` times the length `sqrt(l2)` is at most `k` (for `d > 0`, `k >= 0`).
pub open spec fn scaled_at_most(n: int, d: int, l2: int, k: int) -> bool {
    n <= 0 || n * n * l2 <= k * k * (d * d)
}

/// The point at parameter `n / d` (with `d > 0`) along a segment of squared
/// length `l2` lies on that segment once `TRIM` is cut from both of its ends.
/// Cutting by the fraction `f = TRIM / length` keeps the parameters between
/// `f` and `1 - f`; on a segment shorter than `2 * TRIM` these swap, and the
/// kept part reaches beyond the ends. At exactly `2 * TRIM` nothing but one
/// point is left, which has no direction and crosses nothing.
pub open spec fn on_trimmed(n: int, d: int, l2: int) -> bool {
    if l2 > 4 * TRIM * TRIM {
        scaled_at_least(n, d, l2, TRIM as int) && scaled_at_least(d - n, d, l2, TRIM as int)
    } else if l2 < 4 * TRIM * TRIM {
        scaled_at_most(n, d, l2, TRIM as int) && scaled_at_most(d - n, d, l2, TRIM as int)
    } else {
        false
    }
}

/// `n / d` truncated toward zero (for `d > 0`).
pub open spec fn trunc_div(n: int, d: int) -> int {
    if n >= 0 {
        n / d
    } else {
        -((-n) / d)
    }
}

/// The integer square root of `n >= 0`.
pub open spec fn floor_sqrt_of(n: int) -> int {
    choose|r: int| is_floor_sqrt(r, n)
}

/// `v * a / sqrt(l2)` truncated toward zero (for `l2 > 0`, `a >= 0`).
pub open spec fn fixed_offset(v: int, a: int, l2: int) -> int {
    if v >= 0 {
        floor_sqrt_of((v * v * a * a) / l2)
    } else {
        -floor_sqrt_of((v * v * a * a) / l2)
    }
}

impl LineSegment {
    pub open spec fn dx(self) -> int {
        self.end.x - self.start.x
    }

    pub open spec fn dy(self) -> int {
        self.end.y - self.start.y
    }

    pub open spec fn length_sq(self) -> int {
        self.dx() * self.dx() + self.dy() * self.dy()
    }

    /// The segment with each end moved toward the other by `(ox, oy)`.
    pub open spec fn moved_in(self, ox: int, oy: int) -> (Pos, Pos) {
        (
            Pos { x: (self.start.x + ox) as i16, y: (self.start.y + oy) as i16 },
            Pos { x: (self.end.x - ox) as i16, y: (self.end.y - oy) as i16 },
        )
    }

    /// Both ends, moved inward by `(ox, oy)`, stay within `i16`.
    pub open spec fn room_for(self, ox: int, oy: int) -> bool {
        fits(self.start.x + ox) && fits(self.start.y + oy) && fits(self.end.x - ox) && fits(
            self.end.y - oy,
        )
    }
}

/// The trimmed-segment crossing test. With `r` and `s` the direction vectors of
/// `a` and `b` and `q` the vector from `a.start` to `b.start`, the supporting
/// lines meet at parameter `cross(q, s) / cross(r, s)` along `a` and
/// `cross(q, r) / cross(r, s)` along `b`. Parallel or collinear segments
/// (`cross(r, s) == 0`) never cross, even where they overlap.
pub open spec fn segments_intersect(a: LineSegment, b: LineSegment) -> bool {
    let den = cross(a.dx(), a.dy(), b.dx(), b.dy());
    let qx = b.start.x - a.start.x;
    let qy = b.start.y - a.start.y;
    let tn = cross(qx, qy, b.dx(), b.dy());
    let un = cross(qx, qy, a.dx(), a.dy());
    if den > 0 {
        on_trimmed(tn, den, a.length_sq()) && on_trimmed(un, den, b.length_sq())
    } else if den < 0 {
        on_trimmed(-tn, -den, a.length_sq()) && on_trimmed(-un, -den, b.length_sq())
    } else {
        false
    }
}

/// Exact evaluation of `on_trimmed` on values of the size that `i16` coordinates give.
fn within_trimmed(n: i64, d: i64, l2: i64) -> (r: bool)
    requires
        0 < d <= 2 * SPAN * SPAN,
        -2 * SPAN * SPAN <= n <= 2 * SPAN * SPAN,
        0 <= l2 <= 2 * SPAN * SPAN,
    ensures
        r == on_trimmed(n as int, d as int, l2 as int),
{
    let m: i128 = d as i128 - n as i128;
    proof {
        let b: int = 0x2_0000_0000;
        lemma_mul_bound(n as int, n as int, b, b);
        lemma_mul_bound(m as int, m as int, 2 * b, 2 * b);
        lemma_mul_bound(d as int, d as int, b, b);
        lemma_square_nonneg(n as int);
        lemma_square_nonneg(m as int);
        lemma_square_nonneg(d as int);
    }
    let n2: i128 = n as i128 * n as i128;
    let m2: i128 = m * m;
    let d2: i128 = d as i128 * d as i128;
    proof {
        let b: int = 0x2_0000_0000;
        lemma_mul_bound(n2 as int, l2 as int, b * b, b);
        lemma_mul_bound(m2 as int, l2 as int, 4 * b * b, b);
    }
    let nl: i128 = n2 * l2 as i128;
    let ml: i128 = m2 * l2 as i128;
    assert((TRIM as int) * (TRIM as int) == 4);
    let lim: i128 = 4 * d2;
    let full: i64 = 4 * TRIM * TRIM;
    if l2 > full {
        n >= 0 && nl >= lim && m >= 0 && ml >= lim
    } else if l2 < full {
        (n <= 0 || nl <= lim) && (m <= 0 || ml <= lim)
    } else {
        false
    }
}

/// `v * num / den` truncated toward zero.
fn scaled_trunc(v: i64, num: i32, den: u32) -> (r: i64)
    requires
        -SPAN <= v <= SPAN,
        den > 0,
    ensures
        r == trunc_div(v * num, den as int),
{
    proof {
        lemma_mul_bound(v as int, num as int, SPAN as int, 0x8000_0000);
    }
    let p: i64 = v * num as i64;
    if p >= 0 {
        (p as u64 / den as u64) as i64
    } else {
        -(((-p) as u64 / den as u64) as i64)
    }
}

/// `v * a / sqrt(l2)` truncated toward zero, for `v` one component of a
/// vector whose squared length is `l2`.
fn fixed_trunc(v: i64, a: u16, l2: u64) -> (r: i64)
    requires
        -SPAN <= v <= SPAN,
        0 < l2 <= 2 * SPAN * SPAN,
        v * v <= l2,
    ensures
        r == fixed_offset(v as int, a as int, l2 as int),
{
    let mag: u64 = if v >= 0 {
        v as u64
    } else {
        (-v) as u64
    };
    proof {
        lemma_mul_bound(mag as int, a as int, SPAN as int, SPAN as int);
    }
    let va: u64 = mag * a as u64;
    proof {
        lemma_mul_bound(va as int, va as int, SPAN * SPAN, SPAN * SPAN);
        assert(va * va == v * v * a * a) by (nonlinear_arith)
            requires
                va == mag * a,
                mag == v || mag == -v,
        ;
        assert(v * v * a * a <= l2 * (a * a)) by (nonlinear_arith)
            requires
                v * v <= l2,
        ;
    }
    let x: u64 = va * va;
    let q: u64 = x / l2;
    proof {
        vstd::arithmetic::div_mod::lemma_fundamental_div_mod(x as int, l2 as int);
        vstd::arithmetic::div_mod::lemma_mod_pos_bound(x as int, l2 as int);
        assert(q <= a * a) by (nonlinear_arith)
            requires
                x == l2 * q + x % l2,
                x % l2 >= 0,
                x <= l2 * (a * a),
                l2 > 0,
        ;
        lemma_mul_bound(a as int, a as int, SPAN as int, SPAN as int);
    }
    let m: u64 = floor_sqrt(q);
    proof {
        let c = floor_sqrt_of(q as int);
        assert(is_floor_sqrt(c, q as int));
        lemma_floor_sqrt_unique(c, m as int, q as int);
        assert(m <= 0x10000) by (nonlinear_arith)
            requires
                m * m <= q,
                q <= SPAN * SPAN,
        ;
    }
    if v >= 0 {
        m as i64
    } else {
        -(m as i64)
    }
}

impl LineSegment {
    pub fn new(start: Pos, end: Pos) -> (r: LineSegment)
        ensures
            r.start == start,
            r.end == end,
    {
        LineSegment { start, end }
    }

    /// Moves each end toward the other by the fraction `num / den` of the
    /// segment's vector, each coordinate of the move truncated toward zero.
    pub fn shorten_with_factor(&self, num: i32, den: u32) -> (r: LineSegment)
        requires
            den > 0,
            self.room_for(
                trunc_div(self.dx() * num, den as int),
                trunc_div(self.dy() * num, den as int),
            ),
        ensures
            (r.start, r.end) == self.moved_in(
                trunc_div(self.dx() * num, den as int),
                trunc_div(self.dy() * num, den as int),
            ),
    {
        let ox: i64 = scaled_trunc(self.end.x as i64 - self.start.x as i64, num, den);
        let oy: i64 = scaled_trunc(self.end.y as i64 - self.start.y as i64, num, den);
        let start = Pos::new((self.start.x as i64 + ox) as i16, (self.start.y as i64 + oy) as i16);
        let end = Pos::new((self.end.x as i64 - ox) as i16, (self.end.y as i64 - oy) as i16);
        LineSegment { start, end }
    }

    /// Moves each end toward the other by the distance `amount`, each
    /// coordinate of the move truncated toward zero. A segment of length zero
    /// has no direction to move along and comes back unchanged.
    pub fn shorten_by_fixed_amount(&self, amount: u16) -> (r: LineSegment)
        requires
            self.length_sq() == 0 || self.room_for(
                fixed_offset(self.dx(), amount as int, self.length_sq()),
                fixed_offset(self.dy(), amount as int, self.length_sq()),
            ),
        ensures
            self.length_sq() == 0 ==> r == *self,
            self.length_sq() != 0 ==> (r.start, r.end) == self.moved_in(
                fixed_offset(self.dx(), amount as int, self.length_sq()),
                fixed_offset(self.dy(), amount as int, self.length_sq()),
            ),
    {
        let dx: i64 = self.end.x as i64 - self.start.x as i64;
        let dy: i64 = self.end.y as i64 - self.start.y as i64;
        let length_sq: u64 = crate::pos::distance_sq(&self.end, &self.start);
        if length_sq == 0 {
            return *self;
        }
        proof {
            lemma_square_nonneg(dx as int);
            lemma_square_nonneg(dy as int);
        }
        let ox: i64 = fixed_trunc(dx, amount, length_sq);
        let oy: i64 = fixed_trunc(dy, amount, length_sq);
        let start = Pos::new((self.start.x as i64 + ox) as i16, (self.start.y as i64 + oy) as i16);
        let end = Pos::new((self.end.x as i64 - ox) as i16, (self.end.y as i64 - oy) as i16);
        LineSegment { start, end }
    }

    /// Whether the two segments cross, once `TRIM` has been cut from both ends
    /// of each. The trim is applied exactly, along each segment's parameter.
    pub fn line_segments_intersect(&self, other: &LineSegment) -> (r: bool)
        ensures
            r == segments_intersect(*self, *other),
    {
        let rx: i64 = self.end.x as i64 - self.start.x as i64;
        let ry: i64 = self.end.y as i64 - self.start.y as i64;
        let sx: i64 = other.end.x as i64 - other.start.x as i64;
        let sy: i64 = other.end.y as i64 - other.start.y as i64;
        let qx: i64 = other.start.x as i64 - self.start.x as i64;
        let qy: i64 = other.start.y as i64 - self.start.y as i64;
        proof {
            let m = SPAN as int;
            lemma_mul_bound(rx as int, sy as int, m, m);
            lemma_mul_bound(ry as int, sx as int, m, m);
            lemma_mul_bound(qx as int, sy as int, m, m);
            lemma_mul_bound(qy as int, sx as int, m, m);
            lemma_mul_bound(qx as int, ry as int, m, m);
            lemma_mul_bound(qy as int, rx as int, m, m);
            lemma_mul_bound(rx as int, rx as int, m, m);
            lemma_mul_bound(ry as int, ry as int, m, m);
            lemma_mul_bound(sx as int, sx as int, m, m);
            lemma_mul_bound(sy as int, sy as int, m, m);
            lemma_square_nonneg(rx as int);
            lemma_square_nonneg(ry as int);
            lemma_square_nonneg(sx as int);
            lemma_square_nonneg(sy as int);
        }
        let den: i64 = rx * sy - ry * sx;
        let tn: i64 = qx * sy - qy * sx;
        let un: i64 = qx * ry - qy * rx;
        let len_a: i64 = rx * rx + ry * ry;
        let len_b: i64 = sx * sx + sy * sy;
        if den > 0 {
            within_trimmed(tn, den, len_a) && within_trimmed(un, den, len_b)
        } else if den < 0 {
            within_trimmed(-tn, -den, len_a) && within_trimmed(-un, -den, len_b)
        } else {
            false
        }
    }
}

/// The crossing test does not depend on the order of the two segments.
pub proof fn lemma_intersect_symmetric(a: LineSegment, b: LineSegment)
    ensures
        segments_intersect(a, b) == segments_intersect(b, a),
{
    let (ax, ay, bx, by) = (a.dx(), a.dy(), b.dx(), b.dy());
    let (qx, qy) = (b.start.x - a.start.x, b.start.y - a.start.y);
    assert(cross(bx, by, ax, ay) == -cross(ax, ay, bx, by)) by (nonlinear_arith);
    assert(cross(-qx, -qy, ax, ay) == -cross(qx, qy, ax, ay)) by (nonlinear_arith);
    assert(cross(-qx, -qy, bx, by) == -cross(qx, qy, bx, by)) by (nonlinear_arith);
}

/// Sign of the turn at `b` on the way `a -> b -> c`.
pub fn direction(a: &Pos, b: &Pos, c: &Pos) -> (r: i32)
    ensures
        r == sign(orientation(*a, *b, *c)),
{
    let rise: i64 = b.y as i64 - a.y as i64;
    let run_after: i64 = c.x as i64 - b.x as i64;
    let run: i64 = b.x as i64 - a.x as i64;
    let rise_after: i64 = c.y as i64 - b.y as i64;
    proof {
        lemma_mul_bound(rise as int, run_after as int, SPAN as int, SPAN as int);
        lemma_mul_bound(run as int, rise_after as int, SPAN as int, SPAN as int);
    }
    let val: i64 = rise * run_after - run * rise_after;
    if val == 0 {
        0
    } else if val > 0 {
        1
    } else {
        -1
    }
}

/// Whether `p` lies in the box spanned by `a` and `b`, bounds included.
pub fn on_segment(a: &Pos, p: &Pos, b: &Pos) -> (r: bool)
    ensures
        r == in_box(*a, *b, *p),
{
    let in_x = (a.x <= p.x && p.x <= b.x) || (b.x <= p.x && p.x <= a.x);
    let in_y = (a.y <= p.y && p.y <= b.y) || (b.y <= p.y && p.y <= a.y);
    in_x && in_y
}

} // verus!
