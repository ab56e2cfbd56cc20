//! Two-dimensional integer coordinates and half-open axis-aligned
//! rectangles, with the chunk arithmetic the rest of the crate is built on.
//!
//! Chunk bucketing uses floor division, so negative coordinates map
//! consistently: with chunk size 10, the tile at x = -1 belongs to the chunk
//! whose origin is -10, at inner offset 9.

use vstd::prelude::*;
use vstd::arithmetic::div_mod::{
    lemma_div_is_ordered_by_denominator, lemma_div_nonincreasing, lemma_div_pos_is_pos,
    lemma_fundamental_div_mod,
    lemma_fundamental_div_mod_converse, lemma_mod_add_multiples_vanish, lemma_mod_bound,
    lemma_mod_multiples_basic, lemma_sub_mod_noop,
};

verus! {

broadcast use vstd::seq_lib::group_seq_properties;

/// A 2-D integer coordinate.
#[derive(Clone, Copy, PartialEq, Eq, Hash, Debug, Structural)]
pub struct Point {
    pub x: i32,
    pub y: i32,
}

/// A half-open axis-aligned rectangle `[lo, hi)`: it holds every point `p`
/// with `lo.x <= p.x < hi.x` and `lo.y <= p.y < hi.y`.
#[derive(Clone, Copy, PartialEq, Eq, Hash, Debug, Structural)]
pub struct Rect {
    pub lo: Point,
    pub hi: Point,
}

impl Point {
    /// Strict lexicographic order: by `x`, then by `y`.
    pub open spec fn lex_lt(self, other: Point) -> bool {
        self.x < other.x || (self.x == other.x && self.y < other.y)
    }
}

impl Rect {
    /// Membership in the half-open box.
    pub open spec fn contains_point(self, p: Point) -> bool {
        self.lo.x <= p.x < self.hi.x && self.lo.y <= p.y < self.hi.y
    }

    /// Two half-open boxes overlap iff they overlap on every axis.
    pub open spec fn overlaps(self, other: Rect) -> bool {
        self.lo.x < other.hi.x && other.lo.x < self.hi.x && self.lo.y < other.hi.y
            && other.lo.y < self.hi.y && self.lo.x < self.hi.x && self.lo.y < self.hi.y
            && other.lo.x < other.hi.x && other.lo.y < other.hi.y
    }

    /// A chunk rectangle for `size`: both origin coordinates are multiples of
    /// `size` and both sides have length `size`.
    pub open spec fn is_chunk(self, size: u32) -> bool {
        &&& self.lo.x as int % (size as int) == 0
        &&& self.lo.y as int % (size as int) == 0
        &&& self.hi.x == self.lo.x + size
        &&& self.hi.y == self.lo.y + size
    }
}

/// Overlap is exactly the existence of a common point, which justifies
/// reading `overlaps` as non-empty intersection.
pub proof fn lemma_overlap_iff_common_point(a: Rect, b: Rect)
    ensures
        a.overlaps(b) <==> exists|p: Point| a.contains_point(p) && b.contains_point(p),
{
    if a.overlaps(b) {
        let px = if a.lo.x >= b.lo.x {
            a.lo.x
        } else {
            b.lo.x
        };
        let py = if a.lo.y >= b.lo.y {
            a.lo.y
        } else {
            b.lo.y
        };
        let p = Point { x: px, y: py };
        assert(a.contains_point(p) && b.contains_point(p));
    }
}


/// Truncating division, the semantics of Rust's `/` on signed integers.
pub open spec fn trunc_div(a: int, b: int) -> int {
    if a >= 0 && b > 0 {
        a / b
    } else if a < 0 && b > 0 {
        -((-a) / b)
    } else if a >= 0 && b < 0 {
        -(a / (-b))
    } else {
        (-a) / (-b)
    }
}

impl Point {
    /// Make a point from its coordinates.
    pub fn new(x: i32, y: i32) -> (p: Point)
        ensures
            p == (Point { x, y }),
    {
        Point { x, y }
    }

    /// The cube `[p, p + size)` on both axes.
    pub fn to_cube(&self, size: u32) -> (r: Rect)
        requires
            size <= i32::MAX,
            self.x + size <= i32::MAX,
            self.y + size <= i32::MAX,
        ensures
            r.lo == *self,
            r.hi.x == self.x + size,
            r.hi.y == self.y + size,
    {
        Rect {
            lo: *self,
            hi: Point { x: self.x + size as i32, y: self.y + size as i32 },
        }
    }

    /// Half-open overlap test for two rectangles.
    pub fn overlap_rect(a: &Rect, other: &Rect) -> (r: bool)
        ensures
            r == a.overlaps(*other),
    {
        a.lo.x < other.hi.x && other.lo.x < a.hi.x && a.lo.y < other.hi.y && other.lo.y < a.hi.y
            && a.lo.x < a.hi.x && a.lo.y < a.hi.y && other.lo.x < other.hi.x && other.lo.y
            < other.hi.y
    }

    /// Grow `r` by `margin` on every side.
    pub fn expand(r: &Rect, margin: u32) -> (res: Rect)
        requires
            margin <= i32::MAX,
            r.lo.x - margin >= i32::MIN,
            r.lo.y - margin >= i32::MIN,
            r.hi.x + margin <= i32::MAX,
            r.hi.y + margin <= i32::MAX,
        ensures
            res.lo.x == r.lo.x - margin,
            res.lo.y == r.lo.y - margin,
            res.hi.x == r.hi.x + margin,
            res.hi.y == r.hi.y + margin,
    {
        Rect {
            lo: Point { x: r.lo.x - margin as i32, y: r.lo.y - margin as i32 },
            hi: Point { x: r.hi.x + margin as i32, y: r.hi.y + margin as i32 },
        }
    }

    /// Half-open containment of a point in a rectangle.
    pub fn contained(&self, r: &Rect) -> (b: bool)
        ensures
            b == r.contains_point(*self),
    {
        self.x >= r.lo.x && self.x < r.hi.x && self.y >= r.lo.y && self.y < r.hi.y
    }

    /// The four orthogonal neighbours, in the fixed order
    /// left, right, down, up.
    pub fn neighboors(&self) -> (res: Vec<Point>)
        requires
            i32::MIN < self.x < i32::MAX,
            i32::MIN < self.y < i32::MAX,
        ensures
            res@.len() == 4,
            res@[0] == (Point { x: (self.x - 1) as i32, y: self.y }),
            res@[1] == (Point { x: (self.x + 1) as i32, y: self.y }),
            res@[2] == (Point { x: self.x, y: (self.y - 1) as i32 }),
            res@[3] == (Point { x: self.x, y: (self.y + 1) as i32 }),
    {
        let mut res: Vec<Point> = Vec::new();
        res.push(Point { x: self.x - 1, y: self.y });
        res.push(Point { x: self.x + 1, y: self.y });
        res.push(Point { x: self.x, y: self.y - 1 });
        res.push(Point { x: self.x, y: self.y + 1 });
        res
    }

    /// Scale both coordinates by `m`.
    pub fn mul(&self, m: i32) -> (res: Point)
        requires
            i32::MIN <= self.x * m <= i32::MAX,
            i32::MIN <= self.y * m <= i32::MAX,
        ensures
            res.x == self.x * m,
            res.y == self.y * m,
    {
        Point { x: self.x * m, y: self.y * m }
    }

    /// Divide both coordinates by `m`, truncating toward zero as the `/`
    /// operator does.
    pub fn div(&self, m: i32) -> (res: Point)
        requires
            m != 0,
            !(self.x == i32::MIN && m == -1),
            !(self.y == i32::MIN && m == -1),
        ensures
            res.x == trunc_div(self.x as int, m as int),
            res.y == trunc_div(self.y as int, m as int),
    {
        let qx = Self::div_coord(self.x, m);
        let qy = Self::div_coord(self.y, m);
        Point { x: qx, y: qy }
    }

    /// Truncating division of one coordinate, via unsigned magnitudes.
    fn div_coord(a: i32, b: i32) -> (q: i32)
        requires
            b != 0,
            !(a == i32::MIN && b == -1),
        ensures
            q == trunc_div(a as int, b as int),
    {
        let ma: u32 = if a >= 0 {
            a as u32
        } else {
            (-(a as i64)) as u32
        };
        let mb: u32 = if b >= 0 {
            b as u32
        } else {
            (-(b as i64)) as u32
        };
        let mq: u32 = ma / mb;
        proof {
            lemma_div_nonincreasing(ma as int, mb as int);
            if mb >= 2 {
                lemma_div_is_ordered_by_denominator(ma as int, 2, mb as int);
                assert(mq <= ma as int / 2);
            }
        }
        if (a >= 0) == (b >= 0) {
            mq as i32
        } else {
            (-(mq as i64)) as i32
        }
    }

}


impl Point {
    /// The origin coordinate of the chunk holding coordinate `v`: `v` rounded
    /// down to a multiple of `chunk_size`.
    pub open spec fn origin_spec(v: int, chunk_size: int) -> int {
        v - (v % chunk_size)
    }

    /// `p` and `q` fall in the same chunk for chunk size `s`.
    pub open spec fn same_chunk(p: Point, q: Point, s: int) -> bool {
        Self::origin_spec(p.x as int, s) == Self::origin_spec(q.x as int, s)
            && Self::origin_spec(p.y as int, s) == Self::origin_spec(q.y as int, s)
    }

    /// The row-major offset of `p` inside its chunk.
    pub open spec fn offset_spec(p: Point, chunk_size: int) -> int {
        (p.y as int % chunk_size) * chunk_size + (p.x as int % chunk_size)
    }

    /// Floor division of a coordinate-sized value by a positive divisor.
    fn floor_div64(a: i64, b: i64) -> (q: i64)
        requires
            i32::MIN <= a <= i32::MAX,
            1 <= b <= i32::MAX,
        ensures
            q == a as int / b as int,
            a >= 0 ==> 0 <= q <= a,
            a < 0 ==> a <= q < 0,
    {
        let qt = a / b;
        let rt = a % b;
        proof {
            if a >= 0 {
                lemma_div_nonincreasing(a as int, b as int);
                lemma_div_pos_is_pos(a as int, b as int);
            } else {
                let m = -(a as int);
                let k = m / (b as int);
                let r = m % (b as int);
                lemma_fundamental_div_mod(m, b as int);
                lemma_mod_bound(m, b as int);
                lemma_div_nonincreasing(m, b as int);
                lemma_div_pos_is_pos(m, b as int);
                if b == 1 {
                    lemma_mod_bound(m, 1);
                }
                if r != 0 {
                    lemma_div_is_ordered_by_denominator(m, 2, b as int);
                }
                if r == 0 {
                    assert(a as int == (-k) * (b as int) + 0) by (nonlinear_arith)
                        requires
                            m == (b as int) * k + r,
                            r == 0,
                            a as int == -m,
                    ;
                    lemma_fundamental_div_mod_converse(a as int, b as int, -k, 0);
                } else {
                    assert(a as int == (-k - 1) * (b as int) + ((b as int) - r)) by (nonlinear_arith)
                        requires
                            m == (b as int) * k + r,
                            a as int == -m,
                    ;
                    lemma_fundamental_div_mod_converse(a as int, b as int, -k - 1, b - r);
                }
            }
        }
        if rt != 0 && a < 0 {
            qt - 1
        } else {
            qt
        }
    }

    /// Round `v` down to the nearest multiple of `chunk_size`.
    fn origin_coord(v: i32, chunk_size: u32) -> (o: i32)
        requires
            1 <= chunk_size <= i32::MAX,
            i32::MIN + chunk_size <= v,
        ensures
            o == Self::origin_spec(v as int, chunk_size as int),
            o as int % chunk_size as int == 0,
            o <= v < o + chunk_size,
    {
        let s64 = chunk_size as i64;
        let q = Self::floor_div64(v as i64, s64);
        proof {
            lemma_fundamental_div_mod(v as int, chunk_size as int);
            lemma_mod_bound(v as int, chunk_size as int);
            assert((q as int) * (s64 as int) == v - (v as int % chunk_size as int))
                by (nonlinear_arith)
                requires
                    q == v as int / chunk_size as int,
                    s64 == chunk_size as int,
                    v as int == (chunk_size as int) * (v as int / chunk_size as int) + (
                    v as int % chunk_size as int),
            ;
            lemma_mod_multiples_basic(q as int, chunk_size as int);
        }
        let o64 = q * s64;
        o64 as i32
    }

    /// The chunk containing this point, as `(chunk origin, offset into the
    /// chunk's row-major tile array)`. Bucketing is by floor division, so
    /// negative coordinates are handled consistently.
    pub fn chunk_index(&self, chunk_size: u32) -> (r: (Point, usize))
        requires
            1 <= chunk_size <= i32::MAX,
            i32::MIN + chunk_size <= self.x,
            i32::MIN + chunk_size <= self.y,
            chunk_size * chunk_size <= usize::MAX,
        ensures
            r.0.x == Self::origin_spec(self.x as int, chunk_size as int),
            r.0.y == Self::origin_spec(self.y as int, chunk_size as int),
            r.0.x as int % chunk_size as int == 0,
            r.0.y as int % chunk_size as int == 0,
            r.0.x <= self.x < r.0.x + chunk_size,
            r.0.y <= self.y < r.0.y + chunk_size,
            r.1 == Self::offset_spec(*self, chunk_size as int),
            r.1 < chunk_size * chunk_size,
    {
        let ox = Self::origin_coord(self.x, chunk_size);
        let oy = Self::origin_coord(self.y, chunk_size);
        let rx = (self.x as i64 - ox as i64) as u64;
        let ry = (self.y as i64 - oy as i64) as u64;
        let s64 = chunk_size as u64;
        proof {
            lemma_mod_bound(self.x as int, chunk_size as int);
            lemma_mod_bound(self.y as int, chunk_size as int);
            assert(ry * s64 + rx < s64 * s64) by (nonlinear_arith)
                requires
                    rx < s64,
                    ry < s64,
                    s64 >= 1,
            ;
        }
        let off = ry * s64 + rx;
        (Point { x: ox, y: oy }, off as usize)
    }

    /// The number of tiles in one chunk's dense array: `chunk_size` squared.
    pub fn max_unrolled_index(chunk_size: u32) -> (n: usize)
        requires
            chunk_size * chunk_size <= usize::MAX,
        ensures
            n == chunk_size * chunk_size,
    {
        (chunk_size as usize) * (chunk_size as usize)
    }
}




/// The row-major offset is always within the chunk's dense array.
pub proof fn lemma_offset_bounds(p: Point, s: int)
    requires
        1 <= s,
    ensures
        0 <= Point::offset_spec(p, s) < s * s,
{
    lemma_mod_bound(p.x as int, s);
    lemma_mod_bound(p.y as int, s);
    assert((p.y as int % s) * s + (p.x as int % s) < s * s) by (nonlinear_arith)
        requires
            0 <= p.x as int % s < s,
            0 <= p.y as int % s < s,
            1 <= s,
    ;
    assert(0 <= (p.y as int % s) * s) by (nonlinear_arith)
        requires
            0 <= p.y as int % s,
            1 <= s,
    ;
}

/// Within one chunk, the row-major offset determines the point.
pub proof fn lemma_offset_injective(p: Point, q: Point, s: int)
    requires
        1 <= s,
        Point::same_chunk(p, q, s),
        Point::offset_spec(p, s) == Point::offset_spec(q, s),
    ensures
        p == q,
{
    lemma_mod_bound(p.x as int, s);
    lemma_mod_bound(p.y as int, s);
    lemma_mod_bound(q.x as int, s);
    lemma_mod_bound(q.y as int, s);
    let off = Point::offset_spec(p, s);
    lemma_fundamental_div_mod_converse(off, s, p.y as int % s, p.x as int % s);
    lemma_fundamental_div_mod_converse(off, s, q.y as int % s, q.x as int % s);
    assert(p.x as int % s == q.x as int % s);
    assert(p.y as int % s == q.y as int % s);
}


/// For a chunk rectangle, membership is exactly sharing the chunk's origin.
pub proof fn lemma_chunk_contains_iff_same_origin(c: Rect, q: Point, s: int)
    requires
        1 <= s,
        c.lo.x as int % s == 0,
        c.lo.y as int % s == 0,
        c.hi.x == c.lo.x + s,
        c.hi.y == c.lo.y + s,
    ensures
        (Point::origin_spec(q.x as int, s) == c.lo.x && Point::origin_spec(q.y as int, s)
            == c.lo.y) <==> c.contains_point(q),
{
    lemma_mod_bound(q.x as int, s);
    lemma_mod_bound(q.y as int, s);
    if c.contains_point(q) {
        lemma_fundamental_div_mod(q.x as int, s);
        lemma_mod_multiples_basic(q.x as int / s, s);
        if Point::origin_spec(q.x as int, s) < c.lo.x {
            lemma_aligned_gap(Point::origin_spec(q.x as int, s), c.lo.x as int, s);
        }
        if c.lo.x < Point::origin_spec(q.x as int, s) {
            lemma_aligned_gap(c.lo.x as int, Point::origin_spec(q.x as int, s), s);
        }
        lemma_fundamental_div_mod(q.y as int, s);
        lemma_mod_multiples_basic(q.y as int / s, s);
        if Point::origin_spec(q.y as int, s) < c.lo.y {
            lemma_aligned_gap(Point::origin_spec(q.y as int, s), c.lo.y as int, s);
        }
        if c.lo.y < Point::origin_spec(q.y as int, s) {
            lemma_aligned_gap(c.lo.y as int, Point::origin_spec(q.y as int, s), s);
        }
    }
}


/// Two distinct multiples of `s` are at least `s` apart.
proof fn lemma_aligned_gap(c: int, a: int, s: int)
    requires
        1 <= s,
        c % s == 0,
        a % s == 0,
        c < a,
    ensures
        c + s <= a,
{
    let d = a - c;
    lemma_sub_mod_noop(a, c, s);
    lemma_mod_multiples_basic(0, s);
    lemma_fundamental_div_mod(d, s);
    lemma_div_pos_is_pos(d, s);
    assert(d >= s) by (nonlinear_arith)
        requires
            d == s * (d / s) + d % s,
            d % s == 0,
            d >= 1,
            s >= 1,
            d / s >= 0,
    ;
}

/// On one axis, an aligned chunk coordinate `c` overlaps the interval
/// `[lo, hi)` exactly when the scan from `a`, the multiple of `s` at or
/// below `lo`, reaches it before `hi`.
proof fn lemma_aligned_axis(lo: int, hi: int, s: int, a: int, c: int)
    requires
        1 <= s,
        a == lo - (lo % s),
        c % s == 0,
    ensures
        (c < hi && lo < c + s) <==> (a <= c < hi),
{
    lemma_mod_bound(lo, s);
    lemma_fundamental_div_mod(lo, s);
    lemma_mod_multiples_basic(lo / s, s);
    assert(a == s * (lo / s));
    assert(a % s == 0) by {
        assert(s * (lo / s) == (lo / s) * s) by (nonlinear_arith);
    }
    if c < hi && lo < c + s {
        if c < a {
            lemma_aligned_gap(c, a, s);
        }
    }
}

impl Point {
    /// Every point of `r`, in strictly increasing lexicographic order:
    /// exactly the points `r` contains, each once.
    pub fn points_in_region(r: &Rect) -> (res: Vec<Point>)
        ensures
            forall|p: Point| res@.contains(p) <==> r.contains_point(p),
            forall|i: int, j: int| 0 <= i < j < res@.len() ==> res@[i].lex_lt(res@[j]),
    {
        let mut res: Vec<Point> = Vec::new();
        if r.hi.x <= r.lo.x || r.hi.y <= r.lo.y {
            return res;
        }
        let mut x = r.lo.x;
        while x < r.hi.x
            invariant
                r.lo.x <= x <= r.hi.x,
                r.lo.y < r.hi.y,
                forall|p: Point| res@.contains(p) <==> (r.contains_point(p) && p.x < x),
                forall|i: int, j: int| 0 <= i < j < res@.len() ==> res@[i].lex_lt(res@[j]),
            decreases r.hi.x - x,
        {
            let mut y = r.lo.y;
            while y < r.hi.y
                invariant
                    r.lo.x <= x < r.hi.x,
                    r.lo.y <= y <= r.hi.y,
                    forall|p: Point| res@.contains(p) <==> (r.contains_point(p) && (p.x < x
                        || (p.x == x && p.y < y))),
                    forall|i: int, j: int| 0 <= i < j < res@.len() ==> res@[i].lex_lt(res@[j]),
                decreases r.hi.y - y,
            {
                let next = Point { x, y };
                proof {
                    assert forall|i: int| 0 <= i < res@.len() implies #[trigger] res@[
                        i
                    ].lex_lt(next) by {
                        let p = res@[i];
                        assert(res@[i] == p);
                        assert(res@.contains(p));
                        assert(r.contains_point(p) && (p.x < x || (p.x == x && p.y < y)));
                        assert(p.lex_lt(next));
                    }
                }
                res.push(next);
                y = y + 1;
            }
            x = x + 1;
        }
        res
    }

    /// Every chunk rectangle for `chunk_size` that intersects `r`, in
    /// strictly increasing lexicographic order of origin, each once.
    pub fn chunks_in_region(r: &Rect, chunk_size: u32) -> (res: Vec<Rect>)
        requires
            1 <= chunk_size <= i32::MAX,
            i32::MIN + chunk_size <= r.lo.x,
            i32::MIN + chunk_size <= r.lo.y,
            r.hi.x + chunk_size <= i32::MAX,
            r.hi.y + chunk_size <= i32::MAX,
        ensures
            forall|c: Rect|
                res@.contains(c) <==> (c.is_chunk(chunk_size) && c.overlaps(*r)),
            forall|i: int, j: int| 0 <= i < j < res@.len() ==> res@[i].lo.lex_lt(res@[j].lo),
    {
        let mut res: Vec<Rect> = Vec::new();
        if r.hi.x <= r.lo.x || r.hi.y <= r.lo.y {
            return res;
        }
        let si = chunk_size as i32;
        let ax = Self::origin_coord(r.lo.x, chunk_size);
        let ay = Self::origin_coord(r.lo.y, chunk_size);
        let mut x = ax;
        proof {
            assert forall|c: Rect|
                c.is_chunk(chunk_size) && c.overlaps(*r) implies ax <= c.lo.x && ay
                <= c.lo.y by {
                lemma_aligned_axis(r.lo.x as int, r.hi.x as int, chunk_size as int, ax as int, c.lo.x as int);
                lemma_aligned_axis(r.lo.y as int, r.hi.y as int, chunk_size as int, ay as int, c.lo.y as int);
            }
        }
        while x < r.hi.x
            invariant
                1 <= chunk_size <= i32::MAX,
                r.lo.x < r.hi.x,
                r.lo.y < r.hi.y,
                i32::MIN + chunk_size <= r.lo.x,
                i32::MIN + chunk_size <= r.lo.y,
                r.hi.x + chunk_size <= i32::MAX,
                r.hi.y + chunk_size <= i32::MAX,
                si == chunk_size,
                ax == Self::origin_spec(r.lo.x as int, chunk_size as int),
                ay == Self::origin_spec(r.lo.y as int, chunk_size as int),
                ax as int % chunk_size as int == 0,
                ay as int % chunk_size as int == 0,
                ax <= x,
                x as int % chunk_size as int == 0,
                forall|c: Rect|
                    #[trigger] res@.contains(c) <==> (c.is_chunk(chunk_size) && c.overlaps(*r)
                        && c.lo.x < x),
                forall|i: int, j: int| 0 <= i < j < res@.len() ==> res@[i].lo.lex_lt(res@[j].lo),
            decreases r.hi.x + chunk_size - x,
        {
            let mut y = ay;
            proof {
                assert forall|c: Rect|
                    c.is_chunk(chunk_size) && c.overlaps(*r) implies ay <= c.lo.y by {
                    lemma_aligned_axis(r.lo.y as int, r.hi.y as int, chunk_size as int, ay as int, c.lo.y as int);
                }
            }
            while y < r.hi.y
                invariant
                    1 <= chunk_size <= i32::MAX,
                    r.lo.x < r.hi.x,
                    r.lo.y < r.hi.y,
                    i32::MIN + chunk_size <= r.lo.x,
                    i32::MIN + chunk_size <= r.lo.y,
                    r.hi.x + chunk_size <= i32::MAX,
                    r.hi.y + chunk_size <= i32::MAX,
                    si == chunk_size,
                    ax == Self::origin_spec(r.lo.x as int, chunk_size as int),
                    ay == Self::origin_spec(r.lo.y as int, chunk_size as int),
                    ax as int % chunk_size as int == 0,
                    ay as int % chunk_size as int == 0,
                    ax <= x < r.hi.x,
                    x as int % chunk_size as int == 0,
                    ay <= y,
                    y as int % chunk_size as int == 0,
                    forall|c: Rect|
                        #[trigger] res@.contains(c) <==> (c.is_chunk(chunk_size) && c.overlaps(
                            *r,
                        ) && (c.lo.x < x || (c.lo.x == x && c.lo.y < y))),
                    forall|i: int, j: int|
                        0 <= i < j < res@.len() ==> res@[i].lo.lex_lt(res@[j].lo),
                decreases r.hi.y + chunk_size - y,
            {
                let next = Rect {
                    lo: Point { x, y },
                    hi: Point { x: x + si, y: y + si },
                };
                proof {
                    lemma_aligned_axis(r.lo.x as int, r.hi.x as int, chunk_size as int, ax as int, x as int);
                    lemma_aligned_axis(r.lo.y as int, r.hi.y as int, chunk_size as int, ay as int, y as int);
                    assert(next.is_chunk(chunk_size) && next.overlaps(*r));
                    assert forall|i: int| 0 <= i < res@.len() implies #[trigger] res@[
                        i
                    ].lo.lex_lt(next.lo) by {
                        let c = res@[i];
                        assert(res@[i] == c);
                        assert(res@.contains(c));
                        assert(c.lo.x < x || (c.lo.x == x && c.lo.y < y));
                        assert(c.lo.lex_lt(next.lo));
                    }
                }
                res.push(next);
                proof {
                    lemma_mod_add_multiples_vanish(y as int, chunk_size as int);
                    assert forall|c: Rect|
                        c.is_chunk(chunk_size) && c.overlaps(*r) && (c.lo.x < x || (c.lo.x
                            == x && c.lo.y < y + si)) implies res@.contains(c) by {
                        if c.lo.x == x && y <= c.lo.y < y + si {
                            if y < c.lo.y {
                                lemma_aligned_gap(y as int, c.lo.y as int, chunk_size as int);
                            }
                            assert(c.lo.y == y);
                            assert(c == next);
                        }
                    }
                }
                y = y + si;
            }
            proof {
                lemma_mod_add_multiples_vanish(x as int, chunk_size as int);
                assert forall|c: Rect|
                    c.is_chunk(chunk_size) && c.overlaps(*r) && c.lo.x < x + si implies res@.contains(
                    c,
                ) by {
                    if x <= c.lo.x < x + si {
                        if x < c.lo.x {
                            lemma_aligned_gap(x as int, c.lo.x as int, chunk_size as int);
                        }
                        assert(c.lo.x == x);
                        assert(c.lo.y < r.hi.y <= y);
                    }
                }
            }
            x = x + si;
        }
        res
    }
}


} // verus!
