//! Integer 3-vectors and axis-aligned boxes on the lattice.

use vstd::prelude::*;

verus! {

/// All coordinates the library works with stay within this bound (2^29), so
/// that sums of three squared differences always fit in `i64`.
pub const COORD_LIMIT: i64 = 536870912;

/// A lattice cell: an integer 3-vector.
#[derive(Clone, Copy, PartialEq, Eq, Structural, Hash, Debug)]
pub struct Vec3 {
    pub x: i64,
    pub y: i64,
    pub z: i64,
}

impl View for Vec3 {
    type V = (int, int, int);

    open spec fn view(&self) -> (int, int, int) {
        (self.x as int, self.y as int, self.z as int)
    }
}

/// The coordinate bound under which all distance arithmetic is overflow-free.
pub open spec fn in_space(p: (int, int, int)) -> bool {
    &&& -COORD_LIMIT <= p.0 <= COORD_LIMIT
    &&& -COORD_LIMIT <= p.1 <= COORD_LIMIT
    &&& -COORD_LIMIT <= p.2 <= COORD_LIMIT
}

/// Exact squared Euclidean distance between two lattice points.
pub open spec fn sq_dist(a: (int, int, int), b: (int, int, int)) -> int {
    (a.0 - b.0) * (a.0 - b.0) + (a.1 - b.1) * (a.1 - b.1) + (a.2 - b.2) * (a.2 - b.2)
}

/// Exact squared Euclidean norm.
pub open spec fn sq_norm(p: (int, int, int)) -> int {
    p.0 * p.0 + p.1 * p.1 + p.2 * p.2
}

/// Truncating (round-toward-zero) integer division, as Rust's `/` computes it:
/// the quotient of the absolute values, carrying the sign of the exact quotient.
pub open spec fn div_trunc(a: int, b: int) -> int
    recommends
        b != 0,
{
    let q = (if a >= 0 {
        a
    } else {
        -a
    }) / (if b >= 0 {
        b
    } else {
        -b
    });
    if (a >= 0) == (b >= 0) {
        q
    } else {
        -q
    }
}

proof fn lemma_sq_nonneg(a: int)
    ensures
        a * a >= 0,
        a * a == 0 <==> a == 0,
{
    assert(a * a >= 0 && (a * a == 0 <==> a == 0)) by (nonlinear_arith);
}

proof fn lemma_sq_mono(a: int, b: int)
    requires
        0 <= a <= b,
    ensures
        a * a <= b * b,
{
    assert(a * a <= b * b) by (nonlinear_arith)
        requires
            0 <= a <= b,
    ;
}

/// A square of a difference of in-space coordinates fits comfortably in `i64`.
proof fn lemma_sq_in_range(a: int)
    requires
        -0x40000000 <= a <= 0x40000000,
    ensures
        0 <= a * a <= 0x1000000000000000,
{
    assert(0 <= a * a <= 0x1000000000000000) by (nonlinear_arith)
        requires
            -0x40000000 <= a <= 0x40000000,
    ;
}

impl Vec3 {
    pub fn new(x: i64, y: i64, z: i64) -> (r: Self)
        ensures
            r@ == (x as int, y as int, z as int),
    {
        Vec3 { x, y, z }
    }

    /// Component-wise minimum.
    pub fn min(&self, o: Vec3) -> (r: Self)
        ensures
            r.x == if self.x <= o.x { self.x } else { o.x },
            r.y == if self.y <= o.y { self.y } else { o.y },
            r.z == if self.z <= o.z { self.z } else { o.z },
    {
        Vec3 {
            x: if self.x <= o.x { self.x } else { o.x },
            y: if self.y <= o.y { self.y } else { o.y },
            z: if self.z <= o.z { self.z } else { o.z },
        }
    }

    /// Component-wise maximum.
    pub fn max(&self, o: Vec3) -> (r: Self)
        ensures
            r.x == if self.x >= o.x { self.x } else { o.x },
            r.y == if self.y >= o.y { self.y } else { o.y },
            r.z == if self.z >= o.z { self.z } else { o.z },
    {
        Vec3 {
            x: if self.x >= o.x { self.x } else { o.x },
            y: if self.y >= o.y { self.y } else { o.y },
            z: if self.z >= o.z { self.z } else { o.z },
        }
    }

    /// Exact squared distance to another point.
    pub fn dist2(&self, o: Vec3) -> (r: i64)
        requires
            in_space(self@),
            in_space(o@),
        ensures
            r == sq_dist(self@, o@),
            r >= 0,
    {
        let dx = self.x - o.x;
        let dy = self.y - o.y;
        let dz = self.z - o.z;
        proof {
            lemma_sq_in_range(dx as int);
            lemma_sq_in_range(dy as int);
            lemma_sq_in_range(dz as int);
        }
        dx * dx + dy * dy + dz * dz
    }

    /// Exact squared norm.
    pub fn norm2(&self) -> (r: i64)
        requires
            in_space(self@),
        ensures
            r == sq_norm(self@),
            r >= 0,
    {
        proof {
            lemma_sq_in_range(self.x as int);
            lemma_sq_in_range(self.y as int);
            lemma_sq_in_range(self.z as int);
        }
        self.x * self.x + self.y * self.y + self.z * self.z
    }

    /// Euclidean norm rounded down to an integer: the exact floor of the
    /// square root of `norm2`. Lossy by nature; callers that need bonding
    /// precision must compare squared distances instead.
    pub fn norm(&self) -> (r: i64)
        requires
            in_space(self@),
        ensures
            0 <= r,
            r * r <= sq_norm(self@),
            sq_norm(self@) < (r + 1) * (r + 1),
    {
        let n = self.norm2();
        proof {
            assert(self@.0 * self@.0 <= COORD_LIMIT * COORD_LIMIT) by (nonlinear_arith)
                requires
                    -COORD_LIMIT <= self@.0 <= COORD_LIMIT,
            ;
            assert(self@.1 * self@.1 <= COORD_LIMIT * COORD_LIMIT) by (nonlinear_arith)
                requires
                    -COORD_LIMIT <= self@.1 <= COORD_LIMIT,
            ;
            assert(self@.2 * self@.2 <= COORD_LIMIT * COORD_LIMIT) by (nonlinear_arith)
                requires
                    -COORD_LIMIT <= self@.2 <= COORD_LIMIT,
            ;
        }
        let r = isqrt(n as u64);
        r as i64
    }

    /// Divides each component by the rounded-down norm. Lossy in both
    /// direction and magnitude; the zero vector must never be normalized.
    pub fn normalized(&self) -> (r: Self)
        requires
            in_space(self@),
            sq_norm(self@) > 0,
        ensures
            exists|l: int|
                {
                    &&& l >= 1
                    &&& l * l <= sq_norm(self@)
                    &&& sq_norm(self@) < (l + 1) * (l + 1)
                    &&& r@ == (div_trunc(self@.0, l), div_trunc(self@.1, l), div_trunc(self@.2, l))
                },
    {
        let l = self.norm();
        proof {
            if l == 0 {
                assert((l as int + 1) * (l as int + 1) == 1) by (nonlinear_arith)
                    requires
                        l == 0,
                ;
            }
        }
        let r = Vec3 { x: self.x / l, y: self.y / l, z: self.z / l };
        proof {
            let li = l as int;
            assert(r@ == (div_trunc(self@.0, li), div_trunc(self@.1, li), div_trunc(self@.2, li)));
        }
        r
    }

    /// Component-wise sum.
    pub fn add(self, d: Vec3) -> (r: Self)
        requires
            i64::MIN <= self@.0 + d@.0 <= i64::MAX,
            i64::MIN <= self@.1 + d@.1 <= i64::MAX,
            i64::MIN <= self@.2 + d@.2 <= i64::MAX,
        ensures
            r@ == (self@.0 + d@.0, self@.1 + d@.1, self@.2 + d@.2),
    {
        Vec3 { x: self.x + d.x, y: self.y + d.y, z: self.z + d.z }
    }

    /// Component-wise difference.
    pub fn sub(self, d: Vec3) -> (r: Self)
        requires
            i64::MIN <= self@.0 - d@.0 <= i64::MAX,
            i64::MIN <= self@.1 - d@.1 <= i64::MAX,
            i64::MIN <= self@.2 - d@.2 <= i64::MAX,
        ensures
            r@ == (self@.0 - d@.0, self@.1 - d@.1, self@.2 - d@.2),
    {
        Vec3 { x: self.x - d.x, y: self.y - d.y, z: self.z - d.z }
    }

    /// Adds a scalar to every component.
    pub fn add_scalar(self, d: i64) -> (r: Self)
        requires
            i64::MIN <= self@.0 + d <= i64::MAX,
            i64::MIN <= self@.1 + d <= i64::MAX,
            i64::MIN <= self@.2 + d <= i64::MAX,
        ensures
            r@ == (self@.0 + d, self@.1 + d, self@.2 + d),
    {
        Vec3 { x: self.x + d, y: self.y + d, z: self.z + d }
    }

    /// Subtracts a scalar from every component.
    pub fn sub_scalar(self, d: i64) -> (r: Self)
        requires
            i64::MIN <= self@.0 - d <= i64::MAX,
            i64::MIN <= self@.1 - d <= i64::MAX,
            i64::MIN <= self@.2 - d <= i64::MAX,
        ensures
            r@ == (self@.0 - d, self@.1 - d, self@.2 - d),
    {
        Vec3 { x: self.x - d, y: self.y - d, z: self.z - d }
    }

    /// Component-wise product.
    pub fn mul(self, d: Vec3) -> (r: Self)
        requires
            i64::MIN <= self@.0 * d@.0 <= i64::MAX,
            i64::MIN <= self@.1 * d@.1 <= i64::MAX,
            i64::MIN <= self@.2 * d@.2 <= i64::MAX,
        ensures
            r@ == (self@.0 * d@.0, self@.1 * d@.1, self@.2 * d@.2),
    {
        Vec3 { x: self.x * d.x, y: self.y * d.y, z: self.z * d.z }
    }

    /// Component-wise quotient, truncating toward zero.
    pub fn div(self, d: Vec3) -> (r: Self)
        requires
            d@.0 != 0 && d@.1 != 0 && d@.2 != 0,
            d@.0 != i64::MIN && d@.1 != i64::MIN && d@.2 != i64::MIN,
            self@.0 != i64::MIN && self@.1 != i64::MIN && self@.2 != i64::MIN,
        ensures
            r@ == (
                div_trunc(self@.0, d@.0),
                div_trunc(self@.1, d@.1),
                div_trunc(self@.2, d@.2),
            ),
    {
        Vec3 { x: div_i64(self.x, d.x), y: div_i64(self.y, d.y), z: div_i64(self.z, d.z) }
    }

    /// Multiplies every component by a scalar.
    pub fn mul_scalar(self, d: i64) -> (r: Self)
        requires
            i64::MIN <= self@.0 * d <= i64::MAX,
            i64::MIN <= self@.1 * d <= i64::MAX,
            i64::MIN <= self@.2 * d <= i64::MAX,
        ensures
            r@ == (self@.0 * d, self@.1 * d, self@.2 * d),
    {
        Vec3 { x: self.x * d, y: self.y * d, z: self.z * d }
    }

    /// Divides every component by a scalar, truncating toward zero.
    pub fn div_scalar(self, d: i64) -> (r: Self)
        requires
            d != 0,
            d != i64::MIN,
            self@.0 != i64::MIN,
            self@.1 != i64::MIN,
            self@.2 != i64::MIN,
        ensures
            r@ == (
                div_trunc(self@.0, d as int),
                div_trunc(self@.1, d as int),
                div_trunc(self@.2, d as int),
            ),
    {
        Vec3 { x: div_i64(self.x, d), y: div_i64(self.y, d), z: div_i64(self.z, d) }
    }

    /// Component-wise negation.
    pub fn neg(self) -> (r: Self)
        requires
            self@.0 != i64::MIN,
            self@.1 != i64::MIN,
            self@.2 != i64::MIN,
        ensures
            r@ == (-self@.0, -self@.1, -self@.2),
    {
        Vec3 { x: -self.x, y: -self.y, z: -self.z }
    }
}

/// The coordinate triples of a sequence of points.
pub open spec fn seq_views(s: Seq<Vec3>) -> Seq<(int, int, int)> {
    s.map_values(|q: Vec3| q@)
}

/// An indexed element of a sequence belongs to the sequence's set.
pub proof fn lemma_index_in_to_set<A>(s: Seq<A>, i: int)
    requires
        0 <= i < s.len(),
    ensures
        s.contains(s[i]),
        s.to_set().contains(s[i]),
{
    assert(s.contains(s[i])) by {
        assert(0 <= i < s.len() && s[i] == s[i]);
    }
}

/// Component-wise minimum of two coordinate triples.
pub open spec fn min3(a: (int, int, int), b: (int, int, int)) -> (int, int, int) {
    (
        if a.0 <= b.0 {
            a.0
        } else {
            b.0
        },
        if a.1 <= b.1 {
            a.1
        } else {
            b.1
        },
        if a.2 <= b.2 {
            a.2
        } else {
            b.2
        },
    )
}

/// Component-wise maximum of two coordinate triples.
pub open spec fn max3(a: (int, int, int), b: (int, int, int)) -> (int, int, int) {
    (
        if a.0 >= b.0 {
            a.0
        } else {
            b.0
        },
        if a.1 >= b.1 {
            a.1
        } else {
            b.1
        },
        if a.2 >= b.2 {
            a.2
        } else {
            b.2
        },
    )
}

/// Clamps `a` into the interval `[l, u]`, taking the lower bound first, as
/// `p.max(lower).min(upper)` does.
pub open spec fn clamp1(l: int, u: int, a: int) -> int {
    let m = if a >= l {
        a
    } else {
        l
    };
    if m <= u {
        m
    } else {
        u
    }
}

/// An axis-aligned closed box of lattice cells, with `lower <= upper`
/// component-wise; the invariant is kept by every constructor.
#[derive(Clone, Copy, PartialEq, Eq, Structural, Debug)]
pub struct Bbox {
    lower: Vec3,
    upper: Vec3,
}

impl Bbox {
    /// The lower corner, as a coordinate triple.
    pub closed spec fn lo(self) -> (int, int, int) {
        self.lower@
    }

    /// The upper corner, as a coordinate triple.
    pub closed spec fn up(self) -> (int, int, int) {
        self.upper@
    }

    /// The corner ordering invariant.
    pub open spec fn wf(self) -> bool {
        &&& self.lo().0 <= self.up().0
        &&& self.lo().1 <= self.up().1
        &&& self.lo().2 <= self.up().2
    }

    /// Both corners lie within the library's coordinate bound.
    pub open spec fn box_in_space(self) -> bool {
        in_space(self.lo()) && in_space(self.up())
    }

    /// Closed-interval membership on all three axes.
    pub open spec fn contains_pt(self, p: (int, int, int)) -> bool {
        &&& self.lo().0 <= p.0 <= self.up().0
        &&& self.lo().1 <= p.1 <= self.up().1
        &&& self.lo().2 <= p.2 <= self.up().2
    }

    /// The projection of `p` onto the box.
    pub open spec fn clamp_pt(self, p: (int, int, int)) -> (int, int, int) {
        (
            clamp1(self.lo().0, self.up().0, p.0),
            clamp1(self.lo().1, self.up().1, p.1),
            clamp1(self.lo().2, self.up().2, p.2),
        )
    }

    /// The exact minimum squared distance from `p` to any cell of the box.
    pub open spec fn min_dist2(self, p: (int, int, int)) -> int {
        sq_dist(p, self.clamp_pt(p))
    }

    /// The center, biased toward `lower` on odd extents by truncating division.
    pub open spec fn center_pt(self) -> (int, int, int) {
        (
            div_trunc(self.lo().0 + self.up().0, 2),
            div_trunc(self.lo().1 + self.up().1, 2),
            div_trunc(self.lo().2 + self.up().2, 2),
        )
    }

    /// The degenerate box holding the single cell `p`.
    pub fn new(p: Vec3) -> (r: Self)
        ensures
            r.lo() == p@,
            r.up() == p@,
            r.wf(),
    {
        Bbox { lower: p, upper: p }
    }

    pub fn lower(&self) -> (r: Vec3)
        ensures
            r@ == self.lo(),
    {
        self.lower
    }

    pub fn upper(&self) -> (r: Vec3)
        ensures
            r@ == self.up(),
    {
        self.upper
    }

    /// The smallest box containing both this box and `p`; a no-op on points
    /// already contained.
    pub fn expand(&self, p: Vec3) -> (r: Bbox)
        ensures
            r.lo() == min3(self.lo(), p@),
            r.up() == max3(self.up(), p@),
            self.wf() ==> r.wf(),
            self.wf() ==> r.contains_pt(p@),
            forall|q: (int, int, int)| self.contains_pt(q) ==> r.contains_pt(q),
            self.contains_pt(p@) ==> r == *self,
    {
        let r = Bbox { lower: self.lower.min(p), upper: self.upper.max(p) };
        proof {
            if self.contains_pt(p@) {
                assert(r.lower == self.lower);
                assert(r.upper == self.upper);
            }
        }
        r
    }

    /// Closed-interval membership test.
    pub fn contains(&self, p: Vec3) -> (r: bool)
        ensures
            r == self.contains_pt(p@),
    {
        self.lower.x <= p.x && p.x <= self.upper.x && self.lower.y <= p.y && p.y <= self.upper.y
            && self.lower.z <= p.z && p.z <= self.upper.z
    }

    /// The center cell; always inside a well-formed box.
    pub fn center(&self) -> (r: Vec3)
        requires
            self.box_in_space(),
        ensures
            r@ == self.center_pt(),
            self.wf() ==> self.contains_pt(r@) && in_space(r@),
    {
        proof {
            if self.wf() {
                lemma_half_bounds(self.lo().0, self.up().0);
                lemma_half_bounds(self.lo().1, self.up().1);
                lemma_half_bounds(self.lo().2, self.up().2);
            }
        }
        Vec3 {
            x: div_i64(self.lower.x + self.upper.x, 2),
            y: div_i64(self.lower.y + self.upper.y, 2),
            z: div_i64(self.lower.z + self.upper.z, 2),
        }
    }

    /// Extent along each axis.
    pub fn dimensions(&self) -> (r: Vec3)
        requires
            self.box_in_space(),
        ensures
            r@ == (
                self.up().0 - self.lo().0,
                self.up().1 - self.lo().1,
                self.up().2 - self.lo().2,
            ),
    {
        Vec3 {
            x: self.upper.x - self.lower.x,
            y: self.upper.y - self.lower.y,
            z: self.upper.z - self.lower.z,
        }
    }

    /// Product of the per-axis extents; zero on a degenerate axis.
    pub fn volume(&self) -> (r: i64)
        requires
            self.wf(),
            self.box_in_space(),
            (self.up().0 - self.lo().0) * (self.up().1 - self.lo().1) <= i64::MAX,
            (self.up().0 - self.lo().0) * (self.up().1 - self.lo().1) * (self.up().2 - self.lo().2)
                <= i64::MAX,
        ensures
            r == (self.up().0 - self.lo().0) * (self.up().1 - self.lo().1) * (self.up().2
                - self.lo().2),
    {
        let dx = self.upper.x - self.lower.x;
        let dy = self.upper.y - self.lower.y;
        let dz = self.upper.z - self.lower.z;
        proof {
            assert(dx * dy >= 0 && dx * dy * dz >= 0) by (nonlinear_arith)
                requires
                    dx >= 0,
                    dy >= 0,
                    dz >= 0,
            ;
        }
        dx * dy * dz
    }

    /// Projects `p` into the box, component-wise.
    pub fn clamp(&self, p: Vec3) -> (r: Vec3)
        ensures
            r@ == self.clamp_pt(p@),
            self.wf() ==> self.contains_pt(r@),
            self.wf() && self.box_in_space() ==> in_space(r@),
    {
        p.max(self.lower).min(self.upper)
    }

    /// Exact minimum squared distance from `p` to the box; zero exactly on
    /// contained points.
    pub fn dist2(&self, p: Vec3) -> (r: i64)
        requires
            self.wf(),
            self.box_in_space(),
            in_space(p@),
        ensures
            r == self.min_dist2(p@),
            r == 0 <==> self.contains_pt(p@),
    {
        let c = self.clamp(p);
        let r = p.dist2(c);
        proof {
            lemma_sq_nonneg(p@.0 - c@.0);
            lemma_sq_nonneg(p@.1 - c@.1);
            lemma_sq_nonneg(p@.2 - c@.2);
        }
        r
    }

    /// Scales both corners; the factor must be non-negative to keep the
    /// corner ordering.
    pub fn scale(&self, f: i64) -> (r: Self)
        requires
            f >= 0,
            self.wf(),
            i64::MIN <= self.lo().0 * f <= i64::MAX,
            i64::MIN <= self.lo().1 * f <= i64::MAX,
            i64::MIN <= self.lo().2 * f <= i64::MAX,
            i64::MIN <= self.up().0 * f <= i64::MAX,
            i64::MIN <= self.up().1 * f <= i64::MAX,
            i64::MIN <= self.up().2 * f <= i64::MAX,
        ensures
            r.lo() == (self.lo().0 * f, self.lo().1 * f, self.lo().2 * f),
            r.up() == (self.up().0 * f, self.up().1 * f, self.up().2 * f),
            r.wf(),
    {
        proof {
            lemma_mul_le_mono(self.lo().0, self.up().0, f as int);
            lemma_mul_le_mono(self.lo().1, self.up().1, f as int);
            lemma_mul_le_mono(self.lo().2, self.up().2, f as int);
        }
        Bbox { lower: self.lower.mul_scalar(f), upper: self.upper.mul_scalar(f) }
    }

    /// The smallest box containing both operands; it contains every point
    /// that either operand contains.
    pub fn union(&self, b: &Bbox) -> (r: Self)
        ensures
            r.lo() == min3(self.lo(), b.lo()),
            r.up() == max3(self.up(), b.up()),
            self.wf() && b.wf() ==> r.wf(),
            forall|q: (int, int, int)|
                self.contains_pt(q) || b.contains_pt(q) ==> r.contains_pt(q),
    {
        Bbox { lower: self.lower.min(b.lower), upper: self.upper.max(b.upper) }
    }
}

/// Multiplying both ends of an ordered pair by a non-negative factor keeps
/// the order.
proof fn lemma_mul_le_mono(a: int, b: int, f: int)
    requires
        a <= b,
        f >= 0,
    ensures
        a * f <= b * f,
{
    assert(a * f <= b * f) by (nonlinear_arith)
        requires
            a <= b,
            f >= 0,
    ;
}

/// The truncated midpoint of an ordered pair stays within the pair, and
/// strictly within it once the pair is at least two apart.
pub proof fn lemma_half_bounds(l: int, u: int)
    requires
        l <= u,
    ensures
        l <= div_trunc(l + u, 2) <= u,
        u >= l + 2 ==> l < div_trunc(l + u, 2) < u,
{
    let s = l + u;
    if s >= 0 {
        vstd::arithmetic::div_mod::lemma_fundamental_div_mod(s, 2);
        vstd::arithmetic::div_mod::lemma_mod_bound(s, 2);
    } else {
        vstd::arithmetic::div_mod::lemma_fundamental_div_mod(-s, 2);
        vstd::arithmetic::div_mod::lemma_mod_bound(-s, 2);
    }
}

/// The minimum squared distance to a box really is a lower bound on the
/// squared distance to every point the box contains.
pub proof fn lemma_box_dist2_lower_bound(b: Bbox, p: (int, int, int), t: (int, int, int))
    requires
        b.wf(),
        b.contains_pt(t),
    ensures
        b.min_dist2(p) <= sq_dist(p, t),
{
    lemma_axis_clamp(b.lo().0, b.up().0, p.0, t.0);
    lemma_axis_clamp(b.lo().1, b.up().1, p.1, t.1);
    lemma_axis_clamp(b.lo().2, b.up().2, p.2, t.2);
}

/// One axis of the clamp bound: the clamped coordinate is at least as close
/// to `a` as any coordinate within the interval.
proof fn lemma_axis_clamp(l: int, u: int, a: int, t: int)
    requires
        l <= u,
        l <= t <= u,
    ensures
        (a - clamp1(l, u, a)) * (a - clamp1(l, u, a)) <= (a - t) * (a - t),
{
    let c = clamp1(l, u, a);
    if a < l {
        lemma_sq_mono(l - a, t - a);
        assert((a - c) * (a - c) == (l - a) * (l - a)) by (nonlinear_arith)
            requires
                c == l,
        ;
        assert((a - t) * (a - t) == (t - a) * (t - a)) by (nonlinear_arith);
        assert((a - c) * (a - c) <= (a - t) * (a - t));
    } else if a > u {
        lemma_sq_mono(a - u, a - t);
        assert((a - c) * (a - c) == (a - u) * (a - u)) by (nonlinear_arith)
            requires
                c == u,
        ;
        assert((a - u) * (a - u) <= (a - t) * (a - t)) by (nonlinear_arith)
            requires
                0 <= a - u <= a - t,
        ;
        assert((a - c) * (a - c) <= (a - t) * (a - t));
    } else {
        lemma_sq_nonneg(a - t);
        assert((a - c) * (a - c) == 0) by (nonlinear_arith)
            requires
                c == a,
        ;
        assert((a - c) * (a - c) <= (a - t) * (a - t));
    }
}

/// Truncating division on `i64`, with both operands normalized to be
/// non-negative so the quotient's value is pinned exactly.
fn div_i64(a: i64, b: i64) -> (q: i64)
    requires
        b != 0,
        b != i64::MIN,
        a != i64::MIN,
    ensures
        q == div_trunc(a as int, b as int),
{
    if a >= 0 {
        if b > 0 {
            a / b
        } else {
            -(a / (-b))
        }
    } else {
        if b > 0 {
            -((-a) / b)
        } else {
            (-a) / (-b)
        }
    }
}

/// Floor of the square root, by bisection over an invariant-carrying range.
fn isqrt(n: u64) -> (r: u64)
    requires
        n < 0x1000000000000000,
    ensures
        r < 0x40000000,
        r * r <= n,
        n < (r + 1) * (r + 1),
{
    let mut lo: u64 = 0;
    let mut hi: u64 = 0x40000000;
    proof {
        assert(0x40000000u64 * 0x40000000u64 == 0x1000000000000000);
    }
    while hi - lo > 1
        invariant
            lo < hi <= 0x40000000,
            lo * lo <= n,
            n < hi * hi,
        decreases hi - lo,
    {
        let mid = lo + (hi - lo) / 2;
        proof {
            assert(lo < mid < hi);
            assert(mid * mid <= 0x40000000u64 * 0x40000000u64) by (nonlinear_arith)
                requires
                    0 <= mid <= 0x40000000u64,
            ;
        }
        if mid * mid <= n {
            lo = mid;
        } else {
            hi = mid;
        }
    }
    proof {
        assert(hi == lo + 1);
    }
    lo
}

} // verus!
