use vstd::prelude::*;

pub mod hvec;

verus! {

/// Truncating division by two of a mathematical integer, as Rust's `/` does it.
pub open spec fn half_toward_zero(s: int) -> int {
    if s >= 0 {
        s / 2
    } else {
        -((-s) / 2)
    }
}

/// A point in the plane.
#[derive(Clone, Copy, Debug)]
pub struct Point2<S> {
    pub x: S,
    pub y: S,
}

pub type Point2i = Point2<i32>;

impl Point2<i32> {
    /// The point `(0, 0)`.
    pub fn origin() -> (r: Self)
        ensures
            r.x == 0 && r.y == 0,
    {
        Point2 { x: 0, y: 0 }
    }
}

impl<S: Copy> Point2<S> {
    /// Builds a point from a slice of exactly two coordinates.
    pub fn from_slice(coord: &[S]) -> (r: Self)
        requires
            coord@.len() == 2,
        ensures
            r.x == coord@[0],
            r.y == coord@[1],
    {
        Point2 { x: coord[0], y: coord[1] }
    }
}

/// A displacement in the plane.
#[derive(Clone, Copy, Debug)]
pub struct Vec2<S> {
    pub x: S,
    pub y: S,
}

pub type Vec2i = Vec2<i32>;

/// A point in space.
#[derive(Clone, Copy, Debug)]
pub struct Point3<S> {
    pub x: S,
    pub y: S,
    pub z: S,
}

pub type Point3i = Point3<i32>;

impl Point3<i32> {
    /// The point `(0, 0, 0)`.
    pub fn origin() -> (r: Self)
        ensures
            r.x == 0 && r.y == 0 && r.z == 0,
    {
        Point3 { x: 0, y: 0, z: 0 }
    }
}

impl<S: Copy> Point3<S> {
    /// The projection of the point onto the `xy` plane.
    pub fn drop_z(&self) -> (r: Point2<S>)
        ensures
            r.x == self.x,
            r.y == self.y,
    {
        Point2 { x: self.x, y: self.y }
    }
}

/// A displacement in space.
#[derive(Clone, Copy, Debug)]
pub struct Vec3<S> {
    pub x: S,
    pub y: S,
    pub z: S,
}

pub type Vec3i = Vec3<i64>;

/// Whether a mathematical integer fits in an `i64`.
pub open spec fn fits_i64(v: int) -> bool {
    i64::MIN <= v <= i64::MAX
}

/// The dot product of two integer vectors.
pub open spec fn dot_spec(a: Vec3<i64>, b: Vec3<i64>) -> int {
    a.x * b.x + a.y * b.y + a.z * b.z
}

/// The cross product of two integer vectors, componentwise.
pub open spec fn cross_x(a: Vec3<i64>, b: Vec3<i64>) -> int {
    a.y * b.z - a.z * b.y
}

pub open spec fn cross_y(a: Vec3<i64>, b: Vec3<i64>) -> int {
    a.z * b.x - a.x * b.z
}

pub open spec fn cross_z(a: Vec3<i64>, b: Vec3<i64>) -> int {
    a.x * b.y - a.y * b.x
}

/// Every component of the vector lies strictly between `-2^31` and `2^31`.
pub open spec fn small_components(a: Vec3<i64>) -> bool {
    -0x8000_0000 < a.x < 0x8000_0000 && -0x8000_0000 < a.y < 0x8000_0000 && -0x8000_0000 < a.z
        < 0x8000_0000
}

proof fn lemma_small_product(a: i64, b: i64)
    by (nonlinear_arith)
    requires
        -0x8000_0000 < a < 0x8000_0000,
        -0x8000_0000 < b < 0x8000_0000,
    ensures
        -0x4000_0000_0000_0000 < a * b < 0x4000_0000_0000_0000,
{
}

impl Vec3<i64> {
    /// The dot product; every partial sum must fit in an `i64`.
    pub fn dot(&self, other: Self) -> (r: i64)
        requires
            fits_i64(self.x * other.x),
            fits_i64(self.y * other.y),
            fits_i64(self.z * other.z),
            fits_i64(self.x * other.x + self.y * other.y),
            fits_i64(dot_spec(*self, other)),
        ensures
            r == dot_spec(*self, other),
    {
        self.x * other.x + self.y * other.y + self.z * other.z
    }

    /// The cross product. Components below `2^31` in magnitude keep every
    /// intermediate value inside `i64`.
    pub fn cross(&self, other: Self) -> (r: Self)
        requires
            small_components(*self),
            small_components(other),
        ensures
            r.x == cross_x(*self, other),
            r.y == cross_y(*self, other),
            r.z == cross_z(*self, other),
    {
        proof {
            lemma_small_product(self.y, other.z);
            lemma_small_product(self.z, other.y);
            lemma_small_product(self.z, other.x);
            lemma_small_product(self.x, other.z);
            lemma_small_product(self.x, other.y);
            lemma_small_product(self.y, other.x);
        }
        Vec3 {
            x: self.y * other.z - self.z * other.y,
            y: self.z * other.x - self.x * other.z,
            z: self.x * other.y - self.y * other.x,
        }
    }
}

/// A two-dimensional axis-aligned bounding box. A fresh box is empty; the
/// first added point makes it the degenerate box around that point.
#[derive(Clone, Copy, Debug)]
pub struct BndBox2<S> {
    pub min: Point2<S>,
    pub max: Point2<S>,
    pub empty: bool,
}

pub type BndBox2i = BndBox2<i32>;

/// The lower bound that adding coordinate `p` gives to the range `[lo, hi]`.
pub open spec fn grown_lo(lo: int, p: int) -> int {
    if p < lo {
        p
    } else {
        lo
    }
}

/// The upper bound that adding coordinate `p` gives to the range `[lo, hi]`;
/// the upper bound is only consulted when `p` is not below `lo`.
pub open spec fn grown_hi(lo: int, hi: int, p: int) -> int {
    if p < lo {
        hi
    } else if p > hi {
        p
    } else {
        hi
    }
}

pub open spec fn max_int(a: int, b: int) -> int {
    if a >= b {
        a
    } else {
        b
    }
}

pub open spec fn min_int(a: int, b: int) -> int {
    if a <= b {
        a
    } else {
        b
    }
}

impl BndBox2<i32> {
    /// Whether no point has been added yet.
    pub open spec fn is_empty(&self) -> bool {
        self.empty
    }

    /// A non-empty box with `min <= max` componentwise.
    pub open spec fn well_ordered(&self) -> bool {
        !self.is_empty() && self.min.x <= self.max.x && self.min.y <= self.max.y
    }

    /// Whether the point lies in the (non-empty) box.
    pub open spec fn contains(&self, x: int, y: int) -> bool {
        !self.is_empty() && self.min.x <= x <= self.max.x && self.min.y <= y <= self.max.y
    }

    pub fn new_empty() -> (r: Self)
        ensures
            r.is_empty(),
            r.min == (Point2::<i32> { x: 0, y: 0 }),
            r.max == (Point2::<i32> { x: 0, y: 0 }),
    {
        BndBox2 { min: Point2::origin(), max: Point2::origin(), empty: true }
    }

    /// Grows the box to take in `pnt`.
    pub fn add_point(&mut self, pnt: Point2<i32>)
        ensures
            !final(self).is_empty(),
            ({
                let (lo, hi) = if old(self).is_empty() {
                    (pnt, pnt)
                } else {
                    (old(self).min, old(self).max)
                };
                &&& final(self).min.x == grown_lo(lo.x as int, pnt.x as int)
                &&& final(self).max.x == grown_hi(lo.x as int, hi.x as int, pnt.x as int)
                &&& final(self).min.y == grown_lo(lo.y as int, pnt.y as int)
                &&& final(self).max.y == grown_hi(lo.y as int, hi.y as int, pnt.y as int)
            }),
            old(self).is_empty() ==> final(self).min == pnt && final(self).max == pnt,
            old(self).well_ordered() ==> {
                &&& final(self).well_ordered()
                &&& final(self).min.x == min_int(old(self).min.x as int, pnt.x as int)
                &&& final(self).max.x == max_int(old(self).max.x as int, pnt.x as int)
                &&& final(self).min.y == min_int(old(self).min.y as int, pnt.y as int)
                &&& final(self).max.y == max_int(old(self).max.y as int, pnt.y as int)
            },
    {
        if self.empty {
            self.empty = false;
            self.min = pnt;
            self.max = pnt;
        }
        if pnt.x < self.min.x {
            self.min.x = pnt.x;
        } else if pnt.x > self.max.x {
            self.max.x = pnt.x;
        }
        if pnt.y < self.min.y {
            self.min.y = pnt.y;
        } else if pnt.y > self.max.y {
            self.max.y = pnt.y;
        }
    }

    /// Shrinks the box so that it lies within `clamp`.
    pub fn clamp_by(&mut self, clamp: &Self)
        ensures
            final(self).empty == old(self).empty,
            final(self).min.x == max_int(old(self).min.x as int, clamp.min.x as int),
            final(self).min.y == max_int(old(self).min.y as int, clamp.min.y as int),
            final(self).max.x == min_int(old(self).max.x as int, clamp.max.x as int),
            final(self).max.y == min_int(old(self).max.y as int, clamp.max.y as int),
    {
        if self.min.x < clamp.min.x {
            self.min.x = clamp.min.x;
        }
        if self.max.x > clamp.max.x {
            self.max.x = clamp.max.x;
        }
        if self.min.y < clamp.min.y {
            self.min.y = clamp.min.y;
        }
        if self.max.y > clamp.max.y {
            self.max.y = clamp.max.y;
        }
    }

    /// The point of the box nearest to `pnt`, coordinate by coordinate.
    pub fn clamp(&self, pnt: Point2<i32>) -> (r: Point2<i32>)
        ensures
            r.x == clamp_coord(pnt.x as int, self.min.x as int, self.max.x as int),
            r.y == clamp_coord(pnt.y as int, self.min.y as int, self.max.y as int),
            self.well_ordered() ==> self.contains(r.x as int, r.y as int),
            self.contains(pnt.x as int, pnt.y as int) ==> r == pnt,
    {
        let mut x = if pnt.x > self.min.x {
            pnt.x
        } else {
            self.min.x
        };
        if pnt.x > self.max.x {
            x = self.max.x;
        }
        let mut y = if pnt.y > self.min.y {
            pnt.y
        } else {
            self.min.y
        };
        if pnt.y > self.max.y {
            y = self.max.y;
        }
        Point2 { x, y }
    }

    /// The midpoint of the box, each coordinate rounded toward zero.
    pub fn center(&self) -> (r: Point2<i32>)
        ensures
            r.x == half_toward_zero(self.min.x + self.max.x),
            r.y == half_toward_zero(self.min.y + self.max.y),
    {
        Point2 { x: midpoint(self.min.x, self.max.x), y: midpoint(self.min.y, self.max.y) }
    }
}

/// `p` brought into `[lo, hi]`: the upper bound wins where the two conflict.
pub open spec fn clamp_coord(p: int, lo: int, hi: int) -> int {
    if p > hi {
        hi
    } else if p > lo {
        p
    } else {
        lo
    }
}

/// Half the sum of two coordinates, rounded toward zero, without overflow.
fn midpoint(a: i32, b: i32) -> (r: i32)
    ensures
        r == half_toward_zero(a + b),
{
    let s: i64 = a as i64 + b as i64;
    if s >= 0 {
        (s / 2) as i32
    } else {
        -((-s) / 2) as i32
    }
}

/// A three-dimensional axis-aligned bounding box.
#[derive(Clone, Copy, Debug)]
pub struct BndBox3<S> {
    pub min: Point3<S>,
    pub max: Point3<S>,
    pub empty: bool,
}

pub type BndBox3i = BndBox3<i32>;

impl BndBox3<i32> {
    /// A non-empty box with `min <= max` componentwise.
    pub open spec fn well_ordered(&self) -> bool {
        !self.empty && self.min.x <= self.max.x && self.min.y <= self.max.y && self.min.z
            <= self.max.z
    }

    pub fn new_empty() -> (r: Self)
        ensures
            r.empty,
            r.min == (Point3::<i32> { x: 0, y: 0, z: 0 }),
            r.max == (Point3::<i32> { x: 0, y: 0, z: 0 }),
    {
        BndBox3 { min: Point3::origin(), max: Point3::origin(), empty: true }
    }

    /// Grows the box to take in `pnt`.
    pub fn add_point(&mut self, pnt: Point3<i32>)
        ensures
            !final(self).empty,
            ({
                let (lo, hi) = if old(self).empty {
                    (pnt, pnt)
                } else {
                    (old(self).min, old(self).max)
                };
                &&& final(self).min.x == grown_lo(lo.x as int, pnt.x as int)
                &&& final(self).max.x == grown_hi(lo.x as int, hi.x as int, pnt.x as int)
                &&& final(self).min.y == grown_lo(lo.y as int, pnt.y as int)
                &&& final(self).max.y == grown_hi(lo.y as int, hi.y as int, pnt.y as int)
                &&& final(self).min.z == grown_lo(lo.z as int, pnt.z as int)
                &&& final(self).max.z == grown_hi(lo.z as int, hi.z as int, pnt.z as int)
            }),
            old(self).empty ==> final(self).min == pnt && final(self).max == pnt,
            old(self).well_ordered() ==> {
                &&& final(self).well_ordered()
                &&& final(self).min.x == min_int(old(self).min.x as int, pnt.x as int)
                &&& final(self).max.x == max_int(old(self).max.x as int, pnt.x as int)
                &&& final(self).min.y == min_int(old(self).min.y as int, pnt.y as int)
                &&& final(self).max.y == max_int(old(self).max.y as int, pnt.y as int)
                &&& final(self).min.z == min_int(old(self).min.z as int, pnt.z as int)
                &&& final(self).max.z == max_int(old(self).max.z as int, pnt.z as int)
            },
    {
        if self.empty {
            self.empty = false;
            self.min = pnt;
            self.max = pnt;
        }
        if pnt.x < self.min.x {
            self.min.x = pnt.x;
        } else if pnt.x > self.max.x {
            self.max.x = pnt.x;
        }
        if pnt.y < self.min.y {
            self.min.y = pnt.y;
        } else if pnt.y > self.max.y {
            self.max.y = pnt.y;
        }
        if pnt.z < self.min.z {
            self.min.z = pnt.z;
        } else if pnt.z > self.max.z {
            self.max.z = pnt.z;
        }
    }

    /// The midpoint of the box, each coordinate rounded toward zero.
    pub fn center(&self) -> (r: Point3<i32>)
        ensures
            r.x == half_toward_zero(self.min.x + self.max.x),
            r.y == half_toward_zero(self.min.y + self.max.y),
            r.z == half_toward_zero(self.min.z + self.max.z),
    {
        Point3 {
            x: midpoint(self.min.x, self.max.x),
            y: midpoint(self.min.y, self.max.y),
            z: midpoint(self.min.z, self.max.z),
        }
    }
}

} // verus!
