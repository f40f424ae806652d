//! Fixed-point vectors and axis-aligned bounding boxes.
//!
//! Coordinates are plain `i64` fixed-point values; distances use the
//! Chebyshev (maximum) metric, under which the ball of radius `r` around a
//! point is the axis-aligned cube of half-extent `r`. This keeps every
//! geometric predicate and every distance an exact integer computation.

use vstd::prelude::*;

verus! {

/// Bound on collider positions and shape half-extents.
pub const COORD_LIMIT: i64 = 1099511627776;

/// Bound on every coordinate of a bounding box stored in the spatial index.
pub const AABB_LIMIT: i64 = 17592186044416;

/// Bound on rigid-body velocities and accelerations.
pub const VEL_LIMIT: i64 = 1048576;

/// Bound on the time step used to integrate velocities and accelerations.
pub const DT_LIMIT: i64 = 1024;

/// Bound on the dilation margin added to every leaf bounding box.
pub const DILATION_LIMIT: i64 = 1024;

/// Bound on the reach (`max_toi`) of a ray or shape cast.
pub const TOI_LIMIT: i64 = 1125899906842624;

pub open spec fn in_range(x: int, b: int) -> bool {
    -b <= x <= b
}

pub open spec fn imin(a: int, b: int) -> int {
    if a <= b { a } else { b }
}

pub open spec fn imax(a: int, b: int) -> int {
    if a >= b { a } else { b }
}

/// One of the three coordinate axes.
#[derive(Clone, Copy, Debug, PartialEq, Eq, Structural)]
pub enum Axis {
    X,
    Y,
    Z,
}

/// A fixed-point vector (or point) in three dimensions.
#[derive(Clone, Copy, Debug, PartialEq, Eq, Structural)]
pub struct Vec3 {
    pub x: i64,
    pub y: i64,
    pub z: i64,
}

impl Vec3 {
    pub open spec fn spec_in_range(self, b: int) -> bool {
        in_range(self.x as int, b) && in_range(self.y as int, b) && in_range(self.z as int, b)
    }

    pub open spec fn axis(self, a: Axis) -> int {
        match a {
            Axis::X => self.x as int,
            Axis::Y => self.y as int,
            Axis::Z => self.z as int,
        }
    }

    pub open spec fn spec_add(self, o: Vec3) -> Vec3 {
        Vec3 { x: (self.x + o.x) as i64, y: (self.y + o.y) as i64, z: (self.z + o.z) as i64 }
    }

    pub fn add(self, o: Vec3) -> (r: Vec3)
        requires
            self.spec_in_range(AABB_LIMIT as int),
            o.spec_in_range(AABB_LIMIT as int),
        ensures
            r == self.spec_add(o),
            r.x == self.x + o.x,
            r.y == self.y + o.y,
            r.z == self.z + o.z,
    {
        Vec3 { x: self.x + o.x, y: self.y + o.y, z: self.z + o.z }
    }
}

/// An axis-aligned bounding box, the conservative bound used for broad
/// spatial pruning. Well-formed boxes are non-empty (`mins <= maxs`).
#[derive(Clone, Copy, Debug, PartialEq, Eq, Structural)]
pub struct Aabb {
    pub mins: Vec3,
    pub maxs: Vec3,
}

impl Aabb {
    pub open spec fn wf(self) -> bool {
        self.mins.x <= self.maxs.x && self.mins.y <= self.maxs.y && self.mins.z <= self.maxs.z
    }

    pub open spec fn spec_in_range(self, b: int) -> bool {
        self.mins.spec_in_range(b) && self.maxs.spec_in_range(b)
    }

    /// The point set of the box: membership of a point.
    pub open spec fn spec_contains_point(self, p: Vec3) -> bool {
        &&& self.mins.x <= p.x <= self.maxs.x
        &&& self.mins.y <= p.y <= self.maxs.y
        &&& self.mins.z <= p.z <= self.maxs.z
    }

    /// `other` is entirely inside `self`.
    pub open spec fn spec_contains_box(self, other: Aabb) -> bool {
        &&& self.mins.x <= other.mins.x && other.maxs.x <= self.maxs.x
        &&& self.mins.y <= other.mins.y && other.maxs.y <= self.maxs.y
        &&& self.mins.z <= other.mins.z && other.maxs.z <= self.maxs.z
    }

    pub open spec fn spec_intersects(self, other: Aabb) -> bool {
        &&& self.mins.x <= other.maxs.x && other.mins.x <= self.maxs.x
        &&& self.mins.y <= other.maxs.y && other.mins.y <= self.maxs.y
        &&& self.mins.z <= other.maxs.z && other.mins.z <= self.maxs.z
    }

    pub open spec fn spec_union(self, other: Aabb) -> Aabb {
        Aabb {
            mins: Vec3 {
                x: imin(self.mins.x as int, other.mins.x as int) as i64,
                y: imin(self.mins.y as int, other.mins.y as int) as i64,
                z: imin(self.mins.z as int, other.mins.z as int) as i64,
            },
            maxs: Vec3 {
                x: imax(self.maxs.x as int, other.maxs.x as int) as i64,
                y: imax(self.maxs.y as int, other.maxs.y as int) as i64,
                z: imax(self.maxs.z as int, other.maxs.z as int) as i64,
            },
        }
    }

    /// The box enlarged by the margin `m` on every side.
    pub open spec fn spec_dilate(self, m: int) -> Aabb {
        Aabb {
            mins: Vec3 {
                x: (self.mins.x - m) as i64,
                y: (self.mins.y - m) as i64,
                z: (self.mins.z - m) as i64,
            },
            maxs: Vec3 {
                x: (self.maxs.x + m) as i64,
                y: (self.maxs.y + m) as i64,
                z: (self.maxs.z + m) as i64,
            },
        }
    }

    /// Chebyshev distance from a point to the box: zero inside, otherwise the
    /// largest per-axis excess.
    pub open spec fn spec_dist_to_point(self, p: Vec3) -> int {
        imax(
            axis_excess(self.mins.x as int, self.maxs.x as int, p.x as int),
            imax(
                axis_excess(self.mins.y as int, self.maxs.y as int, p.y as int),
                axis_excess(self.mins.z as int, self.maxs.z as int, p.z as int),
            ),
        )
    }

    pub fn contains_point(&self, p: &Vec3) -> (r: bool)
        ensures
            r == self.spec_contains_point(*p),
    {
        self.mins.x <= p.x && p.x <= self.maxs.x && self.mins.y <= p.y && p.y <= self.maxs.y
            && self.mins.z <= p.z && p.z <= self.maxs.z
    }

    pub fn contains_box(&self, other: &Aabb) -> (r: bool)
        ensures
            r == self.spec_contains_box(*other),
    {
        self.mins.x <= other.mins.x && other.maxs.x <= self.maxs.x && self.mins.y <= other.mins.y
            && other.maxs.y <= self.maxs.y && self.mins.z <= other.mins.z
            && other.maxs.z <= self.maxs.z
    }

    pub fn intersects(&self, other: &Aabb) -> (r: bool)
        ensures
            r == self.spec_intersects(*other),
    {
        self.mins.x <= other.maxs.x && other.mins.x <= self.maxs.x && self.mins.y <= other.maxs.y
            && other.mins.y <= self.maxs.y && self.mins.z <= other.maxs.z
            && other.mins.z <= self.maxs.z
    }

    pub fn union(&self, other: &Aabb) -> (r: Aabb)
        ensures
            r == self.spec_union(*other),
    {
        Aabb {
            mins: Vec3 {
                x: if self.mins.x <= other.mins.x { self.mins.x } else { other.mins.x },
                y: if self.mins.y <= other.mins.y { self.mins.y } else { other.mins.y },
                z: if self.mins.z <= other.mins.z { self.mins.z } else { other.mins.z },
            },
            maxs: Vec3 {
                x: if self.maxs.x >= other.maxs.x { self.maxs.x } else { other.maxs.x },
                y: if self.maxs.y >= other.maxs.y { self.maxs.y } else { other.maxs.y },
                z: if self.maxs.z >= other.maxs.z { self.maxs.z } else { other.maxs.z },
            },
        }
    }

    pub fn dilate(&self, m: i64) -> (r: Aabb)
        requires
            self.spec_in_range(AABB_LIMIT as int),
            0 <= m <= DILATION_LIMIT,
        ensures
            r == self.spec_dilate(m as int),
            self.wf() ==> r.wf(),
            r.spec_contains_box(*self),
    {
        Aabb {
            mins: Vec3 { x: self.mins.x - m, y: self.mins.y - m, z: self.mins.z - m },
            maxs: Vec3 { x: self.maxs.x + m, y: self.maxs.y + m, z: self.maxs.z + m },
        }
    }
}

pub open spec fn axis_excess(lo: int, hi: int, p: int) -> int {
    if p < lo {
        lo - p
    } else if p > hi {
        p - hi
    } else {
        0
    }
}

/// Containment of boxes is transitive.
pub proof fn lemma_contains_box_trans(a: Aabb, b: Aabb, c: Aabb)
    requires
        a.spec_contains_box(b),
        b.spec_contains_box(c),
    ensures
        a.spec_contains_box(c),
{
}

/// A box containing another that meets a region also meets that region.
pub proof fn lemma_intersects_monotone(outer: Aabb, inner: Aabb, region: Aabb)
    requires
        outer.spec_contains_box(inner),
        inner.spec_intersects(region),
    ensures
        outer.spec_intersects(region),
{
}

/// Two well-formed boxes that both contain a common box intersect.
pub proof fn lemma_common_box_intersects(a: Aabb, b: Aabb, common: Aabb)
    requires
        common.wf(),
        a.spec_contains_box(common),
        b.spec_contains_box(common),
    ensures
        a.spec_intersects(b),
{
}

/// A dilation by a nonnegative margin contains the original box.
pub proof fn lemma_dilate_contains(a: Aabb, m: int)
    requires
        0 <= m <= DILATION_LIMIT,
        a.spec_in_range(AABB_LIMIT as int),
    ensures
        a.spec_dilate(m).spec_contains_box(a),
{
}

/// The union contains both of its arguments.
pub proof fn lemma_union_contains(a: Aabb, b: Aabb)
    ensures
        a.spec_union(b).spec_contains_box(a),
        a.spec_union(b).spec_contains_box(b),
{
}

/// Chebyshev distance to a larger box is no larger.
pub proof fn lemma_dist_monotone(outer: Aabb, inner: Aabb, p: Vec3)
    requires
        inner.wf(),
        outer.spec_contains_box(inner),
    ensures
        outer.spec_dist_to_point(p) <= inner.spec_dist_to_point(p),
{
    assert(axis_excess(outer.mins.x as int, outer.maxs.x as int, p.x as int) <= axis_excess(
        inner.mins.x as int,
        inner.maxs.x as int,
        p.x as int,
    ));
    assert(axis_excess(outer.mins.y as int, outer.maxs.y as int, p.y as int) <= axis_excess(
        inner.mins.y as int,
        inner.maxs.y as int,
        p.y as int,
    ));
    assert(axis_excess(outer.mins.z as int, outer.maxs.z as int, p.z as int) <= axis_excess(
        inner.mins.z as int,
        inner.maxs.z as int,
        p.z as int,
    ));
}

/// A box is within Chebyshev distance `d` of `p` exactly when it meets the
/// cube of half-extent `d` centered at `p`.
pub proof fn lemma_dist_as_region(b: Aabb, p: Vec3, d: int, region: Aabb)
    requires
        b.wf(),
        d >= 0,
        region.mins.x == p.x - d,
        region.mins.y == p.y - d,
        region.mins.z == p.z - d,
        region.maxs.x == p.x + d,
        region.maxs.y == p.y + d,
        region.maxs.z == p.z + d,
    ensures
        b.spec_intersects(region) <==> b.spec_dist_to_point(p) <= d,
{
}

} // verus!
