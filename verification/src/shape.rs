//! The closed set of built-in shape kinds and the exact per-shape geometry:
//! bounding boxes, point containment and projection, ray casts and linear
//! sweeps.
//!
//! Under the Chebyshev metric every built-in shape occupies exactly the
//! axis-aligned box of its half-extents around its position, so each
//! geometric query is an exact integer computation on boxes. Rays and sweep
//! velocities are axis-aligned with unit speed, so every time of impact is an
//! integer. Richer geometry belongs to a custom pairwise dispatcher.

use vstd::prelude::*;

use crate::math::{imin, Aabb, Axis, Vec3, AABB_LIMIT, COORD_LIMIT};

verus! {

/// A built-in shape kind. A ball is the Chebyshev ball of its radius, that
/// is, the cube of half-extent `radius`.
#[derive(Clone, Copy, Debug, PartialEq, Eq, Structural)]
pub enum Shape {
    Cuboid { half_extents: Vec3 },
    Ball { radius: i64 },
}

impl Shape {
    pub open spec fn spec_half_extents(self) -> Vec3 {
        match self {
            Shape::Cuboid { half_extents } => half_extents,
            Shape::Ball { radius } => Vec3 { x: radius, y: radius, z: radius },
        }
    }

    pub open spec fn wf(self) -> bool {
        &&& 0 <= self.spec_half_extents().x <= COORD_LIMIT
        &&& 0 <= self.spec_half_extents().y <= COORD_LIMIT
        &&& 0 <= self.spec_half_extents().z <= COORD_LIMIT
    }

    /// The exact bounding box of the shape positioned at `pos`; under the
    /// Chebyshev metric this box is also the shape's exact point set.
    pub open spec fn spec_aabb(self, pos: Vec3) -> Aabb {
        Aabb {
            mins: Vec3 {
                x: (pos.x - self.spec_half_extents().x) as i64,
                y: (pos.y - self.spec_half_extents().y) as i64,
                z: (pos.z - self.spec_half_extents().z) as i64,
            },
            maxs: Vec3 {
                x: (pos.x + self.spec_half_extents().x) as i64,
                y: (pos.y + self.spec_half_extents().y) as i64,
                z: (pos.z + self.spec_half_extents().z) as i64,
            },
        }
    }

    pub fn half_extents(&self) -> (r: Vec3)
        ensures
            r == self.spec_half_extents(),
    {
        match self {
            Shape::Cuboid { half_extents } => *half_extents,
            Shape::Ball { radius } => Vec3 { x: *radius, y: *radius, z: *radius },
        }
    }

    /// Computes the exact bounding box of the shape at the given position.
    pub fn compute_aabb(&self, pos: &Vec3) -> (r: Aabb)
        requires
            self.wf(),
            pos.spec_in_range(7 * COORD_LIMIT as int),
        ensures
            r == self.spec_aabb(*pos),
            r.wf(),
            r.spec_in_range(8 * COORD_LIMIT as int),
    {
        let he = self.half_extents();
        Aabb {
            mins: Vec3 { x: pos.x - he.x, y: pos.y - he.y, z: pos.z - he.z },
            maxs: Vec3 { x: pos.x + he.x, y: pos.y + he.y, z: pos.z + he.z },
        }
    }
}

/// Identifies which sub-element of a shape (face, edge or vertex) a query
/// result lies on.
#[derive(Clone, Copy, Debug, PartialEq, Eq, Structural)]
pub enum FeatureId {
    Vertex(u32),
    Edge(u32),
    Face(u32),
    Unknown,
}

/// An axis-aligned direction: one coordinate axis and an orientation.
#[derive(Clone, Copy, Debug, PartialEq, Eq, Structural)]
pub struct AxisDir {
    pub axis: Axis,
    pub positive: bool,
}

impl AxisDir {
    pub open spec fn spec_opposite(self) -> AxisDir {
        AxisDir { axis: self.axis, positive: !self.positive }
    }

    pub fn opposite(self) -> (r: AxisDir)
        ensures
            r == self.spec_opposite(),
    {
        AxisDir { axis: self.axis, positive: !self.positive }
    }
}

/// A ray: an origin and an axis-aligned unit-speed direction. The point at
/// time `t` is the origin displaced by `t` along the direction.
#[derive(Clone, Copy, Debug, PartialEq, Eq, Structural)]
pub struct Ray {
    pub origin: Vec3,
    pub dir: AxisDir,
}

/// The coordinates of `o` on the two axes other than `a` lie within `b`.
pub open spec fn spec_others_inside(b: Aabb, o: Vec3, a: Axis) -> bool {
    match a {
        Axis::X => b.mins.y <= o.y <= b.maxs.y && b.mins.z <= o.z <= b.maxs.z,
        Axis::Y => b.mins.x <= o.x <= b.maxs.x && b.mins.z <= o.z <= b.maxs.z,
        Axis::Z => b.mins.x <= o.x <= b.maxs.x && b.mins.y <= o.y <= b.maxs.y,
    }
}

impl Ray {
    /// The ray's point at time `t` lies in the box `b`.
    pub open spec fn spec_on_box_at(self, b: Aabb, t: int) -> bool {
        let o = self.origin.axis(self.dir.axis);
        let shifted = if self.dir.positive { o + t } else { o - t };
        &&& b.mins.axis(self.dir.axis) <= shifted <= b.maxs.axis(self.dir.axis)
        &&& spec_others_inside(b, self.origin, self.dir.axis)
    }

    /// The axis-aligned box covered by the ray segment of length `len`.
    pub open spec fn spec_segment_box(self, len: int) -> Aabb {
        let o = self.origin.axis(self.dir.axis);
        let (lo, hi): (int, int) = if self.dir.positive { (o, o + len) } else { (o - len, o) };
        Aabb {
            mins: Vec3 {
                x: if self.dir.axis == Axis::X { lo as i64 } else { self.origin.x },
                y: if self.dir.axis == Axis::Y { lo as i64 } else { self.origin.y },
                z: if self.dir.axis == Axis::Z { lo as i64 } else { self.origin.z },
            },
            maxs: Vec3 {
                x: if self.dir.axis == Axis::X { hi as i64 } else { self.origin.x },
                y: if self.dir.axis == Axis::Y { hi as i64 } else { self.origin.y },
                z: if self.dir.axis == Axis::Z { hi as i64 } else { self.origin.z },
            },
        }
    }

    pub fn segment_box(&self, len: i64) -> (r: Aabb)
        requires
            self.origin.spec_in_range(AABB_LIMIT as int),
            0 <= len <= crate::math::TOI_LIMIT,
        ensures
            r == self.spec_segment_box(len as int),
            r.wf(),
    {
        let (lo, hi): (i64, i64) = match self.dir.axis {
            Axis::X => (self.origin.x, self.origin.x),
            Axis::Y => (self.origin.y, self.origin.y),
            Axis::Z => (self.origin.z, self.origin.z),
        };
        let (lo, hi): (i64, i64) = if self.dir.positive { (lo, hi + len) } else { (lo - len, hi) };
        Aabb {
            mins: Vec3 {
                x: if matches!(self.dir.axis, Axis::X) { lo } else { self.origin.x },
                y: if matches!(self.dir.axis, Axis::Y) { lo } else { self.origin.y },
                z: if matches!(self.dir.axis, Axis::Z) { lo } else { self.origin.z },
            },
            maxs: Vec3 {
                x: if matches!(self.dir.axis, Axis::X) { hi } else { self.origin.x },
                y: if matches!(self.dir.axis, Axis::Y) { hi } else { self.origin.y },
                z: if matches!(self.dir.axis, Axis::Z) { hi } else { self.origin.z },
            },
        }
    }
}

/// The details of a ray hit: the time of impact, the surface normal at the
/// hit, and the feature (face) crossed.
#[derive(Clone, Copy, Debug, PartialEq, Eq, Structural)]
pub struct RayIntersection {
    pub toi: i64,
    pub normal: AxisDir,
    pub feature: FeatureId,
}

/// Time of impact of a ray against a box, or `None` if the ray misses it
/// within `max_toi`. With `solid` a ray starting inside reports time zero;
/// otherwise it reports the time at which it leaves through the boundary.
pub open spec fn spec_ray_toi(b: Aabb, ray: Ray, max_toi: int, solid: bool) -> Option<int> {
    let o = ray.origin.axis(ray.dir.axis);
    let lo = b.mins.axis(ray.dir.axis);
    let hi = b.maxs.axis(ray.dir.axis);
    let t_in: int = if ray.dir.positive { lo - o } else { o - hi };
    let t_out: int = if ray.dir.positive { hi - o } else { o - lo };
    if !spec_others_inside(b, ray.origin, ray.dir.axis) {
        None
    } else if t_out < 0 || t_in > max_toi {
        None
    } else if t_in <= 0 {
        if solid {
            Some(0int)
        } else if t_out <= max_toi {
            Some(t_out)
        } else {
            None
        }
    } else {
        Some(t_in)
    }
}

/// The surface normal reported for a ray hit: against the travel direction
/// when the ray enters from outside or starts inside a solid box, along it
/// when it leaves a hollow box from inside.
pub open spec fn spec_ray_normal(b: Aabb, ray: Ray, solid: bool) -> AxisDir {
    let o = ray.origin.axis(ray.dir.axis);
    let t_in: int = if ray.dir.positive { b.mins.axis(ray.dir.axis) - o } else {
        o - b.maxs.axis(ray.dir.axis)
    };
    if t_in <= 0 && !solid {
        ray.dir
    } else {
        ray.dir.spec_opposite()
    }
}

/// The face of the box crossed by the reported ray hit.
pub open spec fn spec_ray_face(b: Aabb, ray: Ray, solid: bool) -> FeatureId {
    let n = spec_ray_normal(b, ray, solid);
    FeatureId::Face(spec_face_code(n) as u32)
}

pub open spec fn spec_face_code(n: AxisDir) -> int {
    let a: int = match n.axis {
        Axis::X => 0,
        Axis::Y => 1,
        Axis::Z => 2,
    };
    2 * a + if n.positive { 1int } else { 0int }
}

/// Evaluates a ray cast against a box.
pub fn ray_toi(b: &Aabb, ray: &Ray, max_toi: i64, solid: bool) -> (r: Option<i64>)
    requires
        b.spec_in_range(AABB_LIMIT as int),
        ray.origin.spec_in_range(AABB_LIMIT as int),
        max_toi >= 0,
    ensures
        r matches Some(t) ==> spec_ray_toi(*b, *ray, max_toi as int, solid) == Some(t as int),
        r is None ==> spec_ray_toi(*b, *ray, max_toi as int, solid) is None,
{
    let (o, lo, hi): (i64, i64, i64) = match ray.dir.axis {
        Axis::X => (ray.origin.x, b.mins.x, b.maxs.x),
        Axis::Y => (ray.origin.y, b.mins.y, b.maxs.y),
        Axis::Z => (ray.origin.z, b.mins.z, b.maxs.z),
    };
    let other_ok: bool = match ray.dir.axis {
        Axis::X => b.mins.y <= ray.origin.y && ray.origin.y <= b.maxs.y && b.mins.z
            <= ray.origin.z && ray.origin.z <= b.maxs.z,
        Axis::Y => b.mins.x <= ray.origin.x && ray.origin.x <= b.maxs.x && b.mins.z
            <= ray.origin.z && ray.origin.z <= b.maxs.z,
        Axis::Z => b.mins.x <= ray.origin.x && ray.origin.x <= b.maxs.x && b.mins.y
            <= ray.origin.y && ray.origin.y <= b.maxs.y,
    };
    if !other_ok {
        return None;
    }
    let t_in: i64 = if ray.dir.positive { lo - o } else { o - hi };
    let t_out: i64 = if ray.dir.positive { hi - o } else { o - lo };
    if t_out < 0 || t_in > max_toi {
        None
    } else if t_in <= 0 {
        if solid {
            Some(0)
        } else if t_out <= max_toi {
            Some(t_out)
        } else {
            None
        }
    } else {
        Some(t_in)
    }
}

/// A reported ray hit lies on the box at its time of impact, within bounds.
pub proof fn lemma_ray_toi_on_box(b: Aabb, ray: Ray, max_toi: int, solid: bool, t: int)
    requires
        b.wf(),
        max_toi >= 0,
        spec_ray_toi(b, ray, max_toi, solid) == Some(t),
    ensures
        0 <= t <= max_toi,
        ray.spec_on_box_at(b, t),
{
}

/// A point of the box reached by the ray within time `len` witnesses that the
/// box meets the ray's segment box.
pub proof fn lemma_on_box_in_segment(b: Aabb, ray: Ray, t: int, len: int)
    requires
        ray.origin.spec_in_range(AABB_LIMIT as int),
        0 <= len <= crate::math::TOI_LIMIT,
        ray.spec_on_box_at(b, t),
        0 <= t <= len,
    ensures
        b.spec_intersects(ray.spec_segment_box(len)),
{
    match ray.dir.axis {
        Axis::X => {},
        Axis::Y => {},
        Axis::Z => {},
    }
}

/// A ray point inside an inner box is inside any enclosing box.
pub proof fn lemma_on_box_monotone(outer: Aabb, inner: Aabb, ray: Ray, t: int)
    requires
        outer.spec_contains_box(inner),
        ray.spec_on_box_at(inner, t),
    ensures
        ray.spec_on_box_at(outer, t),
{
    match ray.dir.axis {
        Axis::X => {},
        Axis::Y => {},
        Axis::Z => {},
    }
}

/// The projection of a point on a shape: the nearest point of the shape
/// (solid) or of its boundary (hollow), and whether the query point was
/// inside.
#[derive(Clone, Copy, Debug, PartialEq, Eq, Structural)]
pub struct PointProjection {
    pub point: Vec3,
    pub is_inside: bool,
}

/// The nearest point of the box to `p`: each coordinate clamped to the box.
pub open spec fn spec_clamp(b: Aabb, p: Vec3) -> Vec3 {
    Vec3 {
        x: if p.x < b.mins.x { b.mins.x } else if p.x > b.maxs.x { b.maxs.x } else { p.x },
        y: if p.y < b.mins.y { b.mins.y } else if p.y > b.maxs.y { b.maxs.y } else { p.y },
        z: if p.z < b.mins.z { b.mins.z } else if p.z > b.maxs.z { b.maxs.z } else { p.z },
    }
}

/// Distance from an interior point to the nearest face of the box.
pub open spec fn spec_interior_margin(b: Aabb, p: Vec3) -> int {
    imin(
        imin(p.x - b.mins.x, b.maxs.x - p.x),
        imin(imin(p.y - b.mins.y, b.maxs.y - p.y), imin(p.z - b.mins.z, b.maxs.z - p.z)),
    )
}

/// An interior point moved to the nearest face (ties resolved axis by axis,
/// lower face first).
pub open spec fn spec_hollow_point(b: Aabb, p: Vec3) -> Vec3 {
    let m = spec_interior_margin(b, p);
    if p.x - b.mins.x == m {
        Vec3 { x: b.mins.x, ..p }
    } else if b.maxs.x - p.x == m {
        Vec3 { x: b.maxs.x, ..p }
    } else if p.y - b.mins.y == m {
        Vec3 { y: b.mins.y, ..p }
    } else if b.maxs.y - p.y == m {
        Vec3 { y: b.maxs.y, ..p }
    } else if p.z - b.mins.z == m {
        Vec3 { z: b.mins.z, ..p }
    } else {
        Vec3 { z: b.maxs.z, ..p }
    }
}

/// The projection of `p` on the box `b`.
pub open spec fn spec_project(b: Aabb, p: Vec3, solid: bool) -> PointProjection {
    if !b.spec_contains_point(p) {
        PointProjection { point: spec_clamp(b, p), is_inside: false }
    } else if solid {
        PointProjection { point: p, is_inside: true }
    } else {
        PointProjection { point: spec_hollow_point(b, p), is_inside: true }
    }
}

/// The projection distance: how far `p` is from the reported projection.
pub open spec fn spec_proj_cost(b: Aabb, p: Vec3, solid: bool) -> int {
    if !b.spec_contains_point(p) {
        b.spec_dist_to_point(p)
    } else if solid {
        0
    } else {
        spec_interior_margin(b, p)
    }
}

/// Evaluates a point projection on a box.
pub fn project_on_box(b: &Aabb, p: &Vec3, solid: bool) -> (r: (PointProjection, i64))
    requires
        b.spec_in_range(AABB_LIMIT as int),
        p.spec_in_range(AABB_LIMIT as int),
    ensures
        r.0 == spec_project(*b, *p, solid),
        r.1 as int == spec_proj_cost(*b, *p, solid),
{
    if !b.contains_point(p) {
        let q = Vec3 {
            x: if p.x < b.mins.x { b.mins.x } else if p.x > b.maxs.x { b.maxs.x } else { p.x },
            y: if p.y < b.mins.y { b.mins.y } else if p.y > b.maxs.y { b.maxs.y } else { p.y },
            z: if p.z < b.mins.z { b.mins.z } else if p.z > b.maxs.z { b.maxs.z } else { p.z },
        };
        let dx: i64 = if p.x < b.mins.x { b.mins.x - p.x } else if p.x > b.maxs.x { p.x - b.maxs.x } else { 0 };
        let dy: i64 = if p.y < b.mins.y { b.mins.y - p.y } else if p.y > b.maxs.y { p.y - b.maxs.y } else { 0 };
        let dz: i64 = if p.z < b.mins.z { b.mins.z - p.z } else if p.z > b.maxs.z { p.z - b.maxs.z } else { 0 };
        let d: i64 = if dx >= dy && dx >= dz { dx } else if dy >= dz { dy } else { dz };
        (PointProjection { point: q, is_inside: false }, d)
    } else if solid {
        (PointProjection { point: *p, is_inside: true }, 0)
    } else {
        let mxl: i64 = p.x - b.mins.x;
        let mxh: i64 = b.maxs.x - p.x;
        let myl: i64 = p.y - b.mins.y;
        let myh: i64 = b.maxs.y - p.y;
        let mzl: i64 = p.z - b.mins.z;
        let mzh: i64 = b.maxs.z - p.z;
        let mut m: i64 = mxl;
        if mxh < m {
            m = mxh;
        }
        if myl < m {
            m = myl;
        }
        if myh < m {
            m = myh;
        }
        if mzl < m {
            m = mzl;
        }
        if mzh < m {
            m = mzh;
        }
        let q = if mxl == m {
            Vec3 { x: b.mins.x, y: p.y, z: p.z }
        } else if mxh == m {
            Vec3 { x: b.maxs.x, y: p.y, z: p.z }
        } else if myl == m {
            Vec3 { x: p.x, y: b.mins.y, z: p.z }
        } else if myh == m {
            Vec3 { x: p.x, y: b.maxs.y, z: p.z }
        } else if mzl == m {
            Vec3 { x: p.x, y: p.y, z: b.mins.z }
        } else {
            Vec3 { x: p.x, y: p.y, z: b.maxs.z }
        };
        (PointProjection { point: q, is_inside: true }, m)
    }
}

/// The projection distance is never below the Chebyshev distance to the box,
/// so the distance to an enclosing stored box is a sound search bound.
pub proof fn lemma_proj_cost_ge_dist(b: Aabb, p: Vec3, solid: bool)
    requires
        b.wf(),
    ensures
        spec_proj_cost(b, p, solid) >= b.spec_dist_to_point(p),
        spec_proj_cost(b, p, solid) >= 0,
{
}

/// The feature of a box hit by a point projection: which faces the clamped
/// point lies on. Projections of interior points report the face they were
/// moved to; a ball reports its single face.
pub open spec fn spec_proj_feature(shape: Shape, b: Aabb, p: Vec3) -> FeatureId {
    match shape {
        Shape::Ball { .. } => FeatureId::Face(0),
        Shape::Cuboid { .. } => {
            if !b.spec_contains_point(p) {
                spec_cuboid_outside_feature(b, p)
            } else {
                spec_cuboid_inside_feature(b, p)
            }
        },
    }
}

pub open spec fn spec_cuboid_outside_feature(b: Aabb, p: Vec3) -> FeatureId {
    let cx: bool = p.x < b.mins.x || p.x > b.maxs.x;
    let cy: bool = p.y < b.mins.y || p.y > b.maxs.y;
    let cz: bool = p.z < b.mins.z || p.z > b.maxs.z;
    let bx: int = if p.x > b.maxs.x { 1 } else { 0 };
    let by: int = if p.y > b.maxs.y { 1 } else { 0 };
    let bz: int = if p.z > b.maxs.z { 1 } else { 0 };
    if cx && cy && cz {
        FeatureId::Vertex((bx + 2 * by + 4 * bz) as u32)
    } else if cx && cy {
        FeatureId::Edge((2 * 4 + bx + 2 * by) as u32)
    } else if cx && cz {
        FeatureId::Edge((1 * 4 + bx + 2 * bz) as u32)
    } else if cy && cz {
        FeatureId::Edge((0 * 4 + by + 2 * bz) as u32)
    } else if cx {
        FeatureId::Face((0 + bx) as u32)
    } else if cy {
        FeatureId::Face((2 + by) as u32)
    } else {
        FeatureId::Face((4 + bz) as u32)
    }
}

pub open spec fn spec_cuboid_inside_feature(b: Aabb, p: Vec3) -> FeatureId {
    let m = spec_interior_margin(b, p);
    if p.x - b.mins.x == m {
        FeatureId::Face(0)
    } else if b.maxs.x - p.x == m {
        FeatureId::Face(1)
    } else if p.y - b.mins.y == m {
        FeatureId::Face(2)
    } else if b.maxs.y - p.y == m {
        FeatureId::Face(3)
    } else if p.z - b.mins.z == m {
        FeatureId::Face(4)
    } else {
        FeatureId::Face(5)
    }
}

/// Evaluates the feature hit by a point projection.
pub fn proj_feature(shape: &Shape, b: &Aabb, p: &Vec3) -> (r: FeatureId)
    requires
        b.spec_in_range(AABB_LIMIT as int),
        p.spec_in_range(AABB_LIMIT as int),
    ensures
        r == spec_proj_feature(*shape, *b, *p),
{
    match shape {
        Shape::Ball { .. } => FeatureId::Face(0),
        Shape::Cuboid { .. } => {
            if !b.contains_point(p) {
                let cx: bool = p.x < b.mins.x || p.x > b.maxs.x;
                let cy: bool = p.y < b.mins.y || p.y > b.maxs.y;
                let cz: bool = p.z < b.mins.z || p.z > b.maxs.z;
                let bx: u32 = if p.x > b.maxs.x { 1 } else { 0 };
                let by: u32 = if p.y > b.maxs.y { 1 } else { 0 };
                let bz: u32 = if p.z > b.maxs.z { 1 } else { 0 };
                if cx && cy && cz {
                    FeatureId::Vertex(bx + 2 * by + 4 * bz)
                } else if cx && cy {
                    FeatureId::Edge(2 * 4 + bx + 2 * by)
                } else if cx && cz {
                    FeatureId::Edge(1 * 4 + bx + 2 * bz)
                } else if cy && cz {
                    FeatureId::Edge(0 * 4 + by + 2 * bz)
                } else if cx {
                    FeatureId::Face(0 + bx)
                } else if cy {
                    FeatureId::Face(2 + by)
                } else {
                    FeatureId::Face(4 + bz)
                }
            } else {
                let mxl: i64 = p.x - b.mins.x;
                let mxh: i64 = b.maxs.x - p.x;
                let myl: i64 = p.y - b.mins.y;
                let myh: i64 = b.maxs.y - p.y;
                let mzl: i64 = p.z - b.mins.z;
                let mzh: i64 = b.maxs.z - p.z;
                let mut m: i64 = mxl;
                if mxh < m {
                    m = mxh;
                }
                if myl < m {
                    m = myl;
                }
                if myh < m {
                    m = myh;
                }
                if mzl < m {
                    m = mzl;
                }
                if mzh < m {
                    m = mzh;
                }
                if mxl == m {
                    FeatureId::Face(0)
                } else if mxh == m {
                    FeatureId::Face(1)
                } else if myl == m {
                    FeatureId::Face(2)
                } else if myh == m {
                    FeatureId::Face(3)
                } else if mzl == m {
                    FeatureId::Face(4)
                } else {
                    FeatureId::Face(5)
                }
            }
        },
    }
}

/// Outcome classification of a shape cast.
#[derive(Clone, Copy, Debug, PartialEq, Eq, Structural)]
pub enum ToiStatus {
    /// The shapes touch at the reported time after approaching.
    Converged,
    /// The shapes already overlap at the start of the motion.
    Penetrating,
}

/// The result of a shape cast: the time of impact, a point common to both
/// shapes at that time, and the contact normal on the hit shape.
#[derive(Clone, Copy, Debug, PartialEq, Eq, Structural)]
pub struct Toi {
    pub toi: i64,
    pub witness: Vec3,
    pub normal: AxisDir,
    pub status: ToiStatus,
}

/// The two boxes overlap on the two axes other than `a`.
pub open spec fn spec_others_overlap(m: Aabb, t: Aabb, a: Axis) -> bool {
    match a {
        Axis::X => m.mins.y <= t.maxs.y && t.mins.y <= m.maxs.y && m.mins.z <= t.maxs.z
            && t.mins.z <= m.maxs.z,
        Axis::Y => m.mins.x <= t.maxs.x && t.mins.x <= m.maxs.x && m.mins.z <= t.maxs.z
            && t.mins.z <= m.maxs.z,
        Axis::Z => m.mins.x <= t.maxs.x && t.mins.x <= m.maxs.x && m.mins.y <= t.maxs.y
            && t.mins.y <= m.maxs.y,
    }
}

/// The box `mv` displaced by `t` along `dir`.
pub open spec fn spec_shifted(mv: Aabb, dir: AxisDir, t: int) -> Aabb {
    let d: int = if dir.positive { t } else { -t };
    Aabb {
        mins: Vec3 {
            x: if dir.axis == Axis::X { (mv.mins.x + d) as i64 } else { mv.mins.x },
            y: if dir.axis == Axis::Y { (mv.mins.y + d) as i64 } else { mv.mins.y },
            z: if dir.axis == Axis::Z { (mv.mins.z + d) as i64 } else { mv.mins.z },
        },
        maxs: Vec3 {
            x: if dir.axis == Axis::X { (mv.maxs.x + d) as i64 } else { mv.maxs.x },
            y: if dir.axis == Axis::Y { (mv.maxs.y + d) as i64 } else { mv.maxs.y },
            z: if dir.axis == Axis::Z { (mv.maxs.z + d) as i64 } else { mv.maxs.z },
        },
    }
}

/// The box swept by `mv` over a motion of length `len` along `dir`.
pub open spec fn spec_swept_box(mv: Aabb, dir: AxisDir, len: int) -> Aabb {
    Aabb {
        mins: Vec3 {
            x: if dir.axis == Axis::X && !dir.positive { (mv.mins.x - len) as i64 } else { mv.mins.x },
            y: if dir.axis == Axis::Y && !dir.positive { (mv.mins.y - len) as i64 } else { mv.mins.y },
            z: if dir.axis == Axis::Z && !dir.positive { (mv.mins.z - len) as i64 } else { mv.mins.z },
        },
        maxs: Vec3 {
            x: if dir.axis == Axis::X && dir.positive { (mv.maxs.x + len) as i64 } else { mv.maxs.x },
            y: if dir.axis == Axis::Y && dir.positive { (mv.maxs.y + len) as i64 } else { mv.maxs.y },
            z: if dir.axis == Axis::Z && dir.positive { (mv.maxs.z + len) as i64 } else { mv.maxs.z },
        },
    }
}

/// Time of first contact of the box `mv`, moving with unit speed along
/// `dir`, against the static box `tgt`, within `max_toi`. Boxes that overlap
/// at the start report time zero.
pub open spec fn spec_cast_toi(mv: Aabb, dir: AxisDir, max_toi: int, tgt: Aabb) -> Option<int> {
    let mlo = mv.mins.axis(dir.axis);
    let mhi = mv.maxs.axis(dir.axis);
    let tlo = tgt.mins.axis(dir.axis);
    let thi = tgt.maxs.axis(dir.axis);
    if !spec_others_overlap(mv, tgt, dir.axis) {
        None
    } else if mhi >= tlo && mlo <= thi {
        Some(0int)
    } else if dir.positive && mhi < tlo {
        if tlo - mhi <= max_toi {
            Some(tlo - mhi)
        } else {
            None
        }
    } else if !dir.positive && mlo > thi {
        if mlo - thi <= max_toi {
            Some(mlo - thi)
        } else {
            None
        }
    } else {
        None
    }
}

/// Evaluates a shape cast of one box against another and builds the hit
/// record: its time equals the exact first-contact time, and its witness
/// point lies in both shapes at that time.
pub fn cast_box(mv: &Aabb, dir: AxisDir, max_toi: i64, tgt: &Aabb) -> (r: Option<Toi>)
    requires
        mv.wf(),
        tgt.wf(),
        mv.spec_in_range(AABB_LIMIT as int),
        tgt.spec_in_range(AABB_LIMIT as int),
        0 <= max_toi <= crate::math::TOI_LIMIT,
    ensures
        r matches Some(hit) ==> {
            &&& spec_cast_toi(*mv, dir, max_toi as int, *tgt) == Some(hit.toi as int)
            &&& tgt.spec_contains_point(hit.witness)
            &&& spec_shifted(*mv, dir, hit.toi as int).spec_contains_point(hit.witness)
            &&& hit.normal == dir.spec_opposite()
            &&& (hit.status == ToiStatus::Penetrating <==> mv.spec_intersects(*tgt))
        },
        r is None ==> spec_cast_toi(*mv, dir, max_toi as int, *tgt) is None,
{
    let (mlo, mhi, tlo, thi): (i64, i64, i64, i64) = match dir.axis {
        Axis::X => (mv.mins.x, mv.maxs.x, tgt.mins.x, tgt.maxs.x),
        Axis::Y => (mv.mins.y, mv.maxs.y, tgt.mins.y, tgt.maxs.y),
        Axis::Z => (mv.mins.z, mv.maxs.z, tgt.mins.z, tgt.maxs.z),
    };
    let others: bool = match dir.axis {
        Axis::X => mv.mins.y <= tgt.maxs.y && tgt.mins.y <= mv.maxs.y && mv.mins.z <= tgt.maxs.z
            && tgt.mins.z <= mv.maxs.z,
        Axis::Y => mv.mins.x <= tgt.maxs.x && tgt.mins.x <= mv.maxs.x && mv.mins.z <= tgt.maxs.z
            && tgt.mins.z <= mv.maxs.z,
        Axis::Z => mv.mins.x <= tgt.maxs.x && tgt.mins.x <= mv.maxs.x && mv.mins.y <= tgt.maxs.y
            && tgt.mins.y <= mv.maxs.y,
    };
    if !others {
        return None;
    }
    let t: i64 = if mhi >= tlo && mlo <= thi {
        0
    } else if dir.positive && mhi < tlo {
        if tlo - mhi <= max_toi {
            tlo - mhi
        } else {
            return None;
        }
    } else if !dir.positive && mlo > thi {
        if mlo - thi <= max_toi {
            mlo - thi
        } else {
            return None;
        }
    } else {
        return None;
    };
    let d: i64 = if dir.positive { t } else { -t };
    let sm = Aabb {
        mins: Vec3 {
            x: if matches!(dir.axis, Axis::X) { mv.mins.x + d } else { mv.mins.x },
            y: if matches!(dir.axis, Axis::Y) { mv.mins.y + d } else { mv.mins.y },
            z: if matches!(dir.axis, Axis::Z) { mv.mins.z + d } else { mv.mins.z },
        },
        maxs: Vec3 {
            x: if matches!(dir.axis, Axis::X) { mv.maxs.x + d } else { mv.maxs.x },
            y: if matches!(dir.axis, Axis::Y) { mv.maxs.y + d } else { mv.maxs.y },
            z: if matches!(dir.axis, Axis::Z) { mv.maxs.z + d } else { mv.maxs.z },
        },
    };
    let witness = Vec3 {
        x: if sm.mins.x >= tgt.mins.x { sm.mins.x } else { tgt.mins.x },
        y: if sm.mins.y >= tgt.mins.y { sm.mins.y } else { tgt.mins.y },
        z: if sm.mins.z >= tgt.mins.z { sm.mins.z } else { tgt.mins.z },
    };
    let penetrating = mv.intersects(tgt);
    Some(
        Toi {
            toi: t,
            witness,
            normal: dir.opposite(),
            status: if penetrating { ToiStatus::Penetrating } else { ToiStatus::Converged },
        },
    )
}

/// A cast hit within `len` shows the target box meets the swept box.
pub proof fn lemma_cast_hit_in_swept(mv: Aabb, dir: AxisDir, max_toi: int, tgt: Aabb, t: int, len: int)
    requires
        mv.wf(),
        tgt.wf(),
        mv.spec_in_range(AABB_LIMIT as int),
        0 <= len <= crate::math::TOI_LIMIT,
        spec_cast_toi(mv, dir, max_toi, tgt) == Some(t),
        0 <= t <= len,
    ensures
        tgt.spec_intersects(spec_swept_box(mv, dir, len)),
{
    match dir.axis {
        Axis::X => {},
        Axis::Y => {},
        Axis::Z => {},
    }
}

/// A cast hit time is within the requested bound and nonnegative.
pub proof fn lemma_cast_toi_bounds(mv: Aabb, dir: AxisDir, max_toi: int, tgt: Aabb, t: int)
    requires
        max_toi >= 0,
        spec_cast_toi(mv, dir, max_toi, tgt) == Some(t),
    ensures
        0 <= t <= max_toi,
{
}

/// Evaluates the normal reported for a ray hit on a box.
pub fn ray_normal(b: &Aabb, ray: &Ray, solid: bool) -> (r: AxisDir)
    requires
        b.spec_in_range(AABB_LIMIT as int),
        ray.origin.spec_in_range(AABB_LIMIT as int),
    ensures
        r == spec_ray_normal(*b, *ray, solid),
{
    let (o, lo, hi): (i64, i64, i64) = match ray.dir.axis {
        Axis::X => (ray.origin.x, b.mins.x, b.maxs.x),
        Axis::Y => (ray.origin.y, b.mins.y, b.maxs.y),
        Axis::Z => (ray.origin.z, b.mins.z, b.maxs.z),
    };
    let t_in: i64 = if ray.dir.positive { lo - o } else { o - hi };
    if t_in <= 0 && !solid {
        ray.dir
    } else {
        ray.dir.opposite()
    }
}

/// Evaluates the face crossed by a reported ray hit.
pub fn ray_face(b: &Aabb, ray: &Ray, solid: bool) -> (r: FeatureId)
    requires
        b.spec_in_range(AABB_LIMIT as int),
        ray.origin.spec_in_range(AABB_LIMIT as int),
    ensures
        r == spec_ray_face(*b, *ray, solid),
{
    let n = ray_normal(b, ray, solid);
    let a: u32 = match n.axis {
        Axis::X => 0,
        Axis::Y => 1,
        Axis::Z => 2,
    };
    FeatureId::Face(2 * a + if n.positive { 1 } else { 0 })
}

} // verus!
