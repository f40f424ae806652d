//! The pairwise geometric dispatcher: the extension point through which the
//! query pipeline evaluates shape-pair algorithms.
//!
//! A dispatcher may refuse a shape-kind pair with an error; the pipeline
//! treats such a candidate as non-matching instead of aborting the whole
//! traversal. The default dispatcher supports every built-in pair exactly.

use vstd::prelude::*;

use crate::math::{Aabb, Vec3, COORD_LIMIT, TOI_LIMIT};
use crate::shape::{cast_box, spec_cast_toi, spec_shifted, AxisDir, Shape, Toi, ToiStatus};

verus! {

/// An error from the pairwise dispatcher: the shape-kind pair is not
/// supported by this dispatcher.
#[derive(Clone, Copy, Debug, PartialEq, Eq, Structural)]
pub enum QueryError {
    Unsupported,
}

/// Two positioned shapes share a point exactly when their exact boxes meet.
pub open spec fn spec_shapes_intersect(a: Shape, pos_a: Vec3, b: Shape, pos_b: Vec3) -> bool {
    a.spec_aabb(pos_a).spec_intersects(b.spec_aabb(pos_b))
}

/// Pairwise shape-pair algorithms, polymorphic over shape kind. A custom
/// dispatcher chooses which pairs it supports; on a supported pair its
/// answers agree with the exact geometry, and on an unsupported pair it
/// returns an error rather than panicking.
pub trait QueryDispatcher: Sized {
    /// The shape-kind pairs this dispatcher can evaluate.
    spec fn supports(&self, a: Shape, b: Shape) -> bool;

    /// Intersection test between two positioned shapes.
    fn intersection_test(&self, a: &Shape, pos_a: &Vec3, b: &Shape, pos_b: &Vec3) -> (r: Result<
        bool,
        QueryError,
    >)
        requires
            a.wf(),
            b.wf(),
            pos_a.spec_in_range(7 * COORD_LIMIT as int),
            pos_b.spec_in_range(7 * COORD_LIMIT as int),
        ensures
            self.supports(*a, *b) ==> r == Result::<bool, QueryError>::Ok(
                spec_shapes_intersect(*a, *pos_a, *b, *pos_b),
            ),
            !self.supports(*a, *b) ==> r is Err,
    ;

    /// Time of first impact of shape `a`, moving with unit speed along
    /// `dir`, against the static shape `b`, within `max_toi`.
    fn cast_shapes(
        &self,
        a: &Shape,
        pos_a: &Vec3,
        dir: AxisDir,
        max_toi: i64,
        b: &Shape,
        pos_b: &Vec3,
    ) -> (r: Result<Option<Toi>, QueryError>)
        requires
            a.wf(),
            b.wf(),
            pos_a.spec_in_range(7 * COORD_LIMIT as int),
            pos_b.spec_in_range(7 * COORD_LIMIT as int),
            0 <= max_toi <= TOI_LIMIT,
        ensures
            self.supports(*a, *b) ==> match r {
                Ok(Some(hit)) => {
                    &&& spec_cast_toi(
                        a.spec_aabb(*pos_a),
                        dir,
                        max_toi as int,
                        b.spec_aabb(*pos_b),
                    ) == Some(hit.toi as int)
                    &&& b.spec_aabb(*pos_b).spec_contains_point(hit.witness)
                    &&& spec_shifted(a.spec_aabb(*pos_a), dir, hit.toi as int).spec_contains_point(
                        hit.witness,
                    )
                    &&& hit.normal == dir.spec_opposite()
                    &&& (hit.status == ToiStatus::Penetrating <==> spec_shapes_intersect(
                        *a,
                        *pos_a,
                        *b,
                        *pos_b,
                    ))
                },
                Ok(None) => spec_cast_toi(
                    a.spec_aabb(*pos_a),
                    dir,
                    max_toi as int,
                    b.spec_aabb(*pos_b),
                ) is None,
                Err(_) => false,
            },
            !self.supports(*a, *b) ==> r is Err,
    ;
}

/// The default dispatcher: supports every pair of built-in shape kinds and
/// answers with the exact integer geometry.
#[derive(Clone, Copy, Debug)]
pub struct DefaultQueryDispatcher;

impl QueryDispatcher for DefaultQueryDispatcher {
    open spec fn supports(&self, a: Shape, b: Shape) -> bool {
        true
    }

    fn intersection_test(&self, a: &Shape, pos_a: &Vec3, b: &Shape, pos_b: &Vec3) -> (r: Result<
        bool,
        QueryError,
    >) {
        let ba = a.compute_aabb(pos_a);
        let bb = b.compute_aabb(pos_b);
        Ok(ba.intersects(&bb))
    }

    fn cast_shapes(
        &self,
        a: &Shape,
        pos_a: &Vec3,
        dir: AxisDir,
        max_toi: i64,
        b: &Shape,
        pos_b: &Vec3,
    ) -> (r: Result<Option<Toi>, QueryError>) {
        let ba = a.compute_aabb(pos_a);
        let bb = b.compute_aabb(pos_b);
        Ok(cast_box(&ba, dir, max_toi, &bb))
    }
}

} // verus!
