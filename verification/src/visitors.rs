//! Per-query filtering and callback hooks supplied by the caller.
//!
//! A filter narrows a query to the colliders it allows; a visitor receives
//! each match of an all-matches query and decides, by its boolean result,
//! whether the traversal goes on. Both are traits so that callers can carry
//! their own state through a query.

use vstd::prelude::*;

use crate::model::ColliderHandle;
use crate::shape::RayIntersection;

verus! {

/// A caller-supplied predicate over collider handles; a collider is taken
/// into account by a query only if the filter allows it.
pub trait ColliderFilter: Sized {
    /// What the filter allows, as a predicate the contracts speak of.
    spec fn allows(&self, h: ColliderHandle) -> bool;

    /// Decides one handle; must agree with `allows`.
    fn test(&self, h: ColliderHandle) -> (r: bool)
        ensures
            r == self.allows(h),
    ;
}

/// The trivial filter: allows every collider.
#[derive(Clone, Copy, Debug)]
pub struct NoFilter;

impl ColliderFilter for NoFilter {
    open spec fn allows(&self, h: ColliderHandle) -> bool {
        true
    }

    fn test(&self, h: ColliderHandle) -> bool {
        true
    }
}

/// Whether an optional filter allows a handle (no filter allows everything).
pub open spec fn filter_allows<F: ColliderFilter>(filter: Option<&F>, h: ColliderHandle) -> bool {
    match filter {
        Some(f) => f.allows(h),
        None => true,
    }
}

/// Tests an optional filter.
pub fn filter_test<F: ColliderFilter>(filter: Option<&F>, h: ColliderHandle) -> (r: bool)
    ensures
        r == filter_allows(filter, h),
{
    match filter {
        Some(f) => f.test(h),
        None => true,
    }
}

/// A callback for all-matches queries that yield a handle per match.
/// Returning `false` ends the traversal early: no further invocation occurs.
pub trait HandleVisitor {
    fn visit(&mut self, h: ColliderHandle) -> bool;
}

/// A callback for ray queries: one invocation per intersected collider, with
/// the hit details. Returning `false` ends the traversal early.
pub trait RayHitVisitor {
    fn visit(&mut self, h: ColliderHandle, hit: RayIntersection) -> bool;
}

} // verus!
