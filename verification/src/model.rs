//! The scene data model: interaction groups, collider and rigid-body records,
//! and the narrow storage interface through which the query pipeline reads
//! them.
//!
//! The pipeline is storage-agnostic: it sees bodies and colliders only
//! through the `ColliderAccess` / `BodyAccess` traits (per-handle lookup,
//! bulk handle enumeration, size hint). Vec-backed reference implementations
//! are provided.

use vstd::prelude::*;

use crate::math::{Vec3, COORD_LIMIT, VEL_LIMIT};
use crate::shape::Shape;

verus! {

/// Opaque stable identifier of one collidable object; the sole key type
/// stored in the spatial index's leaves.
#[derive(Clone, Copy, Debug, PartialEq, Eq, Hash, Structural)]
pub struct ColliderHandle(pub u64);

/// Opaque identifier of a dynamics-owning rigid body.
#[derive(Clone, Copy, Debug, PartialEq, Eq, Hash, Structural)]
pub struct RigidBodyHandle(pub u64);

/// A bitmask membership/acceptance pair; a collider participates in a query
/// iff its groups and the query's groups accept each other.
#[derive(Clone, Copy, Debug, PartialEq, Eq, Structural)]
pub struct InteractionGroups {
    pub memberships: u32,
    pub filter: u32,
}

impl InteractionGroups {
    pub open spec fn spec_test(self, other: InteractionGroups) -> bool {
        (self.memberships & other.filter) != 0 && (other.memberships & self.filter) != 0
    }

    /// Mutual acceptance test between a collider's groups and query groups.
    pub fn test(&self, other: InteractionGroups) -> (r: bool)
        ensures
            r == self.spec_test(other),
    {
        (self.memberships & other.filter) != 0 && (other.memberships & self.filter) != 0
    }

    /// Groups that belong to everything and accept everything.
    pub fn all() -> (r: InteractionGroups)
        ensures
            r.memberships == u32::MAX,
            r.filter == u32::MAX,
    {
        InteractionGroups { memberships: u32::MAX, filter: u32::MAX }
    }
}

/// A collider's link to its parent rigid body, with the fixed pose of the
/// collider relative to the parent.
#[derive(Clone, Copy, Debug, PartialEq, Eq, Structural)]
pub struct ColliderParent {
    pub handle: RigidBodyHandle,
    pub pos_wrt_parent: Vec3,
}

/// The collision-relevant facet of an object: a shape, a world position,
/// filtering groups, and an optional parent body.
#[derive(Clone, Copy, Debug, PartialEq, Eq, Structural)]
pub struct Collider {
    pub shape: Shape,
    pub position: Vec3,
    pub collision_groups: InteractionGroups,
    pub parent: Option<ColliderParent>,
}

impl Collider {
    pub open spec fn wf(self) -> bool {
        &&& self.shape.wf()
        &&& self.position.spec_in_range(COORD_LIMIT as int)
        &&& match self.parent {
            Some(p) => p.pos_wrt_parent.spec_in_range(COORD_LIMIT as int),
            None => true,
        }
    }

    /// The collider's exact current bounding box.
    pub open spec fn spec_aabb(self) -> crate::math::Aabb {
        self.shape.spec_aabb(self.position)
    }
}

/// A well-formed collider's exact box is well-formed and bounded.
pub proof fn lemma_collider_aabb_wf(c: Collider)
    requires
        c.wf(),
    ensures
        c.spec_aabb().wf(),
        c.spec_aabb().spec_in_range(2 * COORD_LIMIT as int),
{
}

impl Collider {

    pub fn compute_aabb(&self) -> (r: crate::math::Aabb)
        requires
            self.wf(),
        ensures
            r == self.spec_aabb(),
            r.wf(),
            r.spec_in_range(8 * COORD_LIMIT as int),
    {
        self.shape.compute_aabb(&self.position)
    }
}

/// The kinematic state of a rigid body that the update protocol reads:
/// current and predicted-next pose, velocity, and the acceleration that its
/// forces and mass currently produce.
#[derive(Clone, Copy, Debug, PartialEq, Eq, Structural)]
pub struct RigidBody {
    pub position: Vec3,
    pub next_position: Vec3,
    pub linvel: Vec3,
    pub accel: Vec3,
}

impl RigidBody {
    pub open spec fn wf(self) -> bool {
        &&& self.position.spec_in_range(COORD_LIMIT as int)
        &&& self.next_position.spec_in_range(COORD_LIMIT as int)
        &&& self.linvel.spec_in_range(VEL_LIMIT as int)
        &&& self.accel.spec_in_range(VEL_LIMIT as int)
    }

    /// The pose predicted by integrating velocity and acceleration over `dt`.
    pub open spec fn spec_predicted_position(self, dt: int) -> Vec3 {
        Vec3 {
            x: (self.position.x + self.linvel.x * dt + self.accel.x * dt * dt) as i64,
            y: (self.position.y + self.linvel.y * dt + self.accel.y * dt * dt) as i64,
            z: (self.position.z + self.linvel.z * dt + self.accel.z * dt * dt) as i64,
        }
    }

    pub fn predicted_position(&self, dt: i64) -> (r: Vec3)
        requires
            self.wf(),
            0 <= dt <= crate::math::DT_LIMIT,
        ensures
            r == self.spec_predicted_position(dt as int),
            r.spec_in_range(3 * COORD_LIMIT as int),
    {
        proof {
            assert(self.linvel.x * dt <= VEL_LIMIT * crate::math::DT_LIMIT) by (nonlinear_arith)
                requires -VEL_LIMIT <= self.linvel.x <= VEL_LIMIT && 0 <= dt <= crate::math::DT_LIMIT;
            assert(self.linvel.x * dt >= -(VEL_LIMIT * crate::math::DT_LIMIT)) by (nonlinear_arith)
                requires -VEL_LIMIT <= self.linvel.x <= VEL_LIMIT && 0 <= dt <= crate::math::DT_LIMIT;
            assert(self.linvel.y * dt <= VEL_LIMIT * crate::math::DT_LIMIT) by (nonlinear_arith)
                requires -VEL_LIMIT <= self.linvel.y <= VEL_LIMIT && 0 <= dt <= crate::math::DT_LIMIT;
            assert(self.linvel.y * dt >= -(VEL_LIMIT * crate::math::DT_LIMIT)) by (nonlinear_arith)
                requires -VEL_LIMIT <= self.linvel.y <= VEL_LIMIT && 0 <= dt <= crate::math::DT_LIMIT;
            assert(self.linvel.z * dt <= VEL_LIMIT * crate::math::DT_LIMIT) by (nonlinear_arith)
                requires -VEL_LIMIT <= self.linvel.z <= VEL_LIMIT && 0 <= dt <= crate::math::DT_LIMIT;
            assert(self.linvel.z * dt >= -(VEL_LIMIT * crate::math::DT_LIMIT)) by (nonlinear_arith)
                requires -VEL_LIMIT <= self.linvel.z <= VEL_LIMIT && 0 <= dt <= crate::math::DT_LIMIT;
            assert(-(VEL_LIMIT * crate::math::DT_LIMIT) <= self.accel.x * dt <= VEL_LIMIT * crate::math::DT_LIMIT) by (nonlinear_arith)
                requires -VEL_LIMIT <= self.accel.x <= VEL_LIMIT && 0 <= dt <= crate::math::DT_LIMIT;
            assert(-(VEL_LIMIT * crate::math::DT_LIMIT) <= self.accel.y * dt <= VEL_LIMIT * crate::math::DT_LIMIT) by (nonlinear_arith)
                requires -VEL_LIMIT <= self.accel.y <= VEL_LIMIT && 0 <= dt <= crate::math::DT_LIMIT;
            assert(-(VEL_LIMIT * crate::math::DT_LIMIT) <= self.accel.z * dt <= VEL_LIMIT * crate::math::DT_LIMIT) by (nonlinear_arith)
                requires -VEL_LIMIT <= self.accel.z <= VEL_LIMIT && 0 <= dt <= crate::math::DT_LIMIT;
            assert(-(VEL_LIMIT * crate::math::DT_LIMIT * crate::math::DT_LIMIT) <= self.accel.x * dt * dt <= VEL_LIMIT * crate::math::DT_LIMIT * crate::math::DT_LIMIT) by (nonlinear_arith)
                requires -VEL_LIMIT <= self.accel.x <= VEL_LIMIT && 0 <= dt <= crate::math::DT_LIMIT;
            assert(-(VEL_LIMIT * crate::math::DT_LIMIT * crate::math::DT_LIMIT) <= self.accel.y * dt * dt <= VEL_LIMIT * crate::math::DT_LIMIT * crate::math::DT_LIMIT) by (nonlinear_arith)
                requires -VEL_LIMIT <= self.accel.y <= VEL_LIMIT && 0 <= dt <= crate::math::DT_LIMIT;
            assert(-(VEL_LIMIT * crate::math::DT_LIMIT * crate::math::DT_LIMIT) <= self.accel.z * dt * dt <= VEL_LIMIT * crate::math::DT_LIMIT * crate::math::DT_LIMIT) by (nonlinear_arith)
                requires -VEL_LIMIT <= self.accel.z <= VEL_LIMIT && 0 <= dt <= crate::math::DT_LIMIT;
        }
        Vec3 {
            x: self.position.x + self.linvel.x * dt + self.accel.x * dt * dt,
            y: self.position.y + self.linvel.y * dt + self.accel.y * dt * dt,
            z: self.position.z + self.linvel.z * dt + self.accel.z * dt * dt,
        }
    }
}

/// Per-handle lookup of colliders, plus bulk enumeration and a size hint.
/// A conforming store hands out only well-formed colliders and keeps handles
/// stable for the duration of a query.
pub trait ColliderAccess {
    /// The store modeled as a map from handle to collider.
    spec fn view_map(&self) -> Map<ColliderHandle, Collider>;

    /// Validity of the store itself, preserved by its own operations.
    spec fn inv(&self) -> bool;

    /// A valid store holds only well-formed colliders.
    proof fn values_wf(&self)
        requires
            self.inv(),
        ensures
            forall|h: ColliderHandle| #[trigger] self.view_map().contains_key(h)
                ==> self.view_map()[h].wf(),
    ;

    /// Looks one collider up; absent handles yield `None`, never an error.
    fn get(&self, h: ColliderHandle) -> (r: Option<Collider>)
        requires
            self.inv(),
        ensures
            r matches Some(c) ==> self.view_map().contains_key(h) && self.view_map()[h] == c
                && c.wf(),
            r is None ==> !self.view_map().contains_key(h),
    ;

    /// Enumerates every live handle, each exactly once.
    fn handles(&self) -> (r: Vec<ColliderHandle>)
        requires
            self.inv(),
        ensures
            r@.no_duplicates(),
            forall|h: ColliderHandle| #[trigger] r@.contains(h) <==> self.view_map().contains_key(
                h,
            ),
    ;

    /// An approximate count of live colliders.
    fn size_hint(&self) -> usize;
}

/// Per-handle lookup of rigid-body kinematic state and of the colliders
/// attached to a body.
pub trait BodyAccess {
    spec fn view_map(&self) -> Map<RigidBodyHandle, RigidBody>;

    /// Which colliders each body owns.
    spec fn attached_view(&self) -> Map<RigidBodyHandle, Seq<ColliderHandle>>;

    /// Validity of the store itself, preserved by its own operations.
    spec fn inv(&self) -> bool;

    fn get(&self, h: RigidBodyHandle) -> (r: Option<RigidBody>)
        requires
            self.inv(),
        ensures
            r matches Some(b) ==> self.view_map().contains_key(h) && self.view_map()[h] == b
                && b.wf(),
            r is None ==> !self.view_map().contains_key(h),
    ;

    /// The colliders attached to `h`, or `None` if the body is absent.
    fn attached_colliders(&self, h: RigidBodyHandle) -> (r: Option<Vec<ColliderHandle>>)
        requires
            self.inv(),
        ensures
            r matches Some(v) ==> self.attached_view().contains_key(h) && v@
                == self.attached_view()[h],
            r is None ==> !self.attached_view().contains_key(h),
    ;
}

pub open spec fn keys_unique<K, V>(s: Seq<(K, V)>) -> bool {
    forall|i: int, j: int| 0 <= i < j < s.len() ==> (#[trigger] s[i]).0 != (#[trigger] s[j]).0
}

pub open spec fn entries_map<K, V>(s: Seq<(K, V)>) -> Map<K, V>
    decreases s.len(),
{
    if s.len() == 0 {
        Map::empty()
    } else {
        entries_map(s.drop_last()).insert(s.last().0, s.last().1)
    }
}

/// The map of an association list: its domain is the set of keys, and under
/// unique keys each key maps to its entry's value.
pub proof fn lemma_entries_map<K, V>(s: Seq<(K, V)>)
    ensures
        forall|k: K| #[trigger] entries_map(s).contains_key(k) <==> exists|i: int|
            0 <= i < s.len() && (#[trigger] s[i]).0 == k,
        keys_unique(s) ==> forall|i: int|
            0 <= i < s.len() ==> entries_map(s).contains_key((#[trigger] s[i]).0) && entries_map(
                s,
            )[s[i].0] == s[i].1,
    decreases s.len(),
{
    if s.len() > 0 {
        let prev = s.drop_last();
        lemma_entries_map(prev);
        assert forall|k: K| #[trigger] entries_map(s).contains_key(k) implies exists|i: int|
            0 <= i < s.len() && (#[trigger] s[i]).0 == k by {
            if k == s.last().0 {
                assert((#[trigger] s[s.len() - 1]).0 == k);
            } else {
                assert(entries_map(prev).contains_key(k));
                let i = choose|i: int| 0 <= i < prev.len() && (#[trigger] prev[i]).0 == k;
                assert(s[i] == prev[i]);
                assert((#[trigger] s[i]).0 == k);
            }
        }
        assert forall|k: K| (exists|i: int| 0 <= i < s.len() && (#[trigger] s[i]).0 == k) implies
            entries_map(s).contains_key(k) by {
            let i = choose|i: int| 0 <= i < s.len() && (#[trigger] s[i]).0 == k;
            if i < s.len() - 1 {
                assert((#[trigger] prev[i]).0 == k);
                assert(entries_map(prev).contains_key(k));
            }
        }
        if keys_unique(s) {
            assert(keys_unique(prev)) by {
                assert forall|i: int, j: int| 0 <= i < j < prev.len() implies (
                #[trigger] prev[i]).0 != (#[trigger] prev[j]).0 by {
                    assert(s[i] == prev[i] && s[j] == prev[j]);
                }
            }
            assert forall|i: int| 0 <= i < s.len() implies entries_map(s).contains_key(
                (#[trigger] s[i]).0,
            ) && entries_map(s)[s[i].0] == s[i].1 by {
                if i < s.len() - 1 {
                    assert(s[i] == prev[i]);
                    assert(s[i].0 != s.last().0);
                    assert(entries_map(prev).contains_key(prev[i].0));
                    assert(entries_map(prev)[prev[i].0] == prev[i].1);
                }
            }
        }
    }
}

/// A Vec-backed collider store: the reference implementation of
/// `ColliderAccess`.
pub struct ColliderSet {
    entries: Vec<(ColliderHandle, Collider)>,
}

impl ColliderSet {
    pub closed spec fn view_entries(self) -> Seq<(ColliderHandle, Collider)> {
        self.entries@
    }

    pub fn new() -> (r: ColliderSet)
        ensures
            r.view_map() == Map::<ColliderHandle, Collider>::empty(),
            r.inv(),
    {
        ColliderSet { entries: Vec::new() }
    }

    pub fn len(&self) -> (n: usize)
        ensures
            n == self.view_entries().len(),
    {
        self.entries.len()
    }

    pub fn contains(&self, h: ColliderHandle) -> (r: bool)
        requires
            self.inv(),
        ensures
            r == self.view_map().contains_key(h),
    {
        self.get(h).is_some()
    }

    /// Inserts a collider under a fresh handle.
    pub fn insert(&mut self, h: ColliderHandle, c: Collider)
        requires
            old(self).inv(),
            !old(self).view_map().contains_key(h),
            c.wf(),
        ensures
            final(self).inv(),
            final(self).view_map() == old(self).view_map().insert(h, c),
    {
        proof {
            lemma_entries_map(self.entries@);
        }
        let ghost olds = self.entries@;
        self.entries.push((h, c));
        proof {
            assert(self.entries@.drop_last() == olds);
            assert forall|i: int, j: int| 0 <= i < j < self.entries@.len() implies (
            #[trigger] self.entries@[i]).0 != (#[trigger] self.entries@[j]).0 by {
                if j == self.entries@.len() - 1 {
                    lemma_entries_map(olds);
                    assert(olds[i].0 != h);
                }
            }
        }
    }
}

impl ColliderAccess for ColliderSet {
    closed spec fn view_map(&self) -> Map<ColliderHandle, Collider> {
        entries_map(self.entries@)
    }

    closed spec fn inv(&self) -> bool {
        &&& keys_unique(self.entries@)
        &&& forall|i: int| 0 <= i < self.entries@.len() ==> (#[trigger] self.entries@[i]).1.wf()
    }

    proof fn values_wf(&self) {
        lemma_entries_map(self.entries@);
        assert forall|h: ColliderHandle| #[trigger] self.view_map().contains_key(h) implies
            self.view_map()[h].wf() by {
            let i = choose|i: int|
                0 <= i < self.entries@.len() && (#[trigger] self.entries@[i]).0 == h;
            assert(entries_map(self.entries@)[self.entries@[i].0] == self.entries@[i].1);
        }
    }

    fn get(&self, h: ColliderHandle) -> (r: Option<Collider>) {
        proof {
            lemma_entries_map(self.entries@);
        }
        let n = self.entries.len();
        for i in 0..n
            invariant
                self.inv(),
                n == self.entries@.len(),
                forall|j: int| 0 <= j < i ==> (#[trigger] self.entries@[j]).0 != h,
        {
            if self.entries[i].0 == h {
                proof {
                    lemma_entries_map(self.entries@);
                }
                return Some(self.entries[i].1);
            }
        }
        proof {
            lemma_entries_map(self.entries@);
        }
        None
    }

    fn handles(&self) -> (r: Vec<ColliderHandle>) {
        proof {
            lemma_entries_map(self.entries@);
        }
        let n = self.entries.len();
        let mut out: Vec<ColliderHandle> = Vec::new();
        for i in 0..n
            invariant
                self.inv(),
                n == self.entries@.len(),
                out@.len() == i,
                forall|j: int| 0 <= j < i ==> out@[j] == (#[trigger] self.entries@[j]).0,
        {
            out.push(self.entries[i].0);
        }
        proof {
            lemma_entries_map(self.entries@);
        }
        proof {
            assert forall|h: ColliderHandle| #[trigger] out@.contains(h) implies entries_map(
                self.entries@,
            ).contains_key(h) by {
                let j = choose|j: int| 0 <= j < out@.len() && out@[j] == h;
                assert(self.entries@[j].0 == h);
            }
            assert forall|h: ColliderHandle| entries_map(self.entries@).contains_key(h) implies
                #[trigger] out@.contains(h) by {
                let j = choose|j: int| 0 <= j < self.entries@.len() && (#[trigger] self.entries@[j]).0 == h;
                assert(out@[j] == h);
            }
            assert forall|i: int, j: int| 0 <= i < j < out@.len() implies out@[i] != out@[j] by {
                assert(self.entries@[i].0 != self.entries@[j].0);
            }
            assert(out@.no_duplicates());
        }
        out
    }

    fn size_hint(&self) -> usize {
        self.entries.len()
    }
}

/// A Vec-backed rigid-body store: the reference implementation of
/// `BodyAccess`.
pub struct RigidBodySet {
    entries: Vec<(RigidBodyHandle, RigidBody)>,
    attached: Vec<(RigidBodyHandle, Vec<ColliderHandle>)>,
}

impl RigidBodySet {
    pub fn new() -> (r: RigidBodySet)
        ensures
            r.view_map() == Map::<RigidBodyHandle, RigidBody>::empty(),
            r.inv(),
    {
        RigidBodySet { entries: Vec::new(), attached: Vec::new() }
    }

    pub fn contains(&self, h: RigidBodyHandle) -> (r: bool)
        requires
            self.inv(),
        ensures
            r == self.view_map().contains_key(h),
    {
        self.get(h).is_some()
    }

    /// Inserts a body under a fresh handle, with its attached colliders.
    pub fn insert(&mut self, h: RigidBodyHandle, b: RigidBody, colliders: Vec<ColliderHandle>)
        requires
            old(self).inv(),
            !old(self).view_map().contains_key(h),
            b.wf(),
        ensures
            final(self).inv(),
            final(self).view_map() == old(self).view_map().insert(h, b),
            final(self).attached_view() == old(self).attached_view().insert(h, colliders@),
    {
        proof {
            lemma_entries_map(self.entries@);
            lemma_entries_map(self.attached@);
        }
        let ghost olde = self.entries@;
        let ghost olda = self.attached@;
        self.entries.push((h, b));
        self.attached.push((h, colliders));
        proof {
            assert(self.entries@.drop_last() == olde);
            assert(self.attached@.drop_last() == olda);
            assert forall|i: int, j: int| 0 <= i < j < self.entries@.len() implies (
            #[trigger] self.entries@[i]).0 != (#[trigger] self.entries@[j]).0 by {
                if j == self.entries@.len() - 1 {
                    lemma_entries_map(olde);
                    assert(olde[i].0 != h);
                }
            }
            assert forall|i: int, j: int| 0 <= i < j < self.attached@.len() implies (
            #[trigger] self.attached@[i]).0 != (#[trigger] self.attached@[j]).0 by {
                if j == self.attached@.len() - 1 {
                    lemma_entries_map(olde);
                    assert(olde[i].0 == olda[i].0);
                    assert(olde[i].0 != h);
                }
            }
            assert(entries_map(self.attached@).map_values(|v: Vec<ColliderHandle>| v@)
                =~= entries_map(olda).map_values(|v: Vec<ColliderHandle>| v@).insert(h, colliders@));
        }
    }
}

impl BodyAccess for RigidBodySet {
    closed spec fn view_map(&self) -> Map<RigidBodyHandle, RigidBody> {
        entries_map(self.entries@)
    }

    closed spec fn attached_view(&self) -> Map<RigidBodyHandle, Seq<ColliderHandle>> {
        entries_map(self.attached@).map_values(|v: Vec<ColliderHandle>| v@)
    }

    closed spec fn inv(&self) -> bool {
        &&& keys_unique(self.entries@)
        &&& keys_unique(self.attached@)
        &&& forall|i: int| 0 <= i < self.entries@.len() ==> (#[trigger] self.entries@[i]).1.wf()
        &&& self.entries@.len() == self.attached@.len()
        &&& forall|i: int| 0 <= i < self.entries@.len() ==> (#[trigger] self.entries@[i]).0
            == self.attached@[i].0
    }

    fn get(&self, h: RigidBodyHandle) -> (r: Option<RigidBody>) {
        proof {
            lemma_entries_map(self.entries@);
        }
        let n = self.entries.len();
        for i in 0..n
            invariant
                self.inv(),
                n == self.entries@.len(),
                forall|j: int| 0 <= j < i ==> (#[trigger] self.entries@[j]).0 != h,
        {
            if self.entries[i].0 == h {
                proof {
                    lemma_entries_map(self.entries@);
                }
                return Some(self.entries[i].1);
            }
        }
        proof {
            lemma_entries_map(self.entries@);
        }
        None
    }

    fn attached_colliders(&self, h: RigidBodyHandle) -> (r: Option<Vec<ColliderHandle>>) {
        proof {
            lemma_entries_map(self.attached@);
        }
        let n = self.attached.len();
        for i in 0..n
            invariant
                self.inv(),
                n == self.attached@.len(),
                forall|j: int| 0 <= j < i ==> (#[trigger] self.attached@[j]).0 != h,
        {
            if self.attached[i].0 == h {
                proof {
                    lemma_entries_map(self.attached@);
                }
                let src = &self.attached[i].1;
                let m = src.len();
                let mut out: Vec<ColliderHandle> = Vec::new();
                for k in 0..m
                    invariant
                        m == src@.len(),
                        out@.len() == k,
                        forall|j: int| 0 <= j < k ==> out@[j] == src@[j],
                {
                    out.push(src[k]);
                }
                proof {
                    lemma_entries_map(self.attached@);
                    assert(out@ =~= src@);
                    assert(self.attached@[i as int].0 == h);
                    assert(entries_map(self.attached@)[h] == self.attached@[i as int].1);
                }
                return Some(out);
            }
        }
        proof {
            lemma_entries_map(self.attached@);
        }
        None
    }
}

} // verus!
