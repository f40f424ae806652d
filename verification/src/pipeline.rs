//! The query pipeline: the façade composing the spatial index, the component
//! accessors and the pairwise dispatcher into the public query operations and
//! the per-tick update protocol.

use vstd::prelude::*;

use crate::dispatcher::{spec_shapes_intersect, DefaultQueryDispatcher, QueryDispatcher};
use crate::index::{
    dirty_covered, spec_marked, spec_refreshed, spec_region_matches, updates_wf, LeafData, Qbvh,
};
use crate::math::{Aabb, Vec3, COORD_LIMIT, DILATION_LIMIT, DT_LIMIT, TOI_LIMIT};
use crate::model::{
    entries_map, keys_unique, lemma_entries_map, BodyAccess, Collider, ColliderAccess,
    ColliderHandle, InteractionGroups, RigidBody, RigidBodyHandle,
};
use crate::shape::Shape;
use crate::visitors::{filter_allows, filter_test, ColliderFilter};

verus! {

/// The default dilation margin added to every stored leaf box.
pub const DEFAULT_DILATION: i64 = 16;

/// Indicates how the colliders' positions are taken into account when
/// updating the query pipeline.
#[derive(Clone, Copy, Debug, PartialEq, Eq, Structural)]
pub enum QueryPipelineMode {
    /// The collider's current position is taken into account.
    CurrentPosition,
    /// For a parented collider, the parent's predicted-next pose composed
    /// with the collider's pose relative to the parent is swept together with
    /// the current position.
    SweepTestWithNextPosition,
    /// For a parented collider, the pose obtained by integrating the
    /// parent's velocity and acceleration over `dt`, composed with the
    /// collider's relative pose, is swept together with the current position.
    SweepTestWithPredictedPosition { dt: i64 },
}

impl QueryPipelineMode {
    pub open spec fn wf(self) -> bool {
        match self {
            QueryPipelineMode::SweepTestWithPredictedPosition { dt } => 0 <= dt <= DT_LIMIT,
            _ => true,
        }
    }
}

/// The bounding box under which a collider is indexed for a given update
/// mode: its exact current box, or, for a parented collider under a sweep
/// mode, the box swept between its current pose and its pose under the
/// parent's predicted motion.
pub open spec fn spec_mode_aabb(
    mode: QueryPipelineMode,
    c: Collider,
    bmap: Map<RigidBodyHandle, RigidBody>,
) -> Aabb {
    match c.parent {
        None => c.spec_aabb(),
        Some(par) => match mode {
            QueryPipelineMode::CurrentPosition => c.spec_aabb(),
            QueryPipelineMode::SweepTestWithNextPosition => c.spec_aabb().spec_union(
                c.shape.spec_aabb(bmap[par.handle].next_position.spec_add(par.pos_wrt_parent)),
            ),
            QueryPipelineMode::SweepTestWithPredictedPosition { dt } => c.spec_aabb().spec_union(
                c.shape.spec_aabb(
                    bmap[par.handle].spec_predicted_position(dt as int).spec_add(
                        par.pos_wrt_parent,
                    ),
                ),
            ),
        },
    }
}

/// Every parented collider's parent is present in the body store.
pub open spec fn parents_live(
    cmap: Map<ColliderHandle, Collider>,
    bmap: Map<RigidBodyHandle, RigidBody>,
) -> bool {
    forall|h: ColliderHandle| #[trigger] cmap.contains_key(h) ==> match cmap[h].parent {
        Some(p) => bmap.contains_key(p.handle),
        None => true,
    }
}

/// A collider attached to one of the given active bodies.
pub open spec fn is_active_collider(
    h: ColliderHandle,
    active: Seq<RigidBodyHandle>,
    attached: Map<RigidBodyHandle, Seq<ColliderHandle>>,
) -> bool {
    exists|j: int|
        0 <= j < active.len() && attached.contains_key(active[j]) && #[trigger] attached[active[j]].contains(
            h,
        )
}

/// Eligibility of a collider for a query: present in the store, mutually
/// accepted by the interaction groups, and allowed by the optional filter.
pub open spec fn eligible<F: ColliderFilter>(
    cmap: Map<ColliderHandle, Collider>,
    groups: InteractionGroups,
    filter: Option<&F>,
    h: ColliderHandle,
) -> bool {
    &&& cmap.contains_key(h)
    &&& cmap[h].collision_groups.spec_test(groups)
    &&& filter_allows(filter, h)
}

/// Every stored leaf of a live handle bounds that collider's exact current
/// box, and every live collider is indexed: the state in which query
/// contracts hold, established by `update` and preserved until a collider
/// moves without being refreshed.
/// Every leaf of a live handle bounds that collider's exact current box.
pub open spec fn covers_boxes(s: Seq<LeafData>, cmap: Map<ColliderHandle, Collider>) -> bool {
    forall|i: int| 0 <= i < s.len() && cmap.contains_key((#[trigger] s[i]).handle)
        ==> s[i].aabb.spec_contains_box(cmap[s[i].handle].spec_aabb())
}

pub open spec fn leaves_cover(
    leaves: Seq<LeafData>,
    cmap: Map<ColliderHandle, Collider>,
) -> bool {
    &&& covers_boxes(leaves, cmap)
    &&& forall|h: ColliderHandle| #[trigger] cmap.contains_key(h) ==> exists|i: int|
        0 <= i < leaves.len() && (#[trigger] leaves[i]).handle == h
}

pub open spec fn all_clean(leaves: Seq<LeafData>) -> bool {
    forall|i: int| 0 <= i < leaves.len() ==> !(#[trigger] leaves[i]).dirty
}

pub open spec fn handles_unique(leaves: Seq<LeafData>) -> bool {
    forall|i: int, j: int| 0 <= i < j < leaves.len() ==> (#[trigger] leaves[i]).handle != (
    #[trigger] leaves[j]).handle
}

/// A pipeline for performing queries on all the colliders of a scene.
pub struct QueryPipeline<D> {
    query_dispatcher: D,
    qbvh: Qbvh,
    tree_built: bool,
    dilation_factor: i64,
}

impl<D> QueryPipeline<D> {
    /// The index's leaves: the model every contract speaks of.
    pub closed spec fn leaves(self) -> Seq<LeafData> {
        self.qbvh.leaves()
    }

    pub closed spec fn spec_built(self) -> bool {
        self.tree_built
    }

    pub closed spec fn spec_dilation(self) -> int {
        self.dilation_factor as int
    }

    pub closed spec fn spec_dispatcher(self) -> D {
        self.query_dispatcher
    }

    pub closed spec fn wf(self) -> bool {
        &&& self.qbvh.wf()
        &&& 0 <= self.dilation_factor <= DILATION_LIMIT
        &&& all_clean(self.leaves())
        &&& handles_unique(self.leaves())
    }

    /// The index is in sync with the collider store.
    pub open spec fn covers(self, cmap: Map<ColliderHandle, Collider>) -> bool {
        leaves_cover(self.leaves(), cmap)
    }

    /// Initializes an empty query pipeline with a custom pairwise dispatcher.
    /// Use this constructor to make the pipeline aware of a dispatcher that
    /// handles user-defined shape kinds.
    pub fn with_query_dispatcher(d: D) -> (r: Self)
        ensures
            r.wf(),
            r.leaves().len() == 0,
            !r.spec_built(),
            r.spec_dispatcher() == d,
    {
        QueryPipeline {
            query_dispatcher: d,
            qbvh: Qbvh::new(),
            tree_built: false,
            dilation_factor: DEFAULT_DILATION,
        }
    }

    /// The dispatcher used by this pipeline for running scene queries.
    pub fn query_dispatcher(&self) -> (r: &D)
        ensures
            *r == self.spec_dispatcher(),
    {
        &self.query_dispatcher
    }

    /// Signals that colliders were inserted or removed since the last build:
    /// the next update performs a full rebuild instead of an incremental
    /// refresh. The collider store's owner must call this on every insertion
    /// or removal, because the incremental refresh repairs bounds but cannot
    /// add or drop leaves.
    pub fn mark_topology_changed(&mut self)
        ensures
            !final(self).spec_built(),
            final(self).leaves() == old(self).leaves(),
            final(self).spec_dilation() == old(self).spec_dilation(),
            final(self).spec_dispatcher() == old(self).spec_dispatcher(),
            old(self).wf() ==> final(self).wf(),
    {
        self.tree_built = false;
    }

    /// Update the acceleration structure on the query pipeline: a full
    /// rebuild on the first call (or after a topology change), an incremental
    /// refresh of the active bodies' colliders afterwards.
    pub fn update<B: BodyAccess, C: ColliderAccess>(
        &mut self,
        active_bodies: &Vec<RigidBodyHandle>,
        bodies: &B,
        colliders: &C,
    )
        requires
            old(self).wf(),
            bodies.inv(),
            colliders.inv(),
            parents_live(colliders.view_map(), bodies.view_map()),
            forall|j: int| 0 <= j < active_bodies@.len()
                ==> bodies.attached_view().contains_key(#[trigger] active_bodies@[j]),
            forall|j: int, k: int|
                0 <= j < active_bodies@.len() && 0 <= k < bodies.attached_view()[active_bodies@[j]].len()
                    ==> colliders.view_map().contains_key(
                    #[trigger] bodies.attached_view()[active_bodies@[j]][k],
                ),
        ensures
            final(self).wf(),
            final(self).spec_built(),
            final(self).spec_dilation() == old(self).spec_dilation(),
            final(self).spec_dispatcher() == old(self).spec_dispatcher(),
            !old(self).spec_built() ==> final(self).covers(colliders.view_map()),
            !old(self).spec_built() ==> rebuild_post(
                final(self).leaves(),
                QueryPipelineMode::CurrentPosition,
                colliders.view_map(),
                bodies.view_map(),
                old(self).spec_dilation(),
            ),
            old(self).spec_built() ==> refresh_post(
                old(self).leaves(),
                final(self).leaves(),
                QueryPipelineMode::CurrentPosition,
                active_bodies@,
                colliders.view_map(),
                bodies.view_map(),
                bodies.attached_view(),
                old(self).spec_dilation(),
            ),
    {
        self.update_generic(active_bodies, bodies, colliders);
    }

    /// Update the acceleration structure on the query pipeline, reading the
    /// stores through the narrow accessor interface.
    pub fn update_generic<B: BodyAccess, C: ColliderAccess>(
        &mut self,
        active_bodies: &Vec<RigidBodyHandle>,
        bodies: &B,
        colliders: &C,
    )
        requires
            old(self).wf(),
            bodies.inv(),
            colliders.inv(),
            parents_live(colliders.view_map(), bodies.view_map()),
            forall|j: int| 0 <= j < active_bodies@.len()
                ==> bodies.attached_view().contains_key(#[trigger] active_bodies@[j]),
            forall|j: int, k: int|
                0 <= j < active_bodies@.len() && 0 <= k < bodies.attached_view()[active_bodies@[j]].len()
                    ==> colliders.view_map().contains_key(
                    #[trigger] bodies.attached_view()[active_bodies@[j]][k],
                ),
        ensures
            final(self).wf(),
            final(self).spec_built(),
            final(self).spec_dilation() == old(self).spec_dilation(),
            final(self).spec_dispatcher() == old(self).spec_dispatcher(),
            !old(self).spec_built() ==> final(self).covers(colliders.view_map()),
            !old(self).spec_built() ==> rebuild_post(
                final(self).leaves(),
                QueryPipelineMode::CurrentPosition,
                colliders.view_map(),
                bodies.view_map(),
                old(self).spec_dilation(),
            ),
            old(self).spec_built() ==> refresh_post(
                old(self).leaves(),
                final(self).leaves(),
                QueryPipelineMode::CurrentPosition,
                active_bodies@,
                colliders.view_map(),
                bodies.view_map(),
                bodies.attached_view(),
                old(self).spec_dilation(),
            ),
    {
        self.update_with_mode(active_bodies, bodies, colliders, QueryPipelineMode::CurrentPosition)
    }

    /// Update the acceleration structure on the query pipeline under the
    /// chosen position-prediction mode.
    pub fn update_with_mode<B: BodyAccess, C: ColliderAccess>(
        &mut self,
        active_bodies: &Vec<RigidBodyHandle>,
        bodies: &B,
        colliders: &C,
        mode: QueryPipelineMode,
    )
        requires
            old(self).wf(),
            bodies.inv(),
            colliders.inv(),
            mode.wf(),
            parents_live(colliders.view_map(), bodies.view_map()),
            forall|j: int| 0 <= j < active_bodies@.len()
                ==> bodies.attached_view().contains_key(#[trigger] active_bodies@[j]),
            forall|j: int, k: int|
                0 <= j < active_bodies@.len() && 0 <= k < bodies.attached_view()[active_bodies@[j]].len()
                    ==> colliders.view_map().contains_key(
                    #[trigger] bodies.attached_view()[active_bodies@[j]][k],
                ),
        ensures
            final(self).wf(),
            final(self).spec_built(),
            final(self).spec_dilation() == old(self).spec_dilation(),
            final(self).spec_dispatcher() == old(self).spec_dispatcher(),
            !old(self).spec_built() ==> final(self).covers(colliders.view_map()),
            !old(self).spec_built() ==> rebuild_post(
                final(self).leaves(),
                mode,
                colliders.view_map(),
                bodies.view_map(),
                old(self).spec_dilation(),
            ),
            old(self).spec_built() ==> refresh_post(
                old(self).leaves(),
                final(self).leaves(),
                mode,
                active_bodies@,
                colliders.view_map(),
                bodies.view_map(),
                bodies.attached_view(),
                old(self).spec_dilation(),
            ),
    {
        let ghost cmap = colliders.view_map();
        let ghost bmap = bodies.view_map();
        let ghost amap = bodies.attached_view();
        if !self.tree_built {
            let handles = colliders.handles();
            let mut data: Vec<(ColliderHandle, Aabb)> = Vec::new();
            let n = handles.len();
            for i in 0..n
                invariant
                    bodies.inv(),
                    colliders.inv(),
                    mode.wf(),
                    cmap == colliders.view_map(),
                    bmap == bodies.view_map(),
                    parents_live(cmap, bmap),
                    n == handles@.len(),
                    handles@.no_duplicates(),
                    forall|h: ColliderHandle| #[trigger] handles@.contains(h)
                        <==> cmap.contains_key(h),
                    data@.len() == i,
                    forall|k: int| 0 <= k < i ==> (#[trigger] data@[k]).0 == handles@[k],
                    forall|k: int| 0 <= k < i ==> cmap.contains_key((#[trigger] data@[k]).0)
                        && data@[k].1 == spec_mode_aabb(mode, cmap[data@[k].0], bmap)
                        && data@[k].1.wf() && data@[k].1.spec_in_range(8 * COORD_LIMIT as int)
                        && data@[k].1.spec_contains_box(cmap[data@[k].0].spec_aabb()),
            {
                let h = handles[i];
                proof {
                    assert(handles@.contains(handles@[i as int]));
                }
                let c = colliders.get(h).unwrap();
                let bb = mode_aabb(&c, bodies, mode);
                data.push((h, bb));
            }
            self.qbvh.clear_and_rebuild(&data, self.dilation_factor);
            self.tree_built = true;
            proof {
                let leaves = self.qbvh.leaves();
                assert forall|i: int| 0 <= i < leaves.len() implies cmap.contains_key(
                    (#[trigger] leaves[i]).handle,
                ) && leaves[i].aabb == spec_mode_aabb(mode, cmap[leaves[i].handle], bmap).spec_dilate(
                    self.dilation_factor as int,
                ) && !leaves[i].dirty && leaves[i].aabb.spec_contains_box(
                    cmap[leaves[i].handle].spec_aabb(),
                ) by {
                    assert(leaves[i] == (LeafData {
                        handle: data@[i].0,
                        aabb: data@[i].1.spec_dilate(self.dilation_factor as int),
                        dirty: false,
                    }));
                    crate::math::lemma_dilate_contains(data@[i].1, self.dilation_factor as int);
                    crate::math::lemma_contains_box_trans(
                        leaves[i].aabb,
                        data@[i].1,
                        cmap[leaves[i].handle].spec_aabb(),
                    );
                }
                assert forall|h: ColliderHandle| #[trigger] cmap.contains_key(h) implies exists|i: int|
                    0 <= i < leaves.len() && (#[trigger] leaves[i]).handle == h by {
                    assert(handles@.contains(h));
                    let j = choose|j: int| 0 <= j < handles@.len() && handles@[j] == h;
                    assert((#[trigger] data@[j]).0 == handles@[j]);
                    assert(leaves[j] == (LeafData {
                        handle: data@[j].0,
                        aabb: data@[j].1.spec_dilate(self.dilation_factor as int),
                        dirty: false,
                    }));
                    assert((#[trigger] leaves[j]).handle == h);
                }
                assert forall|i: int, j: int| 0 <= i < j < leaves.len() implies (
                #[trigger] leaves[i]).handle != (#[trigger] leaves[j]).handle by {
                    assert(leaves[i] == (LeafData {
                        handle: (#[trigger] data@[i]).0,
                        aabb: data@[i].1.spec_dilate(self.dilation_factor as int),
                        dirty: false,
                    }));
                    assert(leaves[j] == (LeafData {
                        handle: (#[trigger] data@[j]).0,
                        aabb: data@[j].1.spec_dilate(self.dilation_factor as int),
                        dirty: false,
                    }));
                    assert(data@[i].0 == handles@[i]);
                    assert(data@[j].0 == handles@[j]);
                }
            }
        } else {
            let ghost origleaves = self.qbvh.leaves();
            // Gather each active body's colliders once, with its box under
            // the mode's pose rule.
            let mut ups: Vec<(ColliderHandle, Aabb)> = Vec::new();
            let na = active_bodies.len();
            for j in 0..na
                invariant
                    bodies.inv(),
                    colliders.inv(),
                    mode.wf(),
                    cmap == colliders.view_map(),
                    bmap == bodies.view_map(),
                    amap == bodies.attached_view(),
                    parents_live(cmap, bmap),
                    na == active_bodies@.len(),
                    forall|j2: int| 0 <= j2 < active_bodies@.len()
                        ==> amap.contains_key(#[trigger] active_bodies@[j2]),
                    forall|j2: int, k: int|
                        0 <= j2 < active_bodies@.len() && 0 <= k < amap[active_bodies@[j2]].len()
                            ==> cmap.contains_key(#[trigger] amap[active_bodies@[j2]][k]),
                    keys_unique(ups@),
                    forall|k: int| 0 <= k < ups@.len() ==> cmap.contains_key(
                        (#[trigger] ups@[k]).0,
                    ) && ups@[k].1 == spec_mode_aabb(mode, cmap[ups@[k].0], bmap) && ups@[k].1.wf()
                        && ups@[k].1.spec_in_range(8 * COORD_LIMIT as int)
                        && ups@[k].1.spec_contains_box(cmap[ups@[k].0].spec_aabb()),
                    forall|k: int| 0 <= k < ups@.len() ==> is_active_collider(
                        (#[trigger] ups@[k]).0,
                        active_bodies@,
                        amap,
                    ),
                    forall|j2: int, k: int|
                        0 <= j2 < j && 0 <= k < amap[active_bodies@[j2]].len()
                            ==> entries_map(ups@).contains_key(
                            #[trigger] amap[active_bodies@[j2]][k],
                        ),
            {
                let attached = bodies.attached_colliders(active_bodies[j]).unwrap();
                let m = attached.len();
                let ghost upsj = ups@;
                for k in 0..m
                    invariant
                        bodies.inv(),
                        colliders.inv(),
                        mode.wf(),
                        cmap == colliders.view_map(),
                        bmap == bodies.view_map(),
                        amap == bodies.attached_view(),
                        parents_live(cmap, bmap),
                        na == active_bodies@.len(),
                        0 <= j < na,
                        m == attached@.len(),
                        attached@ == amap[active_bodies@[j as int]],
                        amap.contains_key(active_bodies@[j as int]),
                        forall|j2: int| 0 <= j2 < active_bodies@.len()
                            ==> amap.contains_key(#[trigger] active_bodies@[j2]),
                        forall|j2: int, k2: int|
                            0 <= j2 < active_bodies@.len() && 0 <= k2 < amap[active_bodies@[j2]].len()
                                ==> cmap.contains_key(#[trigger] amap[active_bodies@[j2]][k2]),
                        keys_unique(ups@),
                        forall|k2: int| 0 <= k2 < ups@.len() ==> cmap.contains_key(
                            (#[trigger] ups@[k2]).0,
                        ) && ups@[k2].1 == spec_mode_aabb(mode, cmap[ups@[k2].0], bmap)
                            && ups@[k2].1.wf() && ups@[k2].1.spec_in_range(8 * COORD_LIMIT as int)
                            && ups@[k2].1.spec_contains_box(cmap[ups@[k2].0].spec_aabb()),
                        forall|k2: int| 0 <= k2 < ups@.len() ==> is_active_collider(
                            (#[trigger] ups@[k2]).0,
                            active_bodies@,
                            amap,
                        ),
                        forall|j2: int, k2: int|
                            0 <= j2 < j && 0 <= k2 < amap[active_bodies@[j2]].len()
                                ==> entries_map(ups@).contains_key(
                                #[trigger] amap[active_bodies@[j2]][k2],
                            ),
                        forall|k2: int| 0 <= k2 < k ==> entries_map(ups@).contains_key(
                            #[trigger] attached@[k2],
                        ),
                {
                    let ch = attached[k];
                    proof {
                        assert(amap[active_bodies@[j as int]][k as int] == ch);
                        assert(cmap.contains_key(ch));
                        lemma_entries_map(ups@);
                    }
                    if !ups_contains(&ups, ch) {
                        let c = colliders.get(ch).unwrap();
                        let bb = mode_aabb(&c, bodies, mode);
                        let ghost before = ups@;
                        ups.push((ch, bb));
                        proof {
                            assert(ups@.drop_last() == before);
                            lemma_entries_map(before);
                            assert forall|i1: int, i2: int| 0 <= i1 < i2 < ups@.len() implies (
                            #[trigger] ups@[i1]).0 != (#[trigger] ups@[i2]).0 by {
                                if i2 == ups@.len() - 1 {
                                    assert(before[i1].0 != ch);
                                }
                            }
                            lemma_entries_map(ups@);
                            assert(is_active_collider(ch, active_bodies@, amap)) by {
                                assert(attached@.contains(ch));
                                assert(amap[active_bodies@[j as int]].contains(ch));
                            }
                            assert forall|k2: int| 0 <= k2 <= k implies entries_map(
                                ups@,
                            ).contains_key(#[trigger] attached@[k2]) by {
                                if k2 < k {
                                    assert(entries_map(before).contains_key(attached@[k2]));
                                }
                            }
                        }
                    }
                }
            }
            proof {
                assert(updates_wf(ups@));
            }
            // Mark every gathered collider's leaf, then refresh the index.
            let nu = ups.len();
            for k in 0..nu
                invariant
                    self.qbvh.wf(),
                    0 <= self.dilation_factor <= DILATION_LIMIT,
                    self.dilation_factor == old(self).spec_dilation(),
                    self.query_dispatcher == old(self).spec_dispatcher(),
                    self.tree_built,
                    cmap == colliders.view_map(),
                    bmap == bodies.view_map(),
                    amap == bodies.attached_view(),
                    nu == ups@.len(),
                    keys_unique(ups@),
                    updates_wf(ups@),
                    forall|k2: int| 0 <= k2 < ups@.len() ==> cmap.contains_key(
                        (#[trigger] ups@[k2]).0,
                    ) && ups@[k2].1 == spec_mode_aabb(mode, cmap[ups@[k2].0], bmap)
                        && ups@[k2].1.spec_contains_box(cmap[ups@[k2].0].spec_aabb()),
                    forall|k2: int| 0 <= k2 < ups@.len() ==> is_active_collider(
                        (#[trigger] ups@[k2]).0,
                        active_bodies@,
                        amap,
                    ),
                    forall|j2: int, k2: int|
                        0 <= j2 < active_bodies@.len() && 0 <= k2 < amap[active_bodies@[j2]].len()
                            ==> entries_map(ups@).contains_key(
                            #[trigger] amap[active_bodies@[j2]][k2],
                        ),
                    self.qbvh.leaves().len() == origleaves.len(),
                    origleaves == old(self).leaves(),
                    all_clean(origleaves),
                    handles_unique(origleaves),
                    forall|i: int| 0 <= i < origleaves.len() ==> (#[trigger] self.qbvh.leaves()[i])
                        == (LeafData {
                        handle: origleaves[i].handle,
                        aabb: origleaves[i].aabb,
                        dirty: exists|k2: int|
                            0 <= k2 < k && (#[trigger] ups@[k2]).0 == origleaves[i].handle,
                    }),
            {
                let ghost prev = self.qbvh.leaves();
                self.qbvh.pre_update(ups[k].0);
                proof {
                    assert forall|i: int| 0 <= i < origleaves.len() implies (
                    #[trigger] self.qbvh.leaves()[i]) == (LeafData {
                        handle: origleaves[i].handle,
                        aabb: origleaves[i].aabb,
                        dirty: exists|k2: int|
                            0 <= k2 < k + 1 && (#[trigger] ups@[k2]).0 == origleaves[i].handle,
                    }) by {
                        assert(self.qbvh.leaves()[i] == spec_marked(prev[i], ups@[k as int].0));
                        if origleaves[i].handle == ups@[k as int].0 {
                            assert((#[trigger] ups@[k as int]).0 == origleaves[i].handle);
                        } else {
                            if exists|k2: int|
                                0 <= k2 < k + 1 && (#[trigger] ups@[k2]).0 == origleaves[i].handle {
                                let k2 = choose|k2: int|
                                    0 <= k2 < k + 1 && (#[trigger] ups@[k2]).0
                                        == origleaves[i].handle;
                                assert(k2 < k);
                            }
                        }
                    }
                }
            }
            proof {
                lemma_entries_map(ups@);
                assert(dirty_covered(self.qbvh.leaves(), ups@)) by {
                    assert forall|i: int|
                        0 <= i < self.qbvh.leaves().len() && (
                        #[trigger] self.qbvh.leaves()[i]).dirty implies entries_map(
                        ups@,
                    ).contains_key(self.qbvh.leaves()[i].handle) by {
                        let k2 = choose|k2: int|
                            0 <= k2 < ups@.len() && (#[trigger] ups@[k2]).0
                                == origleaves[i].handle;
                        assert(entries_map(ups@).contains_key(ups@[k2].0));
                    }
                }
            }
            let ghost marked = self.qbvh.leaves();
            self.qbvh.refresh(&ups, self.dilation_factor);
            proof {
                lemma_entries_map(ups@);
                let leaves = self.qbvh.leaves();
                assert forall|i: int| 0 <= i < leaves.len() implies (#[trigger] leaves[i])
                    == spec_refresh_result(
                    origleaves[i],
                    mode,
                    active_bodies@,
                    cmap,
                    bmap,
                    amap,
                    self.dilation_factor as int,
                ) by {
                    assert(leaves[i] == spec_refreshed(marked[i], ups@, self.dilation_factor as int));
                    if is_active_collider(origleaves[i].handle, active_bodies@, amap) {
                        let j = choose|j: int|
                            0 <= j < active_bodies@.len() && amap.contains_key(active_bodies@[j])
                                && #[trigger] amap[active_bodies@[j]].contains(
                                origleaves[i].handle,
                            );
                        let k = choose|k: int|
                            0 <= k < amap[active_bodies@[j]].len()
                                && amap[active_bodies@[j]][k] == origleaves[i].handle;
                        assert(entries_map(ups@).contains_key(amap[active_bodies@[j]][k]));
                        assert(marked[i].dirty) by {
                            let k2 = choose|k2: int|
                                0 <= k2 < ups@.len() && (#[trigger] ups@[k2]).0
                                    == origleaves[i].handle;
                            assert(0 <= k2 < ups@.len() && ups@[k2].0 == origleaves[i].handle);
                        }
                        let k3 = choose|k3: int|
                            0 <= k3 < ups@.len() && (#[trigger] ups@[k3]).0 == origleaves[i].handle;
                        assert(entries_map(ups@)[origleaves[i].handle] == ups@[k3].1);
                    } else {
                        assert(!marked[i].dirty) by {
                            if marked[i].dirty {
                                let k2 = choose|k2: int|
                                    0 <= k2 < ups@.len() && (#[trigger] ups@[k2]).0
                                        == origleaves[i].handle;
                                assert(is_active_collider(ups@[k2].0, active_bodies@, amap));
                            }
                        }
                    }
                }
                assert(all_clean(leaves));
                assert(handles_unique(leaves)) by {
                    assert forall|i: int, j: int| 0 <= i < j < leaves.len() implies (
                    #[trigger] leaves[i]).handle != (#[trigger] leaves[j]).handle by {
                        assert(leaves[i].handle == origleaves[i].handle);
                        assert(leaves[j].handle == origleaves[j].handle);
                    }
                }
            }
        }
    }
}

/// The result of a refresh for one prior leaf: an active collider's leaf
/// takes the dilation of its box under the mode's pose rule and is clean;
/// any other leaf is untouched.
pub open spec fn spec_refresh_result(
    l: LeafData,
    mode: QueryPipelineMode,
    active: Seq<RigidBodyHandle>,
    cmap: Map<ColliderHandle, Collider>,
    bmap: Map<RigidBodyHandle, RigidBody>,
    attached: Map<RigidBodyHandle, Seq<ColliderHandle>>,
    dilation: int,
) -> LeafData {
    if is_active_collider(l.handle, active, attached) {
        LeafData {
            handle: l.handle,
            aabb: spec_mode_aabb(mode, cmap[l.handle], bmap).spec_dilate(dilation),
            dirty: false,
        }
    } else {
        l
    }
}

/// What a full rebuild guarantees of the new leaves.
pub open spec fn rebuild_post(
    leaves: Seq<LeafData>,
    mode: QueryPipelineMode,
    cmap: Map<ColliderHandle, Collider>,
    bmap: Map<RigidBodyHandle, RigidBody>,
    dilation: int,
) -> bool {
    &&& forall|i: int| 0 <= i < leaves.len() ==> cmap.contains_key((#[trigger] leaves[i]).handle)
        && leaves[i].aabb == spec_mode_aabb(mode, cmap[leaves[i].handle], bmap).spec_dilate(
        dilation,
    ) && !leaves[i].dirty
    &&& forall|h: ColliderHandle| #[trigger] cmap.contains_key(h) ==> exists|i: int|
        0 <= i < leaves.len() && (#[trigger] leaves[i]).handle == h
}

/// What an incremental refresh guarantees, leaf by leaf.
pub open spec fn refresh_post(
    oldleaves: Seq<LeafData>,
    newleaves: Seq<LeafData>,
    mode: QueryPipelineMode,
    active: Seq<RigidBodyHandle>,
    cmap: Map<ColliderHandle, Collider>,
    bmap: Map<RigidBodyHandle, RigidBody>,
    attached: Map<RigidBodyHandle, Seq<ColliderHandle>>,
    dilation: int,
) -> bool {
    &&& newleaves.len() == oldleaves.len()
    &&& forall|i: int| 0 <= i < oldleaves.len() ==> #[trigger] newleaves[i] == spec_refresh_result(
        oldleaves[i],
        mode,
        active,
        cmap,
        bmap,
        attached,
        dilation,
    )
}

fn ups_contains(ups: &Vec<(ColliderHandle, Aabb)>, h: ColliderHandle) -> (r: bool)
    requires
        keys_unique(ups@),
    ensures
        r == entries_map(ups@).contains_key(h),
{
    proof {
        lemma_entries_map(ups@);
    }
    let n = ups.len();
    for i in 0..n
        invariant
            keys_unique(ups@),
            n == ups@.len(),
            forall|j: int| 0 <= j < i ==> (#[trigger] ups@[j]).0 != h,
    {
        if ups[i].0 == h {
            proof {
                lemma_entries_map(ups@);
            }
            return true;
        }
    }
    proof {
        lemma_entries_map(ups@);
    }
    false
}

/// The bounding box of one collider under the mode's pose rule.
fn mode_aabb<B: BodyAccess>(c: &Collider, bodies: &B, mode: QueryPipelineMode) -> (r: Aabb)
    requires
        c.wf(),
        bodies.inv(),
        mode.wf(),
        c.parent matches Some(p) ==> bodies.view_map().contains_key(p.handle),
    ensures
        r == spec_mode_aabb(mode, *c, bodies.view_map()),
        r.wf(),
        r.spec_in_range(8 * COORD_LIMIT as int),
        r.spec_contains_box(c.spec_aabb()),
{
    match &c.parent {
        None => c.compute_aabb(),
        Some(par) => {
            match mode {
                QueryPipelineMode::CurrentPosition => c.compute_aabb(),
                QueryPipelineMode::SweepTestWithNextPosition => {
                    let rb = bodies.get(par.handle).unwrap();
                    let end_pos = rb.next_position.add(par.pos_wrt_parent);
                    let b1 = c.compute_aabb();
                    let b2 = c.shape.compute_aabb(&end_pos);
                    proof {
                        crate::math::lemma_union_contains(b1, b2);
                    }
                    b1.union(&b2)
                },
                QueryPipelineMode::SweepTestWithPredictedPosition { dt } => {
                    let rb = bodies.get(par.handle).unwrap();
                    let pred = rb.predicted_position(dt);
                    let end_pos = pred.add(par.pos_wrt_parent);
                    let b1 = c.compute_aabb();
                    let b2 = c.shape.compute_aabb(&end_pos);
                    proof {
                        crate::math::lemma_union_contains(b1, b2);
                    }
                    b1.union(&b2)
                },
            }
        },
    }
}

impl QueryPipeline<DefaultQueryDispatcher> {
    /// Initializes an empty query pipeline with the default dispatcher.
    pub fn new() -> (r: Self)
        ensures
            r.wf(),
            r.leaves().len() == 0,
            !r.spec_built(),
    {
        Self::with_query_dispatcher(DefaultQueryDispatcher)
    }
}

impl Default for QueryPipeline<DefaultQueryDispatcher> {
    fn default() -> (r: Self)
        ensures
            r.wf(),
            r.leaves().len() == 0,
            !r.spec_built(),
    {
        Self::new()
    }
}


/// Splitting a covering over concatenation.
pub proof fn lemma_covers_split(
    s0: Seq<LeafData>,
    s1: Seq<LeafData>,
    s2: Seq<LeafData>,
    s3: Seq<LeafData>,
    cmap: Map<ColliderHandle, Collider>,
)
    requires
        covers_boxes(((s0 + s1) + s2) + s3, cmap),
    ensures
        covers_boxes(s0, cmap),
        covers_boxes(s1, cmap),
        covers_boxes(s2, cmap),
        covers_boxes(s3, cmap),
{
    let all = ((s0 + s1) + s2) + s3;
    assert forall|i: int| 0 <= i < s0.len() && cmap.contains_key((#[trigger] s0[i]).handle) implies
        s0[i].aabb.spec_contains_box(cmap[s0[i].handle].spec_aabb()) by {
        assert(all[i] == s0[i]);
    }
    assert forall|i: int| 0 <= i < s1.len() && cmap.contains_key((#[trigger] s1[i]).handle) implies
        s1[i].aabb.spec_contains_box(cmap[s1[i].handle].spec_aabb()) by {
        assert(all[s0.len() + i] == s1[i]);
    }
    assert forall|i: int| 0 <= i < s2.len() && cmap.contains_key((#[trigger] s2[i]).handle) implies
        s2[i].aabb.spec_contains_box(cmap[s2[i].handle].spec_aabb()) by {
        assert(all[s0.len() + s1.len() + i] == s2[i]);
    }
    assert forall|i: int| 0 <= i < s3.len() && cmap.contains_key((#[trigger] s3[i]).handle) implies
        s3[i].aabb.spec_contains_box(cmap[s3[i].handle].spec_aabb()) by {
        assert(all[s0.len() + s1.len() + s2.len() + i] == s3[i]);
    }
}

/// Fetches a collider if it passes the group test and the filter: the single
/// part lookup through which every query reads the store.
fn eligible_part<C: ColliderAccess, F: ColliderFilter>(
    colliders: &C,
    query_groups: InteractionGroups,
    filter: Option<&F>,
    h: ColliderHandle,
) -> (r: Option<Collider>)
    requires
        colliders.inv(),
    ensures
        r matches Some(c) ==> eligible(colliders.view_map(), query_groups, filter, h)
            && c == colliders.view_map()[h] && c.wf(),
        r is None ==> !eligible(colliders.view_map(), query_groups, filter, h),
{
    match colliders.get(h) {
        None => None,
        Some(c) => {
            if c.collision_groups.test(query_groups) && filter_test(filter, h) {
                Some(c)
            } else {
                None
            }
        },
    }
}

/// An ephemeral adapter presenting all colliders passing a group/predicate
/// filter as a single composite shape whose parts are located in the
/// pipeline's spatial index.
pub struct QueryPipelineAsCompositeShape<'a, D, C: ColliderAccess, F: ColliderFilter> {
    pub query_pipeline: &'a QueryPipeline<D>,
    pub colliders: &'a C,
    pub query_groups: InteractionGroups,
    pub filter: Option<&'a F>,
}

impl<'a, D, C: ColliderAccess, F: ColliderFilter> QueryPipelineAsCompositeShape<'a, D, C, F> {
    /// Yields the positioned shape of the given part, skipping any collider
    /// rejected by the group test or the predicate.
    pub fn map_typed_part_at(&self, shape_id: ColliderHandle) -> (r: Option<(Vec3, Shape)>)
        requires
            self.colliders.inv(),
        ensures
            r matches Some(p) ==> eligible(
                self.colliders.view_map(),
                self.query_groups,
                self.filter,
                shape_id,
            ) && p.0 == self.colliders.view_map()[shape_id].position && p.1
                == self.colliders.view_map()[shape_id].shape,
            r is None ==> !eligible(
                self.colliders.view_map(),
                self.query_groups,
                self.filter,
                shape_id,
            ),
    {
        match eligible_part(self.colliders, self.query_groups, self.filter, shape_id) {
            Some(c) => Some((c.position, c.shape)),
            None => None,
        }
    }

    /// The untyped part lookup: identical to the typed one for this adapter.
    pub fn map_untyped_part_at(&self, shape_id: ColliderHandle) -> (r: Option<(Vec3, Shape)>)
        requires
            self.colliders.inv(),
        ensures
            r matches Some(p) ==> eligible(
                self.colliders.view_map(),
                self.query_groups,
                self.filter,
                shape_id,
            ) && p.0 == self.colliders.view_map()[shape_id].position && p.1
                == self.colliders.view_map()[shape_id].shape,
            r is None ==> !eligible(
                self.colliders.view_map(),
                self.query_groups,
                self.filter,
                shape_id,
            ),
    {
        self.map_typed_part_at(shape_id)
    }

    /// The bounding structure locating the parts: the pipeline's index.
    pub fn typed_qbvh(&self) -> (r: &'a QueryPipeline<D>)
        ensures
            *r == *self.query_pipeline,
    {
        self.query_pipeline
    }
}

impl<D> QueryPipeline<D> {
    /// Presents this pipeline and a filtered collider store as one composite
    /// shape, the adapter every generic pairwise algorithm works against.
    pub fn as_composite_shape<'a, C: ColliderAccess, F: ColliderFilter>(
        &'a self,
        colliders: &'a C,
        query_groups: InteractionGroups,
        filter: Option<&'a F>,
    ) -> (r: QueryPipelineAsCompositeShape<'a, D, C, F>)
        ensures
            *r.query_pipeline == *self,
            *r.colliders == *colliders,
            r.query_groups == query_groups,
            r.filter == filter,
    {
        QueryPipelineAsCompositeShape { query_pipeline: self, colliders, query_groups, filter }
    }
}

/// The projection cost of an eligible collider: how far the query point is
/// from that collider (solid) or its boundary (hollow).
pub open spec fn spec_collider_proj_cost(c: Collider, p: Vec3, solid: bool) -> int {
    crate::shape::spec_proj_cost(c.spec_aabb(), p, solid)
}

/// Validity of a running best projection result.
pub open spec fn proj_best_valid<F: ColliderFilter>(
    best: Option<(ColliderHandle, crate::shape::PointProjection, i64)>,
    cmap: Map<ColliderHandle, Collider>,
    groups: InteractionGroups,
    filter: Option<&F>,
    p: Vec3,
    solid: bool,
) -> bool {
    match best {
        None => true,
        Some((h, pr, d)) => {
            &&& eligible(cmap, groups, filter, h)
            &&& pr == crate::shape::spec_project(cmap[h].spec_aabb(), p, solid)
            &&& d as int == spec_collider_proj_cost(cmap[h], p, solid)
            &&& 0 <= d <= 4 * crate::math::AABB_LIMIT
        },
    }
}

/// Best-first point projection over a subtree: explores children and prunes
/// any subtree whose stored bound cannot beat the running best, and returns
/// the optimum over the subtree's eligible colliders and the incoming best.
fn project_rec<C: ColliderAccess, F: ColliderFilter>(
    node: &crate::index::Node,
    colliders: &C,
    point: &Vec3,
    solid: bool,
    query_groups: InteractionGroups,
    filter: Option<&F>,
    best: Option<(ColliderHandle, crate::shape::PointProjection, i64)>,
) -> (r: Option<(ColliderHandle, crate::shape::PointProjection, i64)>)
    requires
        node.wf(),
        colliders.inv(),
        point.spec_in_range(crate::math::AABB_LIMIT as int),
        covers_boxes(node.leaves(), colliders.view_map()),
        proj_best_valid(best, colliders.view_map(), query_groups, filter, *point, solid),
    ensures
        proj_best_valid(r, colliders.view_map(), query_groups, filter, *point, solid),
        best is Some ==> r is Some && r->Some_0.2 <= best->Some_0.2,
        r is Some ==> (r == best || eligible(
            colliders.view_map(),
            query_groups,
            filter,
            r->Some_0.0,
        )),
        forall|i: int|
            0 <= i < node.leaves().len() && eligible(
                colliders.view_map(),
                query_groups,
                filter,
                (#[trigger] node.leaves()[i]).handle,
            ) ==> r is Some && r->Some_0.2 as int <= spec_collider_proj_cost(
                colliders.view_map()[node.leaves()[i].handle],
                *point,
                solid,
            ),
    decreases *node,
{
    let ghost cmap = colliders.view_map();
    // Prune: a subtree whose stored bound lies farther than the running best
    // cannot contain a better projection.
    if let Some(b) = &best {
        let d = b.2;
        let region = Aabb {
            mins: Vec3 { x: point.x - d, y: point.y - d, z: point.z - d },
            maxs: Vec3 { x: point.x + d, y: point.y + d, z: point.z + d },
        };
        let node_box = node.root_box();
        if !node_box.intersects(&region) {
            proof {
                crate::index::lemma_wf_leaves(*node);
                crate::math::lemma_dist_as_region(node_box, *point, d as int, region);
                assert forall|i: int|
                    0 <= i < node.leaves().len() && eligible(
                        cmap,
                        query_groups,
                        filter,
                        (#[trigger] node.leaves()[i]).handle,
                    ) implies best is Some && best->Some_0.2 as int <= spec_collider_proj_cost(
                    cmap[node.leaves()[i].handle],
                    *point,
                    solid,
                ) by {
                    let l = node.leaves()[i];
                    let exact = cmap[l.handle].spec_aabb();
                    colliders.values_wf();
                    crate::model::lemma_collider_aabb_wf(cmap[l.handle]);
                    crate::math::lemma_dist_monotone(l.aabb, exact, *point);
                    crate::math::lemma_dist_monotone(node_box, l.aabb, *point);
                    crate::shape::lemma_proj_cost_ge_dist(exact, *point, solid);
                }
            }
            return best;
        }
    }
    match node {
        crate::index::Node::Leaf(l) => {
            match eligible_part(colliders, query_groups, filter, l.handle) {
                None => best,
                Some(c) => {
                    let cb = c.compute_aabb();
                    let (pr, d) = crate::shape::project_on_box(&cb, point, solid);
                    proof {
                        crate::shape::lemma_proj_cost_ge_dist(cb, *point, solid);
                        assert(node.leaves()[0] == *l);
                    }
                    let better = match &best {
                        None => true,
                        Some(b) => d < b.2,
                    };
                    if better {
                        Some((l.handle, pr, d))
                    } else {
                        best
                    }
                },
            }
        },
        crate::index::Node::Branch(b) => {
            let ghost s0 = b.c0.leaves();
            let ghost s1 = crate::index::opt_leaves(b.c1);
            let ghost s2 = crate::index::opt_leaves(b.c2);
            let ghost s3 = crate::index::opt_leaves(b.c3);
            proof {
                lemma_covers_split(s0, s1, s2, s3, cmap);
            }
            let mut cur = project_rec(&b.c0, colliders, point, solid, query_groups, filter, best);
            if let Some(n) = &b.c1 {
                cur = project_rec(n, colliders, point, solid, query_groups, filter, cur);
            }
            if let Some(n) = &b.c2 {
                cur = project_rec(n, colliders, point, solid, query_groups, filter, cur);
            }
            if let Some(n) = &b.c3 {
                cur = project_rec(n, colliders, point, solid, query_groups, filter, cur);
            }
            proof {
                assert forall|i: int|
                    0 <= i < node.leaves().len() && eligible(
                        cmap,
                        query_groups,
                        filter,
                        (#[trigger] node.leaves()[i]).handle,
                    ) implies cur is Some && cur->Some_0.2 as int <= spec_collider_proj_cost(
                    cmap[node.leaves()[i].handle],
                    *point,
                    solid,
                ) by {
                    if i < s0.len() {
                        assert(node.leaves()[i] == s0[i]);
                    } else if i < s0.len() + s1.len() {
                        assert(node.leaves()[i] == s1[i - s0.len()]);
                    } else if i < s0.len() + s1.len() + s2.len() {
                        assert(node.leaves()[i] == s2[i - s0.len() - s1.len()]);
                    } else {
                        assert(node.leaves()[i] == s3[i - s0.len() - s1.len() - s2.len()]);
                    }
                }
            }
            cur
        },
    }
}

impl<D> QueryPipeline<D> {
    /// Find the projection of a point on the closest collider. With `solid`,
    /// a point inside a collider projects to itself at distance zero; without
    /// it, interior points project onto the collider's boundary.
    pub fn project_point<C: ColliderAccess, F: ColliderFilter>(
        &self,
        colliders: &C,
        point: &Vec3,
        solid: bool,
        query_groups: InteractionGroups,
        filter: Option<&F>,
    ) -> (r: Option<(ColliderHandle, crate::shape::PointProjection)>)
        requires
            self.wf(),
            colliders.inv(),
            self.covers(colliders.view_map()),
            point.spec_in_range(crate::math::AABB_LIMIT as int),
        ensures
            match r {
                Some((h, pr)) => {
                    &&& eligible(colliders.view_map(), query_groups, filter, h)
                    &&& pr == crate::shape::spec_project(
                        colliders.view_map()[h].spec_aabb(),
                        *point,
                        solid,
                    )
                    &&& forall|h2: ColliderHandle|
                        eligible(colliders.view_map(), query_groups, filter, h2)
                            ==> spec_collider_proj_cost(colliders.view_map()[h], *point, solid)
                            <= spec_collider_proj_cost(
                            #[trigger] colliders.view_map()[h2],
                            *point,
                            solid,
                        )
                },
                None => forall|h2: ColliderHandle|
                    !(#[trigger] eligible(colliders.view_map(), query_groups, filter, h2)),
            },
    {
        let ghost cmap = colliders.view_map();
        let r = match &self.qbvh.root {
            None => None,
            Some(n) => project_rec(n, colliders, point, solid, query_groups, filter, None),
        };
        proof {
            assert forall|h2: ColliderHandle|
                #[trigger] eligible(cmap, query_groups, filter, h2) implies r is Some
                && r->Some_0.2 as int <= spec_collider_proj_cost(cmap[h2], *point, solid) by {
                assert(cmap.contains_key(h2));
                let i = choose|i: int|
                    0 <= i < self.leaves().len() && (#[trigger] self.leaves()[i]).handle == h2;
                match self.qbvh.root {
                    None => {},
                    Some(n) => {
                        assert(n.leaves()[i].handle == h2);
                    },
                }
            }
        }
        match r {
            None => None,
            Some((h, pr, _)) => Some((h, pr)),
        }
    }

    /// Find the projection of a point on the closest collider, with the
    /// feature (face, edge or vertex) the projection lies on. Shapes are
    /// treated as hollow: interior points project onto the boundary.
    pub fn project_point_and_get_feature<C: ColliderAccess, F: ColliderFilter>(
        &self,
        colliders: &C,
        point: &Vec3,
        query_groups: InteractionGroups,
        filter: Option<&F>,
    ) -> (r: Option<(ColliderHandle, crate::shape::PointProjection, crate::shape::FeatureId)>)
        requires
            self.wf(),
            colliders.inv(),
            self.covers(colliders.view_map()),
            point.spec_in_range(crate::math::AABB_LIMIT as int),
        ensures
            match r {
                Some((h, pr, feat)) => {
                    &&& eligible(colliders.view_map(), query_groups, filter, h)
                    &&& pr == crate::shape::spec_project(
                        colliders.view_map()[h].spec_aabb(),
                        *point,
                        false,
                    )
                    &&& feat == crate::shape::spec_proj_feature(
                        colliders.view_map()[h].shape,
                        colliders.view_map()[h].spec_aabb(),
                        *point,
                    )
                    &&& forall|h2: ColliderHandle|
                        eligible(colliders.view_map(), query_groups, filter, h2)
                            ==> spec_collider_proj_cost(colliders.view_map()[h], *point, false)
                            <= spec_collider_proj_cost(
                            #[trigger] colliders.view_map()[h2],
                            *point,
                            false,
                        )
                },
                None => forall|h2: ColliderHandle|
                    !(#[trigger] eligible(colliders.view_map(), query_groups, filter, h2)),
            },
    {
        match self.project_point(colliders, point, false, query_groups, filter) {
            None => None,
            Some((h, pr)) => {
                let c = colliders.get(h).unwrap();
                let cb = c.compute_aabb();
                let feat = crate::shape::proj_feature(&c.shape, &cb, point);
                Some((h, pr, feat))
            },
        }
    }
}


/// The time of impact of a ray on an eligible collider, if it hits within
/// the requested bound.
pub open spec fn spec_collider_ray_toi(
    c: Collider,
    ray: crate::shape::Ray,
    max_toi: int,
    solid: bool,
) -> Option<int> {
    crate::shape::spec_ray_toi(c.spec_aabb(), ray, max_toi, solid)
}

/// Validity of a running best ray hit.
pub open spec fn ray_best_valid<F: ColliderFilter>(
    best: Option<(ColliderHandle, i64)>,
    cmap: Map<ColliderHandle, Collider>,
    groups: InteractionGroups,
    filter: Option<&F>,
    ray: crate::shape::Ray,
    max_toi: int,
    solid: bool,
) -> bool {
    match best {
        None => true,
        Some((h, t)) => {
            &&& eligible(cmap, groups, filter, h)
            &&& spec_collider_ray_toi(cmap[h], ray, max_toi, solid) == Some(t as int)
            &&& 0 <= t <= max_toi
        },
    }
}

/// Best-first ray cast over a subtree: prunes any subtree whose stored bound
/// the ray cannot reach sooner than the running best, and returns the
/// earliest hit over the subtree's eligible colliders and the incoming best.
fn cast_ray_rec<C: ColliderAccess, F: ColliderFilter>(
    node: &crate::index::Node,
    colliders: &C,
    ray: &crate::shape::Ray,
    max_toi: i64,
    solid: bool,
    query_groups: InteractionGroups,
    filter: Option<&F>,
    best: Option<(ColliderHandle, i64)>,
) -> (r: Option<(ColliderHandle, i64)>)
    requires
        node.wf(),
        colliders.inv(),
        ray.origin.spec_in_range(crate::math::AABB_LIMIT as int),
        0 <= max_toi <= TOI_LIMIT,
        covers_boxes(node.leaves(), colliders.view_map()),
        ray_best_valid(best, colliders.view_map(), query_groups, filter, *ray, max_toi as int, solid),
    ensures
        ray_best_valid(r, colliders.view_map(), query_groups, filter, *ray, max_toi as int, solid),
        best is Some ==> r is Some && r->Some_0.1 <= best->Some_0.1,
        forall|i: int|
            0 <= i < node.leaves().len() && eligible(
                colliders.view_map(),
                query_groups,
                filter,
                (#[trigger] node.leaves()[i]).handle,
            ) && spec_collider_ray_toi(
                colliders.view_map()[node.leaves()[i].handle],
                *ray,
                max_toi as int,
                solid,
            ) is Some ==> r is Some && r->Some_0.1 as int <= spec_collider_ray_toi(
                colliders.view_map()[node.leaves()[i].handle],
                *ray,
                max_toi as int,
                solid,
            )->Some_0,
    decreases *node,
{
    let ghost cmap = colliders.view_map();
    let reach: i64 = match &best {
        None => max_toi,
        Some(b) => b.1,
    };
    let seg = ray.segment_box(reach);
    let node_box = node.root_box();
    if !node_box.intersects(&seg) {
        proof {
            crate::index::lemma_wf_leaves(*node);
            assert forall|i: int|
                0 <= i < node.leaves().len() && eligible(
                    cmap,
                    query_groups,
                    filter,
                    (#[trigger] node.leaves()[i]).handle,
                ) && spec_collider_ray_toi(
                    cmap[node.leaves()[i].handle],
                    *ray,
                    max_toi as int,
                    solid,
                ) is Some implies best is Some && best->Some_0.1 as int <= spec_collider_ray_toi(
                cmap[node.leaves()[i].handle],
                *ray,
                max_toi as int,
                solid,
            )->Some_0 by {
                let l = node.leaves()[i];
                let exact = cmap[l.handle].spec_aabb();
                let t2 = spec_collider_ray_toi(cmap[l.handle], *ray, max_toi as int, solid)->Some_0;
                colliders.values_wf();
                crate::model::lemma_collider_aabb_wf(cmap[l.handle]);
                crate::shape::lemma_ray_toi_on_box(exact, *ray, max_toi as int, solid, t2);
                crate::shape::lemma_on_box_monotone(l.aabb, exact, *ray, t2);
                if t2 <= reach as int {
                    crate::shape::lemma_on_box_in_segment(l.aabb, *ray, t2, reach as int);
                    crate::math::lemma_intersects_monotone(node_box, l.aabb, seg);
                }
            }
        }
        return best;
    }
    match node {
        crate::index::Node::Leaf(l) => {
            match eligible_part(colliders, query_groups, filter, l.handle) {
                None => best,
                Some(c) => {
                    let cb = c.compute_aabb();
                    match crate::shape::ray_toi(&cb, ray, max_toi, solid) {
                        None => {
                            proof {
                                assert(node.leaves()[0] == *l);
                            }
                            best
                        },
                        Some(t) => {
                            proof {
                                crate::shape::lemma_ray_toi_on_box(
                                    cb,
                                    *ray,
                                    max_toi as int,
                                    solid,
                                    t as int,
                                );
                                assert(node.leaves()[0] == *l);
                            }
                            let better = match &best {
                                None => true,
                                Some(b) => t < b.1,
                            };
                            if better {
                                Some((l.handle, t))
                            } else {
                                best
                            }
                        },
                    }
                },
            }
        },
        crate::index::Node::Branch(b) => {
            let ghost s0 = b.c0.leaves();
            let ghost s1 = crate::index::opt_leaves(b.c1);
            let ghost s2 = crate::index::opt_leaves(b.c2);
            let ghost s3 = crate::index::opt_leaves(b.c3);
            proof {
                lemma_covers_split(s0, s1, s2, s3, cmap);
            }
            let mut cur = cast_ray_rec(&b.c0, colliders, ray, max_toi, solid, query_groups, filter, best);
            if let Some(n) = &b.c1 {
                cur = cast_ray_rec(n, colliders, ray, max_toi, solid, query_groups, filter, cur);
            }
            if let Some(n) = &b.c2 {
                cur = cast_ray_rec(n, colliders, ray, max_toi, solid, query_groups, filter, cur);
            }
            if let Some(n) = &b.c3 {
                cur = cast_ray_rec(n, colliders, ray, max_toi, solid, query_groups, filter, cur);
            }
            proof {
                assert forall|i: int|
                    0 <= i < node.leaves().len() && eligible(
                        cmap,
                        query_groups,
                        filter,
                        (#[trigger] node.leaves()[i]).handle,
                    ) && spec_collider_ray_toi(
                        cmap[node.leaves()[i].handle],
                        *ray,
                        max_toi as int,
                        solid,
                    ) is Some implies cur is Some && cur->Some_0.1 as int <= spec_collider_ray_toi(
                    cmap[node.leaves()[i].handle],
                    *ray,
                    max_toi as int,
                    solid,
                )->Some_0 by {
                    if i < s0.len() {
                        assert(node.leaves()[i] == s0[i]);
                    } else if i < s0.len() + s1.len() {
                        assert(node.leaves()[i] == s1[i - s0.len()]);
                    } else if i < s0.len() + s1.len() + s2.len() {
                        assert(node.leaves()[i] == s2[i - s0.len() - s1.len()]);
                    } else {
                        assert(node.leaves()[i] == s3[i - s0.len() - s1.len() - s2.len()]);
                    }
                }
            }
            cur
        },
    }
}

impl<D> QueryPipeline<D> {
    /// Find the closest intersection between a ray and the colliders. With
    /// `solid`, a ray starting inside a collider reports time zero; without
    /// it, the time at which it crosses the boundary. The returned time is
    /// the minimum over every eligible collider the ray hits within
    /// `max_toi`.
    pub fn cast_ray<C: ColliderAccess, F: ColliderFilter>(
        &self,
        colliders: &C,
        ray: &crate::shape::Ray,
        max_toi: i64,
        solid: bool,
        query_groups: InteractionGroups,
        filter: Option<&F>,
    ) -> (r: Option<(ColliderHandle, i64)>)
        requires
            self.wf(),
            colliders.inv(),
            self.covers(colliders.view_map()),
            ray.origin.spec_in_range(crate::math::AABB_LIMIT as int),
            0 <= max_toi <= TOI_LIMIT,
        ensures
            match r {
                Some((h, t)) => {
                    &&& eligible(colliders.view_map(), query_groups, filter, h)
                    &&& spec_collider_ray_toi(
                        colliders.view_map()[h],
                        *ray,
                        max_toi as int,
                        solid,
                    ) == Some(t as int)
                    &&& forall|h2: ColliderHandle|
                        #[trigger] eligible(colliders.view_map(), query_groups, filter, h2)
                            && spec_collider_ray_toi(
                            colliders.view_map()[h2],
                            *ray,
                            max_toi as int,
                            solid,
                        ) is Some ==> t as int <= spec_collider_ray_toi(
                            colliders.view_map()[h2],
                            *ray,
                            max_toi as int,
                            solid,
                        )->Some_0
                },
                None => forall|h2: ColliderHandle|
                    #[trigger] eligible(colliders.view_map(), query_groups, filter, h2)
                        ==> spec_collider_ray_toi(
                        colliders.view_map()[h2],
                        *ray,
                        max_toi as int,
                        solid,
                    ) is None,
            },
    {
        let ghost cmap = colliders.view_map();
        let r = match &self.qbvh.root {
            None => None,
            Some(n) => cast_ray_rec(n, colliders, ray, max_toi, solid, query_groups, filter, None),
        };
        proof {
            assert forall|h2: ColliderHandle|
                #[trigger] eligible(cmap, query_groups, filter, h2) && spec_collider_ray_toi(
                    cmap[h2],
                    *ray,
                    max_toi as int,
                    solid,
                ) is Some implies r is Some && r->Some_0.1 as int <= spec_collider_ray_toi(
                cmap[h2],
                *ray,
                max_toi as int,
                solid,
            )->Some_0 by {
                assert(cmap.contains_key(h2));
                let i = choose|i: int|
                    0 <= i < self.leaves().len() && (#[trigger] self.leaves()[i]).handle == h2;
                match self.qbvh.root {
                    None => {},
                    Some(n) => {
                        assert(n.leaves()[i].handle == h2);
                    },
                }
            }
        }
        r
    }

    /// Find the closest intersection between a ray and the colliders, with
    /// the hit's normal and crossed feature.
    pub fn cast_ray_and_get_normal<C: ColliderAccess, F: ColliderFilter>(
        &self,
        colliders: &C,
        ray: &crate::shape::Ray,
        max_toi: i64,
        solid: bool,
        query_groups: InteractionGroups,
        filter: Option<&F>,
    ) -> (r: Option<(ColliderHandle, crate::shape::RayIntersection)>)
        requires
            self.wf(),
            colliders.inv(),
            self.covers(colliders.view_map()),
            ray.origin.spec_in_range(crate::math::AABB_LIMIT as int),
            0 <= max_toi <= TOI_LIMIT,
        ensures
            match r {
                Some((h, hit)) => {
                    &&& eligible(colliders.view_map(), query_groups, filter, h)
                    &&& spec_collider_ray_toi(
                        colliders.view_map()[h],
                        *ray,
                        max_toi as int,
                        solid,
                    ) == Some(hit.toi as int)
                    &&& hit.normal == crate::shape::spec_ray_normal(
                        colliders.view_map()[h].spec_aabb(),
                        *ray,
                        solid,
                    )
                    &&& hit.feature == crate::shape::spec_ray_face(
                        colliders.view_map()[h].spec_aabb(),
                        *ray,
                        solid,
                    )
                    &&& forall|h2: ColliderHandle|
                        #[trigger] eligible(colliders.view_map(), query_groups, filter, h2)
                            && spec_collider_ray_toi(
                            colliders.view_map()[h2],
                            *ray,
                            max_toi as int,
                            solid,
                        ) is Some ==> hit.toi as int <= spec_collider_ray_toi(
                            colliders.view_map()[h2],
                            *ray,
                            max_toi as int,
                            solid,
                        )->Some_0
                },
                None => forall|h2: ColliderHandle|
                    #[trigger] eligible(colliders.view_map(), query_groups, filter, h2)
                        ==> spec_collider_ray_toi(
                        colliders.view_map()[h2],
                        *ray,
                        max_toi as int,
                        solid,
                    ) is None,
            },
    {
        match self.cast_ray(colliders, ray, max_toi, solid, query_groups, filter) {
            None => None,
            Some((h, t)) => {
                let c = colliders.get(h).unwrap();
                let cb = c.compute_aabb();
                let normal = crate::shape::ray_normal(&cb, ray, solid);
                let feature = crate::shape::ray_face(&cb, ray, solid);
                Some((h, crate::shape::RayIntersection { toi: t, normal, feature }))
            },
        }
    }
}


/// The candidates that satisfy a match predicate, in candidate order.
pub open spec fn matching(s: Seq<ColliderHandle>, p: spec_fn(ColliderHandle) -> bool) -> Seq<
    ColliderHandle,
>
    decreases s.len(),
{
    if s.len() == 0 {
        seq![]
    } else {
        (if p(s[0]) {
            seq![s[0]]
        } else {
            seq![]
        }) + matching(s.drop_first(), p)
    }
}

pub proof fn lemma_matching_push(
    s: Seq<ColliderHandle>,
    x: ColliderHandle,
    p: spec_fn(ColliderHandle) -> bool,
)
    ensures
        matching(s.push(x), p) == matching(s, p) + (if p(x) {
            seq![x]
        } else {
            Seq::<ColliderHandle>::empty()
        }),
    decreases s.len(),
{
    if s.len() == 0 {
        assert(s.push(x).drop_first() =~= Seq::<ColliderHandle>::empty());
        assert(s.push(x)[0] == x);
        assert(matching(s.push(x).drop_first(), p) =~= Seq::<ColliderHandle>::empty());
        assert(matching(s.push(x), p) =~= matching(s, p) + (if p(x) {
            seq![x]
        } else {
            Seq::<ColliderHandle>::empty()
        }));
    } else {
        assert(s.push(x)[0] == s[0]);
        assert(s.push(x).drop_first() =~= s.drop_first().push(x));
        lemma_matching_push(s.drop_first(), x, p);
        assert(matching(s.push(x), p) =~= matching(s, p) + (if p(x) {
            seq![x]
        } else {
            Seq::<ColliderHandle>::empty()
        }));
    }
}

/// Every element of the match list satisfies the predicate, and every
/// satisfying candidate appears in it.
pub proof fn lemma_matching_props(s: Seq<ColliderHandle>, p: spec_fn(ColliderHandle) -> bool)
    ensures
        forall|k: int| 0 <= k < matching(s, p).len() ==> p(#[trigger] matching(s, p)[k]),
        forall|i: int| 0 <= i < s.len() && p(#[trigger] s[i]) ==> matching(s, p).contains(s[i]),
    decreases s.len(),
{
    let m = matching(s, p);
    if s.len() > 0 {
        lemma_matching_props(s.drop_first(), p);
        let tail = matching(s.drop_first(), p);
        let head: Seq<ColliderHandle> = if p(s[0]) {
            seq![s[0]]
        } else {
            seq![]
        };
        assert(m == head + tail);
        assert forall|k: int| 0 <= k < m.len() implies p(#[trigger] m[k]) by {
            if k >= head.len() {
                assert(m[k] == tail[k - head.len()]);
            }
        }
        assert forall|i: int| 0 <= i < s.len() && p(#[trigger] s[i]) implies m.contains(s[i]) by {
            if i == 0 {
                assert(m[0] == s[0]);
            } else {
                assert(s.drop_first()[i - 1] == s[i]);
                assert(tail.contains(s[i]));
                let k = choose|k: int| 0 <= k < tail.len() && tail[k] == s[i];
                assert(m[head.len() + k] == s[i]);
            }
        }
    }
}

/// The matches of a prefix of the candidates are a prefix of the matches.
pub proof fn lemma_matching_prefix(
    s: Seq<ColliderHandle>,
    p: spec_fn(ColliderHandle) -> bool,
    i: int,
)
    requires
        0 <= i <= s.len(),
    ensures
        matching(s.take(i), p).len() <= matching(s, p).len(),
        matching(s, p).take(matching(s.take(i), p).len() as int) == matching(s.take(i), p),
    decreases s.len() - i,
{
    if i == s.len() {
        assert(s.take(i) =~= s);
        assert(matching(s, p).take(matching(s, p).len() as int) =~= matching(s, p));
    } else {
        lemma_matching_prefix(s, p, i + 1);
        assert(s.take(i + 1) =~= s.take(i).push(s[i]));
        lemma_matching_push(s.take(i), s[i], p);
        let mi = matching(s.take(i), p);
        let mi1 = matching(s.take(i + 1), p);
        assert(mi.len() <= mi1.len());
        assert(matching(s, p).take(mi.len() as int) =~= matching(s, p).take(mi1.len() as int).take(mi.len() as int));
        assert(mi1.take(mi.len() as int) =~= mi);
    }
}

/// The record of one early-exit traversal: the callback was invoked exactly
/// on a prefix of the match list `m`; every invocation but possibly the last
/// asked to continue, and the traversal stopped short of `m` only because the
/// last invocation asked to stop.
pub open spec fn visit_log_ok(log: Seq<(ColliderHandle, bool)>, m: Seq<ColliderHandle>) -> bool {
    &&& log.len() <= m.len()
    &&& forall|k: int| 0 <= k < log.len() ==> (#[trigger] log[k]).0 == m[k]
    &&& forall|k: int| 0 <= k < log.len() - 1 ==> (#[trigger] log[k]).1
    &&& (log.len() < m.len() ==> log.len() > 0 && !log[log.len() - 1].1)
}

/// Early exit: if the first invocation of a traversal asked to stop, the
/// callback ran exactly once, never zero times and never more.
pub proof fn lemma_early_exit(log: Seq<(ColliderHandle, bool)>, m: Seq<ColliderHandle>)
    requires
        visit_log_ok(log, m),
        m.len() > 0,
        log.len() > 0 ==> !log[0].1,
    ensures
        log.len() == 1,
{
    if log.len() == 0 {
        assert(log.len() < m.len());
    }
    if log.len() > 1 {
        assert(log[0].1);
    }
}

/// A match predicate for point containment: the collider is eligible and its
/// shape actually contains the point.
pub open spec fn point_match<F: ColliderFilter>(
    cmap: Map<ColliderHandle, Collider>,
    groups: InteractionGroups,
    filter: Option<&F>,
    p: Vec3,
) -> spec_fn(ColliderHandle) -> bool {
    |h: ColliderHandle|
        eligible(cmap, groups, filter, h) && cmap[h].spec_aabb().spec_contains_point(p)
}

/// A match predicate for ray intersection within `max_toi`.
pub open spec fn ray_match<F: ColliderFilter>(
    cmap: Map<ColliderHandle, Collider>,
    groups: InteractionGroups,
    filter: Option<&F>,
    ray: crate::shape::Ray,
    max_toi: int,
    solid: bool,
) -> spec_fn(ColliderHandle) -> bool {
    |h: ColliderHandle|
        eligible(cmap, groups, filter, h) && spec_collider_ray_toi(
            cmap[h],
            ray,
            max_toi,
            solid,
        ) is Some
}

/// A match predicate for shape intersection through a dispatcher: eligible,
/// supported, and actually intersecting.
pub open spec fn shape_match<D: QueryDispatcher, F: ColliderFilter>(
    d: D,
    cmap: Map<ColliderHandle, Collider>,
    groups: InteractionGroups,
    filter: Option<&F>,
    shape: Shape,
    shape_pos: Vec3,
) -> spec_fn(ColliderHandle) -> bool {
    |h: ColliderHandle|
        eligible(cmap, groups, filter, h) && d.supports(shape, cmap[h].shape)
            && spec_shapes_intersect(shape, shape_pos, cmap[h].shape, cmap[h].position)
}

impl<D> QueryPipeline<D> {
    /// Finds the handles of all colliders whose stored bounding box meets the
    /// given box, passing each to the visitor until it asks to stop. A pure
    /// bound-overlap test: no exact shape test and no filtering.
    pub fn colliders_with_aabb_intersecting_aabb<V: crate::visitors::HandleVisitor>(
        &self,
        aabb: &Aabb,
        visitor: &mut V,
    ) -> (log: Ghost<Seq<(ColliderHandle, bool)>>)
        requires
            self.wf(),
        ensures
            visit_log_ok(log@, spec_region_matches(self.leaves(), *aabb)),
    {
        let cands = self.qbvh.collect_region(aabb);
        let ghost m = cands@;
        let mut log: Ghost<Seq<(ColliderHandle, bool)>> = Ghost(Seq::empty());
        let n = cands.len();
        let mut i: usize = 0;
        let mut stopped = false;
        while i < n && !stopped
            invariant
                n == cands@.len(),
                0 <= i <= n,
                m == cands@,
                !stopped ==> log@.len() == i,
                !stopped ==> forall|k: int| 0 <= k < i ==> #[trigger] log@[k] == (m[k], true),
                stopped ==> visit_log_ok(log@, m),
            decreases n - i, (if stopped { 0int } else { 1int }),
        {
            let go = visitor.visit(cands[i]);
            proof {
                log@ = log@.push((m[i as int], go));
            }
            if !go {
                stopped = true;
            }
            i = i + 1;
        }
        log
    }

    /// Finds all the colliders containing the given point (an exact shape
    /// test, not a bound test), passing each to the visitor until it asks to
    /// stop.
    pub fn intersections_with_point<C: ColliderAccess, F: ColliderFilter, V: crate::visitors::HandleVisitor>(
        &self,
        colliders: &C,
        point: &Vec3,
        query_groups: InteractionGroups,
        filter: Option<&F>,
        visitor: &mut V,
    ) -> (log: Ghost<Seq<(ColliderHandle, bool)>>)
        requires
            self.wf(),
            colliders.inv(),
            self.covers(colliders.view_map()),
            point.spec_in_range(crate::math::AABB_LIMIT as int),
        ensures
            visit_log_ok(
                log@,
                matching(
                    spec_region_matches(self.leaves(), Aabb { mins: *point, maxs: *point }),
                    point_match(colliders.view_map(), query_groups, filter, *point),
                ),
            ),
    {
        let ghost cmap = colliders.view_map();
        let region = Aabb { mins: *point, maxs: *point };
        let cands = self.qbvh.collect_region(&region);
        let ghost pm = point_match(cmap, query_groups, filter, *point);
        let ghost m = matching(cands@, pm);
        let mut log: Ghost<Seq<(ColliderHandle, bool)>> = Ghost(Seq::empty());
        let n = cands.len();
        let mut i: usize = 0;
        let mut stopped = false;
        while i < n && !stopped
            invariant
                colliders.inv(),
                cmap == colliders.view_map(),
                n == cands@.len(),
                0 <= i <= n,
                pm == point_match(cmap, query_groups, filter, *point),
                m == matching(cands@, pm),
                point.spec_in_range(crate::math::AABB_LIMIT as int),
                !stopped ==> log@.len() == matching(cands@.take(i as int), pm).len(),
                !stopped ==> forall|k: int| 0 <= k < log@.len() ==> #[trigger] log@[k] == (
                    matching(cands@.take(i as int), pm)[k],
                    true,
                ),
                stopped ==> visit_log_ok(log@, m),
            decreases n - i, (if stopped { 0int } else { 1int }),
        {
            let h = cands[i];
            let ghost pre = cands@.take(i as int);
            proof {
                assert(cands@.take(i + 1) =~= pre.push(h));
                lemma_matching_push(pre, h, pm);
            }
            match eligible_part(colliders, query_groups, filter, h) {
                None => {},
                Some(c) => {
                    let cb = c.compute_aabb();
                    if cb.contains_point(point) {
                        let go = visitor.visit(h);
                        proof {
                            assert(pm(h));
                            assert(matching(pre.push(h), pm) == matching(pre, pm) + seq![h]);
                            log@ = log@.push((h, go));
                        }
                        if !go {
                            stopped = true;
                            proof {
                                lemma_matching_prefix(cands@, pm, i + 1);
                                let mti = matching(cands@.take(i as int), pm);
                                let mi1 = matching(cands@.take(i + 1), pm);
                                assert(mi1 == mti + seq![h]);
                                assert(log@.len() == mi1.len());
                                assert forall|k: int| 0 <= k < log@.len() implies (
                                #[trigger] log@[k]).0 == m[k] by {
                                    assert(m.take(mi1.len() as int)[k] == m[k]);
                                    assert(mi1[k] == m[k]);
                                    if k < log@.len() - 1 {
                                        assert(log@[k] == (mti[k], true));
                                        assert(mi1[k] == mti[k]);
                                    } else {
                                        assert(mi1[k] == h);
                                    }
                                }
                                assert(visit_log_ok(log@, m));
                            }
                        }
                    } else {
                        proof {
                            assert(!pm(h));
                        }
                    }
                },
            }
            proof {
                if !pm(h) {
                    assert(matching(cands@.take(i + 1), pm) =~= matching(pre, pm));
                }
            }
            i = i + 1;
        }
        proof {
            if !stopped {
                assert(cands@.take(n as int) =~= cands@);
            }
        }
        log
    }

    /// Finds all the colliders intersected by the given ray within `max_toi`,
    /// passing each with its hit details to the visitor until it asks to
    /// stop.
    pub fn intersections_with_ray<C: ColliderAccess, F: ColliderFilter, V: crate::visitors::RayHitVisitor>(
        &self,
        colliders: &C,
        ray: &crate::shape::Ray,
        max_toi: i64,
        solid: bool,
        query_groups: InteractionGroups,
        filter: Option<&F>,
        visitor: &mut V,
    ) -> (log: Ghost<Seq<(ColliderHandle, bool)>>)
        requires
            self.wf(),
            colliders.inv(),
            self.covers(colliders.view_map()),
            ray.origin.spec_in_range(crate::math::AABB_LIMIT as int),
            0 <= max_toi <= TOI_LIMIT,
        ensures
            visit_log_ok(
                log@,
                matching(
                    spec_region_matches(self.leaves(), ray.spec_segment_box(max_toi as int)),
                    ray_match(colliders.view_map(), query_groups, filter, *ray, max_toi as int, solid),
                ),
            ),
    {
        let ghost cmap = colliders.view_map();
        let region = ray.segment_box(max_toi);
        let cands = self.qbvh.collect_region(&region);
        let ghost pm = ray_match(cmap, query_groups, filter, *ray, max_toi as int, solid);
        let ghost m = matching(cands@, pm);
        let mut log: Ghost<Seq<(ColliderHandle, bool)>> = Ghost(Seq::empty());
        let n = cands.len();
        let mut i: usize = 0;
        let mut stopped = false;
        while i < n && !stopped
            invariant
                colliders.inv(),
                cmap == colliders.view_map(),
                n == cands@.len(),
                0 <= i <= n,
                pm == ray_match(cmap, query_groups, filter, *ray, max_toi as int, solid),
                m == matching(cands@, pm),
                ray.origin.spec_in_range(crate::math::AABB_LIMIT as int),
                0 <= max_toi <= TOI_LIMIT,
                !stopped ==> log@.len() == matching(cands@.take(i as int), pm).len(),
                !stopped ==> forall|k: int| 0 <= k < log@.len() ==> #[trigger] log@[k] == (
                    matching(cands@.take(i as int), pm)[k],
                    true,
                ),
                stopped ==> visit_log_ok(log@, m),
            decreases n - i, (if stopped { 0int } else { 1int }),
        {
            let h = cands[i];
            let ghost pre = cands@.take(i as int);
            proof {
                assert(cands@.take(i + 1) =~= pre.push(h));
                lemma_matching_push(pre, h, pm);
            }
            match eligible_part(colliders, query_groups, filter, h) {
                None => {},
                Some(c) => {
                    let cb = c.compute_aabb();
                    match crate::shape::ray_toi(&cb, ray, max_toi, solid) {
                        None => {
                            proof {
                                assert(!pm(h));
                            }
                        },
                        Some(t) => {
                            let normal = crate::shape::ray_normal(&cb, ray, solid);
                            let feature = crate::shape::ray_face(&cb, ray, solid);
                            let hit = crate::shape::RayIntersection { toi: t, normal, feature };
                            let go = visitor.visit(h, hit);
                            proof {
                                assert(pm(h));
                                assert(matching(pre.push(h), pm) == matching(pre, pm) + seq![h]);
                                log@ = log@.push((h, go));
                            }
                            if !go {
                                stopped = true;
                                proof {
                                    lemma_matching_prefix(cands@, pm, i + 1);
                                    let mti = matching(cands@.take(i as int), pm);
                                    let mi1 = matching(cands@.take(i + 1), pm);
                                    assert(mi1 == mti + seq![h]);
                                    assert(log@.len() == mi1.len());
                                    assert forall|k: int| 0 <= k < log@.len() implies (
                                    #[trigger] log@[k]).0 == m[k] by {
                                        assert(m.take(mi1.len() as int)[k] == m[k]);
                                        assert(mi1[k] == m[k]);
                                        if k < log@.len() - 1 {
                                            assert(log@[k] == (mti[k], true));
                                            assert(mi1[k] == mti[k]);
                                        } else {
                                            assert(mi1[k] == h);
                                        }
                                    }
                                    assert(visit_log_ok(log@, m));
                                }
                            }
                        },
                    }
                },
            }
            proof {
                if !pm(h) {
                    assert(matching(cands@.take(i + 1), pm) =~= matching(pre, pm));
                }
            }
            i = i + 1;
        }
        proof {
            if !stopped {
                assert(cands@.take(n as int) =~= cands@);
            }
        }
        log
    }
}

impl<D: QueryDispatcher> QueryPipeline<D> {
    /// Retrieves all the colliders intersecting the given positioned shape,
    /// passing each to the visitor until it asks to stop. A candidate the
    /// dispatcher cannot evaluate is treated as non-matching, never as an
    /// error.
    pub fn intersections_with_shape<C: ColliderAccess, F: ColliderFilter, V: crate::visitors::HandleVisitor>(
        &self,
        colliders: &C,
        shape_pos: &Vec3,
        shape: &Shape,
        query_groups: InteractionGroups,
        filter: Option<&F>,
        visitor: &mut V,
    ) -> (log: Ghost<Seq<(ColliderHandle, bool)>>)
        requires
            self.wf(),
            colliders.inv(),
            self.covers(colliders.view_map()),
            shape.wf(),
            shape_pos.spec_in_range(COORD_LIMIT as int),
        ensures
            visit_log_ok(
                log@,
                matching(
                    spec_region_matches(self.leaves(), shape.spec_aabb(*shape_pos)),
                    shape_match(
                        self.spec_dispatcher(),
                        colliders.view_map(),
                        query_groups,
                        filter,
                        *shape,
                        *shape_pos,
                    ),
                ),
            ),
    {
        let ghost cmap = colliders.view_map();
        let region = shape.compute_aabb(shape_pos);
        let cands = self.qbvh.collect_region(&region);
        let ghost pm = shape_match(
            self.spec_dispatcher(),
            cmap,
            query_groups,
            filter,
            *shape,
            *shape_pos,
        );
        let ghost m = matching(cands@, pm);
        let mut log: Ghost<Seq<(ColliderHandle, bool)>> = Ghost(Seq::empty());
        let n = cands.len();
        let mut i: usize = 0;
        let mut stopped = false;
        while i < n && !stopped
            invariant
                colliders.inv(),
                cmap == colliders.view_map(),
                n == cands@.len(),
                0 <= i <= n,
                pm == shape_match(
                    self.spec_dispatcher(),
                    cmap,
                    query_groups,
                    filter,
                    *shape,
                    *shape_pos,
                ),
                m == matching(cands@, pm),
                shape.wf(),
                shape_pos.spec_in_range(COORD_LIMIT as int),
                !stopped ==> log@.len() == matching(cands@.take(i as int), pm).len(),
                !stopped ==> forall|k: int| 0 <= k < log@.len() ==> #[trigger] log@[k] == (
                    matching(cands@.take(i as int), pm)[k],
                    true,
                ),
                stopped ==> visit_log_ok(log@, m),
            decreases n - i, (if stopped { 0int } else { 1int }),
        {
            let h = cands[i];
            let ghost pre = cands@.take(i as int);
            proof {
                assert(cands@.take(i + 1) =~= pre.push(h));
                lemma_matching_push(pre, h, pm);
            }
            match eligible_part(colliders, query_groups, filter, h) {
                None => {},
                Some(c) => {
                    let hit = match self.query_dispatcher.intersection_test(
                        shape,
                        shape_pos,
                        &c.shape,
                        &c.position,
                    ) {
                        Ok(t) => t,
                        Err(_) => false,
                    };
                    if hit {
                        let go = visitor.visit(h);
                        proof {
                            assert(pm(h));
                            assert(matching(pre.push(h), pm) == matching(pre, pm) + seq![h]);
                            log@ = log@.push((h, go));
                        }
                        if !go {
                            stopped = true;
                            proof {
                                lemma_matching_prefix(cands@, pm, i + 1);
                                let mti = matching(cands@.take(i as int), pm);
                                let mi1 = matching(cands@.take(i + 1), pm);
                                assert(mi1 == mti + seq![h]);
                                assert(log@.len() == mi1.len());
                                assert forall|k: int| 0 <= k < log@.len() implies (
                                #[trigger] log@[k]).0 == m[k] by {
                                    assert(m.take(mi1.len() as int)[k] == m[k]);
                                    assert(mi1[k] == m[k]);
                                    if k < log@.len() - 1 {
                                        assert(log@[k] == (mti[k], true));
                                        assert(mi1[k] == mti[k]);
                                    } else {
                                        assert(mi1[k] == h);
                                    }
                                }
                                assert(visit_log_ok(log@, m));
                            }
                        }
                    } else {
                        proof {
                            assert(!pm(h));
                        }
                    }
                },
            }
            proof {
                if !pm(h) {
                    assert(matching(cands@.take(i + 1), pm) =~= matching(pre, pm));
                }
            }
            i = i + 1;
        }
        proof {
            if !stopped {
                assert(cands@.take(n as int) =~= cands@);
            }
        }
        log
    }

    /// Gets the handle of up to one collider intersecting the given shape,
    /// stopping at the first match found.
    pub fn intersection_with_shape<C: ColliderAccess, F: ColliderFilter>(
        &self,
        colliders: &C,
        shape_pos: &Vec3,
        shape: &Shape,
        query_groups: InteractionGroups,
        filter: Option<&F>,
    ) -> (r: Option<ColliderHandle>)
        requires
            self.wf(),
            colliders.inv(),
            self.covers(colliders.view_map()),
            shape.wf(),
            shape_pos.spec_in_range(COORD_LIMIT as int),
        ensures
            match r {
                Some(h) => {
                    &&& eligible(colliders.view_map(), query_groups, filter, h)
                    &&& self.spec_dispatcher().supports(*shape, colliders.view_map()[h].shape)
                    &&& spec_shapes_intersect(
                        *shape,
                        *shape_pos,
                        colliders.view_map()[h].shape,
                        colliders.view_map()[h].position,
                    )
                },
                None => forall|h2: ColliderHandle|
                    !(#[trigger] eligible(colliders.view_map(), query_groups, filter, h2)
                        && self.spec_dispatcher().supports(*shape, colliders.view_map()[h2].shape)
                        && spec_shapes_intersect(
                        *shape,
                        *shape_pos,
                        colliders.view_map()[h2].shape,
                        colliders.view_map()[h2].position,
                    )),
            },
    {
        let ghost cmap = colliders.view_map();
        let region = shape.compute_aabb(shape_pos);
        let cands = self.qbvh.collect_region(&region);
        let n = cands.len();
        for i in 0..n
            invariant
                colliders.inv(),
                cmap == colliders.view_map(),
                n == cands@.len(),
                cands@ == spec_region_matches(self.leaves(), shape.spec_aabb(*shape_pos)),
                shape.wf(),
                shape_pos.spec_in_range(COORD_LIMIT as int),
                forall|k: int| 0 <= k < i ==> !(eligible(cmap, query_groups, filter, #[trigger] cands@[k])
                    && self.spec_dispatcher().supports(*shape, cmap[cands@[k]].shape)
                    && spec_shapes_intersect(
                    *shape,
                    *shape_pos,
                    cmap[cands@[k]].shape,
                    cmap[cands@[k]].position,
                )),
        {
            let h = cands[i];
            match eligible_part(colliders, query_groups, filter, h) {
                None => {},
                Some(c) => {
                    let hit = match self.query_dispatcher.intersection_test(
                        shape,
                        shape_pos,
                        &c.shape,
                        &c.position,
                    ) {
                        Ok(t) => t,
                        Err(_) => false,
                    };
                    if hit {
                        return Some(h);
                    }
                },
            }
        }
        proof {
            colliders.values_wf();
            assert forall|h2: ColliderHandle|
                !(#[trigger] eligible(cmap, query_groups, filter, h2)
                    && self.spec_dispatcher().supports(*shape, cmap[h2].shape)
                    && spec_shapes_intersect(
                    *shape,
                    *shape_pos,
                    cmap[h2].shape,
                    cmap[h2].position,
                )) by {
                if eligible(cmap, query_groups, filter, h2) && self.spec_dispatcher().supports(
                    *shape,
                    cmap[h2].shape,
                ) && spec_shapes_intersect(*shape, *shape_pos, cmap[h2].shape, cmap[h2].position) {
                    let i = choose|i: int|
                        0 <= i < self.leaves().len() && (#[trigger] self.leaves()[i]).handle == h2;
                    crate::model::lemma_collider_aabb_wf(cmap[h2]);
                    crate::math::lemma_intersects_monotone(
                        self.leaves()[i].aabb,
                        cmap[h2].spec_aabb(),
                        shape.spec_aabb(*shape_pos),
                    );
                    crate::index::lemma_region_membership(
                        self.leaves(),
                        shape.spec_aabb(*shape_pos),
                    );
                    assert(cands@.contains(h2));
                    let k = choose|k: int| 0 <= k < cands@.len() && cands@[k] == h2;
                    assert(!(eligible(cmap, query_groups, filter, cands@[k])
                        && self.spec_dispatcher().supports(*shape, cmap[cands@[k]].shape)
                        && spec_shapes_intersect(
                        *shape,
                        *shape_pos,
                        cmap[cands@[k]].shape,
                        cmap[cands@[k]].position,
                    )));
                }
            }
        }
        None
    }

    /// Casts a shape at a constant axis-aligned unit velocity and retrieves
    /// the first collider it hits: the returned time of impact is the minimum
    /// over every eligible, supported collider hit within `max_toi`.
    pub fn cast_shape<C: ColliderAccess, F: ColliderFilter>(
        &self,
        colliders: &C,
        shape_pos: &Vec3,
        shape_vel: crate::shape::AxisDir,
        shape: &Shape,
        max_toi: i64,
        query_groups: InteractionGroups,
        filter: Option<&F>,
    ) -> (r: Option<(ColliderHandle, crate::shape::Toi)>)
        requires
            self.wf(),
            colliders.inv(),
            self.covers(colliders.view_map()),
            shape.wf(),
            shape_pos.spec_in_range(COORD_LIMIT as int),
            0 <= max_toi <= TOI_LIMIT,
        ensures
            match r {
                Some((h, hit)) => {
                    &&& eligible(colliders.view_map(), query_groups, filter, h)
                    &&& self.spec_dispatcher().supports(*shape, colliders.view_map()[h].shape)
                    &&& crate::shape::spec_cast_toi(
                        shape.spec_aabb(*shape_pos),
                        shape_vel,
                        max_toi as int,
                        colliders.view_map()[h].spec_aabb(),
                    ) == Some(hit.toi as int)
                    &&& colliders.view_map()[h].spec_aabb().spec_contains_point(hit.witness)
                    &&& crate::shape::spec_shifted(
                        shape.spec_aabb(*shape_pos),
                        shape_vel,
                        hit.toi as int,
                    ).spec_contains_point(hit.witness)
                    &&& forall|h2: ColliderHandle|
                        #[trigger] eligible(colliders.view_map(), query_groups, filter, h2)
                            && self.spec_dispatcher().supports(*shape, colliders.view_map()[h2].shape)
                            && crate::shape::spec_cast_toi(
                            shape.spec_aabb(*shape_pos),
                            shape_vel,
                            max_toi as int,
                            colliders.view_map()[h2].spec_aabb(),
                        ) is Some ==> hit.toi as int <= crate::shape::spec_cast_toi(
                            shape.spec_aabb(*shape_pos),
                            shape_vel,
                            max_toi as int,
                            colliders.view_map()[h2].spec_aabb(),
                        )->Some_0
                },
                None => forall|h2: ColliderHandle|
                    #[trigger] eligible(colliders.view_map(), query_groups, filter, h2)
                        && self.spec_dispatcher().supports(*shape, colliders.view_map()[h2].shape)
                        ==> crate::shape::spec_cast_toi(
                        shape.spec_aabb(*shape_pos),
                        shape_vel,
                        max_toi as int,
                        colliders.view_map()[h2].spec_aabb(),
                    ) is None,
            },
    {
        let ghost cmap = colliders.view_map();
        let qbox = shape.compute_aabb(shape_pos);
        let region = swept_region(&qbox, shape_vel, max_toi);
        let cands = self.qbvh.collect_region(&region);
        let mut best: Option<(ColliderHandle, crate::shape::Toi)> = None;
        let n = cands.len();
        for i in 0..n
            invariant
                colliders.inv(),
                cmap == colliders.view_map(),
                n == cands@.len(),
                cands@ == spec_region_matches(
                    self.leaves(),
                    crate::shape::spec_swept_box(
                        shape.spec_aabb(*shape_pos),
                        shape_vel,
                        max_toi as int,
                    ),
                ),
                shape.wf(),
                shape_pos.spec_in_range(COORD_LIMIT as int),
                0 <= max_toi <= TOI_LIMIT,
                qbox == shape.spec_aabb(*shape_pos),
                match best {
                    None => true,
                    Some((h, hit)) => {
                        &&& eligible(cmap, query_groups, filter, h)
                        &&& self.spec_dispatcher().supports(*shape, cmap[h].shape)
                        &&& crate::shape::spec_cast_toi(
                            qbox,
                            shape_vel,
                            max_toi as int,
                            cmap[h].spec_aabb(),
                        ) == Some(hit.toi as int)
                        &&& cmap[h].spec_aabb().spec_contains_point(hit.witness)
                        &&& crate::shape::spec_shifted(
                            qbox,
                            shape_vel,
                            hit.toi as int,
                        ).spec_contains_point(hit.witness)
                        &&& 0 <= hit.toi
                    },
                },
                forall|k: int|
                    0 <= k < i && eligible(cmap, query_groups, filter, #[trigger] cands@[k])
                        && self.spec_dispatcher().supports(*shape, cmap[cands@[k]].shape)
                        && crate::shape::spec_cast_toi(
                        qbox,
                        shape_vel,
                        max_toi as int,
                        cmap[cands@[k]].spec_aabb(),
                    ) is Some ==> best is Some && best->Some_0.1.toi as int
                        <= crate::shape::spec_cast_toi(
                        qbox,
                        shape_vel,
                        max_toi as int,
                        cmap[cands@[k]].spec_aabb(),
                    )->Some_0,
        {
            let h = cands[i];
            match eligible_part(colliders, query_groups, filter, h) {
                None => {},
                Some(c) => {
                    match self.query_dispatcher.cast_shapes(
                        shape,
                        shape_pos,
                        shape_vel,
                        max_toi,
                        &c.shape,
                        &c.position,
                    ) {
                        Err(_) => {},
                        Ok(None) => {},
                        Ok(Some(hit)) => {
                            proof {
                                crate::shape::lemma_cast_toi_bounds(
                                    qbox,
                                    shape_vel,
                                    max_toi as int,
                                    cmap[h].spec_aabb(),
                                    hit.toi as int,
                                );
                            }
                            let better = match &best {
                                None => true,
                                Some(b) => hit.toi < b.1.toi,
                            };
                            if better {
                                best = Some((h, hit));
                            }
                        },
                    }
                },
            }
        }
        proof {
            colliders.values_wf();
            assert forall|h2: ColliderHandle|
                #[trigger] eligible(cmap, query_groups, filter, h2)
                    && self.spec_dispatcher().supports(*shape, cmap[h2].shape)
                    && crate::shape::spec_cast_toi(
                    qbox,
                    shape_vel,
                    max_toi as int,
                    cmap[h2].spec_aabb(),
                ) is Some implies best is Some && best->Some_0.1.toi as int
                <= crate::shape::spec_cast_toi(
                qbox,
                shape_vel,
                max_toi as int,
                cmap[h2].spec_aabb(),
            )->Some_0 by {
                let t2 = crate::shape::spec_cast_toi(
                    qbox,
                    shape_vel,
                    max_toi as int,
                    cmap[h2].spec_aabb(),
                )->Some_0;
                crate::model::lemma_collider_aabb_wf(cmap[h2]);
                crate::shape::lemma_cast_toi_bounds(
                    qbox,
                    shape_vel,
                    max_toi as int,
                    cmap[h2].spec_aabb(),
                    t2,
                );
                crate::shape::lemma_cast_hit_in_swept(
                    qbox,
                    shape_vel,
                    max_toi as int,
                    cmap[h2].spec_aabb(),
                    t2,
                    max_toi as int,
                );
                let i = choose|i: int|
                    0 <= i < self.leaves().len() && (#[trigger] self.leaves()[i]).handle == h2;
                crate::math::lemma_intersects_monotone(
                    self.leaves()[i].aabb,
                    cmap[h2].spec_aabb(),
                    crate::shape::spec_swept_box(qbox, shape_vel, max_toi as int),
                );
                crate::index::lemma_region_membership(
                    self.leaves(),
                    crate::shape::spec_swept_box(qbox, shape_vel, max_toi as int),
                );
                assert(cands@.contains(h2));
                let k = choose|k: int| 0 <= k < cands@.len() && cands@[k] == h2;
                assert(eligible(cmap, query_groups, filter, cands@[k]));
            }
        }
        best
    }
}

/// Computes the box swept by a moving box over a bounded motion.
fn swept_region(mv: &Aabb, dir: crate::shape::AxisDir, len: i64) -> (r: Aabb)
    requires
        mv.spec_in_range(crate::math::AABB_LIMIT as int),
        0 <= len <= TOI_LIMIT,
    ensures
        r == crate::shape::spec_swept_box(*mv, dir, len as int),
{
    Aabb {
        mins: Vec3 {
            x: if matches!(dir.axis, crate::math::Axis::X) && !dir.positive { mv.mins.x - len } else { mv.mins.x },
            y: if matches!(dir.axis, crate::math::Axis::Y) && !dir.positive { mv.mins.y - len } else { mv.mins.y },
            z: if matches!(dir.axis, crate::math::Axis::Z) && !dir.positive { mv.mins.z - len } else { mv.mins.z },
        },
        maxs: Vec3 {
            x: if matches!(dir.axis, crate::math::Axis::X) && dir.positive { mv.maxs.x + len } else { mv.maxs.x },
            y: if matches!(dir.axis, crate::math::Axis::Y) && dir.positive { mv.maxs.y + len } else { mv.maxs.y },
            z: if matches!(dir.axis, crate::math::Axis::Z) && dir.positive { mv.maxs.z + len } else { mv.maxs.z },
        },
    }
}


/// An arbitrary continuous motion described by the moving shape's position at
/// each integer time step of the cast interval.
pub struct SampledMotion {
    pub positions: Vec<Vec3>,
}

/// The first sample index at or after `k` where the moving shape touches the
/// collider.
pub open spec fn first_contact_from(
    qshape: Shape,
    positions: Seq<Vec3>,
    c: Collider,
    k: int,
) -> Option<int>
    decreases positions.len() - k,
{
    if k < 0 || k >= positions.len() {
        None
    } else if spec_shapes_intersect(qshape, positions[k], c.shape, c.position) {
        Some(k)
    } else {
        first_contact_from(qshape, positions, c, k + 1)
    }
}

/// The first sample index at or after `k` where the shapes do not touch.
pub open spec fn first_separation_from(
    qshape: Shape,
    positions: Seq<Vec3>,
    c: Collider,
    k: int,
) -> Option<int>
    decreases positions.len() - k,
{
    if k < 0 || k >= positions.len() {
        None
    } else if !spec_shapes_intersect(qshape, positions[k], c.shape, c.position) {
        Some(k)
    } else {
        first_separation_from(qshape, positions, c, k + 1)
    }
}

/// The sample index reported by a nonlinear cast: the earliest contact, or,
/// when the search may look past an initial-penetration state, the earliest
/// contact after the shapes have first separated.
pub open spec fn spec_motion_index(
    qshape: Shape,
    positions: Seq<Vec3>,
    c: Collider,
    stop_at_penetration: bool,
) -> Option<int> {
    if stop_at_penetration {
        first_contact_from(qshape, positions, c, 0)
    } else {
        match first_separation_from(qshape, positions, c, 0) {
            None => None,
            Some(s) => first_contact_from(qshape, positions, c, s),
        }
    }
}

/// Walks the sampled motion through the dispatcher's intersection test and
/// reports the first qualifying contact index, or the dispatcher's refusal.
fn motion_first_contact<D: QueryDispatcher>(
    d: &D,
    qshape: &Shape,
    positions: &Vec<Vec3>,
    c: &Collider,
    stop_at_penetration: bool,
) -> (r: Result<Option<usize>, crate::dispatcher::QueryError>)
    requires
        qshape.wf(),
        c.wf(),
        positions@.len() > 0,
        forall|j: int| 0 <= j < positions@.len() ==> (#[trigger] positions@[j]).spec_in_range(
            COORD_LIMIT as int,
        ),
    ensures
        d.supports(*qshape, c.shape) ==> match r {
            Ok(Some(k)) => spec_motion_index(*qshape, positions@, *c, stop_at_penetration)
                == Some(k as int),
            Ok(None) => spec_motion_index(*qshape, positions@, *c, stop_at_penetration) is None,
            Err(_) => false,
        },
        !d.supports(*qshape, c.shape) ==> r is Err,
{
    let n = positions.len();
    let mut k: usize = 0;
    if !stop_at_penetration {
        let mut separated = false;
        while k < n && !separated
            invariant
                qshape.wf(),
                c.wf(),
                n == positions@.len(),
                0 <= k <= n,
                forall|j: int| 0 <= j < positions@.len() ==> (
                #[trigger] positions@[j]).spec_in_range(COORD_LIMIT as int),
                d.supports(*qshape, c.shape) && !separated ==> first_separation_from(
                    *qshape,
                    positions@,
                    *c,
                    0,
                ) == first_separation_from(*qshape, positions@, *c, k as int),
                d.supports(*qshape, c.shape) && separated ==> first_separation_from(
                    *qshape,
                    positions@,
                    *c,
                    0,
                ) == Some(k as int),
                k > 0 || separated ==> d.supports(*qshape, c.shape),
            decreases n - k, (if separated { 0int } else { 1int }),
        {
            match d.intersection_test(qshape, &positions[k], &c.shape, &c.position) {
                Err(e) => {
                    return Err(e);
                },
                Ok(true) => {
                    k = k + 1;
                },
                Ok(false) => {
                    separated = true;
                },
            }
        }
        if !separated {
            return Ok(None);
        }
    }
    let ghost kstart = k as int;
    while k < n
        invariant
            qshape.wf(),
            c.wf(),
            n == positions@.len(),
            kstart <= k <= n,
            forall|j: int| 0 <= j < positions@.len() ==> (#[trigger] positions@[j]).spec_in_range(
                COORD_LIMIT as int,
            ),
            d.supports(*qshape, c.shape) ==> first_contact_from(*qshape, positions@, *c, kstart)
                == first_contact_from(*qshape, positions@, *c, k as int),
            d.supports(*qshape, c.shape) ==> if stop_at_penetration {
                kstart == 0
            } else {
                first_separation_from(*qshape, positions@, *c, 0) == Some(kstart)
            },
            !stop_at_penetration || k > 0 ==> d.supports(*qshape, c.shape),
        decreases n - k,
    {
        match d.intersection_test(qshape, &positions[k], &c.shape, &c.position) {
            Err(e) => {
                return Err(e);
            },
            Ok(true) => {
                return Ok(Some(k));
            },
            Ok(false) => {
                k = k + 1;
            },
        }
    }
    Ok(None)
}

/// The union of the moving shape's boxes over every motion sample.
fn motion_region(qshape: &Shape, positions: &Vec<Vec3>) -> (r: Aabb)
    requires
        qshape.wf(),
        positions@.len() > 0,
        forall|j: int| 0 <= j < positions@.len() ==> (#[trigger] positions@[j]).spec_in_range(
            COORD_LIMIT as int,
        ),
    ensures
        forall|j: int| 0 <= j < positions@.len() ==> r.spec_contains_box(
            qshape.spec_aabb(#[trigger] positions@[j]),
        ),
{
    let n = positions.len();
    let mut r = qshape.compute_aabb(&positions[0]);
    for i in 1..n
        invariant
            qshape.wf(),
            n == positions@.len(),
            forall|j: int| 0 <= j < positions@.len() ==> (#[trigger] positions@[j]).spec_in_range(
                COORD_LIMIT as int,
            ),
            forall|j: int| 0 <= j < i ==> r.spec_contains_box(
                qshape.spec_aabb(#[trigger] positions@[j]),
            ),
    {
        let bb = qshape.compute_aabb(&positions[i]);
        let ghost prev = r;
        proof {
            crate::math::lemma_union_contains(prev, bb);
        }
        r = r.union(&bb);
        proof {
            assert forall|j: int| 0 <= j < i + 1 implies r.spec_contains_box(
                qshape.spec_aabb(#[trigger] positions@[j]),
            ) by {
                if j < i {
                    crate::math::lemma_contains_box_trans(
                        r,
                        prev,
                        qshape.spec_aabb(positions@[j]),
                    );
                }
            }
        }
    }
    r
}

impl<D: QueryDispatcher> QueryPipeline<D> {
    /// Casts a shape with an arbitrary continuous motion, sampled at each
    /// integer time of `[start_time, end_time]`, and retrieves the first
    /// collider it hits. With `stop_at_penetration` an initial overlap
    /// reports `start_time`; without it, the search looks past the
    /// initial-penetration state for a later impact after a separation. The
    /// returned time is minimal over every eligible, supported collider.
    pub fn nonlinear_cast_shape<C: ColliderAccess, F: ColliderFilter>(
        &self,
        colliders: &C,
        shape_motion: &SampledMotion,
        shape: &Shape,
        start_time: i64,
        end_time: i64,
        stop_at_penetration: bool,
        query_groups: InteractionGroups,
        filter: Option<&F>,
    ) -> (r: Option<(ColliderHandle, i64)>)
        requires
            self.wf(),
            colliders.inv(),
            self.covers(colliders.view_map()),
            shape.wf(),
            0 <= start_time <= end_time <= TOI_LIMIT,
            shape_motion.positions@.len() == end_time - start_time + 1,
            forall|j: int| 0 <= j < shape_motion.positions@.len()
                ==> (#[trigger] shape_motion.positions@[j]).spec_in_range(COORD_LIMIT as int),
        ensures
            match r {
                Some((h, t)) => {
                    &&& eligible(colliders.view_map(), query_groups, filter, h)
                    &&& self.spec_dispatcher().supports(*shape, colliders.view_map()[h].shape)
                    &&& spec_motion_index(
                        *shape,
                        shape_motion.positions@,
                        colliders.view_map()[h],
                        stop_at_penetration,
                    ) == Some(t - start_time as int)
                    &&& forall|h2: ColliderHandle|
                        #[trigger] eligible(colliders.view_map(), query_groups, filter, h2)
                            && self.spec_dispatcher().supports(*shape, colliders.view_map()[h2].shape)
                            && spec_motion_index(
                            *shape,
                            shape_motion.positions@,
                            colliders.view_map()[h2],
                            stop_at_penetration,
                        ) is Some ==> t - start_time as int <= spec_motion_index(
                            *shape,
                            shape_motion.positions@,
                            colliders.view_map()[h2],
                            stop_at_penetration,
                        )->Some_0
                },
                None => forall|h2: ColliderHandle|
                    #[trigger] eligible(colliders.view_map(), query_groups, filter, h2)
                        && self.spec_dispatcher().supports(*shape, colliders.view_map()[h2].shape)
                        ==> spec_motion_index(
                        *shape,
                        shape_motion.positions@,
                        colliders.view_map()[h2],
                        stop_at_penetration,
                    ) is None,
            },
    {
        let ghost cmap = colliders.view_map();
        let region = motion_region(shape, &shape_motion.positions);
        let cands = self.qbvh.collect_region(&region);
        let mut best: Option<(ColliderHandle, usize)> = None;
        let n = cands.len();
        for i in 0..n
            invariant
                colliders.inv(),
                cmap == colliders.view_map(),
                n == cands@.len(),
                cands@ == spec_region_matches(self.leaves(), region),
                shape.wf(),
                0 <= start_time <= end_time <= TOI_LIMIT,
                shape_motion.positions@.len() == end_time - start_time + 1,
                forall|j: int| 0 <= j < shape_motion.positions@.len()
                    ==> (#[trigger] shape_motion.positions@[j]).spec_in_range(COORD_LIMIT as int),
                match best {
                    None => true,
                    Some((h, kidx)) => {
                        &&& eligible(cmap, query_groups, filter, h)
                        &&& self.spec_dispatcher().supports(*shape, cmap[h].shape)
                        &&& spec_motion_index(
                            *shape,
                            shape_motion.positions@,
                            cmap[h],
                            stop_at_penetration,
                        ) == Some(kidx as int)
                        &&& kidx < shape_motion.positions@.len()
                    },
                },
                forall|k: int|
                    0 <= k < i && eligible(cmap, query_groups, filter, #[trigger] cands@[k])
                        && self.spec_dispatcher().supports(*shape, cmap[cands@[k]].shape)
                        && spec_motion_index(
                        *shape,
                        shape_motion.positions@,
                        cmap[cands@[k]],
                        stop_at_penetration,
                    ) is Some ==> best is Some && best->Some_0.1 as int <= spec_motion_index(
                        *shape,
                        shape_motion.positions@,
                        cmap[cands@[k]],
                        stop_at_penetration,
                    )->Some_0,
        {
            let h = cands[i];
            match eligible_part(colliders, query_groups, filter, h) {
                None => {},
                Some(c) => {
                    match motion_first_contact(
                        &self.query_dispatcher,
                        shape,
                        &shape_motion.positions,
                        &c,
                        stop_at_penetration,
                    ) {
                        Err(_) => {},
                        Ok(None) => {},
                        Ok(Some(kidx)) => {
                            proof {
                                lemma_motion_index_bounds(
                                    *shape,
                                    shape_motion.positions@,
                                    cmap[h],
                                    stop_at_penetration,
                                );
                            }
                            let better = match &best {
                                None => true,
                                Some(b) => kidx < b.1,
                            };
                            if better {
                                best = Some((h, kidx));
                            }
                        },
                    }
                },
            }
        }
        proof {
            colliders.values_wf();
            assert forall|h2: ColliderHandle|
                #[trigger] eligible(cmap, query_groups, filter, h2)
                    && self.spec_dispatcher().supports(*shape, cmap[h2].shape)
                    && spec_motion_index(
                    *shape,
                    shape_motion.positions@,
                    cmap[h2],
                    stop_at_penetration,
                ) is Some implies best is Some && best->Some_0.1 as int <= spec_motion_index(
                *shape,
                shape_motion.positions@,
                cmap[h2],
                stop_at_penetration,
            )->Some_0 by {
                let kidx = spec_motion_index(
                    *shape,
                    shape_motion.positions@,
                    cmap[h2],
                    stop_at_penetration,
                )->Some_0;
                lemma_motion_index_bounds(
                    *shape,
                    shape_motion.positions@,
                    cmap[h2],
                    stop_at_penetration,
                );
                lemma_motion_index_contact(
                    *shape,
                    shape_motion.positions@,
                    cmap[h2],
                    stop_at_penetration,
                );
                crate::model::lemma_collider_aabb_wf(cmap[h2]);
                let i = choose|i: int|
                    0 <= i < self.leaves().len() && (#[trigger] self.leaves()[i]).handle == h2;
                crate::math::lemma_intersects_monotone(
                    self.leaves()[i].aabb,
                    cmap[h2].spec_aabb(),
                    region,
                );
                crate::index::lemma_region_membership(self.leaves(), region);
                assert(cands@.contains(h2));
                let k = choose|k: int| 0 <= k < cands@.len() && cands@[k] == h2;
                assert(eligible(cmap, query_groups, filter, cands@[k]));
            }
        }
        match best {
            None => None,
            Some((h, kidx)) => Some((h, start_time + (kidx as i64))),
        }
    }
}

/// A reported motion index lies within the sample range.
pub proof fn lemma_motion_index_bounds(
    qshape: Shape,
    positions: Seq<Vec3>,
    c: Collider,
    stop_at_penetration: bool,
)
    ensures
        spec_motion_index(qshape, positions, c, stop_at_penetration) matches Some(k) ==> 0 <= k
            < positions.len(),
{
    lemma_first_contact_bounds(qshape, positions, c, 0);
    if !stop_at_penetration {
        lemma_first_separation_bounds(qshape, positions, c, 0);
        match first_separation_from(qshape, positions, c, 0) {
            None => {},
            Some(s) => {
                lemma_first_contact_bounds(qshape, positions, c, s);
            },
        }
    }
}

pub proof fn lemma_first_contact_bounds(qshape: Shape, positions: Seq<Vec3>, c: Collider, k: int)
    ensures
        first_contact_from(qshape, positions, c, k) matches Some(j) ==> k <= j < positions.len()
            && spec_shapes_intersect(qshape, positions[j], c.shape, c.position),
    decreases positions.len() - k,
{
    if 0 <= k < positions.len() {
        lemma_first_contact_bounds(qshape, positions, c, k + 1);
    }
}

pub proof fn lemma_first_separation_bounds(
    qshape: Shape,
    positions: Seq<Vec3>,
    c: Collider,
    k: int,
)
    ensures
        first_separation_from(qshape, positions, c, k) matches Some(j) ==> k <= j
            < positions.len(),
    decreases positions.len() - k,
{
    if 0 <= k < positions.len() {
        lemma_first_separation_bounds(qshape, positions, c, k + 1);
    }
}

/// At the reported motion index the shapes actually touch.
pub proof fn lemma_motion_index_contact(
    qshape: Shape,
    positions: Seq<Vec3>,
    c: Collider,
    stop_at_penetration: bool,
)
    ensures
        spec_motion_index(qshape, positions, c, stop_at_penetration) matches Some(k)
            ==> spec_shapes_intersect(qshape, positions[k], c.shape, c.position),
{
    lemma_first_contact_bounds(qshape, positions, c, 0);
    if !stop_at_penetration {
        match first_separation_from(qshape, positions, c, 0) {
            None => {},
            Some(s) => {
                lemma_first_contact_bounds(qshape, positions, c, s);
            },
        }
    }
}


/// Rebuild correctness: after a rebuild, a region query with a box that
/// contains every collider's exact (undilated) box reports every collider —
/// dilation only adds false positives, never false negatives.
pub proof fn lemma_rebuild_region_covers(
    leaves: Seq<LeafData>,
    cmap: Map<ColliderHandle, Collider>,
    region: Aabb,
)
    requires
        leaves_cover(leaves, cmap),
        forall|h: ColliderHandle| #[trigger] cmap.contains_key(h) ==> cmap[h].wf(),
        forall|h: ColliderHandle| #[trigger] cmap.contains_key(h) ==> region.spec_contains_box(
            cmap[h].spec_aabb(),
        ),
    ensures
        forall|h: ColliderHandle| #[trigger] cmap.contains_key(h) ==> spec_region_matches(
            leaves,
            region,
        ).contains(h),
{
    crate::index::lemma_region_membership(leaves, region);
    assert forall|h: ColliderHandle| #[trigger] cmap.contains_key(h) implies spec_region_matches(
        leaves,
        region,
    ).contains(h) by {
        let i = choose|i: int| 0 <= i < leaves.len() && (#[trigger] leaves[i]).handle == h;
        crate::model::lemma_collider_aabb_wf(cmap[h]);
        crate::math::lemma_common_box_intersects(leaves[i].aabb, region, cmap[h].spec_aabb());
    }
}

/// Solid/hollow consistency: a point strictly inside a shape's box projects
/// to itself at distance zero when solid, and onto the boundary at a nonzero
/// distance when hollow.
pub proof fn lemma_projection_solid_hollow(b: Aabb, p: Vec3)
    requires
        b.wf(),
        b.mins.x < p.x < b.maxs.x,
        b.mins.y < p.y < b.maxs.y,
        b.mins.z < p.z < b.maxs.z,
    ensures
        crate::shape::spec_project(b, p, true) == (crate::shape::PointProjection {
            point: p,
            is_inside: true,
        }),
        crate::shape::spec_proj_cost(b, p, true) == 0,
        crate::shape::spec_proj_cost(b, p, false) > 0,
        crate::shape::spec_project(b, p, false).is_inside,
        crate::shape::spec_project(b, p, false).point != p,
{
    let hp = crate::shape::spec_hollow_point(b, p);
    let m = crate::shape::spec_interior_margin(b, p);
    assert(m > 0);
    assert(hp != p);
}

/// The box a collider is indexed under always contains its exact current
/// box, whatever the update mode.
pub proof fn lemma_mode_aabb_covers(
    mode: QueryPipelineMode,
    c: Collider,
    bmap: Map<RigidBodyHandle, RigidBody>,
)
    ensures
        spec_mode_aabb(mode, c, bmap).spec_contains_box(c.spec_aabb()),
{
    match c.parent {
        None => {},
        Some(par) => match mode {
            QueryPipelineMode::CurrentPosition => {},
            QueryPipelineMode::SweepTestWithNextPosition => {
                crate::math::lemma_union_contains(
                    c.spec_aabb(),
                    c.shape.spec_aabb(
                        bmap[par.handle].next_position.spec_add(par.pos_wrt_parent),
                    ),
                );
            },
            QueryPipelineMode::SweepTestWithPredictedPosition { dt } => {
                crate::math::lemma_union_contains(
                    c.spec_aabb(),
                    c.shape.spec_aabb(
                        bmap[par.handle].spec_predicted_position(dt as int).spec_add(
                            par.pos_wrt_parent,
                        ),
                    ),
                );
            },
        },
    }
}

/// Refresh conservatism: after marking a moved collider and refreshing under
/// any update mode, the stored (dilated) box of every refreshed live leaf
/// contains that collider's exact current box — no rebuild is required.
pub proof fn lemma_refresh_conservative(
    oldleaves: Seq<LeafData>,
    newleaves: Seq<LeafData>,
    mode: QueryPipelineMode,
    active: Seq<RigidBodyHandle>,
    cmap: Map<ColliderHandle, Collider>,
    bmap: Map<RigidBodyHandle, RigidBody>,
    attached: Map<RigidBodyHandle, Seq<ColliderHandle>>,
    dilation: int,
)
    requires
        refresh_post(oldleaves, newleaves, mode, active, cmap, bmap, attached, dilation),
        0 <= dilation <= DILATION_LIMIT,
        forall|h: ColliderHandle| #[trigger] cmap.contains_key(h) ==> cmap[h].wf(),
        forall|b: RigidBodyHandle| #[trigger] bmap.contains_key(b) ==> bmap[b].wf(),
        parents_live(cmap, bmap),
        mode.wf(),
    ensures
        forall|i: int|
            0 <= i < newleaves.len() && is_active_collider(
                (#[trigger] newleaves[i]).handle,
                active,
                attached,
            ) && cmap.contains_key(newleaves[i].handle) ==> newleaves[i].aabb.spec_contains_box(
                cmap[newleaves[i].handle].spec_aabb(),
            ),
{
    assert forall|i: int|
        0 <= i < newleaves.len() && is_active_collider(
            (#[trigger] newleaves[i]).handle,
            active,
            attached,
        ) && cmap.contains_key(newleaves[i].handle) implies newleaves[i].aabb.spec_contains_box(
        cmap[newleaves[i].handle].spec_aabb(),
    ) by {
        assert(newleaves[i] == spec_refresh_result(
            oldleaves[i],
            mode,
            active,
            cmap,
            bmap,
            attached,
            dilation,
        ));
        let h = oldleaves[i].handle;
        let c = cmap[h];
        let mb = spec_mode_aabb(mode, c, bmap);
        lemma_mode_aabb_covers(mode, c, bmap);
        lemma_mode_aabb_in_range(mode, c, bmap);
        crate::math::lemma_dilate_contains(mb, dilation);
        crate::math::lemma_contains_box_trans(mb.spec_dilate(dilation), mb, c.spec_aabb());
    }
}

/// The box a collider is indexed under stays within the index's coordinate
/// bound for well-formed stores.
pub proof fn lemma_mode_aabb_in_range(
    mode: QueryPipelineMode,
    c: Collider,
    bmap: Map<RigidBodyHandle, RigidBody>,
)
    requires
        c.wf(),
        mode.wf(),
        c.parent matches Some(p) ==> bmap.contains_key(p.handle) && bmap[p.handle].wf(),
    ensures
        spec_mode_aabb(mode, c, bmap).spec_in_range(crate::math::AABB_LIMIT as int),
{
    match c.parent {
        None => {},
        Some(par) => match mode {
            QueryPipelineMode::CurrentPosition => {},
            QueryPipelineMode::SweepTestWithNextPosition => {},
            QueryPipelineMode::SweepTestWithPredictedPosition { dt } => {
                let body = bmap[par.handle];
                assert(-(crate::math::VEL_LIMIT * DT_LIMIT) <= body.linvel.x * dt <= crate::math::VEL_LIMIT * DT_LIMIT) by (nonlinear_arith)
                    requires -crate::math::VEL_LIMIT <= body.linvel.x <= crate::math::VEL_LIMIT && 0 <= dt <= DT_LIMIT;
                assert(-(crate::math::VEL_LIMIT * DT_LIMIT) <= body.linvel.y * dt <= crate::math::VEL_LIMIT * DT_LIMIT) by (nonlinear_arith)
                    requires -crate::math::VEL_LIMIT <= body.linvel.y <= crate::math::VEL_LIMIT && 0 <= dt <= DT_LIMIT;
                assert(-(crate::math::VEL_LIMIT * DT_LIMIT) <= body.linvel.z * dt <= crate::math::VEL_LIMIT * DT_LIMIT) by (nonlinear_arith)
                    requires -crate::math::VEL_LIMIT <= body.linvel.z <= crate::math::VEL_LIMIT && 0 <= dt <= DT_LIMIT;
                assert(-(crate::math::VEL_LIMIT * DT_LIMIT * DT_LIMIT) <= body.accel.x * dt * dt <= crate::math::VEL_LIMIT * DT_LIMIT * DT_LIMIT) by (nonlinear_arith)
                    requires -crate::math::VEL_LIMIT <= body.accel.x <= crate::math::VEL_LIMIT && 0 <= dt <= DT_LIMIT;
                assert(-(crate::math::VEL_LIMIT * DT_LIMIT * DT_LIMIT) <= body.accel.y * dt * dt <= crate::math::VEL_LIMIT * DT_LIMIT * DT_LIMIT) by (nonlinear_arith)
                    requires -crate::math::VEL_LIMIT <= body.accel.y <= crate::math::VEL_LIMIT && 0 <= dt <= DT_LIMIT;
                assert(-(crate::math::VEL_LIMIT * DT_LIMIT * DT_LIMIT) <= body.accel.z * dt * dt <= crate::math::VEL_LIMIT * DT_LIMIT * DT_LIMIT) by (nonlinear_arith)
                    requires -crate::math::VEL_LIMIT <= body.accel.z <= crate::math::VEL_LIMIT && 0 <= dt <= DT_LIMIT;
            },
        },
    }
}

/// If every collider that was not refreshed had not moved (its old stored box
/// still bounded it), a refresh leaves the whole index in sync with the
/// store.
pub proof fn lemma_refresh_preserves_cover(
    oldleaves: Seq<LeafData>,
    newleaves: Seq<LeafData>,
    mode: QueryPipelineMode,
    active: Seq<RigidBodyHandle>,
    cmap: Map<ColliderHandle, Collider>,
    bmap: Map<RigidBodyHandle, RigidBody>,
    attached: Map<RigidBodyHandle, Seq<ColliderHandle>>,
    dilation: int,
)
    requires
        refresh_post(oldleaves, newleaves, mode, active, cmap, bmap, attached, dilation),
        0 <= dilation <= DILATION_LIMIT,
        forall|h: ColliderHandle| #[trigger] cmap.contains_key(h) ==> cmap[h].wf(),
        forall|b: RigidBodyHandle| #[trigger] bmap.contains_key(b) ==> bmap[b].wf(),
        parents_live(cmap, bmap),
        mode.wf(),
        forall|h: ColliderHandle| #[trigger] cmap.contains_key(h) ==> exists|i: int|
            0 <= i < oldleaves.len() && (#[trigger] oldleaves[i]).handle == h,
        forall|i: int|
            0 <= i < oldleaves.len() && !is_active_collider(
                (#[trigger] oldleaves[i]).handle,
                active,
                attached,
            ) && cmap.contains_key(oldleaves[i].handle) ==> oldleaves[i].aabb.spec_contains_box(
                cmap[oldleaves[i].handle].spec_aabb(),
            ),
    ensures
        leaves_cover(newleaves, cmap),
{
    lemma_refresh_conservative(
        oldleaves,
        newleaves,
        mode,
        active,
        cmap,
        bmap,
        attached,
        dilation,
    );
    assert forall|i: int|
        0 <= i < newleaves.len() && cmap.contains_key((#[trigger] newleaves[i]).handle) implies
        newleaves[i].aabb.spec_contains_box(cmap[newleaves[i].handle].spec_aabb()) by {
        assert(newleaves[i] == spec_refresh_result(
            oldleaves[i],
            mode,
            active,
            cmap,
            bmap,
            attached,
            dilation,
        ));
        if !is_active_collider(oldleaves[i].handle, active, attached) {
            assert(newleaves[i] == oldleaves[i]);
        }
    }
    assert forall|h: ColliderHandle| #[trigger] cmap.contains_key(h) implies exists|i: int|
        0 <= i < newleaves.len() && (#[trigger] newleaves[i]).handle == h by {
        let i = choose|i: int| 0 <= i < oldleaves.len() && (#[trigger] oldleaves[i]).handle == h;
        assert(newleaves[i] == spec_refresh_result(
            oldleaves[i],
            mode,
            active,
            cmap,
            bmap,
            attached,
            dilation,
        ));
        assert((#[trigger] newleaves[i]).handle == h);
    }
}

} // verus!
