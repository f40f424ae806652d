use scene_query::math::{Aabb, Axis, Vec3};
use scene_query::model::{
    Collider, ColliderHandle, ColliderParent, ColliderSet, InteractionGroups, RigidBody,
    RigidBodyHandle, RigidBodySet,
};
use scene_query::pipeline::{QueryPipeline, QueryPipelineMode, SampledMotion};
use scene_query::shape::{AxisDir, FeatureId, Ray, Shape, ToiStatus};
use scene_query::visitors::{ColliderFilter, HandleVisitor, NoFilter, RayHitVisitor};

fn v(x: i64, y: i64, z: i64) -> Vec3 {
    Vec3 { x, y, z }
}

fn cube(half: i64, pos: Vec3) -> Collider {
    Collider {
        shape: Shape::Cuboid { half_extents: v(half, half, half) },
        position: pos,
        collision_groups: InteractionGroups::all(),
        parent: None,
    }
}

fn ray_x(origin: Vec3) -> Ray {
    Ray { origin, dir: AxisDir { axis: Axis::X, positive: true } }
}

struct Collector {
    seen: Vec<u64>,
}

impl HandleVisitor for Collector {
    fn visit(&mut self, h: ColliderHandle) -> bool {
        self.seen.push(h.0);
        true
    }
}

struct StopAfterFirst {
    calls: u32,
}

impl HandleVisitor for StopAfterFirst {
    fn visit(&mut self, _h: ColliderHandle) -> bool {
        self.calls += 1;
        false
    }
}

struct RayCollector {
    seen: Vec<(u64, i64)>,
}

impl RayHitVisitor for RayCollector {
    fn visit(&mut self, h: ColliderHandle, hit: scene_query::shape::RayIntersection) -> bool {
        self.seen.push((h.0, hit.toi));
        true
    }
}

fn build_scene(positions: &[Vec3], half: i64) -> (ColliderSet, RigidBodySet, QueryPipeline<scene_query::dispatcher::DefaultQueryDispatcher>) {
    let mut colliders = ColliderSet::new();
    for (i, p) in positions.iter().enumerate() {
        colliders.insert(ColliderHandle(i as u64), cube(half, *p));
    }
    let bodies = RigidBodySet::new();
    let mut qp = QueryPipeline::new();
    qp.update(&Vec::new(), &bodies, &colliders);
    (colliders, bodies, qp)
}

#[test]
fn ray_through_empty_scene_returns_none() {
    let colliders = ColliderSet::new();
    let bodies = RigidBodySet::new();
    let mut qp = QueryPipeline::new();
    qp.update(&Vec::new(), &bodies, &colliders);
    let hit = qp.cast_ray(
        &colliders,
        &ray_x(v(0, 0, 0)),
        1000,
        true,
        InteractionGroups::all(),
        None::<&NoFilter>,
    );
    assert!(hit.is_none());
}

#[test]
fn ray_hits_closest_collider() {
    // Cubes at x = 100, 50, 200 (half-extent 10); a ray along +x from the
    // origin must hit the one at x = 50 first, at time 40.
    let (colliders, _bodies, qp) = build_scene(&[v(100, 0, 0), v(50, 0, 0), v(200, 0, 0)], 10);
    let hit = qp.cast_ray(
        &colliders,
        &ray_x(v(0, 0, 0)),
        1000,
        true,
        InteractionGroups::all(),
        None::<&NoFilter>,
    );
    assert_eq!(hit, Some((ColliderHandle(1), 40)));
}

#[test]
fn ray_optimality_matches_brute_force() {
    let positions = [
        v(300, 0, 0),
        v(77, 3, -4),
        v(150, 0, 0),
        v(-50, 0, 0),
        v(90, 30, 0),
        v(64, -9, 9),
    ];
    let (colliders, _bodies, qp) = build_scene(&positions, 10);
    let ray = ray_x(v(0, 0, 0));
    let hit = qp.cast_ray(&colliders, &ray, 100000, true, InteractionGroups::all(), None::<&NoFilter>);
    // Brute force over the same scene: entry time of each cube the ray
    // actually crosses.
    let mut best: Option<(u64, i64)> = None;
    for (i, p) in positions.iter().enumerate() {
        let inside_y = p.y - 10 <= 0 && 0 <= p.y + 10;
        let inside_z = p.z - 10 <= 0 && 0 <= p.z + 10;
        if inside_y && inside_z && p.x + 10 >= 0 {
            let t = if p.x - 10 <= 0 { 0 } else { p.x - 10 };
            if best.is_none() || t < best.unwrap().1 {
                best = Some((i as u64, t));
            }
        }
    }
    let (bh, bt) = best.unwrap();
    let (h, t) = hit.unwrap();
    assert_eq!(t, bt);
    assert_eq!(h.0, bh);
}

#[test]
fn ray_hollow_reports_exit() {
    let (colliders, _bodies, qp) = build_scene(&[v(0, 0, 0)], 10);
    let solid = qp.cast_ray(
        &colliders,
        &ray_x(v(0, 0, 0)),
        1000,
        true,
        InteractionGroups::all(),
        None::<&NoFilter>,
    );
    assert_eq!(solid, Some((ColliderHandle(0), 0)));
    let hollow = qp.cast_ray(
        &colliders,
        &ray_x(v(0, 0, 0)),
        1000,
        false,
        InteractionGroups::all(),
        None::<&NoFilter>,
    );
    assert_eq!(hollow, Some((ColliderHandle(0), 10)));
}

#[test]
fn cast_ray_and_get_normal_reports_entry_face() {
    let (colliders, _bodies, qp) = build_scene(&[v(50, 0, 0)], 10);
    let (h, hit) = qp
        .cast_ray_and_get_normal(
            &colliders,
            &ray_x(v(0, 0, 0)),
            1000,
            true,
            InteractionGroups::all(),
            None::<&NoFilter>,
        )
        .unwrap();
    assert_eq!(h, ColliderHandle(0));
    assert_eq!(hit.toi, 40);
    assert_eq!(hit.normal, AxisDir { axis: Axis::X, positive: false });
    assert_eq!(hit.feature, FeatureId::Face(0));
}

struct OddOnly;

impl ColliderFilter for OddOnly {
    fn allows(&self, h: ColliderHandle) -> bool {
        h.0 % 2 == 1
    }

    fn test(&self, h: ColliderHandle) -> bool {
        h.0 % 2 == 1
    }
}

#[test]
fn filter_excludes_colliders() {
    // The nearest collider along the ray has an even handle; with the
    // odd-only predicate the farther odd one must win instead.
    let (colliders, _bodies, qp) = build_scene(&[v(50, 0, 0), v(100, 0, 0)], 10);
    let hit = qp.cast_ray(
        &colliders,
        &ray_x(v(0, 0, 0)),
        1000,
        true,
        InteractionGroups::all(),
        Some(&OddOnly),
    );
    assert_eq!(hit, Some((ColliderHandle(1), 90)));
}

#[test]
fn groups_exclude_colliders() {
    let mut colliders = ColliderSet::new();
    let mut near = cube(10, v(50, 0, 0));
    near.collision_groups = InteractionGroups { memberships: 0b01, filter: 0b01 };
    let mut far = cube(10, v(100, 0, 0));
    far.collision_groups = InteractionGroups { memberships: 0b10, filter: 0b10 };
    colliders.insert(ColliderHandle(0), near);
    colliders.insert(ColliderHandle(1), far);
    let bodies = RigidBodySet::new();
    let mut qp = QueryPipeline::new();
    qp.update(&Vec::new(), &bodies, &colliders);
    // Query groups that only the far collider's groups accept.
    let groups = InteractionGroups { memberships: 0b10, filter: 0b10 };
    let hit = qp.cast_ray(&colliders, &ray_x(v(0, 0, 0)), 1000, true, groups, None::<&NoFilter>);
    assert_eq!(hit, Some((ColliderHandle(1), 90)));
}

#[test]
fn region_query_after_rebuild_finds_every_collider() {
    let positions = [v(0, 0, 0), v(500, 20, -30), v(-200, 0, 77)];
    let (_colliders, _bodies, qp) = build_scene(&positions, 10);
    // The union of all exact collider boxes.
    let region = Aabb { mins: v(-210, -10, -40), maxs: v(510, 30, 87) };
    let mut c = Collector { seen: Vec::new() };
    let _ = qp.colliders_with_aabb_intersecting_aabb(&region, &mut c);
    c.seen.sort();
    assert_eq!(c.seen, vec![0, 1, 2]);
}

#[test]
fn early_exit_invokes_callback_exactly_once() {
    let positions = [v(0, 0, 0), v(5, 0, 0), v(-5, 0, 0)];
    let (_colliders, _bodies, qp) = build_scene(&positions, 10);
    let region = Aabb { mins: v(-20, -20, -20), maxs: v(20, 20, 20) };
    let mut stopper = StopAfterFirst { calls: 0 };
    let _ = qp.colliders_with_aabb_intersecting_aabb(&region, &mut stopper);
    assert_eq!(stopper.calls, 1);
}

#[test]
fn point_projection_solid_and_hollow() {
    let (colliders, _bodies, qp) = build_scene(&[v(0, 0, 0)], 10);
    let inside = v(2, 1, 0);
    let (h, pr) = qp
        .project_point(&colliders, &inside, true, InteractionGroups::all(), None::<&NoFilter>)
        .unwrap();
    assert_eq!(h, ColliderHandle(0));
    assert!(pr.is_inside);
    assert_eq!(pr.point, inside);
    let (_h, pr) = qp
        .project_point(&colliders, &inside, false, InteractionGroups::all(), None::<&NoFilter>)
        .unwrap();
    assert!(pr.is_inside);
    // Nearest face is x = 10 (margin 8); the point moves onto it.
    assert_eq!(pr.point, v(10, 1, 0));
}

#[test]
fn point_projection_outside_clamps() {
    let (colliders, _bodies, qp) = build_scene(&[v(0, 0, 0)], 10);
    let outside = v(25, 3, -2);
    let (_h, pr) = qp
        .project_point(&colliders, &outside, true, InteractionGroups::all(), None::<&NoFilter>)
        .unwrap();
    assert!(!pr.is_inside);
    assert_eq!(pr.point, v(10, 3, -2));
}

#[test]
fn projection_feature_identifies_face_edge_vertex() {
    let (colliders, _bodies, qp) = build_scene(&[v(0, 0, 0)], 10);
    let (_h, _pr, face) = qp
        .project_point_and_get_feature(
            &colliders,
            &v(25, 0, 0),
            InteractionGroups::all(),
            None::<&NoFilter>,
        )
        .unwrap();
    assert_eq!(face, FeatureId::Face(1));
    let (_h, _pr, vert) = qp
        .project_point_and_get_feature(
            &colliders,
            &v(25, 25, 25),
            InteractionGroups::all(),
            None::<&NoFilter>,
        )
        .unwrap();
    assert_eq!(vert, FeatureId::Vertex(0b111));
    let (_h, _pr, edge) = qp
        .project_point_and_get_feature(
            &colliders,
            &v(25, 25, 0),
            InteractionGroups::all(),
            None::<&NoFilter>,
        )
        .unwrap();
    assert!(matches!(edge, FeatureId::Edge(_)));
}

#[test]
fn point_containment_is_exact_not_bound() {
    // Two cubes; the queried point lies inside the first only. The second's
    // dilated stored box may bound the point, but must not be reported.
    let (colliders, _bodies, qp) = build_scene(&[v(0, 0, 0), v(22, 0, 0)], 10);
    let mut c = Collector { seen: Vec::new() };
    let _ = qp.intersections_with_point(
        &colliders,
        &v(5, 0, 0),
        InteractionGroups::all(),
        None::<&NoFilter>,
        &mut c,
    );
    assert_eq!(c.seen, vec![0]);
}

#[test]
fn intersections_with_ray_reports_all_hits() {
    let (colliders, _bodies, qp) = build_scene(&[v(50, 0, 0), v(100, 0, 0), v(0, 500, 0)], 10);
    let mut c = RayCollector { seen: Vec::new() };
    let _ = qp.intersections_with_ray(
        &colliders,
        &ray_x(v(0, 0, 0)),
        1000,
        true,
        InteractionGroups::all(),
        None::<&NoFilter>,
        &mut c,
    );
    c.seen.sort();
    assert_eq!(c.seen, vec![(0, 40), (1, 90)]);
}

#[test]
fn intersection_with_shape_finds_a_match() {
    let (colliders, _bodies, qp) = build_scene(&[v(0, 0, 0), v(100, 0, 0)], 10);
    let probe = Shape::Ball { radius: 5 };
    let hit = qp.intersection_with_shape(
        &colliders,
        &v(12, 0, 0),
        &probe,
        InteractionGroups::all(),
        None::<&NoFilter>,
    );
    assert_eq!(hit, Some(ColliderHandle(0)));
    let miss = qp.intersection_with_shape(
        &colliders,
        &v(50, 0, 0),
        &probe,
        InteractionGroups::all(),
        None::<&NoFilter>,
    );
    assert!(miss.is_none());
}

#[test]
fn intersections_with_shape_reports_all() {
    let (colliders, _bodies, qp) = build_scene(&[v(0, 0, 0), v(30, 0, 0), v(500, 0, 0)], 10);
    let probe = Shape::Cuboid { half_extents: v(12, 2, 2) };
    let mut c = Collector { seen: Vec::new() };
    let _ = qp.intersections_with_shape(
        &colliders,
        &v(15, 0, 0),
        &probe,
        InteractionGroups::all(),
        None::<&NoFilter>,
        &mut c,
    );
    c.seen.sort();
    assert_eq!(c.seen, vec![0, 1]);
}

#[test]
fn cast_shape_reports_exact_time_and_witness() {
    let (colliders, _bodies, qp) = build_scene(&[v(100, 0, 0)], 10);
    let probe = Shape::Cuboid { half_extents: v(5, 5, 5) };
    let (h, hit) = qp
        .cast_shape(
            &colliders,
            &v(0, 0, 0),
            AxisDir { axis: Axis::X, positive: true },
            &probe,
            1000,
            InteractionGroups::all(),
            None::<&NoFilter>,
        )
        .unwrap();
    assert_eq!(h, ColliderHandle(0));
    // Gap between the probe's face at x = 5 and the cube's face at x = 90.
    assert_eq!(hit.toi, 85);
    assert_eq!(hit.status, ToiStatus::Converged);
    assert_eq!(hit.witness, v(90, -5, -5));
}

#[test]
fn cast_shape_initial_overlap_is_time_zero() {
    let (colliders, _bodies, qp) = build_scene(&[v(0, 0, 0)], 10);
    let probe = Shape::Cuboid { half_extents: v(5, 5, 5) };
    let (_h, hit) = qp
        .cast_shape(
            &colliders,
            &v(0, 0, 0),
            AxisDir { axis: Axis::X, positive: true },
            &probe,
            1000,
            InteractionGroups::all(),
            None::<&NoFilter>,
        )
        .unwrap();
    assert_eq!(hit.toi, 0);
    assert_eq!(hit.status, ToiStatus::Penetrating);
}

#[test]
fn nonlinear_cast_respects_stop_at_penetration() {
    // The probe starts overlapping the cube, leaves, and comes back.
    let (colliders, _bodies, qp) = build_scene(&[v(0, 0, 0)], 10);
    let probe = Shape::Cuboid { half_extents: v(2, 2, 2) };
    let motion = SampledMotion {
        positions: vec![v(5, 0, 0), v(20, 0, 0), v(40, 0, 0), v(8, 0, 0), v(0, 0, 0)],
    };
    let stopped = qp.nonlinear_cast_shape(
        &colliders,
        &motion,
        &probe,
        0,
        4,
        true,
        InteractionGroups::all(),
        None::<&NoFilter>,
    );
    assert_eq!(stopped, Some((ColliderHandle(0), 0)));
    let tunneled = qp.nonlinear_cast_shape(
        &colliders,
        &motion,
        &probe,
        0,
        4,
        false,
        InteractionGroups::all(),
        None::<&NoFilter>,
    );
    assert_eq!(tunneled, Some((ColliderHandle(0), 3)));
}

#[test]
fn refresh_keeps_index_conservative() {
    // Build, then move a collider by a small delta and refresh it through its
    // active parent body: queries must still see it at its new place.
    let mut colliders = ColliderSet::new();
    let mut moving = cube(10, v(50, 0, 0));
    moving.parent = Some(ColliderParent { handle: RigidBodyHandle(0), pos_wrt_parent: v(0, 0, 0) });
    colliders.insert(ColliderHandle(0), moving);
    let mut bodies = RigidBodySet::new();
    bodies.insert(
        RigidBodyHandle(0),
        RigidBody { position: v(50, 0, 0), next_position: v(50, 0, 0), linvel: v(0, 0, 0), accel: v(0, 0, 0) },
        vec![ColliderHandle(0)],
    );
    let mut qp = QueryPipeline::new();
    qp.update(&Vec::new(), &bodies, &colliders);
    // Move the collider slightly and refresh it as active.
    let mut colliders2 = ColliderSet::new();
    let mut moved = cube(10, v(53, 2, -1));
    moved.parent = Some(ColliderParent { handle: RigidBodyHandle(0), pos_wrt_parent: v(0, 0, 0) });
    colliders2.insert(ColliderHandle(0), moved);
    qp.update(&vec![RigidBodyHandle(0)], &bodies, &colliders2);
    let hit = qp.cast_ray(
        &colliders2,
        &ray_x(v(0, 2, -1)),
        1000,
        true,
        InteractionGroups::all(),
        None::<&NoFilter>,
    );
    assert_eq!(hit, Some((ColliderHandle(0), 43)));
}

#[test]
fn parented_colliders_follow_next_position() {
    // One body with two colliders at distinct relative poses and a nonzero
    // predicted-next pose; a third, unparented collider stays put. Under the
    // next-position mode the parented entries must be swept by the same body
    // delta.
    let mut colliders = ColliderSet::new();
    let parent = Some(ColliderParent { handle: RigidBodyHandle(7), pos_wrt_parent: v(0, 0, 0) });
    let parent_off = Some(ColliderParent { handle: RigidBodyHandle(7), pos_wrt_parent: v(0, 30, 0) });
    let mut a = cube(10, v(0, 0, 0));
    a.parent = parent;
    let mut b = cube(10, v(0, 30, 0));
    b.parent = parent_off;
    let c = cube(10, v(1000, 0, 0));
    colliders.insert(ColliderHandle(0), a);
    colliders.insert(ColliderHandle(1), b);
    colliders.insert(ColliderHandle(2), c);
    let mut bodies = RigidBodySet::new();
    bodies.insert(
        RigidBodyHandle(7),
        RigidBody {
            position: v(0, 0, 0),
            next_position: v(200, 0, 0),
            linvel: v(0, 0, 0),
            accel: v(0, 0, 0),
        },
        vec![ColliderHandle(0), ColliderHandle(1)],
    );
    let mut qp = QueryPipeline::new();
    qp.update_with_mode(
        &Vec::new(),
        &bodies,
        &colliders,
        QueryPipelineMode::SweepTestWithNextPosition,
    );
    // Both parented entries are now swept out to x = 200 + offsets: a region
    // probe near the predicted pose must see exactly the two of them.
    let region = Aabb { mins: v(180, -5, -5), maxs: v(205, 35, 5) };
    let mut seen = Collector { seen: Vec::new() };
    let _ = qp.colliders_with_aabb_intersecting_aabb(&region, &mut seen);
    seen.seen.sort();
    assert_eq!(seen.seen, vec![0, 1]);
    // The unparented collider's entry is unchanged: a probe between its place
    // and the swept band sees nothing.
    let gap = Aabb { mins: v(400, -5, -5), maxs: v(500, 5, 5) };
    let mut none = Collector { seen: Vec::new() };
    let _ = qp.colliders_with_aabb_intersecting_aabb(&gap, &mut none);
    assert!(none.seen.is_empty());
}

#[test]
fn topology_change_forces_rebuild() {
    let mut colliders = ColliderSet::new();
    colliders.insert(ColliderHandle(0), cube(10, v(0, 0, 0)));
    let bodies = RigidBodySet::new();
    let mut qp = QueryPipeline::new();
    qp.update(&Vec::new(), &bodies, &colliders);
    // Insert a second collider: the store owner signals the change and the
    // next update rebuilds, indexing both.
    colliders.insert(ColliderHandle(1), cube(10, v(100, 0, 0)));
    qp.mark_topology_changed();
    qp.update(&Vec::new(), &bodies, &colliders);
    let hit = qp.cast_ray(
        &colliders,
        &ray_x(v(50, 0, 0)),
        1000,
        true,
        InteractionGroups::all(),
        None::<&NoFilter>,
    );
    assert_eq!(hit, Some((ColliderHandle(1), 40)));
}

#[test]
fn dispatcher_is_replaceable() {
    let qp = QueryPipeline::new();
    let _d: &scene_query::dispatcher::DefaultQueryDispatcher = qp.query_dispatcher();
    let qp2 = QueryPipeline::with_query_dispatcher(scene_query::dispatcher::DefaultQueryDispatcher);
    assert!(qp2
        .cast_ray(
            &ColliderSet::new(),
            &ray_x(v(0, 0, 0)),
            10,
            true,
            InteractionGroups::all(),
            None::<&NoFilter>,
        )
        .is_none());
}

struct RefusingDispatcher;

impl scene_query::dispatcher::QueryDispatcher for RefusingDispatcher {
    fn supports(&self, _a: Shape, _b: Shape) -> bool {
        false
    }

    fn intersection_test(
        &self,
        _a: &Shape,
        _pos_a: &Vec3,
        _b: &Shape,
        _pos_b: &Vec3,
    ) -> Result<bool, scene_query::dispatcher::QueryError> {
        Err(scene_query::dispatcher::QueryError::Unsupported)
    }

    fn cast_shapes(
        &self,
        _a: &Shape,
        _pos_a: &Vec3,
        _dir: AxisDir,
        _max_toi: i64,
        _b: &Shape,
        _pos_b: &Vec3,
    ) -> Result<Option<scene_query::shape::Toi>, scene_query::dispatcher::QueryError> {
        Err(scene_query::dispatcher::QueryError::Unsupported)
    }
}

#[test]
fn dispatcher_error_is_treated_as_non_matching() {
    // A dispatcher that refuses every pair: overlapping colliders yield no
    // match instead of an error or a panic.
    let mut colliders = ColliderSet::new();
    colliders.insert(ColliderHandle(0), cube(10, v(0, 0, 0)));
    let bodies = RigidBodySet::new();
    let mut qp = QueryPipeline::with_query_dispatcher(RefusingDispatcher);
    qp.update(&Vec::new(), &bodies, &colliders);
    let probe = Shape::Cuboid { half_extents: v(5, 5, 5) };
    let hit = qp.intersection_with_shape(
        &colliders,
        &v(0, 0, 0),
        &probe,
        InteractionGroups::all(),
        None::<&NoFilter>,
    );
    assert!(hit.is_none());
    let cast = qp.cast_shape(
        &colliders,
        &v(100, 0, 0),
        AxisDir { axis: Axis::X, positive: false },
        &probe,
        1000,
        InteractionGroups::all(),
        None::<&NoFilter>,
    );
    assert!(cast.is_none());
}

#[test]
fn composite_shape_view_filters_parts() {
    let (colliders, _bodies, qp) = build_scene(&[v(0, 0, 0), v(100, 0, 0)], 10);
    let view = qp.as_composite_shape(&colliders, InteractionGroups::all(), Some(&OddOnly));
    assert!(view.map_typed_part_at(ColliderHandle(0)).is_none());
    let (pos, shape) = view.map_typed_part_at(ColliderHandle(1)).unwrap();
    assert_eq!(pos, v(100, 0, 0));
    assert!(matches!(shape, Shape::Cuboid { .. }));
    assert!(view.map_untyped_part_at(ColliderHandle(2)).is_none());
    let _qp_again = view.typed_qbvh();
}

#[test]
fn update_generic_indexes_the_store() {
    let mut colliders = ColliderSet::new();
    colliders.insert(ColliderHandle(0), cube(10, v(0, 0, 0)));
    let bodies = RigidBodySet::new();
    let mut qp = QueryPipeline::new();
    qp.update_generic(&Vec::new(), &bodies, &colliders);
    let hit = qp.cast_ray(
        &colliders,
        &ray_x(v(-100, 0, 0)),
        1000,
        true,
        InteractionGroups::all(),
        None::<&NoFilter>,
    );
    assert_eq!(hit, Some((ColliderHandle(0), 90)));
}
