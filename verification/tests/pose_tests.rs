use cartesian_tree::CartesianTreeError;
use cartesian_tree::Frame;
use cartesian_tree::FrameArena;
use cartesian_tree::RigidOps;
use nalgebra::Isometry3;
use nalgebra::Translation3;
use nalgebra::UnitQuaternion;
use nalgebra::Vector3;

#[derive(Clone, Copy, Debug, PartialEq)]
struct Iso(Isometry3<f64>);

impl RigidOps for Iso {
    // The spec-level items: for a pure implementation they are the
    // operations themselves (they are never called at run time).
    fn spec_identity() -> Self {
        Iso(Isometry3::identity())
    }

    fn spec_compose(self, other: Self) -> Self {
        Iso(self.0 * other.0)
    }

    fn spec_inverse(self) -> Self {
        Iso(self.0.inverse())
    }

    fn identity() -> Self {
        Iso(Isometry3::identity())
    }

    fn compose(&self, other: &Self) -> Self {
        Iso(self.0 * other.0)
    }

    fn inverse(&self) -> Self {
        Iso(self.0.inverse())
    }
}

fn iso(x: f64, y: f64, z: f64, q: UnitQuaternion<f64>) -> Iso {
    Iso(Isometry3::from_parts(Translation3::from(Vector3::new(x, y, z)), q))
}

fn close(a: &Isometry3<f64>, b: &Isometry3<f64>, tol: f64) -> bool {
    (a.translation.vector - b.translation.vector).norm() < tol
        && a.rotation.angle_to(&b.rotation) < tol
}

#[test]
fn pose_anchor_and_transformation() {
    let mut arena: FrameArena<Iso> = FrameArena::new();
    let root = Frame::new_origin(&mut arena, "base".to_string());
    let mut pose = root.add_pose(iso(0.0, 0.0, 1.0, UnitQuaternion::identity()));

    assert_eq!(pose.frame(&mut arena).unwrap().name(&arena), "base");
    assert_eq!(
        pose.transformation().0.translation.vector,
        Vector3::new(0.0, 0.0, 1.0)
    );

    pose.update(iso(1.0, 0.0, 0.0, UnitQuaternion::identity()));
    assert_eq!(
        pose.transformation().0.translation.vector,
        Vector3::new(1.0, 0.0, 0.0)
    );
    assert_eq!(pose.frame(&mut arena).unwrap().name(&arena), "base");
}

#[test]
fn concrete_world_sensor_resolution() {
    let mut arena: FrameArena<Iso> = FrameArena::new();
    let world = Frame::new_origin(&mut arena, "world".to_string());
    let sensor = world
        .add_child(
            &mut arena,
            "sensor".to_string(),
            iso(1.0, 0.0, 0.0, UnitQuaternion::identity()),
        )
        .unwrap();
    let pose = sensor.add_pose(iso(0.0, 0.0, 1.0, UnitQuaternion::identity()));

    let in_world = pose.in_frame(&arena, &world).unwrap();
    let got = in_world.transformation().0;
    assert!((got.translation.vector - Vector3::new(1.0, 0.0, 1.0)).norm() < 1e-12);
    assert!(got.rotation.angle() < 1e-12);
    assert_eq!(in_world.frame(&mut arena).unwrap().name(&arena), "world");
}

#[test]
fn involution_round_trip() {
    let mut arena: FrameArena<Iso> = FrameArena::new();
    let root = Frame::new_origin(&mut arena, "root".to_string());
    let a = root
        .add_child(
            &mut arena,
            "a".to_string(),
            iso(1.0, 2.0, 3.0, UnitQuaternion::from_euler_angles(0.4, 0.0, -0.3)),
        )
        .unwrap();
    let b = root
        .add_child(
            &mut arena,
            "b".to_string(),
            iso(-2.0, 0.5, 1.0, UnitQuaternion::from_euler_angles(0.0, 1.1, 0.2)),
        )
        .unwrap();

    let pose = a.add_pose(iso(0.3, -0.7, 2.0, UnitQuaternion::from_euler_angles(0.1, 0.2, 0.3)));
    let in_b = pose.in_frame(&arena, &b).unwrap();
    let back = in_b.in_frame(&arena, &a).unwrap();

    assert!(close(&back.transformation().0, &pose.transformation().0, 1e-9));
    assert_eq!(back.frame(&mut arena).unwrap().name(&arena), "a");
}

#[test]
fn chain_composition_to_root() {
    let mut arena: FrameArena<Iso> = FrameArena::new();
    let root = Frame::new_origin(&mut arena, "root".to_string());
    let tf_a = iso(1.0, 0.0, 0.0, UnitQuaternion::from_euler_angles(0.0, 0.0, 0.5));
    let tf_b = iso(0.0, 2.0, 0.0, UnitQuaternion::from_euler_angles(0.3, 0.0, 0.0));
    let a = root.add_child(&mut arena, "a".to_string(), tf_a).unwrap();
    let b = a.add_child(&mut arena, "b".to_string(), tf_b).unwrap();

    let tf_p = iso(0.0, 0.0, 1.5, UnitQuaternion::from_euler_angles(0.0, 0.2, 0.0));
    let pose = b.add_pose(tf_p);

    let in_root = pose.in_frame(&arena, &root).unwrap();
    let expected = tf_a.0 * tf_b.0 * tf_p.0;
    assert!(close(&in_root.transformation().0, &expected, 1e-12));
}

#[test]
fn disjoint_trees_no_common_ancestor() {
    let mut arena: FrameArena<Iso> = FrameArena::new();
    let tree_a = Frame::new_origin(&mut arena, "a".to_string());
    let tree_b = Frame::new_origin(&mut arena, "b".to_string());
    let pose = tree_a.add_pose(Iso::identity());

    let result = pose.in_frame(&arena, &tree_b);
    match result {
        Err(CartesianTreeError::NoCommonAncestor(na, nb)) => {
            assert_eq!(na, "a");
            assert_eq!(nb, "b");
        },
        _ => panic!("expected a NoCommonAncestor failure"),
    }
}

#[test]
fn dangling_anchor_weak_upgrade() {
    let mut arena: FrameArena<Iso> = FrameArena::new();
    let root = Frame::new_origin(&mut arena, "world".to_string());
    let sensor = root
        .add_child(
            &mut arena,
            "sensor".to_string(),
            iso(1.0, 0.0, 0.0, UnitQuaternion::identity()),
        )
        .unwrap();
    let pose = sensor.add_pose(Iso::identity());

    let resolved = pose.frame(&mut arena);
    assert!(resolved.is_some());
    resolved.unwrap().drop_handle(&mut arena);

    sensor.drop_handle(&mut arena);
    root.drop_handle(&mut arena);

    assert!(pose.frame(&mut arena).is_none());

    let other = Frame::new_origin(&mut arena, "other".to_string());
    let result = pose.in_frame(&arena, &other);
    assert_eq!(result.unwrap_err(), CartesianTreeError::WeakUpgradeFailed);
}

#[test]
fn broken_chain_walk() {
    let mut arena: FrameArena<Iso> = FrameArena::new();
    let root = Frame::new_origin(&mut arena, "root".to_string());
    let mid = root
        .add_child(&mut arena, "mid".to_string(), Iso::identity())
        .unwrap();
    let leaf = mid
        .add_child(&mut arena, "leaf".to_string(), Iso::identity())
        .unwrap();
    let side = root
        .add_child(&mut arena, "side".to_string(), Iso::identity())
        .unwrap();
    let pose = leaf.add_pose(Iso::identity());

    mid.drop_handle(&mut arena);
    root.drop_handle(&mut arena);

    // The leaf and the side branch survive through their own handles, but
    // their common ancestor chain crosses reclaimed frames.
    assert!(pose.frame(&mut arena).is_some());
    let result = pose.in_frame(&arena, &side);
    assert_eq!(result.unwrap_err(), CartesianTreeError::BrokenChain);
}

#[test]
fn lca_of_siblings() {
    let mut arena: FrameArena<Iso> = FrameArena::new();
    let root = Frame::new_origin(&mut arena, "root".to_string());
    let a = root
        .add_child(&mut arena, "a".to_string(), Iso::identity())
        .unwrap();
    let b = root
        .add_child(&mut arena, "b".to_string(), Iso::identity())
        .unwrap();

    let lca = a.lca_with(&mut arena, &b).unwrap();
    assert_eq!(lca.name(&arena), "root");

    let deeper = a
        .add_child(&mut arena, "deep".to_string(), Iso::identity())
        .unwrap();
    let lca2 = deeper.lca_with(&mut arena, &a).unwrap();
    assert_eq!(lca2.name(&arena), "a");
}

#[test]
fn walk_up_transform_matches_composition() {
    let mut arena: FrameArena<Iso> = FrameArena::new();
    let root = Frame::new_origin(&mut arena, "root".to_string());
    let tf_a = iso(1.0, 0.0, 0.0, UnitQuaternion::from_euler_angles(0.0, 0.0, 0.9));
    let tf_b = iso(0.0, -1.0, 2.0, UnitQuaternion::from_euler_angles(0.2, 0.0, 0.0));
    let a = root.add_child(&mut arena, "a".to_string(), tf_a).unwrap();
    let b = a.add_child(&mut arena, "b".to_string(), tf_b).unwrap();

    let walked = b.walk_up_and_transform(&arena, &root).unwrap();
    let expected = tf_a.0 * tf_b.0;
    assert!(close(&walked.0, &expected, 1e-12));

    // Walking to a frame that is not an ancestor breaks the chain.
    let stray = Frame::new_origin(&mut arena, "stray".to_string());
    assert_eq!(
        b.walk_up_and_transform(&arena, &stray).unwrap_err(),
        CartesianTreeError::BrokenChain
    );
}
