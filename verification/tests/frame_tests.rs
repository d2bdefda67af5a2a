use cartesian_tree::CartesianTreeError;
use cartesian_tree::Frame;
use cartesian_tree::FrameArena;
use cartesian_tree::RigidOps;
use nalgebra::Isometry3;
use nalgebra::Translation3;
use nalgebra::UnitQuaternion;
use nalgebra::Vector3;

#[derive(Clone, Copy, Debug, PartialEq)]
struct Iso(Isometry3<f64>);

impl RigidOps for Iso {
    // The spec-level items: for a pure implementation they are the
    // operations themselves (they are never called at run time).
    fn spec_identity() -> Self {
        Iso(Isometry3::identity())
    }

    fn spec_compose(self, other: Self) -> Self {
        Iso(self.0 * other.0)
    }

    fn spec_inverse(self) -> Self {
        Iso(self.0.inverse())
    }

    fn identity() -> Self {
        Iso(Isometry3::identity())
    }

    fn compose(&self, other: &Self) -> Self {
        Iso(self.0 * other.0)
    }

    fn inverse(&self) -> Self {
        Iso(self.0.inverse())
    }
}

fn iso(x: f64, y: f64, z: f64, q: UnitQuaternion<f64>) -> Iso {
    Iso(Isometry3::from_parts(Translation3::from(Vector3::new(x, y, z)), q))
}

#[test]
fn create_origin_frame() {
    let mut arena: FrameArena<Iso> = FrameArena::new();
    let root = Frame::new_origin(&mut arena, "world".to_string());
    assert_eq!(root.name(&arena), "world");
    assert!(root.parent(&mut arena).is_none());
    assert_eq!(root.children(&mut arena).len(), 0);
}

#[test]
fn add_child_frame_with_quaternion() {
    let mut arena: FrameArena<Iso> = FrameArena::new();
    let root = Frame::new_origin(&mut arena, "world".to_string());
    let child = root
        .add_child(&mut arena, "dummy".to_string(), iso(1.0, 0.0, 0.0, UnitQuaternion::identity()))
        .unwrap();

    assert_eq!(root.children(&mut arena).len(), 1);
    assert_eq!(child.name(&arena), "dummy");

    let parent = child.parent(&mut arena);
    assert!(parent.is_some());

    let parent_name = parent.unwrap().name(&arena);
    assert_eq!(parent_name, "world");
}

#[test]
fn add_child_frame_with_rpy() {
    let mut arena: FrameArena<Iso> = FrameArena::new();
    let root = Frame::new_origin(&mut arena, "world".to_string());
    let child = root
        .add_child(
            &mut arena,
            "dummy".to_string(),
            iso(
                0.0,
                1.0,
                0.0,
                UnitQuaternion::from_euler_angles(0.0, 0.0, std::f64::consts::FRAC_PI_2),
            ),
        )
        .unwrap();

    assert_eq!(child.name(&arena), "dummy");

    let rotation = child.transform_to_parent(&arena).unwrap().0.rotation;
    let expected = UnitQuaternion::from_euler_angles(0.0, 0.0, std::f64::consts::FRAC_PI_2);
    assert!((rotation.angle() - expected.angle()).abs() < 1e-10);
}

#[test]
fn multiple_child_frames() {
    let mut arena: FrameArena<Iso> = FrameArena::new();
    let root = Frame::new_origin(&mut arena, "world".to_string());

    let a = root
        .add_child(&mut arena, "a".to_string(), iso(1.0, 0.0, 0.0, UnitQuaternion::identity()))
        .unwrap();
    let b = root
        .add_child(&mut arena, "b".to_string(), iso(0.0, 1.0, 0.0, UnitQuaternion::identity()))
        .unwrap();

    assert_eq!(root.children(&mut arena).len(), 2);

    let a_parent = a.parent(&mut arena).unwrap();
    let b_parent = b.parent(&mut arena).unwrap();
    assert_eq!(a_parent.name(&arena), "world");
    assert_eq!(b_parent.name(&arena), "world");
}

#[test]
fn reject_duplicate_child_name() {
    let mut arena: FrameArena<Iso> = FrameArena::new();
    let root = Frame::new_origin(&mut arena, "world".to_string());

    let _ = root
        .add_child(
            &mut arena,
            "duplicate".to_string(),
            iso(1.0, 0.0, 0.0, UnitQuaternion::identity()),
        )
        .unwrap();

    let result = root.add_child(
        &mut arena,
        "duplicate".to_string(),
        iso(2.0, 0.0, 0.0, UnitQuaternion::identity()),
    );
    assert!(result.is_err());
    assert_eq!(
        result.unwrap_err().message(),
        "A child with name 'duplicate' already exists!"
    );
}

#[test]
fn duplicate_child_leaves_tree_unchanged() {
    let mut arena: FrameArena<Iso> = FrameArena::new();
    let root = Frame::new_origin(&mut arena, "world".to_string());
    let _a = root
        .add_child(&mut arena, "a".to_string(), iso(1.0, 0.0, 0.0, UnitQuaternion::identity()))
        .unwrap();
    let _b = root
        .add_child(&mut arena, "b".to_string(), iso(0.0, 2.0, 0.0, UnitQuaternion::identity()))
        .unwrap();

    let frames_before = arena.len();
    let result = root.add_child(
        &mut arena,
        "a".to_string(),
        iso(9.0, 9.0, 9.0, UnitQuaternion::identity()),
    );
    assert!(matches!(result, Err(CartesianTreeError::NameCollision(_))));

    assert_eq!(arena.len(), frames_before);
    let children = root.children(&mut arena);
    assert_eq!(children.len(), 2);
    assert_eq!(children[0].name(&arena), "a");
    assert_eq!(children[1].name(&arena), "b");
    let kept = children[0].transform_to_parent(&arena).unwrap();
    assert_eq!(kept.0.translation.vector, Vector3::new(1.0, 0.0, 0.0));
}

#[test]
fn children_in_creation_order() {
    let mut arena: FrameArena<Iso> = FrameArena::new();
    let root = Frame::new_origin(&mut arena, "world".to_string());
    let names = ["first", "second", "third"];
    for n in names {
        root.add_child(&mut arena, n.to_string(), Iso::identity()).unwrap();
    }
    let children = root.children(&mut arena);
    assert_eq!(children.len(), 3);
    for (k, n) in names.iter().enumerate() {
        assert_eq!(children[k].name(&arena), *n);
    }
}

#[test]
fn depth_and_root_walk() {
    let mut arena: FrameArena<Iso> = FrameArena::new();
    let root = Frame::new_origin(&mut arena, "world".to_string());
    let a = root
        .add_child(&mut arena, "a".to_string(), iso(1.0, 0.0, 0.0, UnitQuaternion::identity()))
        .unwrap();
    let b = a
        .add_child(&mut arena, "b".to_string(), iso(0.0, 1.0, 0.0, UnitQuaternion::identity()))
        .unwrap();

    assert_eq!(root.depth(&arena), 0);
    assert_eq!(a.depth(&arena), 1);
    assert_eq!(b.depth(&arena), 2);
    let found = b.root(&mut arena);
    assert_eq!(found.name(&arena), "world");
}

#[test]
fn transform_update_visible_through_aliased_handle() {
    let mut arena: FrameArena<Iso> = FrameArena::new();
    let root = Frame::new_origin(&mut arena, "world".to_string());
    let child = root
        .add_child(&mut arena, "c".to_string(), iso(1.0, 0.0, 0.0, UnitQuaternion::identity()))
        .unwrap();
    let alias = child.clone_handle(&mut arena);

    child
        .update_transform(&mut arena, iso(0.0, 0.0, 5.0, UnitQuaternion::identity()))
        .unwrap();

    let seen = alias.transform_to_parent(&arena).unwrap();
    assert_eq!(seen.0.translation.vector, Vector3::new(0.0, 0.0, 5.0));
}

#[test]
fn root_transform_policy() {
    let mut arena: FrameArena<Iso> = FrameArena::new();
    let root = Frame::new_origin(&mut arena, "world".to_string());
    assert!(matches!(
        root.transform_to_parent(&arena),
        Err(CartesianTreeError::RootHasNoParent)
    ));
    assert!(matches!(
        root.update_transform(&mut arena, Iso::identity()),
        Err(CartesianTreeError::RootHasNoParent)
    ));

    let child = root
        .add_child(&mut arena, "c".to_string(), iso(1.0, 0.0, 0.0, UnitQuaternion::identity()))
        .unwrap();
    assert!(child.transform_to_parent(&arena).is_ok());
    assert!(child.update_transform(&mut arena, Iso::identity()).is_ok());
}

#[test]
fn reclaimed_ancestors_leave_a_local_root() {
    let mut arena: FrameArena<Iso> = FrameArena::new();
    let root = Frame::new_origin(&mut arena, "world".to_string());
    let a = root
        .add_child(&mut arena, "a".to_string(), Iso::identity())
        .unwrap();
    let b = a
        .add_child(&mut arena, "b".to_string(), Iso::identity())
        .unwrap();
    assert_eq!(b.depth(&arena), 2);

    a.drop_handle(&mut arena);
    root.drop_handle(&mut arena);

    // Only the handle to `b` is left: its ancestors are reclaimed, so `b`
    // now acts as the root of its remaining subtree.
    assert_eq!(b.depth(&arena), 0);
    assert!(b.parent(&mut arena).is_none());
    assert_eq!(b.root(&mut arena).name(&arena), "b");
}

#[test]
fn cloned_handle_keeps_subtree_alive() {
    let mut arena: FrameArena<Iso> = FrameArena::new();
    let root = Frame::new_origin(&mut arena, "world".to_string());
    let child = root
        .add_child(&mut arena, "child".to_string(), Iso::identity())
        .unwrap();
    let keeper = root.clone_handle(&mut arena);
    let pose = child.add_pose(Iso::identity());

    child.drop_handle(&mut arena);
    root.drop_handle(&mut arena);

    // The cloned root handle still owns the whole subtree downward.
    let resolved = pose.frame(&mut arena);
    assert!(resolved.is_some());
    resolved.unwrap().drop_handle(&mut arena);

    keeper.drop_handle(&mut arena);
    assert!(pose.frame(&mut arena).is_none());
}

#[test]
fn calibrate_child_round_trip() {
    let mut arena: FrameArena<Iso> = FrameArena::new();
    let root = Frame::new_origin(&mut arena, "world".to_string());
    let q = UnitQuaternion::from_euler_angles(0.3, -0.2, 0.7);
    let pose = root.add_pose(iso(2.0, -1.0, 0.5, q));

    let desired = iso(0.0, 0.0, 1.0, UnitQuaternion::from_euler_angles(0.0, 0.1, 0.0));
    let calibrated = root
        .calibrate_child(&mut arena, "sensor".to_string(), desired, &pose)
        .unwrap();
    assert_eq!(calibrated.name(&arena), "sensor");

    let re_expressed = pose.in_frame(&arena, &calibrated).unwrap();
    let got = re_expressed.transformation().0;
    let diff = (got.translation.vector - desired.0.translation.vector).norm();
    assert!(diff < 1e-9);
    assert!(got.rotation.angle_to(&desired.0.rotation) < 1e-9);
}

#[test]
fn calibrate_child_name_collision() {
    let mut arena: FrameArena<Iso> = FrameArena::new();
    let root = Frame::new_origin(&mut arena, "world".to_string());
    let _existing = root
        .add_child(&mut arena, "sensor".to_string(), Iso::identity())
        .unwrap();
    let pose = root.add_pose(Iso::identity());

    let result = root.calibrate_child(&mut arena, "sensor".to_string(), Iso::identity(), &pose);
    assert!(matches!(result, Err(CartesianTreeError::NameCollision(_))));
    assert_eq!(
        result.unwrap_err().message(),
        "A child with name 'sensor' already exists!"
    );
}
