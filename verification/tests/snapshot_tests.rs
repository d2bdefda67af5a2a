use cartesian_tree::Frame;
use cartesian_tree::FrameArena;
use cartesian_tree::FrameSnapshot;
use cartesian_tree::RigidOps;
use nalgebra::Isometry3;
use nalgebra::Translation3;
use nalgebra::UnitQuaternion;
use nalgebra::Vector3;

#[derive(Clone, Copy, Debug, PartialEq)]
struct Iso(Isometry3<f64>);

impl RigidOps for Iso {
    // The spec-level items: for a pure implementation they are the
    // operations themselves (they are never called at run time).
    fn spec_identity() -> Self {
        Iso(Isometry3::identity())
    }

    fn spec_compose(self, other: Self) -> Self {
        Iso(self.0 * other.0)
    }

    fn spec_inverse(self) -> Self {
        Iso(self.0.inverse())
    }

    fn identity() -> Self {
        Iso(Isometry3::identity())
    }

    fn compose(&self, other: &Self) -> Self {
        Iso(self.0 * other.0)
    }

    fn inverse(&self) -> Self {
        Iso(self.0.inverse())
    }
}

fn iso(x: f64, y: f64, z: f64, q: UnitQuaternion<f64>) -> Iso {
    Iso(Isometry3::from_parts(Translation3::from(Vector3::new(x, y, z)), q))
}

fn assert_snapshots_equal(a: &FrameSnapshot<Iso>, b: &FrameSnapshot<Iso>) {
    assert_eq!(a.name, b.name);
    assert_eq!(a.transform, b.transform);
    assert_eq!(a.children.len(), b.children.len());
    for (ca, cb) in a.children.iter().zip(b.children.iter()) {
        assert_snapshots_equal(ca, cb);
    }
}

#[test]
fn snapshot_captures_subtree() {
    let mut arena: FrameArena<Iso> = FrameArena::new();
    let root = Frame::new_origin(&mut arena, "world".to_string());
    let arm = root
        .add_child(
            &mut arena,
            "arm".to_string(),
            iso(1.0, 0.0, 0.0, UnitQuaternion::from_euler_angles(0.0, 0.0, 0.4)),
        )
        .unwrap();
    let _hand = arm
        .add_child(&mut arena, "hand".to_string(), iso(0.0, 0.0, 0.5, UnitQuaternion::identity()))
        .unwrap();
    let _eye = root
        .add_child(&mut arena, "eye".to_string(), iso(0.0, 2.0, 0.0, UnitQuaternion::identity()))
        .unwrap();

    let snap = root.snapshot(&arena);
    assert_eq!(snap.name, "world");
    assert_eq!(snap.children.len(), 2);
    assert_eq!(snap.children[0].name, "arm");
    assert_eq!(snap.children[1].name, "eye");
    assert_eq!(snap.children[0].children.len(), 1);
    assert_eq!(snap.children[0].children[0].name, "hand");
    assert_eq!(
        snap.children[0].children[0].transform.0.translation.vector,
        Vector3::new(0.0, 0.0, 0.5)
    );
}

#[test]
fn apply_rebuilds_descendants() {
    let mut arena: FrameArena<Iso> = FrameArena::new();
    let source = Frame::new_origin(&mut arena, "source".to_string());
    let arm = source
        .add_child(&mut arena, "arm".to_string(), iso(1.0, 2.0, 3.0, UnitQuaternion::identity()))
        .unwrap();
    let _hand = arm
        .add_child(&mut arena, "hand".to_string(), iso(0.5, 0.0, 0.0, UnitQuaternion::identity()))
        .unwrap();
    let snap = source.snapshot(&arena);

    let target = Frame::new_origin(&mut arena, "target".to_string());
    target.apply(&mut arena, &snap);

    let children = target.children(&mut arena);
    assert_eq!(children.len(), 1);
    assert_eq!(children[0].name(&arena), "arm");
    assert_eq!(
        children[0].transform_to_parent(&arena).unwrap().0.translation.vector,
        Vector3::new(1.0, 2.0, 3.0)
    );
    let grandchildren = children[0].children(&mut arena);
    assert_eq!(grandchildren.len(), 1);
    assert_eq!(grandchildren[0].name(&arena), "hand");
}

#[test]
fn apply_updates_existing_and_keeps_extras() {
    let mut arena: FrameArena<Iso> = FrameArena::new();
    let root = Frame::new_origin(&mut arena, "world".to_string());
    let _named = root
        .add_child(&mut arena, "arm".to_string(), iso(1.0, 0.0, 0.0, UnitQuaternion::identity()))
        .unwrap();
    let _extra = root
        .add_child(&mut arena, "extra".to_string(), iso(0.0, 9.0, 0.0, UnitQuaternion::identity()))
        .unwrap();

    let snap = FrameSnapshot {
        name: "world".to_string(),
        transform: Iso::identity(),
        children: vec![FrameSnapshot {
            name: "arm".to_string(),
            transform: iso(5.0, 5.0, 5.0, UnitQuaternion::identity()),
            children: Vec::new(),
        }],
    };
    root.apply(&mut arena, &snap);

    let children = root.children(&mut arena);
    assert_eq!(children.len(), 2);
    assert_eq!(children[0].name(&arena), "arm");
    assert_eq!(
        children[0].transform_to_parent(&arena).unwrap().0.translation.vector,
        Vector3::new(5.0, 5.0, 5.0)
    );
    assert_eq!(children[1].name(&arena), "extra");
    assert_eq!(
        children[1].transform_to_parent(&arena).unwrap().0.translation.vector,
        Vector3::new(0.0, 9.0, 0.0)
    );
}

#[test]
fn snapshot_apply_round_trip_is_idempotent() {
    let mut arena: FrameArena<Iso> = FrameArena::new();
    let root = Frame::new_origin(&mut arena, "world".to_string());
    let arm = root
        .add_child(
            &mut arena,
            "arm".to_string(),
            iso(1.25, -0.5, 2.0, UnitQuaternion::from_euler_angles(0.1, 0.2, 0.3)),
        )
        .unwrap();
    let _hand = arm
        .add_child(
            &mut arena,
            "hand".to_string(),
            iso(0.0, 0.75, 0.0, UnitQuaternion::from_euler_angles(-0.4, 0.0, 0.9)),
        )
        .unwrap();

    let before = root.snapshot(&arena);
    let frames_before = arena.len();
    root.apply(&mut arena, &before);
    assert_eq!(arena.len(), frames_before);
    let after = root.snapshot(&arena);
    assert_snapshots_equal(&before, &after);

    root.apply(&mut arena, &before);
    assert_eq!(arena.len(), frames_before);
    let again = root.snapshot(&arena);
    assert_snapshots_equal(&before, &again);
}
