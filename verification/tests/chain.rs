use kinema::joint::{Joint, JointLimit, JointType};
use kinema::kinematics::Chain;
use kinema::node::Node;
use nalgebra::{Isometry3, Translation3, Unit, UnitQuaternion, Vector3};

fn limit(min: f64, max: f64) -> JointLimit<f64> {
    JointLimit { min, max, velocity: 1.0, effort: 2.0 }
}

fn node(parent: Option<usize>, name: &str, joint_type: JointType<f64>, pos: f64, origin: Isometry3<f64>) -> Node<f64> {
    Node {
        parent,
        joint: Joint { name: name.to_string(), joint_type, pos, limits: limit(-1.0, 1.0), origin },
        world_transform: Isometry3::identity(),
    }
}

fn revolute_z() -> JointType<f64> {
    JointType::Revolute { axis: Unit::new_normalize(Vector3::z()) }
}

fn offset(z: f64) -> Isometry3<f64> {
    Isometry3::from_parts(Translation3::new(0.0, 0.0, z), UnitQuaternion::identity())
}

/// base (fixed) -> j1 (revolute) -> j2 (revolute) -> tool (fixed)
fn arm() -> Chain<2, 4, f64> {
    Chain::new(
        [
            node(None, "base", JointType::Fixed, 0.0, Isometry3::identity()),
            node(Some(0), "j1", revolute_z(), 0.1, offset(1.0)),
            node(Some(1), "j2", revolute_z(), 0.2, offset(2.0)),
            node(Some(2), "tool", JointType::Fixed, 0.0, offset(3.0)),
        ],
        [1, 2],
    )
}

#[test]
fn joint_positions_follow_movable_slots() {
    let chain = arm();
    assert_eq!(chain.joint_positions(), vec![0.1, 0.2]);
}

#[test]
fn set_then_read_positions() {
    let mut chain = arm();
    assert!(chain.set_joint_positions([0.5, -0.25]).is_ok());
    assert_eq!(chain.joint_positions(), vec![0.5, -0.25]);
    assert_eq!(chain.nodes[0].joint.pos, 0.0);
    assert_eq!(chain.nodes[3].joint.pos, 0.0);
    assert_eq!(chain.nodes[1].joint.name, "j1");
}

#[test]
fn set_positions_later_slot_wins() {
    let mut chain: Chain<2, 4, f64> = Chain::new(arm().nodes, [2, 2]);
    assert!(chain.set_joint_positions([0.7, 0.9]).is_ok());
    assert_eq!(chain.nodes[2].joint.pos, 0.9);
    assert_eq!(chain.nodes[1].joint.pos, 0.1);
    assert_eq!(chain.joint_positions(), vec![0.9, 0.9]);
}

#[test]
fn set_positions_keeps_limits() {
    let mut chain = arm();
    let before = chain.joint_limits();
    chain.set_joint_positions([0.3, 0.4]).unwrap();
    let after = chain.joint_limits();
    assert_eq!(before.len(), 2);
    for (a, b) in before.iter().zip(after.iter()) {
        assert_eq!(a.min, b.min);
        assert_eq!(a.max, b.max);
        assert_eq!(a.velocity, b.velocity);
        assert_eq!(a.effort, b.effort);
    }
}

#[test]
fn joint_limits_follow_movable_slots() {
    let mut nodes = arm().nodes;
    nodes[1].joint.limits = limit(-0.5, 0.5);
    nodes[2].joint.limits = limit(-2.0, 3.0);
    let chain: Chain<2, 4, f64> = Chain::new(nodes, [2, 1]);
    let limits = chain.joint_limits();
    assert_eq!(limits[0].min, -2.0);
    assert_eq!(limits[0].max, 3.0);
    assert_eq!(limits[1].min, -0.5);
    assert_eq!(limits[1].max, 0.5);
}

#[test]
fn node_reads_one_node() {
    let chain = arm();
    assert_eq!(chain.node(2).joint.name, "j2");
    assert_eq!(chain.node(2).parent, Some(1));
}

#[test]
fn joint_types_compare_by_kind_and_axis() {
    assert_eq!(revolute_z(), revolute_z());
    assert_ne!(revolute_z(), JointType::Fixed);
    assert_ne!(revolute_z(), JointType::Revolute { axis: Unit::new_normalize(Vector3::x()) });
    assert_ne!(revolute_z(), JointType::Prismatic { axis: Unit::new_normalize(Vector3::z()) });
}

#[test]
fn end_transform_is_tool_node() {
    let mut chain = arm();
    chain.nodes[3].world_transform = offset(6.0);
    assert_eq!(chain.end_transform(), offset(6.0));
}

#[test]
fn iter_lists_every_node() {
    let chain = arm();
    let names: Vec<(usize, String)> = chain.iter().into_iter().map(|(i, n)| (i, n.joint.name.clone())).collect();
    assert_eq!(
        names,
        vec![(0, "base".to_string()), (1, "j1".to_string()), (2, "j2".to_string()), (3, "tool".to_string())]
    );
}

#[test]
fn iter_movable_lists_slots() {
    let chain = arm();
    let slots: Vec<(usize, usize, String)> =
        chain.iter_movable().into_iter().map(|(s, id, n)| (s, id, n.joint.name.clone())).collect();
    assert_eq!(slots, vec![(0, 1, "j1".to_string()), (1, 2, "j2".to_string())]);
}

fn compose(parent: &Isometry3<f64>, joint: &Joint<f64>) -> Isometry3<f64> {
    let local = match &joint.joint_type {
        JointType::Fixed => Isometry3::identity(),
        JointType::Revolute { axis } => Isometry3::from_parts(
            Translation3::new(0.0, 0.0, 0.0),
            UnitQuaternion::from_axis_angle(axis, joint.pos),
        ),
        JointType::Prismatic { axis } => Isometry3::from_parts(
            Translation3::from(axis.into_inner() * joint.pos),
            UnitQuaternion::identity(),
        ),
    };
    parent * (joint.origin * local)
}

#[test]
fn forward_pass_composes_down_the_chain() {
    let mut chain = arm();
    chain.update_transforms_with(Isometry3::identity(), compose);
    let expected_tool = offset(1.0) * offset(2.0) * offset(3.0);
    assert!((chain.end_transform().translation.vector - expected_tool.translation.vector).norm() < 1e-12);
    assert_eq!(chain.end_transform().translation.vector.z, 6.0);
    for k in 1..4 {
        let parent = chain.nodes[k].parent.unwrap();
        let want = compose(&chain.nodes[parent].world_transform, &chain.nodes[k].joint);
        assert_eq!(chain.nodes[k].world_transform, want);
    }
}

#[test]
fn forward_pass_twice_changes_nothing() {
    let mut chain = arm();
    chain.update_transforms_with(Isometry3::identity(), compose);
    let once: Vec<Isometry3<f64>> = chain.nodes.iter().map(|n| n.world_transform).collect();
    chain.update_transforms_with(Isometry3::identity(), compose);
    let twice: Vec<Isometry3<f64>> = chain.nodes.iter().map(|n| n.world_transform).collect();
    assert_eq!(once, twice);
    assert_eq!(chain.joint_positions(), vec![0.1, 0.2]);
}

#[test]
fn forward_pass_reads_stale_pose_of_later_parent() {
    // node 1 hangs from node 2, which comes after it: the pass reads node 2's
    // pose from before the pass.
    let mut nodes = arm().nodes;
    nodes[1].parent = Some(2);
    nodes[2].parent = Some(0);
    nodes[2].world_transform = offset(10.0);
    let mut chain: Chain<2, 4, f64> = Chain::new(nodes, [1, 2]);
    chain.update_transforms_with(Isometry3::identity(), compose);
    let want = compose(&offset(10.0), &chain.nodes[1].joint);
    assert_eq!(chain.nodes[1].world_transform, want);
}

#[test]
fn range_checks_report_bad_indices() {
    let chain = arm();
    assert!(chain.movable_in_range());
    assert!(chain.parents_valid());
    let bad_slots: Chain<2, 4, f64> = Chain::new(arm().nodes, [1, 4]);
    assert!(!bad_slots.movable_in_range());
    let mut nodes = arm().nodes;
    nodes[3].parent = Some(7);
    let bad_parent: Chain<2, 4, f64> = Chain::new(nodes, [1, 2]);
    assert!(!bad_parent.parents_valid());
    assert!(bad_parent.movable_in_range());
}

#[test]
fn forward_pass_of_prismatic_joint_translates_along_axis() {
    let nodes = [
        node(None, "base", JointType::Fixed, 0.0, Isometry3::identity()),
        node(Some(0), "slide", JointType::Prismatic { axis: Unit::new_normalize(Vector3::x()) }, 0.25, offset(1.0)),
        node(Some(1), "tool", JointType::Fixed, 0.0, offset(0.5)),
    ];
    let mut chain: Chain<1, 3, f64> = Chain::new(nodes, [1]);
    chain.update_transforms_with(Isometry3::identity(), compose);
    let p = chain.end_transform().translation.vector;
    assert!((p - Vector3::new(0.25, 0.0, 1.5)).norm() < 1e-12);
}
