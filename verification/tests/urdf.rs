use kinema::joint::{JointLimit, JointType};
use kinema::kinematics::Chain;
use kinema::urdf::{UrdfJoint, UrdfJointKind, UrdfRobot};
use kinema::Error;
use nalgebra::{Isometry3, Translation3, Unit, UnitQuaternion, Vector3};

fn joint(name: &str, kind: UrdfJointKind, parent: &str, child: &str) -> UrdfJoint<f64> {
    UrdfJoint {
        name: name.to_string(),
        kind,
        parent_link: parent.to_string(),
        child_link: child.to_string(),
        origin: Isometry3::from_parts(Translation3::new(0.0, 0.0, 0.5), UnitQuaternion::identity()),
        axis: Unit::new_normalize(Vector3::z()),
        limits: JointLimit { min: -1.0, max: 1.0, velocity: 2.0, effort: 3.0 },
    }
}

fn robot(links: &[&str], joints: Vec<UrdfJoint<f64>>) -> UrdfRobot<f64> {
    UrdfRobot { links: links.iter().map(|s| s.to_string()).collect(), joints }
}

fn arm() -> UrdfRobot<f64> {
    robot(
        &["base", "link1", "link2", "tool"],
        vec![
            joint("j1", UrdfJointKind::Revolute, "base", "link1"),
            joint("j2", UrdfJointKind::Prismatic, "link1", "link2"),
            joint("tool_fixed", UrdfJointKind::Fixed, "link2", "tool"),
        ],
    )
}

#[test]
fn urdf_arm_builds_in_order() {
    let chain = Chain::<2, 4, f64>::try_from_urdf(&arm(), 0.0, Isometry3::identity()).unwrap();
    assert_eq!(chain.nodes[0].joint.name, "base_root");
    assert!(chain.nodes[0].parent.is_none());
    assert!(matches!(chain.nodes[0].joint.joint_type, JointType::Fixed));
    assert_eq!(chain.nodes[1].parent, Some(0));
    assert_eq!(chain.nodes[2].parent, Some(1));
    assert_eq!(chain.nodes[3].parent, Some(2));
    assert_eq!(chain.nodes[1].joint.name, "j1");
    assert!(matches!(chain.nodes[1].joint.joint_type, JointType::Revolute { .. }));
    assert!(matches!(chain.nodes[2].joint.joint_type, JointType::Prismatic { .. }));
    assert!(matches!(chain.nodes[3].joint.joint_type, JointType::Fixed));
    assert_eq!(chain.nodes[2].joint.limits.max, 1.0);
    assert_eq!(chain.nodes[2].joint.limits.velocity, 2.0);
    assert_eq!(chain.nodes[0].joint.limits.velocity, 0.0);
    assert_eq!(chain.nodes[3].joint.origin.translation.vector.z, 0.5);
    let slots: Vec<usize> = chain.iter_movable().into_iter().map(|(_, id, _)| id).collect();
    assert_eq!(slots, vec![1, 2]);
    assert_eq!(chain.joint_positions(), vec![0.0, 0.0]);
}

#[test]
fn urdf_tree_parent_is_latest_node_of_parent_link() {
    // two branches from base; the second branch hangs from link "a" twice
    let r = robot(
        &["base", "a", "b", "c"],
        vec![
            joint("ja", UrdfJointKind::Revolute, "base", "a"),
            joint("jb", UrdfJointKind::Revolute, "base", "b"),
            joint("jc", UrdfJointKind::Fixed, "a", "c"),
        ],
    );
    let chain = Chain::<2, 4, f64>::try_from_urdf(&r, 0.0, Isometry3::identity()).unwrap();
    assert_eq!(chain.nodes[1].parent, Some(0));
    assert_eq!(chain.nodes[2].parent, Some(0));
    assert_eq!(chain.nodes[3].parent, Some(1));
}

#[test]
fn urdf_duplicate_child_link_takes_latest() {
    let r = robot(
        &["base", "a", "b", "c"],
        vec![
            joint("j1", UrdfJointKind::Fixed, "base", "a"),
            joint("j2", UrdfJointKind::Fixed, "base", "a"),
            joint("j3", UrdfJointKind::Revolute, "a", "c"),
        ],
    );
    let chain = Chain::<1, 4, f64>::try_from_urdf(&r, 0.0, Isometry3::identity()).unwrap();
    assert_eq!(chain.nodes[3].parent, Some(2));
}

#[test]
fn urdf_node_count_mismatch() {
    let r = Chain::<2, 5, f64>::try_from_urdf(&arm(), 0.0, Isometry3::identity());
    assert_eq!(r.unwrap_err(), Error::NodeCountMismatch { got: 4 });
}

#[test]
fn urdf_movable_count_mismatch() {
    let r = Chain::<3, 4, f64>::try_from_urdf(&arm(), 0.0, Isometry3::identity());
    assert_eq!(r.unwrap_err(), Error::MovableCountMismatch { got: 2 });
}

#[test]
fn urdf_continuous_counts_as_movable_then_is_refused() {
    let r = robot(
        &["base", "a"],
        vec![joint("j", UrdfJointKind::Continuous, "base", "a")],
    );
    assert_eq!(
        Chain::<0, 2, f64>::try_from_urdf(&r, 0.0, Isometry3::identity()).unwrap_err(),
        Error::MovableCountMismatch { got: 1 }
    );
    assert_eq!(
        Chain::<1, 2, f64>::try_from_urdf(&r, 0.0, Isometry3::identity()).unwrap_err(),
        Error::UnsupportedJointType
    );
}

#[test]
fn urdf_unknown_parent_link() {
    let r = robot(
        &["base", "a", "b"],
        vec![
            joint("j1", UrdfJointKind::Revolute, "base", "a"),
            joint("j2", UrdfJointKind::Revolute, "b", "b"),
        ],
    );
    assert_eq!(
        Chain::<2, 3, f64>::try_from_urdf(&r, 0.0, Isometry3::identity()).unwrap_err(),
        Error::UnknownParentLink
    );
}

#[test]
fn urdf_unsupported_before_unknown_parent() {
    let r = robot(
        &["base", "a"],
        vec![joint("j", UrdfJointKind::Planar, "nowhere", "a")],
    );
    assert_eq!(
        Chain::<1, 2, f64>::try_from_urdf(&r, 0.0, Isometry3::identity()).unwrap_err(),
        Error::UnsupportedJointType
    );
}

#[test]
fn urdf_nodes_are_one_per_joint_plus_root() {
    // three links but one joint: the checks pass and two nodes are built,
    // which do not fill a chain of three nodes
    let r = robot(&["base", "a", "b"], vec![joint("j1", UrdfJointKind::Revolute, "base", "a")]);
    let (nodes, movable) = r.chain_nodes(1, 3, 0.0, Isometry3::identity()).unwrap();
    assert_eq!(nodes.len(), 2);
    assert_eq!(nodes[0].joint.name, "base_root");
    assert_eq!(nodes[1].parent, Some(0));
    assert_eq!(movable, vec![1]);
    let full: Result<[kinema::node::Node<f64>; 3], _> = nodes.try_into();
    assert!(full.is_err());
}

#[test]
fn urdf_nodes_report_the_same_errors() {
    assert_eq!(arm().chain_nodes(2, 5, 0.0, Isometry3::identity()).unwrap_err(), Error::NodeCountMismatch { got: 4 });
    assert_eq!(arm().chain_nodes(3, 4, 0.0, Isometry3::identity()).unwrap_err(), Error::MovableCountMismatch { got: 2 });
    let (nodes, movable) = arm().chain_nodes(2, 4, 0.0, Isometry3::identity()).unwrap();
    assert_eq!(nodes.len(), 4);
    assert_eq!(movable, vec![1, 2]);
}

#[test]
fn urdf_no_links_no_nodes() {
    let r = robot(&[], vec![]);
    assert_eq!(
        Chain::<0, 0, f64>::try_from_urdf(&r, 0.0, Isometry3::identity()).unwrap_err(),
        Error::NodeCountMismatch { got: 0 }
    );
}

#[test]
fn visual_sources_follow_names() {
    // links "a" appears twice: the later link's visuals win, and only the
    // first node standing for "a" takes them.
    let r = robot(
        &["base", "a", "a"],
        vec![
            joint("j1", UrdfJointKind::Fixed, "base", "a"),
            joint("j2", UrdfJointKind::Fixed, "a", "a"),
        ],
    );
    assert_eq!(r.visual_sources(), vec![Some(0), Some(2), None]);
    let r = robot(&["base", "x"], vec![joint("j1", UrdfJointKind::Fixed, "base", "y")]);
    assert_eq!(r.visual_sources(), vec![Some(0), None]);
}

#[test]
fn serial_chain_hangs_each_node_from_previous() {
    let r = robot(
        &[],
        vec![
            joint("j1", UrdfJointKind::Revolute, "p", "q"),
            joint("j2", UrdfJointKind::Continuous, "x", "y"),
            joint("j3", UrdfJointKind::Fixed, "u", "v"),
        ],
    );
    let chain = Chain::<2, 4, f64>::serial_from_urdf(&r, 0.0, Isometry3::identity()).unwrap();
    assert!(chain.nodes[0].parent.is_none());
    assert_eq!(chain.nodes[0].joint.name, "");
    for k in 1..4 {
        assert_eq!(chain.nodes[k].parent, Some(k - 1));
    }
    assert!(matches!(chain.nodes[2].joint.joint_type, JointType::Revolute { .. }));
    assert!(matches!(chain.nodes[3].joint.joint_type, JointType::Fixed));
    let slots: Vec<usize> = chain.iter_movable().into_iter().map(|(_, id, _)| id).collect();
    assert_eq!(slots, vec![1, 2]);
}

#[test]
fn serial_chain_errors() {
    let r = robot(&[], vec![joint("j1", UrdfJointKind::Prismatic, "p", "q")]);
    assert_eq!(
        Chain::<1, 2, f64>::serial_from_urdf(&r, 0.0, Isometry3::identity()).unwrap_err(),
        Error::UnsupportedJointType
    );
    let r = robot(&[], vec![joint("j1", UrdfJointKind::Revolute, "p", "q")]);
    assert_eq!(
        Chain::<1, 3, f64>::serial_from_urdf(&r, 0.0, Isometry3::identity()).unwrap_err(),
        Error::NodeCountMismatch { got: 2 }
    );
    assert_eq!(
        Chain::<0, 2, f64>::serial_from_urdf(&r, 0.0, Isometry3::identity()).unwrap_err(),
        Error::MovableCountMismatch { got: 1 }
    );
}
