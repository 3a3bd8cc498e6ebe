use nalgebra::{Isometry3, Unit, Vector3};
use vstd::prelude::*;

use crate::joint::{Joint, JointLimit, JointScalar, JointType};
use crate::kinematics::{distinct_slots, Chain};
use crate::node::{Node, NodeIDx};
use crate::Error;

verus! {

/// The joint types that a URDF description can name.
#[derive(Debug, Clone, Copy, PartialEq, Eq, Structural)]
pub enum UrdfJointKind {
    Revolute,
    Continuous,
    Prismatic,
    Fixed,
    Floating,
    Planar,
    Spherical,
}

/// One `<joint>` of a URDF description, with its geometry already in the
/// chain's scalar type.
#[verifier::reject_recursive_types(T)]
pub struct UrdfJoint<T> {
    pub name: String,
    pub kind: UrdfJointKind,
    pub parent_link: String,
    pub child_link: String,
    pub origin: Isometry3<T>,
    pub axis: Unit<Vector3<T>>,
    pub limits: JointLimit<T>,
}

/// The parts of a URDF robot that decide the shape of a chain: the link
/// names in document order and the joints in document order.
#[verifier::reject_recursive_types(T)]
pub struct UrdfRobot<T> {
    pub links: Vec<String>,
    pub joints: Vec<UrdfJoint<T>>,
}

/// Number of joints among `joints` that are not fixed.
pub open spec fn count_non_fixed<T>(joints: Seq<UrdfJoint<T>>) -> nat
    decreases joints.len(),
{
    if joints.len() == 0 {
        0
    } else {
        count_non_fixed(joints.drop_last()) + if joints.last().kind is Fixed {
            0nat
        } else {
            1nat
        }
    }
}

/// The link that node `k` of the chain stands for: the first link for the
/// root, the child link of joint `k - 1` otherwise.
pub open spec fn node_link<T>(robot: UrdfRobot<T>, k: int) -> Seq<char> {
    if k == 0 {
        robot.links@[0]@
    } else {
        robot.joints@[k - 1].child_link@
    }
}

/// The link of every node, in node order.
pub open spec fn node_links<T>(robot: UrdfRobot<T>) -> Seq<Seq<char>> {
    Seq::new((robot.joints@.len() + 1) as nat, |k: int| node_link(robot, k))
}

/// The last index below `n` at which `names` holds `name`.
pub open spec fn last_named(names: Seq<Seq<char>>, name: Seq<char>, n: int) -> Option<int>
    decreases n,
{
    if n <= 0 {
        None
    } else if names[n - 1] == name {
        Some(n - 1)
    } else {
        last_named(names, name, n - 1)
    }
}

/// The parent node of node `k` (`k >= 1`): the latest node before it whose
/// link is the parent link of joint `k - 1`.
pub open spec fn urdf_parent<T>(robot: UrdfRobot<T>, k: int) -> Option<int> {
    last_named(node_links(robot), robot.joints@[k - 1].parent_link@, k)
}

/// The error that joint `j` raises, where the joints before it raised none.
pub open spec fn joint_error<T>(robot: UrdfRobot<T>, j: int) -> Option<Error> {
    let kind = robot.joints@[j].kind;
    if !(kind is Fixed || kind is Revolute || kind is Prismatic) {
        Some(Error::UnsupportedJointType)
    } else if urdf_parent(robot, j + 1) is None {
        Some(Error::UnknownParentLink)
    } else {
        None
    }
}

/// The first error among the first `n` joints.
pub open spec fn joints_error<T>(robot: UrdfRobot<T>, n: int) -> Option<Error>
    decreases n,
{
    if n <= 0 {
        None
    } else {
        match joints_error(robot, n - 1) {
            Some(e) => Some(e),
            None => joint_error(robot, n - 1),
        }
    }
}

/// The error, if any, that building a chain of `dof` movable joints and
/// `n_nodes` nodes from `robot` reports.
pub open spec fn urdf_error<T>(robot: UrdfRobot<T>, dof: int, n_nodes: int) -> Option<Error> {
    if robot.links@.len() != n_nodes {
        Some(Error::NodeCountMismatch { got: robot.links@.len() as usize })
    } else if count_non_fixed(robot.joints@) != dof {
        Some(Error::MovableCountMismatch { got: count_non_fixed(robot.joints@) as usize })
    } else if robot.links@.len() == 0 {
        Some(Error::NodeCountMismatch { got: 0 })
    } else {
        joints_error(robot, robot.joints@.len() as int)
    }
}

/// The chain joint type of a URDF joint of a supported kind.
pub open spec fn urdf_joint_type<T: JointScalar>(j: UrdfJoint<T>) -> JointType<T> {
    match j.kind {
        UrdfJointKind::Revolute => JointType::Revolute { axis: j.axis },
        UrdfJointKind::Prismatic => JointType::Prismatic { axis: j.axis },
        _ => JointType::Fixed,
    }
}

/// Node index of every non-fixed joint among the first `n` joints.
pub open spec fn urdf_movable<T>(robot: UrdfRobot<T>, n: int) -> Seq<NodeIDx>
    decreases n,
{
    if n <= 0 {
        Seq::empty()
    } else if robot.joints@[n - 1].kind is Fixed {
        urdf_movable(robot, n - 1)
    } else {
        urdf_movable(robot, n - 1).push(n as NodeIDx)
    }
}

/// Node `k` (`k >= 1`) is built from joint `k - 1` of `robot`.
pub open spec fn is_urdf_node<T: JointScalar>(node: Node<T>, robot: UrdfRobot<T>, k: int, zero: T, identity: Isometry3<T>) -> bool {
    let j = robot.joints@[k - 1];
    &&& urdf_parent(robot, k) is Some
    &&& node.parent == Some(urdf_parent(robot, k)->0 as NodeIDx)
    &&& node.joint.name == j.name
    &&& node.joint.joint_type == urdf_joint_type(j)
    &&& node.joint.pos == zero
    &&& node.joint.limits == j.limits
    &&& node.joint.origin == j.origin
    &&& node.world_transform == identity
}

/// The root node built for the first link of `robot`.
pub open spec fn is_urdf_root<T: JointScalar>(node: Node<T>, robot: UrdfRobot<T>, zero: T, identity: Isometry3<T>) -> bool {
    &&& node.parent is None
    &&& node.joint.name@ == robot.links@[0]@ + "_root"@
    &&& node.joint.joint_type is Fixed
    &&& node.joint.pos == zero
    &&& node.joint.limits == (JointLimit { min: zero, max: zero, velocity: zero, effort: zero })
    &&& node.joint.origin == identity
    &&& node.world_transform == identity
}

/// `nodes` are the nodes built from `robot`: the root, then one node per
/// joint in document order.
pub open spec fn is_urdf_node_seq<T: JointScalar>(nodes: Seq<Node<T>>, robot: UrdfRobot<T>, zero: T, identity: Isometry3<T>) -> bool {
    &&& nodes.len() == robot.joints@.len() + 1
    &&& is_urdf_root(nodes[0], robot, zero, identity)
    &&& forall|k: int| 1 <= k < nodes.len() ==> is_urdf_node(#[trigger] nodes[k], robot, k, zero, identity)
}

/// The nodes and movable slots of `chain` are those built from `robot`.
pub open spec fn is_urdf_chain<const DOF: usize, const JOINTS: usize, T: JointScalar>(
    chain: Chain<DOF, JOINTS, T>,
    robot: UrdfRobot<T>,
    zero: T,
    identity: Isometry3<T>,
) -> bool {
    &&& chain.node_seq().len() == JOINTS
    &&& JOINTS == robot.joints@.len() + 1
    &&& is_urdf_root(chain.node_seq()[0], robot, zero, identity)
    &&& forall|k: int| 1 <= k < JOINTS ==> is_urdf_node(#[trigger] chain.node_seq()[k], robot, k, zero, identity)
    &&& chain.movable() == urdf_movable(robot, robot.joints@.len() as int)
}

/// `names` viewed as character sequences.
pub open spec fn name_views(names: Seq<String>) -> Seq<Seq<char>> {
    names.map_values(|s: String| s@)
}

/// Number of joints that are not fixed.
fn count_movable_joints<T>(joints: &Vec<UrdfJoint<T>>) -> (r: usize)
    ensures
        r == count_non_fixed(joints@),
{
    let mut count: usize = 0;
    let mut i: usize = 0;
    while i < joints.len()
        invariant
            i <= joints@.len(),
            count == count_non_fixed(joints@.take(i as int)),
            count <= i,
        decreases joints@.len() - i,
    {
        assert(joints@.take(i as int + 1).drop_last() =~= joints@.take(i as int));
        match joints[i].kind {
            UrdfJointKind::Fixed => {},
            _ => {
                count = count + 1;
            },
        }
        i += 1;
    }
    assert(joints@.take(joints@.len() as int) =~= joints@);
    count
}

/// Index of the last entry of `names` equal to `name`.
fn find_last_named(names: &Vec<String>, name: &String) -> (r: Option<usize>)
    ensures
        match r {
            None => last_named(name_views(names@), name@, names@.len() as int) is None,
            Some(i) => last_named(name_views(names@), name@, names@.len() as int) == Some(i as int),
        },
{
    let ghost views = name_views(names@);
    let mut m: usize = names.len();
    while m > 0
        invariant
            m <= names@.len(),
            views == name_views(names@),
            last_named(views, name@, names@.len() as int) == last_named(views, name@, m as int),
        decreases m,
    {
        if names[m - 1] == *name {
            assert(views[m - 1] == names@[m - 1]@);
            return Some(m - 1);
        }
        assert(views[m - 1] == names@[m - 1]@);
        m -= 1;
    }
    None
}

/// `<[T; N] as TryFrom<Vec<T>>>::try_from` from std: hands the vector's
/// items over as an array, in order, exactly when the vector holds `N` of
/// them, and hands the vector back unchanged otherwise.
#[verifier::external_body]
fn vec_into_array<T, const N: usize>(v: Vec<T>) -> (r: Result<[T; N], Vec<T>>)
    ensures
        r is Ok <==> v@.len() == N,
        r matches Ok(a) ==> a@ == v@,
        r matches Err(w) ==> w@ == v@,
{
    <[T; N]>::try_from(v)
}

proof fn lemma_last_named_prefix(a: Seq<Seq<char>>, b: Seq<Seq<char>>, name: Seq<char>, n: int)
    requires
        n <= a.len(),
        n <= b.len(),
        forall|m: int| 0 <= m < n ==> a[m] == b[m],
    ensures
        last_named(a, name, n) == last_named(b, name, n),
    decreases n,
{
    if n > 0 {
        lemma_last_named_prefix(a, b, name, n - 1);
    }
}

proof fn lemma_last_named_bound(names: Seq<Seq<char>>, name: Seq<char>, n: int)
    ensures
        last_named(names, name, n) matches Some(m) ==> 0 <= m < n && names[m] == name,
    decreases n,
{
    if n > 0 {
        lemma_last_named_bound(names, name, n - 1);
    }
}

proof fn lemma_joints_error_sticky<T>(robot: UrdfRobot<T>, n: int, m: int)
    requires
        0 <= n <= m,
        joints_error(robot, n) is Some,
    ensures
        joints_error(robot, m) == joints_error(robot, n),
    decreases m - n,
{
    if n < m {
        lemma_joints_error_sticky(robot, n, m - 1);
    }
}

proof fn lemma_movable_count<T>(robot: UrdfRobot<T>, n: int)
    requires
        0 <= n <= robot.joints@.len(),
        n < usize::MAX,
    ensures
        urdf_movable(robot, n).len() == count_non_fixed(robot.joints@.take(n)),
        forall|i: int| 0 <= i < urdf_movable(robot, n).len() ==> 1 <= #[trigger] urdf_movable(robot, n)[i] <= n,
    decreases n,
{
    if n > 0 {
        lemma_movable_count(robot, n - 1);
        assert(robot.joints@.take(n).drop_last() =~= robot.joints@.take(n - 1));
    }
}

proof fn lemma_movable_increasing<T>(robot: UrdfRobot<T>, n: int)
    requires
        0 <= n <= robot.joints@.len(),
        n < usize::MAX,
    ensures
        forall|a: int, b: int|
            0 <= a < b < urdf_movable(robot, n).len() ==> #[trigger] urdf_movable(robot, n)[a] < #[trigger] urdf_movable(robot, n)[b],
        forall|k: int|
            1 <= k <= n ==> (urdf_movable(robot, n).contains(k as NodeIDx) <==> !((#[trigger] robot.joints@[k - 1]).kind is Fixed)),
        !urdf_movable(robot, n).contains(0),
    decreases n,
{
    lemma_movable_count(robot, n);
    if n > 0 {
        lemma_movable_increasing(robot, n - 1);
        lemma_movable_count(robot, n - 1);
        let prev = urdf_movable(robot, n - 1);
        assert forall|k: int|
            1 <= k <= n implies (urdf_movable(robot, n).contains(k as NodeIDx) <==> !((#[trigger] robot.joints@[k - 1]).kind is Fixed)) by {
            if k < n {
                if urdf_movable(robot, n).contains(k as NodeIDx) && robot.joints@[n - 1].kind !is Fixed {
                    let i = choose|i: int| 0 <= i < urdf_movable(robot, n).len() && urdf_movable(robot, n)[i] == k as NodeIDx;
                    if i == prev.len() {
                        assert(urdf_movable(robot, n)[i] == n as NodeIDx);
                    } else {
                        assert(prev[i] == urdf_movable(robot, n)[i]);
                    }
                }
                if prev.contains(k as NodeIDx) && robot.joints@[n - 1].kind !is Fixed {
                    let i = choose|i: int| 0 <= i < prev.len() && prev[i] == k as NodeIDx;
                    assert(urdf_movable(robot, n)[i] == k as NodeIDx);
                }
            } else {
                if robot.joints@[n - 1].kind !is Fixed {
                    assert(urdf_movable(robot, n)[prev.len() as int] == n as NodeIDx);
                }
            }
        }
        if urdf_movable(robot, n).contains(0) && robot.joints@[n - 1].kind !is Fixed {
            let i = choose|i: int| 0 <= i < urdf_movable(robot, n).len() && urdf_movable(robot, n)[i] == 0;
            if i < prev.len() {
                assert(prev[i] == 0);
            }
        }
    }
}

/// A chain built from a URDF robot without error is well formed and in
/// topological order: node 0 is the only root, every other node hangs from
/// an earlier node, and the movable slots name, in increasing order, exactly
/// the nodes whose joint is not fixed.
pub proof fn lemma_urdf_chain_shape<const DOF: usize, const JOINTS: usize, T: JointScalar>(
    chain: Chain<DOF, JOINTS, T>,
    robot: UrdfRobot<T>,
    zero: T,
    identity: Isometry3<T>,
)
    requires
        urdf_error(robot, DOF as int, JOINTS as int) is None,
        is_urdf_chain(chain, robot, zero, identity),
    ensures
        chain.wf(),
        chain.parents_in_range(),
        chain.is_topological(),
        forall|k: int| 0 <= k < JOINTS ==> ((#[trigger] chain.node_seq()[k]).parent is None <==> k == 0),
        forall|a: int, b: int| 0 <= a < b < DOF ==> #[trigger] chain.movable()[a] < #[trigger] chain.movable()[b],
        distinct_slots(chain.movable()),
        forall|k: int|
            0 <= k < JOINTS ==> (chain.movable().contains(k as NodeIDx) <==> !((#[trigger] chain.node_seq()[k]).joint.joint_type is Fixed)),
{
    let n = robot.joints@.len() as int;
    lemma_movable_count(robot, n);
    lemma_movable_increasing(robot, n);
    assert(robot.joints@.take(n) =~= robot.joints@);
    assert forall|k: int| 1 <= k < JOINTS implies (#[trigger] chain.node_seq()[k]).parent->0 < k by {
        lemma_last_named_bound(node_links(robot), robot.joints@[k - 1].parent_link@, k);
    }
    assert forall|k: int| 1 <= k < JOINTS implies
        (#[trigger] chain.node_seq()[k]).joint.joint_type is Fixed <==> robot.joints@[k - 1].kind is Fixed by {
        lemma_no_joint_error(robot, n, k - 1);
    }
    assert forall|a: int, b: int| 0 <= a < DOF && 0 <= b < DOF && a != b implies chain.movable()[a] != chain.movable()[b] by {
        if a < b {
            assert(chain.movable()[a] < chain.movable()[b]);
        } else {
            assert(chain.movable()[b] < chain.movable()[a]);
        }
    }
}

/// A serial chain built from a URDF robot is well formed and in
/// topological order: node 0 is the only root, node `k` hangs from node
/// `k - 1`, and the movable slots name, in increasing order, exactly the
/// nodes whose joint is not fixed.
pub proof fn lemma_serial_chain_shape<const DOF: usize, const JOINTS: usize, T: JointScalar>(
    chain: Chain<DOF, JOINTS, T>,
    robot: UrdfRobot<T>,
    zero: T,
    identity: Isometry3<T>,
)
    requires
        is_serial_chain(chain, robot, zero, identity),
    ensures
        chain.wf(),
        chain.parents_in_range(),
        chain.is_topological(),
        forall|k: int| 0 <= k < JOINTS ==> ((#[trigger] chain.node_seq()[k]).parent is None <==> k == 0),
        forall|a: int, b: int| 0 <= a < b < DOF ==> #[trigger] chain.movable()[a] < #[trigger] chain.movable()[b],
        distinct_slots(chain.movable()),
        forall|k: int|
            0 <= k < JOINTS ==> (chain.movable().contains(k as NodeIDx) <==> !((#[trigger] chain.node_seq()[k]).joint.joint_type is Fixed)),
{
    let n = robot.joints@.len() as int;
    chain.lemma_sizes();
    lemma_movable_count(robot, n);
    lemma_movable_increasing(robot, n);
    assert forall|k: int| 1 <= k < JOINTS implies
        (#[trigger] chain.node_seq()[k]).joint.joint_type is Fixed <==> robot.joints@[k - 1].kind is Fixed by {
        assert(is_serial_node(chain.node_seq()[k], robot, k, zero, identity));
    }
    assert forall|a: int, b: int| 0 <= a < DOF && 0 <= b < DOF && a != b implies chain.movable()[a] != chain.movable()[b] by {
        if a < b {
            assert(chain.movable()[a] < chain.movable()[b]);
        } else {
            assert(chain.movable()[b] < chain.movable()[a]);
        }
    }
}

proof fn lemma_last_named_meaning(names: Seq<Seq<char>>, name: Seq<char>, n: int)
    requires
        0 <= n <= names.len(),
    ensures
        last_named(names, name, n) is None <==> (forall|m: int| 0 <= m < n ==> names[m] != name),
        last_named(names, name, n) matches Some(i) ==> 0 <= i < n && names[i] == name && (forall|j: int|
            i < j < n ==> names[j] != name),
    decreases n,
{
    if n > 0 {
        lemma_last_named_meaning(names, name, n - 1);
    }
}

/// Every node built from a URDF robot without error carries its own joint.
/// The root has no parent, is named after the first link with `_root`
/// appended, is fixed, and holds `zero` and `identity`. Node `k >= 1` has
/// the name, origin and limits of URDF joint `k - 1`, whatever its kind; a
/// revolute or prismatic joint keeps its own axis and a fixed joint stays
/// fixed; its position is `zero` and its world pose `identity`; and it hangs
/// from the latest node before it that stands for the joint's parent link.
pub proof fn lemma_urdf_nodes_carry_their_joints<T: JointScalar>(
    nodes: Seq<Node<T>>,
    robot: UrdfRobot<T>,
    zero: T,
    identity: Isometry3<T>,
)
    requires
        robot.links@.len() >= 1,
        robot.joints@.len() < usize::MAX,
        joints_error(robot, robot.joints@.len() as int) is None,
        is_urdf_node_seq(nodes, robot, zero, identity),
    ensures
        nodes.len() == robot.joints@.len() + 1,
        nodes[0].parent is None,
        nodes[0].joint.name@ == robot.links@[0]@ + "_root"@,
        nodes[0].joint.joint_type is Fixed,
        nodes[0].joint.pos == zero,
        nodes[0].joint.limits == (JointLimit { min: zero, max: zero, velocity: zero, effort: zero }),
        nodes[0].joint.origin == identity,
        nodes[0].world_transform == identity,
        forall|k: int|
            1 <= k < nodes.len() ==> {
                let j = robot.joints@[k - 1];
                let node = #[trigger] nodes[k];
                &&& node.joint.name == j.name
                &&& node.joint.origin == j.origin
                &&& node.joint.limits == j.limits
                &&& node.joint.pos == zero
                &&& node.world_transform == identity
                &&& (j.kind is Revolute ==> node.joint.joint_type == JointType::Revolute { axis: j.axis })
                &&& (j.kind is Prismatic ==> node.joint.joint_type == JointType::Prismatic { axis: j.axis })
                &&& (j.kind is Fixed ==> node.joint.joint_type is Fixed)
                &&& (j.kind is Revolute || j.kind is Prismatic || j.kind is Fixed)
                &&& node.parent is Some
                &&& node.parent->0 < k
                &&& node_link(robot, node.parent->0 as int) == j.parent_link@
                &&& forall|m: int| node.parent->0 < m < k ==> node_link(robot, m) != j.parent_link@
            },
{
    let n = robot.joints@.len() as int;
    assert forall|k: int| 1 <= k < nodes.len() implies {
        let j = robot.joints@[k - 1];
        let node = #[trigger] nodes[k];
        &&& (j.kind is Revolute || j.kind is Prismatic || j.kind is Fixed)
        &&& node.parent->0 < k
        &&& node_link(robot, node.parent->0 as int) == j.parent_link@
        &&& forall|m: int| node.parent->0 < m < k ==> node_link(robot, m) != j.parent_link@
    } by {
        lemma_no_joint_error(robot, n, k - 1);
        lemma_last_named_meaning(node_links(robot), robot.joints@[k - 1].parent_link@, k);
        assert(is_urdf_node(nodes[k], robot, k, zero, identity));
        let p = urdf_parent(robot, k)->0;
        assert(nodes[k].parent->0 as int == p);
        assert(node_links(robot)[p] == node_link(robot, p));
        assert forall|m: int| p < m < k implies node_link(robot, m) != robot.joints@[k - 1].parent_link@ by {
            assert(node_links(robot)[m] == node_link(robot, m));
            assert(node_links(robot)[m] != robot.joints@[k - 1].parent_link@);
        }
    }
}

/// Every node of a serial chain built from a URDF robot carries its own
/// joint: node `k >= 1` hangs from node `k - 1`, has the name, origin and
/// limits of URDF joint `k - 1`, is fixed where that joint is fixed and is
/// otherwise revolute about that joint's own axis; its position is `zero`
/// and its world pose `identity`.
pub proof fn lemma_serial_nodes_carry_their_joints<const DOF: usize, const JOINTS: usize, T: JointScalar>(
    chain: Chain<DOF, JOINTS, T>,
    robot: UrdfRobot<T>,
    zero: T,
    identity: Isometry3<T>,
)
    requires
        is_serial_chain(chain, robot, zero, identity),
    ensures
        forall|k: int|
            1 <= k < JOINTS ==> {
                let j = robot.joints@[k - 1];
                let node = #[trigger] chain.node_seq()[k];
                &&& node.parent == Some((k - 1) as NodeIDx)
                &&& node.joint.name == j.name
                &&& node.joint.origin == j.origin
                &&& node.joint.limits == j.limits
                &&& node.joint.pos == zero
                &&& node.world_transform == identity
                &&& (j.kind is Fixed ==> node.joint.joint_type is Fixed)
                &&& (!(j.kind is Fixed) ==> node.joint.joint_type == JointType::Revolute { axis: j.axis })
            },
{
    assert forall|k: int| 1 <= k < JOINTS implies {
        let j = robot.joints@[k - 1];
        let node = #[trigger] chain.node_seq()[k];
        &&& (j.kind is Fixed ==> node.joint.joint_type is Fixed)
        &&& (!(j.kind is Fixed) ==> node.joint.joint_type == JointType::Revolute { axis: j.axis })
    } by {
        assert(is_serial_node(chain.node_seq()[k], robot, k, zero, identity));
    }
}

/// The visuals of node `k` come from the last link named like the node's
/// link, when some link has that name and no earlier node stands for a link
/// of that name; otherwise the node carries none.
pub proof fn lemma_visual_source_meaning<T>(robot: UrdfRobot<T>, k: int)
    requires
        robot.links@.len() >= 1,
        0 <= k <= robot.joints@.len(),
    ensures
        (exists|m: int| 0 <= m < k && node_link(robot, m) == node_link(robot, k)) ==> visual_source(robot, k) is None,
        (forall|i: int| 0 <= i < robot.links@.len() ==> (#[trigger] robot.links@[i])@ != node_link(robot, k))
            ==> visual_source(robot, k) is None,
        (forall|m: int| 0 <= m < k ==> node_link(robot, m) != node_link(robot, k))
            && (exists|i: int| 0 <= i < robot.links@.len() && (#[trigger] robot.links@[i])@ == node_link(robot, k))
            ==> (visual_source(robot, k) matches Some(i) && 0 <= i < robot.links@.len()
                && robot.links@[i]@ == node_link(robot, k)
                && (forall|j: int| i < j < robot.links@.len() ==> robot.links@[j]@ != node_link(robot, k))),
{
    let name = node_link(robot, k);
    let views = name_views(robot.links@);
    lemma_last_named_meaning(node_links(robot), name, k);
    lemma_last_named_meaning(views, name, robot.links@.len() as int);
    assert forall|m: int| 0 <= m < k implies node_links(robot)[m] == node_link(robot, m) by {}
    assert forall|i: int| 0 <= i < robot.links@.len() implies views[i] == robot.links@[i]@ by {}
    if exists|m: int| 0 <= m < k && node_link(robot, m) == name {
        let m = choose|m: int| 0 <= m < k && node_link(robot, m) == name;
        assert(node_links(robot)[m] == name);
    }
    if exists|i: int| 0 <= i < robot.links@.len() && (#[trigger] robot.links@[i])@ == name {
        let i = choose|i: int| 0 <= i < robot.links@.len() && (#[trigger] robot.links@[i])@ == name;
        assert(views[i] == name);
        if forall|m: int| 0 <= m < k ==> node_link(robot, m) != name {
            assert forall|m: int| 0 <= m < k implies node_links(robot)[m] != name by {
                assert(node_links(robot)[m] == node_link(robot, m));
            }
            let found = last_named(views, name, robot.links@.len() as int)->0;
            assert forall|j: int| found < j < robot.links@.len() implies robot.links@[j]@ != name by {
                assert(views[j] == robot.links@[j]@);
                assert(views[j] != name);
            }
        }
    }
}

proof fn lemma_joints_error_some<T>(robot: UrdfRobot<T>, n: int)
    ensures
        joints_error(robot, n) matches Some(e) ==> exists|j: int| 0 <= j < n && joint_error(robot, j) == Some(e),
    decreases n,
{
    if n > 0 {
        lemma_joints_error_some(robot, n - 1);
    }
}

/// What each error of a URDF build means, in terms of the robot alone. A
/// link count other than `n_nodes` is reported first, as that count; an
/// unsupported joint type means some joint is neither fixed, revolute nor
/// prismatic; an unknown parent link means some joint's parent link is
/// the link of no node built before it. No error means the link count is
/// `n_nodes`, there is a link, every joint is fixed, revolute or prismatic,
/// and every joint's parent link is the link of an earlier node.
pub proof fn lemma_urdf_error_meaning<T>(robot: UrdfRobot<T>, dof: int, n_nodes: int)
    ensures
        robot.links@.len() != n_nodes ==> urdf_error(robot, dof, n_nodes) == Some(
            Error::NodeCountMismatch { got: robot.links@.len() as usize },
        ),
        urdf_error(robot, dof, n_nodes) == Some(Error::UnsupportedJointType) ==> exists|j: int|
            0 <= j < robot.joints@.len() && !((#[trigger] robot.joints@[j]).kind is Fixed
                || robot.joints@[j].kind is Revolute || robot.joints@[j].kind is Prismatic),
        urdf_error(robot, dof, n_nodes) == Some(Error::UnknownParentLink) ==> exists|j: int|
            0 <= j < robot.joints@.len() && forall|m: int|
                0 <= m <= j ==> node_link(robot, m) != (#[trigger] robot.joints@[j]).parent_link@,
        urdf_error(robot, dof, n_nodes) is None ==> {
            &&& robot.links@.len() == n_nodes
            &&& robot.links@.len() >= 1
            &&& forall|j: int|
                0 <= j < robot.joints@.len() ==> {
                    let kind = (#[trigger] robot.joints@[j]).kind;
                    &&& (kind is Fixed || kind is Revolute || kind is Prismatic)
                    &&& exists|m: int| 0 <= m <= j && node_link(robot, m) == robot.joints@[j].parent_link@
                }
        },
{
    let n = robot.joints@.len() as int;
    if robot.links@.len() == n_nodes && count_non_fixed(robot.joints@) == dof && robot.links@.len() != 0 {
        lemma_joints_error_some(robot, n);
        if let Some(e) = joints_error(robot, n) {
            let j = choose|j: int| 0 <= j < n && joint_error(robot, j) == Some(e);
            if e == Error::UnknownParentLink {
                let name = robot.joints@[j].parent_link@;
                lemma_last_named_meaning(node_links(robot), name, j + 1);
                assert forall|m: int| 0 <= m <= j implies node_link(robot, m) != name by {
                    assert(node_links(robot)[m] == node_link(robot, m));
                }
            }
        } else {
            assert forall|j: int| 0 <= j < n implies {
                let kind = (#[trigger] robot.joints@[j]).kind;
                &&& (kind is Fixed || kind is Revolute || kind is Prismatic)
                &&& exists|m: int| 0 <= m <= j && node_link(robot, m) == robot.joints@[j].parent_link@
            } by {
                lemma_no_joint_error(robot, n, j);
                let name = robot.joints@[j].parent_link@;
                lemma_last_named_meaning(node_links(robot), name, j + 1);
                let m = last_named(node_links(robot), name, j + 1)->0;
                assert(node_links(robot)[m] == node_link(robot, m));
            }
        }
    }
}

proof fn lemma_no_joint_error<T>(robot: UrdfRobot<T>, n: int, j: int)
    requires
        0 <= j < n,
        joints_error(robot, n) is None,
    ensures
        joint_error(robot, j) is None,
    decreases n,
{
    if j < n - 1 {
        lemma_no_joint_error(robot, n - 1, j);
    }
}

/// Joint kinds that a serial chain accepts: fixed, revolute and
/// continuous (built as revolute).
pub open spec fn serial_kind_ok(kind: UrdfJointKind) -> bool {
    kind is Fixed || kind is Revolute || kind is Continuous
}

/// The error, if any, that building a serial chain of `dof` movable joints
/// and `n_nodes` nodes from `robot` reports.
pub open spec fn serial_error<T>(robot: UrdfRobot<T>, dof: int, n_nodes: int) -> Option<Error> {
    if exists|j: int| 0 <= j < robot.joints@.len() && !serial_kind_ok(#[trigger] robot.joints@[j].kind) {
        Some(Error::UnsupportedJointType)
    } else if robot.joints@.len() + 1 != n_nodes {
        Some(Error::NodeCountMismatch { got: (robot.joints@.len() + 1) as usize })
    } else if count_non_fixed(robot.joints@) != dof {
        Some(Error::MovableCountMismatch { got: count_non_fixed(robot.joints@) as usize })
    } else {
        None
    }
}

/// Node `k` (`k >= 1`) of the serial chain built from `robot`: joint
/// `k - 1`, hung from node `k - 1`.
pub open spec fn is_serial_node<T: JointScalar>(node: Node<T>, robot: UrdfRobot<T>, k: int, zero: T, identity: Isometry3<T>) -> bool {
    let j = robot.joints@[k - 1];
    &&& node.parent == Some((k - 1) as NodeIDx)
    &&& node.joint.name == j.name
    &&& node.joint.joint_type == (if j.kind is Fixed {
        JointType::Fixed
    } else {
        JointType::Revolute { axis: j.axis }
    })
    &&& node.joint.pos == zero
    &&& node.joint.limits == j.limits
    &&& node.joint.origin == j.origin
    &&& node.world_transform == identity
}

/// The nodes and movable slots of `chain` are those of the serial chain
/// built from `robot`: a fixed root, then one node per joint, each hung
/// from the node before it; the movable slots are the non-fixed joints.
pub open spec fn is_serial_chain<const DOF: usize, const JOINTS: usize, T: JointScalar>(
    chain: Chain<DOF, JOINTS, T>,
    robot: UrdfRobot<T>,
    zero: T,
    identity: Isometry3<T>,
) -> bool {
    &&& chain.node_seq().len() == JOINTS
    &&& JOINTS == robot.joints@.len() + 1
    &&& chain.node_seq()[0].parent is None
    &&& chain.node_seq()[0].joint.name@ == Seq::<char>::empty()
    &&& chain.node_seq()[0].joint.joint_type is Fixed
    &&& chain.node_seq()[0].joint.pos == zero
    &&& chain.node_seq()[0].joint.limits == (JointLimit { min: zero, max: zero, velocity: zero, effort: zero })
    &&& chain.node_seq()[0].joint.origin == identity
    &&& chain.node_seq()[0].world_transform == identity
    &&& forall|k: int| 1 <= k < JOINTS ==> is_serial_node(#[trigger] chain.node_seq()[k], robot, k, zero, identity)
    &&& chain.movable() == urdf_movable(robot, robot.joints@.len() as int)
}

/// The link whose visuals node `k` carries: the last link named like the
/// node's link, unless an earlier node stands for a link of that name and
/// has taken them already.
pub open spec fn visual_source<T>(robot: UrdfRobot<T>, k: int) -> Option<int> {
    if last_named(node_links(robot), node_link(robot, k), k) is Some {
        None
    } else {
        last_named(name_views(robot.links@), node_link(robot, k), robot.links@.len() as int)
    }
}

impl<T> UrdfRobot<T> {
    /// For every node of the chain built from this robot, in node order, the
    /// index of the link whose visuals it carries, if any.
    pub fn visual_sources(&self) -> (r: Vec<Option<usize>>)
        requires
            self.links@.len() >= 1,
            self.joints@.len() < usize::MAX,
        ensures
            r@.len() == self.joints@.len() + 1,
            forall|k: int|
                0 <= k <= self.joints@.len() ==> match #[trigger] r@[k] {
                    None => visual_source(*self, k) is None,
                    Some(i) => visual_source(*self, k) == Some(i as int),
                },
            forall|k: int|
                0 <= k <= self.joints@.len() && (exists|m: int| 0 <= m < k && node_link(*self, m) == node_link(*self, k))
                    ==> #[trigger] r@[k] is None,
            forall|k: int|
                0 <= k <= self.joints@.len() && (forall|i: int| 0 <= i < self.links@.len() ==> self.links@[i]@ != node_link(*self, k))
                    ==> #[trigger] r@[k] is None,
            forall|k: int|
                0 <= k <= self.joints@.len() && (forall|m: int| 0 <= m < k ==> node_link(*self, m) != node_link(*self, k))
                    && (exists|i: int| 0 <= i < self.links@.len() && self.links@[i]@ == node_link(*self, k))
                    ==> (#[trigger] r@[k] matches Some(i) && i < self.links@.len() && self.links@[i as int]@ == node_link(*self, k)
                        && (forall|j: int| i < j < self.links@.len() ==> self.links@[j]@ != node_link(*self, k))),
    {
        let ghost links = node_links(*self);
        let mut claimed: Vec<String> = Vec::new();
        let mut r: Vec<Option<usize>> = Vec::new();
        let mut k: usize = 0;
        while k <= self.joints.len()
            invariant
                k <= self.joints@.len() + 1,
                self.links@.len() >= 1,
                self.joints@.len() < usize::MAX,
                links == node_links(*self),
                claimed@.len() == k,
                r@.len() == k,
                forall|m: int| 0 <= m < k ==> #[trigger] name_views(claimed@)[m] == links[m],
                forall|m: int|
                    0 <= m < k ==> match #[trigger] r@[m] {
                        None => visual_source(*self, m) is None,
                        Some(i) => visual_source(*self, m) == Some(i as int),
                    },
            decreases self.joints@.len() + 1 - k,
        {
            let name = if k == 0 {
                self.links[0].clone()
            } else {
                self.joints[k - 1].child_link.clone()
            };
            assert(name@ == links[k as int]);
            let earlier = find_last_named(&claimed, &name);
            proof {
                lemma_last_named_prefix(name_views(claimed@), links, name@, k as int);
            }
            let source = match earlier {
                Some(_) => None,
                None => find_last_named(&self.links, &name),
            };
            let ghost before = claimed@;
            claimed.push(name);
            proof {
                assert(name_views(claimed@) =~= name_views(before).push(links[k as int]));
            }
            r.push(source);
            k += 1;
        }
        proof {
            assert forall|k: int| 0 <= k <= self.joints@.len() implies {
                &&& (exists|m: int| 0 <= m < k && node_link(*self, m) == node_link(*self, k)) ==> visual_source(*self, k) is None
                &&& (forall|i: int| 0 <= i < self.links@.len() ==> (#[trigger] self.links@[i])@ != node_link(*self, k))
                    ==> visual_source(*self, k) is None
                &&& (forall|m: int| 0 <= m < k ==> node_link(*self, m) != node_link(*self, k))
                    && (exists|i: int| 0 <= i < self.links@.len() && (#[trigger] self.links@[i])@ == node_link(*self, k))
                    ==> (visual_source(*self, k) matches Some(i) && 0 <= i < self.links@.len()
                        && self.links@[i]@ == node_link(*self, k)
                        && (forall|j: int| i < j < self.links@.len() ==> self.links@[j]@ != node_link(*self, k)))
            } by {
                lemma_visual_source_meaning(*self, k);
            }
        }
        r
    }
}

impl<T: JointScalar + Copy> UrdfRobot<T> {
    /// The nodes and movable slots of a chain of `dof` movable joints and
    /// `n_nodes` nodes built from this robot: the first link becomes the
    /// fixed root node, and every joint, in document order, becomes the node
    /// of its child link, hung from the latest node built for its parent
    /// link. The non-fixed joints become the movable slots, in document
    /// order. `zero` fills joint positions and root limits; `identity` fills
    /// the root origin and every world transform. The checks compare the
    /// link count with `n_nodes`; one node is built per joint, plus the root.
    pub fn chain_nodes(&self, dof: usize, n_nodes: usize, zero: T, identity: Isometry3<T>) -> (r: Result<
        (Vec<Node<T>>, Vec<NodeIDx>),
        Error,
    >)
        requires
            self.joints@.len() < usize::MAX,
        ensures
            r is Err <==> urdf_error(*self, dof as int, n_nodes as int) is Some,
            r matches Err(e) ==> urdf_error(*self, dof as int, n_nodes as int) == Some(e),
            r matches Ok((nodes, movable)) ==> is_urdf_node_seq(nodes@, *self, zero, identity)
                && movable@ == urdf_movable(*self, self.joints@.len() as int) && movable@.len() == dof,
            self.links@.len() != n_nodes ==> r == Err::<(Vec<Node<T>>, Vec<NodeIDx>), Error>(
                Error::NodeCountMismatch { got: self.links@.len() as usize },
            ),
            r == Err::<(Vec<Node<T>>, Vec<NodeIDx>), Error>(Error::UnsupportedJointType) ==> (exists|j: int|
                0 <= j < self.joints@.len() && !((#[trigger] self.joints@[j]).kind is Fixed
                    || self.joints@[j].kind is Revolute || self.joints@[j].kind is Prismatic)),
            r == Err::<(Vec<Node<T>>, Vec<NodeIDx>), Error>(Error::UnknownParentLink) ==> (exists|j: int|
                0 <= j < self.joints@.len() && (forall|m: int|
                    0 <= m <= j ==> node_link(*self, m) != (#[trigger] self.joints@[j]).parent_link@)),
            r is Ok ==> self.links@.len() == n_nodes && (forall|j: int|
                0 <= j < self.joints@.len() ==> ((#[trigger] self.joints@[j]).kind is Fixed
                    || self.joints@[j].kind is Revolute || self.joints@[j].kind is Prismatic)),
            r is Ok ==> (forall|j: int|
                0 <= j < self.joints@.len() ==> (exists|m: int|
                    0 <= m <= j && node_link(*self, m) == (#[trigger] self.joints@[j]).parent_link@)),
            r matches Ok((nodes, movable)) ==> (forall|a: int, b: int|
                0 <= a < b < movable@.len() ==> #[trigger] movable@[a] < #[trigger] movable@[b]),
            r matches Ok((nodes, movable)) ==> !movable@.contains(0),
            r matches Ok((nodes, movable)) ==> (forall|k: int|
                1 <= k <= self.joints@.len() ==> (movable@.contains(k as NodeIDx)
                    <==> !((#[trigger] self.joints@[k - 1]).kind is Fixed))),
            r matches Ok((nodes, movable)) ==> (forall|k: int|
                1 <= k < nodes@.len() ==> (#[trigger] nodes@[k]).joint.name == self.joints@[k - 1].name
                    && nodes@[k].joint.origin == self.joints@[k - 1].origin
                    && nodes@[k].joint.limits == self.joints@[k - 1].limits),
            r matches Ok((nodes, movable)) ==> (forall|k: int|
                1 <= k < nodes@.len() && self.joints@[k - 1].kind is Revolute
                    ==> (#[trigger] nodes@[k]).joint.joint_type == JointType::Revolute { axis: self.joints@[k - 1].axis }),
            r matches Ok((nodes, movable)) ==> (forall|k: int|
                1 <= k < nodes@.len() && self.joints@[k - 1].kind is Prismatic
                    ==> (#[trigger] nodes@[k]).joint.joint_type == JointType::Prismatic { axis: self.joints@[k - 1].axis }),
            r matches Ok((nodes, movable)) ==> (forall|k: int|
                1 <= k < nodes@.len() && self.joints@[k - 1].kind is Fixed ==> (#[trigger] nodes@[k]).joint.joint_type is Fixed),
    {
        proof {
            lemma_urdf_error_meaning(*self, dof as int, n_nodes as int);
        }
        if self.links.len() != n_nodes {
            return Err(Error::NodeCountMismatch { got: self.links.len() });
        }
        let movable_count = count_movable_joints(&self.joints);
        if movable_count != dof {
            return Err(Error::MovableCountMismatch { got: movable_count });
        }
        if self.links.len() == 0 {
            return Err(Error::NodeCountMismatch { got: 0 });
        }
        let ghost links = node_links(*self);
        let root_link = &self.links[0];
        let mut root_name = root_link.clone();
        root_name.append("_root");
        let mut nodes: Vec<Node<T>> = Vec::new();
        nodes.push(
            Node {
                parent: None,
                joint: Joint {
                    name: root_name,
                    joint_type: JointType::Fixed,
                    pos: zero,
                    limits: JointLimit { min: zero, max: zero, velocity: zero, effort: zero },
                    origin: identity,
                },
                world_transform: identity,
            },
        );
        let mut link_names: Vec<String> = Vec::new();
        link_names.push(root_link.clone());
        let mut movable: Vec<NodeIDx> = Vec::new();
        let mut j: usize = 0;
        proof {
            assert(name_views(link_names@)[0] == links[0]);
        }
        while j < self.joints.len()
            invariant
                j <= self.joints@.len(),
                self.links@.len() == n_nodes,
                n_nodes >= 1,
                count_non_fixed(self.joints@) == dof,
                joints_error(*self, j as int) is None,
                links == node_links(*self),
                nodes@.len() == j + 1,
                link_names@.len() == j + 1,
                forall|m: int| 0 <= m <= j ==> #[trigger] name_views(link_names@)[m] == links[m],
                is_urdf_root(nodes@[0], *self, zero, identity),
                forall|k: int| 1 <= k <= j ==> is_urdf_node(#[trigger] nodes@[k], *self, k, zero, identity),
                movable@ == urdf_movable(*self, j as int),
            decreases self.joints@.len() - j,
        {
            let joint = &self.joints[j];
            let joint_type = match joint.kind {
                UrdfJointKind::Fixed => JointType::Fixed,
                UrdfJointKind::Revolute => JointType::Revolute { axis: joint.axis },
                UrdfJointKind::Prismatic => JointType::Prismatic { axis: joint.axis },
                _ => {
                    proof {
                        lemma_joints_error_sticky(*self, j as int + 1, self.joints@.len() as int);
                    }
                    return Err(Error::UnsupportedJointType);
                },
            };
            let found = find_last_named(&link_names, &joint.parent_link);
            proof {
                lemma_last_named_prefix(name_views(link_names@), links, joint.parent_link@, j as int + 1);
            }
            let parent = match found {
                Some(p) => p,
                None => {
                    proof {
                        lemma_joints_error_sticky(*self, j as int + 1, self.joints@.len() as int);
                        lemma_last_named_meaning(links, joint.parent_link@, j as int + 1);
                        assert forall|m: int| 0 <= m <= j implies node_link(*self, m) != (
                        #[trigger] self.joints@[j as int]).parent_link@ by {
                            assert(links[m] == node_link(*self, m));
                        }
                    }
                    return Err(Error::UnknownParentLink);
                },
            };
            let node_idx = nodes.len();
            let is_movable = match joint.kind {
                UrdfJointKind::Fixed => false,
                _ => true,
            };
            nodes.push(
                Node {
                    parent: Some(parent),
                    joint: Joint {
                        name: joint.name.clone(),
                        joint_type,
                        pos: zero,
                        limits: joint.limits,
                        origin: joint.origin,
                    },
                    world_transform: identity,
                },
            );
            if is_movable {
                movable.push(node_idx);
            }
            let ghost before = link_names@;
            link_names.push(joint.child_link.clone());
            proof {
                assert(name_views(link_names@) =~= name_views(before).push(joint.child_link@));
                assert(name_views(link_names@)[j + 1] == links[j + 1]);
            }
            j += 1;
        }
        proof {
            lemma_movable_count(*self, self.joints@.len() as int);
            assert(self.joints@.take(self.joints@.len() as int) =~= self.joints@);
        }
        proof {
            lemma_urdf_nodes_carry_their_joints(nodes@, *self, zero, identity);
            lemma_movable_increasing(*self, self.joints@.len() as int);
        }
        Ok((nodes, movable))
    }
}

impl<const DOF: usize, const JOINTS: usize, T: JointScalar + Copy> Chain<DOF, JOINTS, T> {
    /// Builds a chain from a URDF robot: the nodes and movable slots of
    /// `UrdfRobot::chain_nodes`, where the robot's joints fill `JOINTS`
    /// nodes.
    pub fn try_from_urdf(robot: &UrdfRobot<T>, zero: T, identity: Isometry3<T>) -> (r: Result<Self, Error>)
        requires
            robot.joints@.len() < usize::MAX,
            urdf_error(*robot, DOF as int, JOINTS as int) is Some || robot.joints@.len() + 1 == JOINTS,
        ensures
            r is Err <==> urdf_error(*robot, DOF as int, JOINTS as int) is Some,
            r matches Err(e) ==> urdf_error(*robot, DOF as int, JOINTS as int) == Some(e),
            r matches Ok(c) ==> is_urdf_chain(c, *robot, zero, identity),
            r matches Ok(c) ==> c.wf() && c.parents_in_range() && c.is_topological() && distinct_slots(c.movable()),
            r matches Ok(c) ==> {
                forall|k: int|
                1 <= k < c.node_seq().len() ==> {
                    let j = robot.joints@[k - 1];
                    let node = #[trigger] c.node_seq()[k];
                    &&& node.joint.name == j.name
                    &&& node.joint.origin == j.origin
                    &&& node.joint.limits == j.limits
                    &&& (j.kind is Revolute ==> node.joint.joint_type == JointType::Revolute { axis: j.axis })
                    &&& (j.kind is Prismatic ==> node.joint.joint_type == JointType::Prismatic { axis: j.axis })
                    &&& (j.kind is Fixed ==> node.joint.joint_type is Fixed)
                }
            },
    {
        let (nodes, movable) = match robot.chain_nodes(DOF, JOINTS, zero, identity) {
            Ok(built) => built,
            Err(e) => {
                return Err(e);
            },
        };
        let nodes_arr: [Node<T>; JOINTS] = match vec_into_array(nodes) {
            Ok(a) => a,
            Err(_) => {
                proof {
                    assert(false);
                }
                return Err(Error::NodeCountMismatch { got: JOINTS });
            },
        };
        let movable_arr: [NodeIDx; DOF] = match vec_into_array(movable) {
            Ok(a) => a,
            Err(_) => {
                proof {
                    assert(false);
                }
                return Err(Error::MovableCountMismatch { got: DOF });
            },
        };
        let chain = Chain::new(nodes_arr, movable_arr);
        proof {
            chain.lemma_sizes();
            lemma_urdf_chain_shape(chain, *robot, zero, identity);
            lemma_urdf_nodes_carry_their_joints(chain.node_seq(), *robot, zero, identity);
        }
        Ok(chain)
    }

    /// Builds a serial chain from a URDF robot: a fixed root, then one node
    /// per joint in document order, each hung from the node before it.
    /// Revolute and continuous joints become revolute movable joints; a
    /// joint of any other non-fixed kind is refused.
    pub fn serial_from_urdf(robot: &UrdfRobot<T>, zero: T, identity: Isometry3<T>) -> (r: Result<Self, Error>)
        requires
            robot.joints@.len() < usize::MAX,
        ensures
            r is Err <==> serial_error(*robot, DOF as int, JOINTS as int) is Some,
            r matches Err(e) ==> serial_error(*robot, DOF as int, JOINTS as int) == Some(e),
            r matches Ok(c) ==> is_serial_chain(c, *robot, zero, identity),
            r matches Ok(c) ==> c.wf() && c.parents_in_range() && c.is_topological() && distinct_slots(c.movable()),
            r matches Ok(c) ==> forall|k: int|
                1 <= k < JOINTS ==> {
                    let j = robot.joints@[k - 1];
                    let node = #[trigger] c.node_seq()[k];
                    &&& node.parent == Some((k - 1) as NodeIDx)
                    &&& node.joint.name == j.name
                    &&& node.joint.origin == j.origin
                    &&& node.joint.limits == j.limits
                    &&& (j.kind is Fixed ==> node.joint.joint_type is Fixed)
                    &&& (!(j.kind is Fixed) ==> node.joint.joint_type == JointType::Revolute { axis: j.axis })
                },
    {
        let mut i: usize = 0;
        while i < robot.joints.len()
            invariant
                i <= robot.joints@.len(),
                forall|j: int| 0 <= j < i ==> serial_kind_ok(#[trigger] robot.joints@[j].kind),
            decreases robot.joints@.len() - i,
        {
            match robot.joints[i].kind {
                UrdfJointKind::Fixed | UrdfJointKind::Revolute | UrdfJointKind::Continuous => {},
                _ => {
                    return Err(Error::UnsupportedJointType);
                },
            }
            i += 1;
        }
        if robot.joints.len() + 1 != JOINTS {
            return Err(Error::NodeCountMismatch { got: robot.joints.len() + 1 });
        }
        let movable_count = count_movable_joints(&robot.joints);
        if movable_count != DOF {
            return Err(Error::MovableCountMismatch { got: movable_count });
        }
        let mut nodes: Vec<Node<T>> = Vec::new();
        nodes.push(
            Node {
                parent: None,
                joint: Joint {
                    name: String::new(),
                    joint_type: JointType::Fixed,
                    pos: zero,
                    limits: JointLimit { min: zero, max: zero, velocity: zero, effort: zero },
                    origin: identity,
                },
                world_transform: identity,
            },
        );
        let mut movable: Vec<NodeIDx> = Vec::new();
        let mut j: usize = 0;
        while j < robot.joints.len()
            invariant
                j <= robot.joints@.len(),
                robot.joints@.len() + 1 == JOINTS,
                nodes@.len() == j + 1,
                nodes@[0].parent is None,
                nodes@[0].joint.name@ == Seq::<char>::empty(),
                nodes@[0].joint.joint_type is Fixed,
                nodes@[0].joint.pos == zero,
                nodes@[0].joint.limits == (JointLimit { min: zero, max: zero, velocity: zero, effort: zero }),
                nodes@[0].joint.origin == identity,
                nodes@[0].world_transform == identity,
                forall|k: int| 1 <= k <= j ==> is_serial_node(#[trigger] nodes@[k], *robot, k, zero, identity),
                movable@ == urdf_movable(*robot, j as int),
            decreases robot.joints@.len() - j,
        {
            let joint = &robot.joints[j];
            let (joint_type, is_movable) = match joint.kind {
                UrdfJointKind::Fixed => (JointType::Fixed, false),
                _ => (JointType::Revolute { axis: joint.axis }, true),
            };
            nodes.push(
                Node {
                    parent: Some(j),
                    joint: Joint {
                        name: joint.name.clone(),
                        joint_type,
                        pos: zero,
                        limits: joint.limits,
                        origin: joint.origin,
                    },
                    world_transform: identity,
                },
            );
            if is_movable {
                movable.push(j + 1);
            }
            j += 1;
        }
        proof {
            lemma_movable_count(*robot, robot.joints@.len() as int);
            assert(robot.joints@.take(robot.joints@.len() as int) =~= robot.joints@);
        }
        let nodes_arr: [Node<T>; JOINTS] = match vec_into_array(nodes) {
            Ok(a) => a,
            Err(_) => {
                proof {
                    assert(false);
                }
                return Err(Error::NodeCountMismatch { got: JOINTS });
            },
        };
        let movable_arr: [NodeIDx; DOF] = match vec_into_array(movable) {
            Ok(a) => a,
            Err(_) => {
                proof {
                    assert(false);
                }
                return Err(Error::MovableCountMismatch { got: DOF });
            },
        };
        let chain = Chain::new(nodes_arr, movable_arr);
        proof {
            lemma_serial_chain_shape(chain, *robot, zero, identity);
            lemma_serial_nodes_carry_their_joints(chain, *robot, zero, identity);
        }
        Ok(chain)
    }
}

} // verus!
