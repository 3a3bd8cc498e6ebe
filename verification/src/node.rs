use nalgebra::Isometry3;
use vstd::prelude::*;

use crate::joint::{Joint, JointScalar};

verus! {

/// Index of a node inside a chain.
pub type NodeIDx = usize;

/// One node of a kinematic chain: the joint that connects it to its parent
/// and its pose in the world frame.
#[derive(Debug)]
#[verifier::reject_recursive_types(T)]
pub struct Node<T: JointScalar> {
    pub parent: Option<NodeIDx>,
    pub joint: Joint<T>,
    pub world_transform: Isometry3<T>,
}

} // verus!
