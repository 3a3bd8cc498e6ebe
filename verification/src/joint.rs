use nalgebra::{Isometry3, Unit, Vector3};
use vstd::prelude::*;

verus! {

/// The scalars that joints hold: values that can be cloned, compared and
/// printed and that borrow nothing, which is what nalgebra asks of a vector
/// before it compares two of them.
pub trait JointScalar: Clone + PartialEq + core::fmt::Debug + 'static {}

impl<T: Clone + PartialEq + core::fmt::Debug + 'static> JointScalar for T {}

/// Limits of a joint.
#[derive(Debug, Default, Clone, Copy)]
pub struct JointLimit<T> {
    /// Radians
    pub min: T,
    /// Radians
    pub max: T,
    /// Radians per second
    pub velocity: T,
    /// Newton metres
    pub effort: T,
}

/// How a joint moves its child relative to its parent.
#[derive(Debug, PartialEq)]
#[verifier::reject_recursive_types(T)]
pub enum JointType<T: JointScalar> {
    Fixed,
    Revolute { axis: Unit<Vector3<T>> },
    Prismatic { axis: Unit<Vector3<T>> },
}

/// A joint: its type, its position, its limits and its fixed origin
/// relative to the parent node.
#[derive(Debug)]
#[verifier::reject_recursive_types(T)]
pub struct Joint<T: JointScalar> {
    pub name: String,
    pub joint_type: JointType<T>,
    pub pos: T,
    pub limits: JointLimit<T>,
    pub origin: Isometry3<T>,
}

} // verus!
