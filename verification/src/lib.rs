pub mod joint;
pub mod kinematics;
pub mod nalgebra_types;
pub mod node;
pub mod urdf;

use vstd::prelude::*;

verus! {

/// Errors reported while assembling a chain.
#[derive(Debug, Clone, Copy, PartialEq, Eq, Structural)]
pub enum Error {
    NodeCountMismatch { got: usize },
    MovableCountMismatch { got: usize },
    UnknownParentLink,
    UnsupportedJointType,
}

} // verus!
