use vstd::prelude::*;

verus! {

// The nalgebra types that joints and nodes hold. Each is declared opaque:
// the library carries values of them through without reading inside.

/// `nalgebra::Unit`, the wrapper of a unit-length value (joint axes).
#[verifier::external_type_specification]
#[verifier::external_body]
#[verifier::reject_recursive_types(T)]
pub struct ExUnit<T>(nalgebra::Unit<T>);

/// `nalgebra::Quaternion`, the rotation part of an isometry.
#[verifier::external_type_specification]
#[verifier::external_body]
#[verifier::reject_recursive_types(T)]
pub struct ExQuaternion<T>(nalgebra::Quaternion<T>);

/// `nalgebra::Isometry`, a rigid transform (joint origins and world poses).
#[verifier::external_type_specification]
#[verifier::external_body]
#[verifier::reject_recursive_types(T)]
#[verifier::reject_recursive_types(R)]
pub struct ExIsometry<T, R, const D: usize>(nalgebra::Isometry<T, R, D>);

/// `nalgebra::Matrix`, which vectors such as `Vector3` are.
#[verifier::external_type_specification]
#[verifier::external_body]
#[verifier::reject_recursive_types(T)]
#[verifier::reject_recursive_types(R)]
#[verifier::reject_recursive_types(C)]
#[verifier::reject_recursive_types(S)]
pub struct ExMatrix<T, R, C, S>(nalgebra::Matrix<T, R, C, S>);

/// `nalgebra::Const`, a dimension known at compile time.
#[verifier::external_type_specification]
#[verifier::external_body]
pub struct ExConst<const R: usize>(nalgebra::Const<R>);

/// `nalgebra::ArrayStorage`, the storage of a fixed-size matrix.
#[verifier::external_type_specification]
#[verifier::external_body]
#[verifier::reject_recursive_types(T)]
pub struct ExArrayStorage<T, const R: usize, const C: usize>(nalgebra::ArrayStorage<T, R, C>);

} // verus!
