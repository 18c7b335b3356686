//! The linear-algebra values that components carry, and the operations of
//! `nalgebra` / `nalgebra_glm` that the library applies to them.
//!
//! Vectors, quaternions and matrices are opaque here: the library stores them,
//! hands them to the operations below and stores what comes back. Each
//! operation is trusted to be a function of its arguments, which is what the
//! uninterpreted spec functions of this module name.

use vstd::prelude::*;
use nalgebra_glm::{Mat4, Quat, Vec3};

verus! {

/// `nalgebra::Matrix`, the type behind `Vec2`, `Vec3`, `Vec4` and `Mat4`.
#[verifier::external_type_specification]
#[verifier::external_body]
#[verifier::reject_recursive_types(T)]
#[verifier::reject_recursive_types(R)]
#[verifier::reject_recursive_types(C)]
#[verifier::reject_recursive_types(S)]
pub struct ExMatrix<T, R, C, S>(nalgebra::Matrix<T, R, C, S>);

/// `nalgebra::Const`, a dimension of a matrix type.
#[verifier::external_type_specification]
#[verifier::external_body]
pub struct ExConst<const R: usize>(nalgebra::Const<R>);

/// `nalgebra::ArrayStorage`, the storage of a matrix type of fixed size.
#[verifier::external_type_specification]
#[verifier::external_body]
#[verifier::reject_recursive_types(T)]
pub struct ExArrayStorage<T, const R: usize, const C: usize>(nalgebra::ArrayStorage<T, R, C>);

/// `nalgebra::Quaternion`, the type behind `Quat`.
#[verifier::external_type_specification]
#[verifier::external_body]
#[verifier::reject_recursive_types(T)]
pub struct ExQuaternion<T>(nalgebra::Quaternion<T>);

/// The vector with the integer components `x`, `y`, `z`.
pub uninterp spec fn vec3_of(x: int, y: int, z: int) -> Vec3;

/// The quaternion with the integer vector part `x`, `y`, `z` and scalar part `w`.
pub uninterp spec fn quat_of(x: int, y: int, z: int, w: int) -> Quat;

/// The 4x4 matrix with the integer `d` on its diagonal and zero elsewhere.
pub uninterp spec fn diagonal_of(d: int) -> Mat4;

/// The matrix that translates by `v`.
pub uninterp spec fn translation_of(v: Vec3) -> Mat4;

/// The matrix that scales each axis by the matching component of `v`.
pub uninterp spec fn scaling_of(v: Vec3) -> Mat4;

/// `q` divided by its norm.
pub uninterp spec fn normalized(q: Quat) -> Quat;

/// The homogeneous rotation matrix of the quaternion `q`, taken as a unit quaternion.
pub uninterp spec fn rotation_of(q: Quat) -> Mat4;

/// The matrix product `a * b`.
pub uninterp spec fn product(a: Mat4, b: Mat4) -> Mat4;

/// The first three components of the column `column` of `m`.
pub uninterp spec fn axis_of(m: Mat4, column: int) -> Vec3;

/// The vector opposite to `v`.
pub uninterp spec fn negated(v: Vec3) -> Vec3;

/// The identity matrix.
pub open spec fn identity() -> Mat4 {
    diagonal_of(1)
}

/// Calls `nalgebra_glm::vec3` on the three integers, each converted to a real.
/// Trusted: the result is determined by the three integers.
#[verifier::external_body]
pub(crate) fn vec3(x: i16, y: i16, z: i16) -> (v: Vec3)
    ensures
        v == vec3_of(x as int, y as int, z as int),
{
    nalgebra_glm::vec3(x.into(), y.into(), z.into())
}

/// Calls `nalgebra_glm::quat` on the four integers, each converted to a real.
/// Trusted: the result is determined by the four integers.
#[verifier::external_body]
pub(crate) fn quat(x: i16, y: i16, z: i16, w: i16) -> (q: Quat)
    ensures
        q == quat_of(x as int, y as int, z as int, w as int),
{
    nalgebra_glm::quat(x.into(), y.into(), z.into(), w.into())
}

/// Calls `Matrix::from_diagonal_element` on the integer, converted to a real.
/// Trusted: the result is determined by the integer.
#[verifier::external_body]
pub(crate) fn diagonal(d: i16) -> (m: Mat4)
    ensures
        m == diagonal_of(d as int),
{
    Mat4::from_diagonal_element(d.into())
}

/// Calls `nalgebra_glm::translation`.
/// Trusted: the result is determined by `v`.
#[verifier::external_body]
pub(crate) fn translation(v: &Vec3) -> (m: Mat4)
    ensures
        m == translation_of(*v),
{
    nalgebra_glm::translation(v)
}

/// Calls `nalgebra_glm::scaling`.
/// Trusted: the result is determined by `v`.
#[verifier::external_body]
pub(crate) fn scaling(v: &Vec3) -> (m: Mat4)
    ensures
        m == scaling_of(*v),
{
    nalgebra_glm::scaling(v)
}

/// Calls `Quaternion::normalize`.
/// Trusted: the result is determined by `q`.
#[verifier::external_body]
pub(crate) fn normalize(q: &Quat) -> (n: Quat)
    ensures
        n == normalized(*q),
{
    q.normalize()
}

/// Calls `nalgebra_glm::quat_to_mat4`.
/// Trusted: the result is determined by `q`.
#[verifier::external_body]
pub(crate) fn quat_to_mat4(q: &Quat) -> (m: Mat4)
    ensures
        m == rotation_of(*q),
{
    nalgebra_glm::quat_to_mat4(q)
}

/// Calls the `Mul` of two `Matrix` references.
/// Trusted: the result is determined by `a` and `b`.
#[verifier::external_body]
pub(crate) fn multiply(a: &Mat4, b: &Mat4) -> (m: Mat4)
    ensures
        m == product(*a, *b),
{
    a * b
}

/// Calls `Matrix::column` and takes the `xyz` of the column.
/// Trusted: for a column that the matrix has, the result is determined by `m`
/// and `column`.
#[verifier::external_body]
pub(crate) fn axis(m: &Mat4, column: usize) -> (v: Vec3)
    requires
        column < 4,
    ensures
        v == axis_of(*m, column as int),
{
    m.column(column).xyz()
}

/// Calls the `Neg` of a `Matrix` reference.
/// Trusted: the result is determined by `v`.
#[verifier::external_body]
pub(crate) fn negate(v: &Vec3) -> (n: Vec3)
    ensures
        n == negated(*v),
{
    -v
}

} // verus!
