//! Rigid-body transforms (SE3): an immutable rotation + translation pair.
//!
//! A transform is stored in its canonical 7-component layout
//! `[tx, ty, tz, qx, qy, qz, qw]` — a translation followed by a unit
//! quaternion — where each component holds the IEEE 754 bit pattern of the
//! `f64` value, as a `u64`. Keeping the bit patterns rather than the floats
//! makes equality and the persistence round trip exact, and keeps every
//! function of this crate free of floating-point terms; the floating-point
//! work itself (composition, inversion, normalization) is done by `nalgebra`
//! behind the trusted wrappers below.

use vstd::prelude::*;

use bytemuck::cast;
use bytemuck::cast_slice;
use nalgebra::Isometry3;
use nalgebra::Matrix3;
use nalgebra::Quaternion;
use nalgebra::Rotation3;
use nalgebra::Translation3;
use nalgebra::Unit;
use nalgebra::UnitQuaternion;
use std::time::Duration;

verus! {

/// The bit pattern of the `f64` value `1.0`.
pub const ONE_BITS: u64 = 0x3FF0_0000_0000_0000;

/// The bit pattern of the absolute tolerance (`1.0e-6`) within which a
/// rotation matrix handed to `from_array` must be orthonormal.
pub const ORTHO_TOL_BITS: u64 = 0x3EB0_C6F7_A0B5_ED8D;

/// A rigid transform: translation and unit quaternion, in the canonical
/// 7-component layout, each component an `f64` bit pattern.
#[derive(Clone, Copy, Debug, PartialEq, Eq)]
pub struct Se3 {
    pub v: [u64; 7],
}

impl View for Se3 {
    type V = Seq<u64>;

    open spec fn view(&self) -> Seq<u64> {
        self.v@
    }
}

/// The canonical form of the identity transform: zero translation,
/// identity rotation.
pub open spec fn identity7() -> Seq<u64> {
    seq![0u64, 0u64, 0u64, 0u64, 0u64, 0u64, ONE_BITS]
}

/// What `nalgebra`'s isometry multiplication returns: the composition
/// `a ∘ b` (apply `b`, then `a`) of two poses in canonical form.
pub uninterp spec fn pose_product(a: Seq<u64>, b: Seq<u64>) -> Seq<u64>;

/// What `nalgebra`'s isometry inversion returns: the algebraic inverse of a
/// pose in canonical form.
pub uninterp spec fn pose_inverse(a: Seq<u64>) -> Seq<u64>;

/// What normalizing a quaternion `[x, y, z, w]` returns: `None` when the
/// quaternion cannot be normalized (its norm is not a positive real),
/// otherwise the unit quaternion with the same direction.
pub uninterp spec fn norm_quat(q: Seq<u64>) -> Option<Seq<u64>>;

/// Whether a row-major 3×3 matrix is orthonormal with determinant +1,
/// within the absolute tolerance whose bit pattern is `tol`.
pub uninterp spec fn rot_is_special(m: Seq<u64>, tol: u64) -> bool;

/// The unit quaternion equivalent to a row-major 3×3 rotation matrix.
pub uninterp spec fn rot_quat(m: Seq<u64>) -> Seq<u64>;

impl Se3 {
    /// The identity transform: zero translation, identity rotation.
    pub fn identity() -> (r: Se3)
        ensures
            r@ == identity7(),
    {
        let r = Se3 { v: [0, 0, 0, 0, 0, 0, ONE_BITS] };
        proof {
            assert(r@ =~= identity7());
        }
        r
    }

    /// The composition "apply `rhs`, then `self`".
    ///
    /// Relies on `nalgebra`'s `Isometry3` multiplication; the result is a
    /// function of the two operands alone, named `pose_product`. The unused
    /// binding pins the float element type that `cast_slice` reinterprets
    /// the stored bit patterns as.
    #[verifier::external_body]
    pub fn compose(&self, rhs: &Se3) -> (r: Se3)
        ensures
            r@ == pose_product(self@, rhs@),
    {
        let z = Duration::ZERO.as_secs_f64();
        let a = cast_slice(&self.v);
        let b = cast_slice(&rhs.v);
        let _pin = [a[0], b[0], z];
        let iso = |s: &[_]| Isometry3::from_parts(
            Translation3::new(s[0], s[1], s[2]),
            Unit::new_unchecked(Quaternion::from(nalgebra::Vector4::from_row_slice(&s[3..]))),
        );
        let c = iso(a) * iso(b);
        let o: Vec<u64> = c.translation.vector.iter().chain(c.rotation.coords.iter()).map(
            |f| f.to_bits(),
        ).collect();
        Se3 { v: o.try_into().unwrap() }
    }

    /// The algebraic inverse of this transform.
    ///
    /// Relies on `nalgebra`'s `Isometry3::inverse`; the result is a function
    /// of the operand alone, named `pose_inverse`.
    #[verifier::external_body]
    pub fn inverse(&self) -> (r: Se3)
        ensures
            r@ == pose_inverse(self@),
    {
        let z = Duration::ZERO.as_secs_f64();
        let a = cast_slice(&self.v);
        let _pin = [a[0], z];
        let c = Isometry3::from_parts(
            Translation3::new(a[0], a[1], a[2]),
            Unit::new_unchecked(Quaternion::from(nalgebra::Vector4::from_row_slice(&a[3..]))),
        ).inverse();
        let o: Vec<u64> = c.translation.vector.iter().chain(c.rotation.coords.iter()).map(
            |f| f.to_bits(),
        ).collect();
        Se3 { v: o.try_into().unwrap() }
    }
}

/// The canonical 7-component output of a transform value.
pub trait To7 {
    /// The canonical array `[tx, ty, tz, qx, qy, qz, qw]` of this value.
    fn to7(&self) -> Vec<u64>;
}

impl To7 for Se3 {
    fn to7(&self) -> (r: Vec<u64>)
        ensures
            r@ == self@,
    {
        let mut r: Vec<u64> = Vec::new();
        let mut i: usize = 0;
        while i < 7
            invariant
                i <= 7,
                r@ == self.v@.take(i as int),
            decreases 7 - i,
        {
            r.push(self.v[i]);
            proof {
                assert(r@ =~= self.v@.take(i + 1 as int));
            }
            i = i + 1;
        }
        proof {
            assert(r@ =~= self@);
        }
        r
    }
}

/// The row-major 3×3 rotation block in the top-left corner of a row-major
/// 4×4 homogeneous transform.
pub open spec fn mat3_of_mat4(a: Seq<u64>) -> Seq<u64> {
    seq![a[0], a[1], a[2], a[4], a[5], a[6], a[8], a[9], a[10]]
}

/// What `from_array` returns, in canonical 7-component form, for each input
/// length the operation accepts; `None` on every other length and on a
/// rotation that fails validation.
pub open spec fn from_array_spec(a: Seq<u64>) -> Option<Seq<u64>> {
    if a.len() == 3 {
        Some(a + seq![0u64, 0u64, 0u64, ONE_BITS])
    } else if a.len() == 4 {
        match norm_quat(a) {
            Some(q) => Some(seq![0u64, 0u64, 0u64] + q),
            None => None,
        }
    } else if a.len() == 7 {
        match norm_quat(a.subrange(3, 7)) {
            Some(q) => Some(a.subrange(0, 3) + q),
            None => None,
        }
    } else if a.len() == 9 {
        if rot_is_special(a, ORTHO_TOL_BITS) {
            Some(seq![0u64, 0u64, 0u64] + rot_quat(a))
        } else {
            None
        }
    } else if a.len() == 16 {
        if rot_is_special(mat3_of_mat4(a), ORTHO_TOL_BITS) {
            Some(seq![a[3], a[7], a[11]] + rot_quat(mat3_of_mat4(a)))
        } else {
            None
        }
    } else {
        None
    }
}

/// Builds a transform from a numeric sequence whose length selects the
/// interpretation: translation (3), quaternion (4), translation followed by
/// quaternion (7), row-major rotation matrix (9), or row-major homogeneous
/// matrix (16). Quaternions are normalized; rotation matrices must be
/// orthonormal with determinant +1 within the tolerance; the bottom row of a
/// 4×4 matrix is not validated.
pub fn from_array(a: &Vec<u64>) -> (r: Option<Se3>)
    ensures
        (r is Some) == (from_array_spec(a@) is Some),
        r matches Some(p) ==> from_array_spec(a@) == Some(p@),
{
    if a.len() == 3 {
        let r = Se3 { v: [a[0], a[1], a[2], 0, 0, 0, ONE_BITS] };
        proof {
            assert(Some(r@) =~~= from_array_spec(a@));
        }
        Some(r)
    } else if a.len() == 4 {
        match unit_quat(a[0], a[1], a[2], a[3]) {
            Some(q) => {
                let r = Se3 { v: [0, 0, 0, q[0], q[1], q[2], q[3]] };
                proof {
                    assert(seq![a@[0], a@[1], a@[2], a@[3]] =~= a@);
                    assert(Some(r@) =~~= from_array_spec(a@));
                }
                Some(r)
            },
            None => {
                proof {
                    assert(seq![a@[0], a@[1], a@[2], a@[3]] =~= a@);
                }
                None
            },
        }
    } else if a.len() == 7 {
        match unit_quat(a[3], a[4], a[5], a[6]) {
            Some(q) => {
                let r = Se3 { v: [a[0], a[1], a[2], q[0], q[1], q[2], q[3]] };
                proof {
                    assert(seq![a@[3], a@[4], a@[5], a@[6]] =~= a@.subrange(3, 7));
                    assert(Some(r@) =~~= from_array_spec(a@));
                }
                Some(r)
            },
            None => {
                proof {
                    assert(seq![a@[3], a@[4], a@[5], a@[6]] =~= a@.subrange(3, 7));
                }
                None
            },
        }
    } else if a.len() == 9 {
        let m: [u64; 9] = [a[0], a[1], a[2], a[3], a[4], a[5], a[6], a[7], a[8]];
        proof {
            assert(m@ =~= a@);
        }
        if rot_test(&m, ORTHO_TOL_BITS) {
            let q = rot_to_quat(&m);
            let r = Se3 { v: [0, 0, 0, q[0], q[1], q[2], q[3]] };
            proof {
                assert(Some(r@) =~~= from_array_spec(a@));
            }
            Some(r)
        } else {
            None
        }
    } else if a.len() == 16 {
        let m: [u64; 9] = [a[0], a[1], a[2], a[4], a[5], a[6], a[8], a[9], a[10]];
        proof {
            assert(m@ =~= mat3_of_mat4(a@));
        }
        if rot_test(&m, ORTHO_TOL_BITS) {
            let q = rot_to_quat(&m);
            let r = Se3 { v: [a[3], a[7], a[11], q[0], q[1], q[2], q[3]] };
            proof {
                assert(Some(r@) =~~= from_array_spec(a@));
            }
            Some(r)
        } else {
            None
        }
    } else {
        None
    }
}

/// What `from7` returns: the first seven values interpreted as a translation
/// followed by a quaternion that is normalized; `None` when fewer than seven
/// values are given or the quaternion cannot be normalized.
pub open spec fn from7_spec(a: Seq<u64>) -> Option<Seq<u64>> {
    if a.len() < 7 {
        None
    } else {
        match norm_quat(a.subrange(3, 7)) {
            Some(q) => Some(a.subrange(0, 3) + q),
            None => None,
        }
    }
}

/// Builds a transform from the first seven values of a numeric sequence:
/// a translation followed by a quaternion, which is normalized.
pub fn from7(a: &Vec<u64>) -> (r: Option<Se3>)
    ensures
        (r is Some) == (from7_spec(a@) is Some),
        r matches Some(p) ==> from7_spec(a@) == Some(p@),
{
    if a.len() < 7 {
        return None;
    }
    match unit_quat(a[3], a[4], a[5], a[6]) {
        Some(q) => {
            let r = Se3 { v: [a[0], a[1], a[2], q[0], q[1], q[2], q[3]] };
            proof {
                assert(seq![a@[3], a@[4], a@[5], a@[6]] =~= a@.subrange(3, 7));
                assert(Some(r@) =~~= from7_spec(a@));
            }
            Some(r)
        },
        None => {
            proof {
                assert(seq![a@[3], a@[4], a@[5], a@[6]] =~= a@.subrange(3, 7));
            }
            None
        },
    }
}

/// Relies on `nalgebra`'s `Unit::try_new` over a quaternion `[x, y, z, w]`
/// with a zero minimum norm: `None` exactly when the norm is not a positive
/// real, otherwise the normalized quaternion, named `norm_quat`.
#[verifier::external_body]
fn unit_quat(x: u64, y: u64, z: u64, w: u64) -> (r: Option<[u64; 4]>)
    ensures
        (r is Some) == (norm_quat(seq![x, y, z, w]) is Some),
        r matches Some(u) ==> norm_quat(seq![x, y, z, w]) == Some(u@),
{
    let zero = Duration::ZERO.as_secs_f64();
    let a = [cast(x), cast(y), cast(z), cast(w), zero];
    match Unit::try_new(Quaternion::new(a[3], a[0], a[1], a[2]), zero) {
        Some(u) => Some([u.i.to_bits(), u.j.to_bits(), u.k.to_bits(), u.w.to_bits()]),
        None => None,
    }
}

/// Relies on `nalgebra`'s `Matrix3::is_special_orthogonal`: whether the
/// row-major 3×3 matrix is orthogonal with determinant +1 within the
/// absolute tolerance whose bit pattern is `tol`; named `rot_is_special`.
#[verifier::external_body]
fn rot_test(m: &[u64; 9], tol: u64) -> (r: bool)
    ensures
        r == rot_is_special(m@, tol),
{
    let z = Duration::ZERO.as_secs_f64();
    let a = cast_slice(m);
    let _pin = [a[0], z];
    Matrix3::from_row_slice(a).is_special_orthogonal(cast(tol))
}

/// Relies on `nalgebra`'s `UnitQuaternion::from_rotation_matrix` over a
/// row-major 3×3 matrix; the result is a function of the matrix alone,
/// named `rot_quat`.
#[verifier::external_body]
fn rot_to_quat(m: &[u64; 9]) -> (r: [u64; 4])
    ensures
        r@ == rot_quat(m@),
{
    let z = Duration::ZERO.as_secs_f64();
    let a = cast_slice(m);
    let _pin = [a[0], z];
    let q = UnitQuaternion::from_rotation_matrix(&Rotation3::from_matrix_unchecked(
        Matrix3::from_row_slice(a),
    ));
    [q.i.to_bits(), q.j.to_bits(), q.k.to_bits(), q.w.to_bits()]
}

} // verus!
