//! Which terms of the Phong reflection model contribute at a point.
//!
//! The colour of a lit point is the sum of an ambient, a diffuse and a
//! specular term. The ambient term is always there. The other two depend on
//! where the light and the eye stand relative to the surface, which shows in
//! the sign of two dot products, and on whether the point lies in shadow.
//! The dot products arrive as the bit patterns of doubles: only their sign
//! is read.
use crate::numerics::{key_of, order_key};
use vstd::prelude::*;

verus! {

/// The terms that make up the colour of a point.
#[derive(Clone, Copy, Debug, PartialEq, Eq, Structural)]
pub enum PhongTerms {
    /// Only the ambient term: the point is in shadow or faces away from the
    /// light.
    Ambient,
    /// Ambient and diffuse: the point is lit, but the reflected light points
    /// away from the eye.
    AmbientDiffuse,
    /// Ambient, diffuse and specular.
    AmbientDiffuseSpecular,
}

/// Whether the number is greater than zero: whether `x > 0.0` holds of it.
pub open spec fn is_positive(bits: u64) -> bool {
    key_of(bits) > 0
}

/// The terms for a point in or out of shadow, given the dot product of light
/// direction and normal and the dot product of reflected light and eye
/// direction.
pub open spec fn terms_for(
    in_shadow: bool,
    light_dot_normal: u64,
    reflection_dot_eye: u64,
) -> PhongTerms {
    if in_shadow || !is_positive(light_dot_normal) {
        PhongTerms::Ambient
    } else if !is_positive(reflection_dot_eye) {
        PhongTerms::AmbientDiffuse
    } else {
        PhongTerms::AmbientDiffuseSpecular
    }
}

/// Selects the Phong terms for a point.
///
/// A point in shadow gets the ambient term alone, whatever the dot products
/// are; so does a point whose normal is at a right angle to the light or
/// faces away from it.
pub fn phong_terms(in_shadow: bool, light_dot_normal: u64, reflection_dot_eye: u64) -> (terms:
    PhongTerms)
    ensures
        terms == terms_for(in_shadow, light_dot_normal, reflection_dot_eye),
        in_shadow ==> terms == PhongTerms::Ambient,
{
    if in_shadow || order_key(light_dot_normal) <= 0 {
        PhongTerms::Ambient
    } else if order_key(reflection_dot_eye) <= 0 {
        PhongTerms::AmbientDiffuse
    } else {
        PhongTerms::AmbientDiffuseSpecular
    }
}

} // verus!
