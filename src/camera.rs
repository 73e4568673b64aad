//! The camera settings the projection is built from.
use crate::num::Dec;
use crate::vector::{field_or_zero3, field_vec3_zero, Vec3, Vectors};
use vstd::prelude::*;

verus! {

/// The scene's camera, as written.
#[derive(Clone, Debug)]
pub struct CameraDesc {
    pub center: Option<Vectors>,
    pub eye: Option<Vectors>,
    pub up: Option<Vectors>,
}

/// The size of the orthographic view.
#[derive(Clone, Copy, Debug, PartialEq, Eq, Structural)]
pub struct Orthogonalprojection {
    pub height: i64,
    pub width: i64,
}

/// The viewport and depth range of the scene's general settings.
#[derive(Clone, Copy, Debug)]
pub struct ViewDesc {
    pub orthogonalprojection: Orthogonalprojection,
    pub near_z: Dec,
    pub far_z: Dec,
}

/// What the projection `orthographic(0, width, 0, height, near_z, far_z) *
/// look_at(eye, center, up)` is made from.
#[derive(Clone, Copy, Debug)]
pub struct CameraParams {
    pub center: Vec3,
    pub eye: Vec3,
    pub up: Vec3,
    pub width: i64,
    pub height: i64,
    pub near_z: Dec,
    pub far_z: Dec,
}

/// The camera vectors in normal form, each missing component zero, with
/// the viewport and depth range. The projection's aspect ratio is
/// `width / height`.
pub fn camera_params(cam: &CameraDesc, view: &ViewDesc) -> (r: CameraParams)
    ensures
        r.center@ == field_vec3_zero(cam.center),
        r.eye@ == field_vec3_zero(cam.eye),
        r.up@ == field_vec3_zero(cam.up),
        r.width == view.orthogonalprojection.width,
        r.height == view.orthogonalprojection.height,
        r.near_z@ == view.near_z@,
        r.far_z@ == view.far_z@,
{
    CameraParams {
        center: field_or_zero3(&cam.center),
        eye: field_or_zero3(&cam.eye),
        up: field_or_zero3(&cam.up),
        width: view.orthogonalprojection.width,
        height: view.orthogonalprojection.height,
        near_z: view.near_z,
        far_z: view.far_z,
    }
}

} // verus!
