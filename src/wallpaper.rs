//! A loaded wallpaper: its draw plan, audio cues and camera, compiled once
//! per scene load.
use crate::audio::{audio_cues, cue_view, cues, AudioCue, BlobAsset};
use crate::camera::{camera_params, CameraDesc, CameraParams, ViewDesc};
use crate::graph::SceneObject;
use crate::num::Q;
use crate::plan::{compile, drawn, plan_matches, Assets, CompileError, DrawPlan, MAX_TEXTURE};
use crate::vector::field_vec3_zero;
use vstd::prelude::*;

verus! {

/// Everything the render and audio backends consume.
#[derive(Clone, Debug)]
pub struct Wallpaper {
    pub plan: DrawPlan,
    pub cues: Vec<AudioCue>,
    pub camera: CameraParams,
}

/// Compiles a loaded scene: its draw plan (or the capacity error), its
/// audio cues and its camera.
pub fn start(
    objs: &Vec<SceneObject>,
    assets: &Assets,
    blobs: &Vec<BlobAsset>,
    cam: &CameraDesc,
    view: &ViewDesc,
) -> (r: Result<Wallpaper, CompileError>)
    ensures
        match r {
            Ok(w) => {
                &&& drawn(objs@, *assets, objs@.len() as int).len() <= MAX_TEXTURE
                &&& plan_matches(w.plan, objs@, *assets)
                &&& w.cues@.len() == cues(objs@, blobs@, objs@.len() as int).len()
                &&& forall|k: int|
                    0 <= k < w.cues@.len() ==> cue_view(#[trigger] w.cues@[k]) == cues(
                        objs@,
                        blobs@,
                        objs@.len() as int,
                    )[k]
                &&& w.camera.center@ == field_vec3_zero(cam.center)
                &&& w.camera.eye@ == field_vec3_zero(cam.eye)
                &&& w.camera.up@ == field_vec3_zero(cam.up)
                &&& w.camera.width == view.orthogonalprojection.width
                &&& w.camera.height == view.orthogonalprojection.height
                &&& w.camera.near_z@ == view.near_z@
                &&& w.camera.far_z@ == view.far_z@
            },
            Err(CompileError::Capacity { survivors }) => survivors == drawn(
                objs@,
                *assets,
                objs@.len() as int,
            ).len() && survivors > MAX_TEXTURE,
        },
{
    let plan = compile(objs, assets)?;
    let cues = audio_cues(objs, blobs);
    let camera = camera_params(cam, view);
    Ok(Wallpaper { plan, cues, camera })
}

} // verus!
