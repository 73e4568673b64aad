//! Compiles a wallpaper scene description into a bounded, ordered draw plan.
//!
//! - `num`: exact decimal numbers, the arithmetic of scene values.
//! - `text`, `path`: words, decimal literals and asset paths.
//! - `vector`: vector, visibility and amount fields and their normal forms.
//! - `graph`: scene objects and cumulative transforms through parent chains.
//! - `plan`: binding to decoded textures, integrity checks, quads and slots.
//! - `audio`: audio cues of audio-bearing objects.
//! - `camera`: the settings the camera projection is built from.
//! - `store`: file kinds of the asset store, numbers from text.
//! - `wallpaper`: all of it for one loaded scene.
//! - `desc`: scene description records that nothing here interprets.
pub mod audio;
pub mod camera;
pub mod desc;
pub mod graph;
pub mod num;
pub mod path;
pub mod plan;
pub mod store;
pub mod text;
pub mod vector;
pub mod wallpaper;
