//! Records of the scene description that the compiler does not interpret:
//! effect-pass switches, light counts and per-object configuration, for a
//! render backend that reads them.
use vstd::prelude::*;

verus! {

/// Shader combination switches of an effect pass.
#[derive(Clone, Copy, Debug, Default, PartialEq, Eq, Structural)]
pub struct Combos {
    pub enablemask: i64,
    pub vertical: i64,
}

/// How many point and spot lights the scene uses.
#[derive(Clone, Copy, Debug, Default, PartialEq, Eq, Structural)]
pub struct Lightconfig {
    pub point: i64,
    pub spot: i64,
}

/// Per-object rendering configuration.
#[derive(Clone, Copy, Debug, Default, PartialEq, Eq, Structural)]
pub struct Config {
    pub passthrough: bool,
}

} // verus!
