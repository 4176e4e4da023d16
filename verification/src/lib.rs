//! A multi-level spatial signal field: signals are hashed into square tiles whose
//! size grows with the signal's radius, and queries walk the active levels only.

pub mod mask;
pub mod tile;
pub mod fxmap;
pub mod bucket;
pub mod field;
pub mod occlusion;
pub mod laws;
pub mod components;
pub mod chase;
pub mod control;
