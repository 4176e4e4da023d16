//! Components of the engine's entities that hold no geometry.

use vstd::prelude::*;

verus! {

/// The colour an entity is drawn with.
pub struct Model {
    pub r: u8,
    pub g: u8,
    pub b: u8,
    pub a: u8,
}

/// A name shown in the hierarchy window.
#[derive(Debug, Clone)]
pub struct Label {
    pub name: String,
}

/// Marks the camera entity.
pub struct Camera {}

/// Marks a wolf.
pub struct Wolf;

/// Marks an audio signal.
pub struct Audio;

/// The states of a seeker (a wolf's hunting behaviour).
#[derive(Clone, Copy, PartialEq, Eq, Structural, Debug)]
pub enum SeekerState {
    Idle,
    Alert,
    Seeking,
    Chasing,
}

} // verus!
