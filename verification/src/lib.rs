//! Euclidean rhythm generation for a MIDI note-repeat effect.

pub mod euclid;
pub mod laws;
pub mod playback;
pub mod balance;
