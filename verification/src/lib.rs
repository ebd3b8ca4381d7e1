//! A rapid-serial-visual-presentation ("speed reading") playback engine.
//!
//! The library turns a page-structured text tree into an ordered stream of
//! display tokens (words or sentence-delimited phrases), computes a display
//! duration for each token from a configured reading rate, and drives an
//! interruptible playback state machine. Terminal rendering and input
//! polling are left to the surrounding application.

pub mod pacing;
pub mod playback;
pub mod segment;
pub mod tree;
