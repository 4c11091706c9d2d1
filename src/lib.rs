//! Timing, curve evaluation and undoable editing core of a rhythm-game chart editor.
//!
//! All positions, times and curve values are exact rationals; nothing here rounds.

pub mod beat;
pub mod command;
pub mod easing;
pub mod event;
pub mod frac;
pub mod graph;
pub mod history;
pub mod line;
pub mod note;
pub mod speed;
pub mod tempo;
pub mod track;
