//! The verified core of a MIDI player: what is played and when, what the
//! screen shows, which key does what, and which output is opened.

pub mod command;
pub mod course;
pub mod display;
pub mod gui;
pub mod keys;
pub mod logger;
pub mod midi;
pub mod output;
pub mod playback;
pub mod rounding;
pub mod slider;
pub mod speed;
pub mod startup;
pub mod state;
pub mod tempo;
pub mod text;
pub mod track;
