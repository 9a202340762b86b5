//! What the listener can ask for while tracks are played.

use crate::speed::Speed;
use vstd::prelude::*;

verus! {

/// A request to the player.
#[derive(Clone, Copy, Debug, PartialEq, Eq)]
pub enum Command {
    /// Pause, or go on after a pause.
    Pause,
    /// Go on to the next track.
    Next,
    /// Go back to the previous track, or to the start of the first one.
    Prev,
    /// Play faster by one step.
    SpeedUp,
    /// Play slower by one step.
    SpeedDown,
    /// Play at this speed.
    SetSpeed(Speed),
}

} // verus!
