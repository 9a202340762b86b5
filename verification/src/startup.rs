//! What the program sets out to do.

use vstd::prelude::*;

verus! {

/// Where playback is controlled from.
#[derive(Clone, Copy, Debug, PartialEq, Eq)]
pub enum Mode {
    Terminal,
    Window,
}

/// What the program is to do.
#[derive(Clone, Copy, Debug, PartialEq, Eq)]
pub enum Task {
    /// List the MIDI devices, and nothing else.
    ListDevices,
    /// Play.
    Play(Mode),
}

/// Tells what the program is to do. `list` is whether the devices are asked
/// for, `window` whether a window is.
pub fn task(list: bool, window: bool) -> (task: Task)
    ensures
        task == if list {
            Task::ListDevices
        } else if window {
            Task::Play(Mode::Window)
        } else {
            Task::Play(Mode::Terminal)
        },
{
    if list {
        Task::ListDevices
    } else if window {
        Task::Play(Mode::Window)
    } else {
        Task::Play(Mode::Terminal)
    }
}

/// What was heard from the playback thread before the window opens.
#[derive(Debug, PartialEq, Eq)]
pub enum Init {
    /// It is ready.
    Ready,
    /// It is not, for this reason.
    Failed(String),
    /// It is gone without a word.
    Lost,
}

/// Tells whether the window may open, or else why it may not.
pub fn window_may_open(init: Init) -> (allowed: Result<(), String>)
    ensures
        match (init, allowed) {
            (Init::Ready, Ok(_)) => true,
            (Init::Failed(reason), Err(told)) => told == reason,
            (Init::Lost, Err(told)) => told@ == "playback thread did not initialize"@,
            _ => false,
        },
{
    match init {
        Init::Ready => Ok(()),
        Init::Failed(reason) => Err(reason),
        Init::Lost => Err("playback thread did not initialize".to_owned()),
    }
}

} // verus!
