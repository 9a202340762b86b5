//! How much is logged.

use vstd::prelude::*;

verus! {

/// How serious a log message is.
#[derive(Clone, Copy, Debug, PartialEq, Eq)]
pub enum Level {
    Error,
    Warn,
    Info,
    Debug,
}

/// How serious the software synthesizer takes a message to be.
#[derive(Clone, Copy, Debug, PartialEq, Eq)]
pub enum SynthLevel {
    Panic,
    Error,
    Warning,
    Info,
    Debug,
}

/// The least serious messages that are logged if more was asked for `n` times.
pub fn verbosity(n: u64) -> (level: Level)
    ensures
        level == if n == 0 {
            Level::Error
        } else if n == 1 {
            Level::Warn
        } else if n == 2 {
            Level::Info
        } else {
            Level::Debug
        },
{
    match n {
        0 => Level::Error,
        1 => Level::Warn,
        2 => Level::Info,
        _ => Level::Debug,
    }
}

/// The level at which a message of the software synthesizer is logged.
pub fn synth_level(level: SynthLevel) -> (logged: Level)
    ensures
        logged == match level {
            SynthLevel::Panic => Level::Error,
            SynthLevel::Error => Level::Error,
            SynthLevel::Warning => Level::Warn,
            SynthLevel::Info => Level::Info,
            SynthLevel::Debug => Level::Debug,
        },
{
    match level {
        SynthLevel::Error | SynthLevel::Panic => Level::Error,
        SynthLevel::Warning => Level::Warn,
        SynthLevel::Info => Level::Info,
        _ => Level::Debug,
    }
}

} // verus!
