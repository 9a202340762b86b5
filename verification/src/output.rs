//! Which output is opened.

use crate::startup::Mode;
use crate::text::{decimal, decimal_text, texts};
use vstd::prelude::*;

verus! {

/// Why a MIDI device cannot be opened.
#[derive(Clone, Copy, Debug, PartialEq, Eq)]
pub enum DeviceError {
    /// There is no device at all.
    NoDevice,
    /// There are this many devices only.
    OnlySoMany(usize),
}

impl DeviceError {
    /// What the listener is told.
    pub open spec fn shown(self) -> Seq<char> {
        match self {
            DeviceError::NoDevice => "no midi output device detected"@,
            DeviceError::OnlySoMany(count) => "only "@ + decimal(count as nat)
                + " devices detected; run with --list to see them"@,
        }
    }

    /// Writes what the listener is told.
    pub fn text(self) -> (text: String)
        ensures
            text@ == self.shown(),
    {
        match self {
            DeviceError::NoDevice => "no midi output device detected".to_owned(),
            DeviceError::OnlySoMany(count) => {
                let mut text = "only ".to_owned();
                text.append(decimal_text(count as u128).as_str());
                text.append(" devices detected; run with --list to see them");
                text
            },
        }
    }
}

/// Picks device `n` out of `count` devices, counted from 0.
pub fn pick_device(n: usize, count: usize) -> (picked: Result<usize, DeviceError>)
    ensures
        picked == if count == 0 {
            Err::<usize, DeviceError>(DeviceError::NoDevice)
        } else if n >= count {
            Err(DeviceError::OnlySoMany(count))
        } else {
            Ok(n)
        },
{
    if count == 0 {
        return Err(DeviceError::NoDevice);
    }
    if n >= count {
        return Err(DeviceError::OnlySoMany(count));
    }
    Ok(n)
}

/// A device by its number and its name, if it has one.
pub open spec fn device_line(n: nat, name: Option<String>) -> Seq<char> {
    let shown = match name {
        Some(text) => text@,
        None => "<no device name>"@,
    };
    "#"@ + decimal(n) + ": "@ + shown
}

/// The list of devices, one line for each.
pub open spec fn device_lines(names: Seq<Option<String>>) -> Seq<Seq<char>> {
    if names.len() == 0 {
        seq!["No active MIDI output device detected."@]
    } else {
        Seq::new(names.len(), |i: int| device_line(i as nat, names[i]))
    }
}

/// Writes the list of devices. `names` holds what each device is called, if
/// that can be known.
pub fn list_devices(names: &Vec<Option<String>>) -> (lines: Vec<String>)
    ensures
        texts(lines@) == device_lines(names@),
{
    let mut lines: Vec<String> = Vec::new();
    if names.len() == 0 {
        lines.push("No active MIDI output device detected.".to_owned());
        assert(texts(lines@) =~= device_lines(names@));
        return lines;
    }
    let ghost all = device_lines(names@);
    let mut i: usize = 0;
    while i < names.len()
        invariant
            names@.len() > 0,
            i <= names@.len() == all.len(),
            all == device_lines(names@),
            texts(lines@) == all.take(i as int),
        decreases names@.len() - i,
    {
        let mut line = "#".to_owned();
        line.append(decimal_text(i as u128).as_str());
        line.append(": ");
        match &names[i] {
            Some(name) => line.append(name.as_str()),
            None => line.append("<no device name>"),
        }
        let ghost before = lines@;
        assert(line@ == all[i as int]);
        lines.push(line);
        assert(texts(lines@) =~= texts(before).push(all[i as int]));
        assert(all.take(i + 1) =~= all.take(i as int).push(all[i as int]));
        i = i + 1;
    }
    assert(all.take(all.len() as int) =~= all);
    lines
}

/// The outputs that the program was built with.
#[derive(Clone, Copy, Debug, PartialEq, Eq)]
pub enum Backends {
    /// The software synthesizer and the MIDI devices of the system.
    SynthAndSystem,
    SynthOnly,
    SystemOnly,
}

/// An output that can be opened.
#[derive(Clone, Copy, Debug, PartialEq, Eq)]
pub enum Output {
    /// The software synthesizer.
    Synth,
    /// The MIDI device with this number.
    Device(usize),
}

/// The number that was asked for, or `other`.
pub open spec fn number_or(device: Option<usize>, other: usize) -> usize {
    match device {
        Some(n) => n,
        None => other,
    }
}

/// The outputs to try, in this order, until one can be opened. `device` is the
/// number of the device that was asked for, if one was.
///
/// In the terminal there is one choice, and to fail at it is an error. A window
/// opens in any case, so that more is tried: with no device asked for, the
/// second MIDI device comes first, then the synthesizer, and the first MIDI
/// device is the last resort.
pub open spec fn outputs(mode: Mode, backends: Backends, device: Option<usize>) -> Seq<Output> {
    match (mode, backends, device) {
        (_, Backends::SynthOnly, _) => seq![Output::Synth],
        (Mode::Terminal, Backends::SystemOnly, _) => seq![Output::Device(number_or(device, 0))],
        (Mode::Window, Backends::SystemOnly, _) => seq![Output::Device(number_or(device, 1))],
        (Mode::Terminal, Backends::SynthAndSystem, None) => seq![Output::Synth],
        (Mode::Terminal, Backends::SynthAndSystem, Some(n)) => seq![Output::Device(n)],
        (Mode::Window, Backends::SynthAndSystem, None) => seq![
            Output::Device(1),
            Output::Synth,
            Output::Device(0),
        ],
        (Mode::Window, Backends::SynthAndSystem, Some(n)) => seq![
            Output::Device(n),
            Output::Device(n),
        ],
    }
}

/// What is next on the way to an open output.
#[derive(Clone, Copy, Debug, PartialEq, Eq)]
pub enum Opening {
    /// Try to open this one.
    Try(Output),
    /// Give up, with the error that the last attempt gave.
    Fail,
    /// Open the window, with nothing to play on.
    Silent,
}

/// What is next once that many of the outputs could not be opened.
pub open spec fn opening(
    mode: Mode,
    backends: Backends,
    device: Option<usize>,
    failed: nat,
) -> Opening {
    let tried = outputs(mode, backends, device);
    if failed < tried.len() {
        Opening::Try(tried[failed as int])
    } else if mode == Mode::Terminal {
        Opening::Fail
    } else {
        Opening::Silent
    }
}

/// Tells what is next once `failed` of the outputs could not be opened.
pub fn next_output(
    mode: Mode,
    backends: Backends,
    device: Option<usize>,
    failed: usize,
) -> (next: Opening)
    ensures
        next == opening(mode, backends, device, failed as nat),
{
    let tried: Vec<Output> = match (mode, backends, device) {
        (_, Backends::SynthOnly, _) => vec![Output::Synth],
        (Mode::Terminal, Backends::SystemOnly, None) => vec![Output::Device(0)],
        (Mode::Window, Backends::SystemOnly, None) => vec![Output::Device(1)],
        (_, Backends::SystemOnly, Some(n)) => vec![Output::Device(n)],
        (Mode::Terminal, Backends::SynthAndSystem, None) => vec![Output::Synth],
        (Mode::Terminal, Backends::SynthAndSystem, Some(n)) => vec![Output::Device(n)],
        (Mode::Window, Backends::SynthAndSystem, None) => vec![
            Output::Device(1),
            Output::Synth,
            Output::Device(0),
        ],
        (Mode::Window, Backends::SynthAndSystem, Some(n)) => vec![
            Output::Device(n),
            Output::Device(n),
        ],
    };
    assert(tried@ =~= outputs(mode, backends, device));
    if failed < tried.len() {
        Opening::Try(tried[failed])
    } else {
        match mode {
            Mode::Terminal => Opening::Fail,
            Mode::Window => Opening::Silent,
        }
    }
}

/// A device that was asked for is tried first, wherever devices can be opened
/// at all, and then no other output is.
pub proof fn device_asked_for_is_used(mode: Mode, backends: Backends, n: usize, failed: nat)
    requires
        backends != Backends::SynthOnly,
    ensures
        opening(mode, backends, Some(n), 0) == Opening::Try(Output::Device(n)),
        opening(mode, backends, Some(n), failed) matches Opening::Try(output) ==> output
            == Output::Device(n),
{
}

/// The terminal has one attempt, and the program fails with it. A window opens
/// whatever comes of the attempts, of which there are three at most.
pub proof fn window_opens_in_any_case(
    backends: Backends,
    device: Option<usize>,
    failed: nat,
)
    ensures
        opening(Mode::Terminal, backends, device, 0) is Try,
        failed >= 1 ==> opening(Mode::Terminal, backends, device, failed) is Fail,
        opening(Mode::Window, backends, device, 0) is Try,
        !(opening(Mode::Window, backends, device, failed) is Fail),
        failed >= 3 ==> opening(Mode::Window, backends, device, failed) is Silent,
{
}

/// No output is tried that the program was not built with.
pub proof fn only_built_outputs_are_tried(
    mode: Mode,
    backends: Backends,
    device: Option<usize>,
    failed: nat,
)
    ensures
        opening(mode, backends, device, failed) matches Opening::Try(output) ==> {
            &&& output is Synth ==> backends != Backends::SystemOnly
            &&& output is Device ==> backends != Backends::SynthOnly
        },
{
}

/// The list of devices has a line for each, with its number, counted from zero,
/// and its name, or says that there is none.
pub proof fn every_device_is_listed(names: Seq<Option<String>>, i: int)
    requires
        0 <= i < names.len(),
    ensures
        device_lines(Seq::empty()) == seq!["No active MIDI output device detected."@],
        device_lines(names).len() == names.len(),
        names[i] is Some ==> device_lines(names)[i] == "#"@ + decimal(i as nat) + ": "@
            + names[i]->0@,
        names[i] is None ==> device_lines(names)[i] == "#"@ + decimal(i as nat) + ": "@
            + "<no device name>"@,
{
}

/// What the listener is told when a device cannot be opened.
pub proof fn device_errors_say_what_is_there(count: usize)
    ensures
        DeviceError::NoDevice.shown() == "no midi output device detected"@,
        DeviceError::OnlySoMany(count).shown() == "only "@ + decimal(count as nat)
            + " devices detected; run with --list to see them"@,
{
}

/// With no device asked for, the terminal takes the synthesizer if it is built in
/// and the first device if not. The window takes the second device first, if
/// devices are built in; if the synthesizer is, too, that comes next, and the
/// first device is the last resort.
pub proof fn outputs_have_their_order(failed: nat)
    ensures
        opening(Mode::Terminal, Backends::SynthAndSystem, None, 0) == Opening::Try(Output::Synth),
        opening(Mode::Terminal, Backends::SynthOnly, None, 0) == Opening::Try(Output::Synth),
        opening(Mode::Terminal, Backends::SystemOnly, None, 0) == Opening::Try(Output::Device(0)),
        opening(Mode::Window, Backends::SynthAndSystem, None, 0) == Opening::Try(Output::Device(1)),
        opening(Mode::Window, Backends::SynthAndSystem, None, 1) == Opening::Try(Output::Synth),
        opening(Mode::Window, Backends::SynthAndSystem, None, 2) == Opening::Try(Output::Device(0)),
        opening(Mode::Window, Backends::SystemOnly, None, 0) == Opening::Try(Output::Device(1)),
        failed >= 1 ==> opening(Mode::Window, Backends::SystemOnly, None, failed)
            == Opening::Silent,
{
}

/// Without devices built in, the synthesizer is the one output there is, whatever
/// device was asked for.
pub proof fn synthesizer_alone_is_used(mode: Mode, device: Option<usize>, failed: nat)
    ensures
        opening(mode, Backends::SynthOnly, device, 0) == Opening::Try(Output::Synth),
        failed >= 1 ==> opening(mode, Backends::SynthOnly, device, failed) == if mode
            == Mode::Terminal {
            Opening::Fail
        } else {
            Opening::Silent
        },
{
}

/// A device that was asked for is tried once more for the window if the
/// synthesizer is built in, too, and once only everywhere else.
pub proof fn device_asked_for_gets_its_chances(mode: Mode, backends: Backends, n: usize, failed: nat)
    requires
        backends != Backends::SynthOnly,
    ensures
        ({
            let chances: nat = if mode == Mode::Window && backends == Backends::SynthAndSystem {
                2
            } else {
                1
            };
            opening(mode, backends, Some(n), failed) == if failed < chances {
                Opening::Try(Output::Device(n))
            } else if mode == Mode::Terminal {
                Opening::Fail
            } else {
                Opening::Silent
            }
        }),
{
}

} // verus!
