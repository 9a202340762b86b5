use nodi::midly::MidiMessage;
use nodi::{Event, MidiEvent, Moment, Sheet};
use plmidi::command::Command;
use plmidi::display::make_display;
use plmidi::gui::{now_playing, pause_label, playlist_labels, Button, NowPlaying};
use plmidi::keys::{
    after_send, close, listen, Closing, Heard, KeyCode, KeyEvent, KeyKind, Reaction, CONTROL,
};
use plmidi::logger::{synth_level, verbosity, Level, SynthLevel};
use plmidi::output::Opening::{Fail, Silent, Try};
use plmidi::output::Output::{Device, Synth};
use plmidi::output::{
    list_devices, next_output, pick_device, Backends, DeviceError, Opening,
};
use plmidi::playback::{Action, Input, Player};
use plmidi::speed::{Speed, NORMAL};
use plmidi::startup::{task, window_may_open, Init, Mode, Task};
use plmidi::state::PlaybackState;
use plmidi::tempo::Bpm;
use plmidi::track::{prepare_tracks, total_micros, Track, LONGEST, LONGEST_IN_MICROS};

fn note(channel: u8, key: u8) -> Event {
    Event::Midi(MidiEvent {
        channel: channel.into(),
        message: MidiMessage::NoteOn {
            key: key.into(),
            vel: 1.into(),
        },
    })
}

fn track(name: &str, nanos: u128, events: Vec<Event>) -> Track {
    let mut sheet = Sheet::new();
    sheet.push(Moment { events });
    Track {
        name: name.to_string(),
        duration: nanos,
        tpb: 480,
        sheet,
    }
}

fn normal() -> Speed {
    Speed { bits: NORMAL }
}

fn keys_played(t: Track) -> Vec<u8> {
    let mut p = Player::new(vec![t], true, normal());
    p.step(Input::Proceed);
    p.step(Input::NoCommand)
        .into_iter()
        .filter_map(|a| match a {
            Action::Play(m) => Some(m.first),
            _ => None,
        })
        .collect()
}

#[test]
fn tracks_are_transposed_but_drums_are_not() {
    let events = || vec![note(0, 60), note(9, 60), note(0, 120), Event::Tempo(7), note(3, 0)];
    let mut list = vec![track("t", 5, events())];
    prepare_tracks(&mut list, 12, false);
    assert_eq!(list[0].name, "t");
    assert_eq!((list[0].duration, list[0].tpb), (5, 480));
    assert_eq!(keys_played(list.remove(0)), vec![72, 60, 12]);

    let mut list = vec![track("t", 5, events())];
    prepare_tracks(&mut list, -1, false);
    assert_eq!(keys_played(list.remove(0)), vec![59, 60, 119]);

    let mut list = vec![track("t", 5, events())];
    prepare_tracks(&mut list, 0, false);
    assert_eq!(keys_played(list.remove(0)), vec![60, 60, 120, 0]);
}

#[test]
fn shuffling_loses_no_track() {
    let names: Vec<String> = (0..60).map(|n| format!("{n:02}")).collect();
    let mut list: Vec<Track> = names.iter().map(|n| track(n, 1_000, vec![note(0, 1)])).collect();
    prepare_tracks(&mut list, 0, true);
    let mut shuffled: Vec<String> = list.iter().map(|t| t.name.clone()).collect();
    assert_ne!(shuffled, names);
    shuffled.sort();
    assert_eq!(shuffled, names);
    assert_eq!(total_micros(&list), Some(60));

    let mut list: Vec<Track> = names.iter().map(|n| track(n, 1, vec![])).collect();
    prepare_tracks(&mut list, 0, false);
    let kept: Vec<String> = list.iter().map(|t| t.name.clone()).collect();
    assert_eq!(kept, names);
}

#[test]
fn durations_add_up() {
    assert_eq!(total_micros(&vec![]), Some(0));
    let list = vec![track("a", 1_500_000_000, vec![]), track("b", 600_000_001, vec![])];
    assert_eq!(total_micros(&list), Some(2_100_000));
    assert_eq!(list[1].micros(), Some(600_000));
    let list = vec![track("a", 1_600, vec![]), track("b", 1_700, vec![])];
    assert_eq!(total_micros(&list), Some(3));
}

#[test]
fn durations_that_cannot_be_told() {
    let longest = std::time::Duration::MAX;
    assert_eq!(longest.as_nanos(), LONGEST);
    assert_eq!(longest.as_micros(), LONGEST_IN_MICROS);
    let list = vec![track("a", LONGEST, vec![]), track("b", 0, vec![])];
    assert_eq!(total_micros(&list), Some(LONGEST_IN_MICROS));
    let list = vec![track("a", LONGEST, vec![]), track("b", 1, vec![])];
    assert_eq!(total_micros(&list), None);
    let list = vec![track("a", 1, vec![]), track("b", u128::MAX, vec![])];
    assert_eq!(total_micros(&list), None);
    assert_eq!(list[0].micros(), Some(0));
    assert_eq!(list[1].micros(), None);
    assert_eq!(track("c", LONGEST, vec![]).micros(), Some(LONGEST_IN_MICROS));
    assert_eq!(track("c", LONGEST + 1, vec![]).micros(), None);
}

fn press(code: KeyCode, modifiers: u8) -> Reaction {
    listen(Heard::Key(KeyEvent { kind: KeyKind::Press, code, modifiers }))
}

#[test]
fn keys() {
    let stop = Reaction::Stop { done: false };
    assert_eq!(press(KeyCode::Esc, 0), stop);
    assert_eq!(press(KeyCode::Esc, 5), stop);
    for c in ['c', 'd', 'q'] {
        assert_eq!(press(KeyCode::Char(c), CONTROL), stop);
        assert_eq!(press(KeyCode::Char(c), 0), Reaction::Listen);
        assert_eq!(press(KeyCode::Char(c), CONTROL | 1), Reaction::Listen);
    }
    assert_eq!(press(KeyCode::Left, CONTROL), Reaction::Send(Command::Prev));
    assert_eq!(press(KeyCode::Right, CONTROL), Reaction::Send(Command::Next));
    assert_eq!(press(KeyCode::Left, 0), Reaction::Listen);
    assert_eq!(press(KeyCode::Right, 4), Reaction::Listen);
    assert_eq!(press(KeyCode::Char(' '), 0), Reaction::Send(Command::Pause));
    assert_eq!(press(KeyCode::Char('+'), 1), Reaction::Send(Command::SpeedUp));
    assert_eq!(press(KeyCode::Char('='), 0), Reaction::Send(Command::SpeedUp));
    assert_eq!(press(KeyCode::Char('-'), CONTROL), Reaction::Send(Command::SpeedDown));
    assert_eq!(press(KeyCode::Char('x'), 0), Reaction::Listen);
    assert_eq!(press(KeyCode::Other, CONTROL), Reaction::Listen);
    for kind in [KeyKind::Repeat, KeyKind::Release] {
        let key = KeyEvent { kind, code: KeyCode::Esc, modifiers: 0 };
        assert_eq!(listen(Heard::Key(key)), Reaction::Listen);
    }
    assert_eq!(listen(Heard::Done), Reaction::Stop { done: true });
    assert_eq!(listen(Heard::Ended), stop);
    assert_eq!(listen(Heard::Failed), stop);
    assert_eq!(listen(Heard::Other), Reaction::Listen);
    assert_eq!(after_send(true), stop);
    assert_eq!(after_send(false), Reaction::Listen);
}

#[test]
fn modifier_bits_are_those_of_the_terminal() {
    assert_eq!(CONTROL, crossterm::event::KeyModifiers::CONTROL.bits());
}

#[test]
fn closing() {
    assert_eq!(
        close(false, true),
        vec![
            Closing::DropSender,
            Closing::AwaitDone,
            Closing::DisableRawMode,
            Closing::LeaveAlternateScreen,
            Closing::PopKeyboardFlags,
            Closing::Exit,
        ]
    );
    assert_eq!(close(true, false), vec![Closing::DisableRawMode, Closing::Exit]);
}

#[test]
fn log_levels() {
    assert_eq!(verbosity(0), Level::Error);
    assert_eq!(verbosity(1), Level::Warn);
    assert_eq!(verbosity(2), Level::Info);
    assert_eq!(verbosity(3), Level::Debug);
    assert_eq!(verbosity(u64::MAX), Level::Debug);
    assert_eq!(synth_level(SynthLevel::Panic), Level::Error);
    assert_eq!(synth_level(SynthLevel::Error), Level::Error);
    assert_eq!(synth_level(SynthLevel::Warning), Level::Warn);
    assert_eq!(synth_level(SynthLevel::Info), Level::Info);
    assert_eq!(synth_level(SynthLevel::Debug), Level::Debug);
}

#[test]
fn devices() {
    assert_eq!(pick_device(0, 0), Err(DeviceError::NoDevice));
    assert_eq!(pick_device(2, 2), Err(DeviceError::OnlySoMany(2)));
    assert_eq!(pick_device(1, 2), Ok(1));
    assert_eq!(DeviceError::NoDevice.text(), "no midi output device detected");
    assert_eq!(
        DeviceError::OnlySoMany(2).text(),
        "only 2 devices detected; run with --list to see them"
    );
    assert_eq!(list_devices(&vec![]), vec!["No active MIDI output device detected."]);
    assert_eq!(
        list_devices(&vec![Some("Piano".to_string()), None]),
        vec!["#0: Piano", "#1: <no device name>"]
    );
}

fn attempts(mode: Mode, backends: Backends, device: Option<usize>) -> Vec<Opening> {
    (0..5).map(|failed| next_output(mode, backends, device, failed)).collect()
}

#[test]
fn outputs_are_tried_in_order() {
    let terminal = |b, d| attempts(Mode::Terminal, b, d);
    let window = |b, d| attempts(Mode::Window, b, d);
    let both = Backends::SynthAndSystem;
    assert_eq!(terminal(both, None), vec![Try(Synth), Fail, Fail, Fail, Fail]);
    assert_eq!(terminal(both, Some(3)), vec![Try(Device(3)), Fail, Fail, Fail, Fail]);
    assert_eq!(terminal(Backends::SynthOnly, Some(3))[..2], [Try(Synth), Fail]);
    assert_eq!(terminal(Backends::SystemOnly, None)[..2], [Try(Device(0)), Fail]);
    assert_eq!(terminal(Backends::SystemOnly, Some(2))[..2], [Try(Device(2)), Fail]);
    assert_eq!(
        window(both, None),
        vec![Try(Device(1)), Try(Synth), Try(Device(0)), Silent, Silent]
    );
    assert_eq!(
        window(both, Some(4)),
        vec![Try(Device(4)), Try(Device(4)), Silent, Silent, Silent]
    );
    assert_eq!(window(Backends::SynthOnly, None)[..2], [Try(Synth), Silent]);
    assert_eq!(window(Backends::SystemOnly, None)[..2], [Try(Device(1)), Silent]);
    assert_eq!(window(Backends::SystemOnly, Some(0))[..2], [Try(Device(0)), Silent]);
}

#[test]
fn what_the_program_does() {
    assert_eq!(task(true, true), Task::ListDevices);
    assert_eq!(task(false, true), Task::Play(Mode::Window));
    assert_eq!(task(false, false), Task::Play(Mode::Terminal));
    assert_eq!(window_may_open(Init::Ready), Ok(()));
    assert_eq!(window_may_open(Init::Failed("x".to_string())), Err("x".to_string()));
    assert_eq!(
        window_may_open(Init::Lost),
        Err("playback thread did not initialize".to_string())
    );
}

fn window() -> PlaybackState {
    let list = vec![
        track("one", 61_000_000_000, vec![]),
        track("two", 5_999_999_999, vec![]),
    ];
    PlaybackState::new(&list, normal())
}

#[test]
fn window_texts() {
    let mut state = window();
    assert_eq!(
        now_playing(&state),
        NowPlaying::Track { label: "one [1/2]".to_string(), bpm: None }
    );
    assert_eq!(playlist_labels(&state), vec!["▶ one (1m1s)", "   two (5s)"]);
    state.track_index = 1;
    state.bpm = Some(Bpm { micros_per_beat: 400_000 });
    assert_eq!(
        now_playing(&state),
        NowPlaying::Track {
            label: "two [2/2]".to_string(),
            bpm: Some("BPM: 150".to_string()),
        }
    );
    assert_eq!(playlist_labels(&state), vec!["   one (1m1s)", "▶ two (5s)"]);
    state.track_index = 2;
    assert_eq!(
        now_playing(&state),
        NowPlaying::Track { label: "— [3/2]".to_string(), bpm: Some("BPM: 150".to_string()) }
    );
    state.track_index = 1;
    state.done = true;
    assert_eq!(now_playing(&state), NowPlaying::Finished);
    assert_eq!(playlist_labels(&state), vec!["   one (1m1s)", "   two (5s)"]);
    state.done = false;
    state.playlist.clear();
    assert_eq!(now_playing(&state), NowPlaying::Loading);
    assert!(playlist_labels(&state).is_empty());
    assert_eq!(pause_label(true), "▶  Play");
    assert_eq!(pause_label(false), "⏸  Pause");
}

#[test]
fn window_and_terminal_name_the_same_track() {
    let list = vec![track("one", 1, vec![]), track("two", 1, vec![])];
    let mut state = PlaybackState::new(&list, normal());
    state.track_index = 1;
    let shown = make_display("H", &list[1], 1, 2, normal(), None);
    match now_playing(&state) {
        NowPlaying::Track { label, .. } => {
            assert_eq!(shown.lines().nth(1), Some(format!("Current: {label}").as_str()));
        }
        other => panic!("{other:?}"),
    }
}

#[test]
fn buttons() {
    assert_eq!(Button::Prev.command(), Command::Prev);
    assert_eq!(Button::Pause.command(), Command::Pause);
    assert_eq!(Button::Next.command(), Command::Next);
    assert_eq!(Button::SpeedDown.command(), Command::SpeedDown);
    assert_eq!(Button::SpeedUp.command(), Command::SpeedUp);
    assert_eq!(
        Button::ResetSpeed.command(),
        Command::SetSpeed(Speed { bits: 1.0_f32.to_bits() })
    );
}
