use nodi::midly::num::u14;
use nodi::midly::{MidiMessage, PitchBend};
use nodi::{Event, MidiEvent, Moment, Sheet};
use plmidi::command::Command;
use plmidi::midi::Message;
use plmidi::playback::{can_be_played, Action, Input, Phase, Player, Print, Screen};
use plmidi::speed::Speed;
use plmidi::state::PlaybackState;
use plmidi::tempo::Bpm;
use plmidi::track::Track;

fn speed(x: f32) -> Speed {
    Speed { bits: x.to_bits() }
}

fn midi(channel: u8, message: MidiMessage) -> Event {
    Event::Midi(MidiEvent {
        channel: channel.into(),
        message,
    })
}

fn note(channel: u8, key: u8) -> Event {
    midi(
        channel,
        MidiMessage::NoteOn {
            key: key.into(),
            vel: 64.into(),
        },
    )
}

fn track(name: &str, moments: Vec<Vec<Event>>) -> Track {
    let mut sheet = Sheet::new();
    for events in moments {
        sheet.push(Moment { events });
    }
    Track {
        name: name.to_string(),
        duration: 2_000_000_000,
        tpb: 96,
        sheet,
    }
}

fn on(key: u8) -> Action {
    Action::Play(Message {
        status: 0x90,
        first: key,
        second: 64,
    })
}

fn go(p: &mut Player, input: Input) -> Vec<Action> {
    p.step(input)
}

fn one_track() -> Player {
    let t = track(
        "song",
        vec![
            vec![Event::Tempo(500_000), note(0, 60)],
            vec![],
            vec![],
            vec![note(0, 62), note(0, 64)],
        ],
    );
    Player::new(vec![t], false, speed(1.0))
}

fn status(bpm: Option<u32>, x: f32) -> Screen {
    Screen::Status {
        n_track: 0,
        speed: speed(x),
        bpm: bpm.map(|micros_per_beat| Bpm { micros_per_beat }),
    }
}

fn full(n_track: usize, bpm: Option<u32>, x: f32) -> Screen {
    Screen::Full {
        n_track,
        speed: speed(x),
        bpm: bpm.map(|micros_per_beat| Bpm { micros_per_beat }),
    }
}

fn opening(n_track: usize, x: f32) -> Vec<Action> {
    vec![
        Action::Reset,
        Action::AllNotesOff,
        Action::StartTimer {
            tpb: 96,
            speed: speed(x),
        },
        Action::Show(Print::ReplaceAll, full(n_track, None, x)),
    ]
}

#[test]
fn a_track_is_played_to_its_end() {
    let mut p = one_track();
    assert_eq!(p.phase(), Phase::Starting);
    assert_eq!(go(&mut p, Input::Proceed), opening(0, 1.0));
    assert_eq!(p.phase(), Phase::Polling);
    assert_eq!(
        go(&mut p, Input::NoCommand),
        vec![
            Action::Sleep(0),
            Action::ChangeTempo(500_000),
            Action::Show(Print::ReplaceLast, status(Some(500_000), 1.0)),
            on(60),
        ]
    );
    assert_eq!(go(&mut p, Input::NoCommand), vec![]);
    assert_eq!(go(&mut p, Input::NoCommand), vec![]);
    assert_eq!(p.cursor().counter, 3);
    assert_eq!(
        go(&mut p, Input::NoCommand),
        vec![
            Action::Sleep(3),
            on(62),
            on(64),
            Action::Reset,
            Action::AllNotesOff
        ]
    );
    assert_eq!(p.phase(), Phase::Done);
    assert_eq!(p.cursor().n_track, 1);
}

#[test]
fn what_can_be_played() {
    assert!(!can_be_played(&vec![]));
    assert!(can_be_played(&vec![track("empty", vec![])]));
    assert!(can_be_played(&vec![
        track("a", vec![vec![]; 1_000]),
        track("b", vec![vec![note(0, 1)], vec![]]),
    ]));
}

#[test]
fn every_kind_of_event_is_read() {
    let events = vec![
        midi(1, MidiMessage::NoteOff { key: 1.into(), vel: 2.into() }),
        midi(2, MidiMessage::NoteOn { key: 3.into(), vel: 4.into() }),
        midi(3, MidiMessage::Aftertouch { key: 5.into(), vel: 6.into() }),
        midi(4, MidiMessage::Controller { controller: 7.into(), value: 8.into() }),
        midi(5, MidiMessage::ProgramChange { program: 9.into() }),
        midi(6, MidiMessage::ChannelAftertouch { vel: 10.into() }),
        midi(15, MidiMessage::PitchBend { bend: PitchBend(u14::new(0x2001)) }),
        Event::TimeSignature(4, 2, 24, 8),
        Event::KeySignature(-3, true),
    ];
    let mut p = Player::new(vec![track("all", vec![events])], false, speed(1.0));
    go(&mut p, Input::Proceed);
    let played: Vec<(u8, u8, u8)> = go(&mut p, Input::NoCommand)
        .into_iter()
        .filter_map(|a| match a {
            Action::Play(m) => Some((m.status, m.first, m.second)),
            _ => None,
        })
        .collect();
    assert_eq!(
        played,
        vec![
            (0x81, 1, 2),
            (0x92, 3, 4),
            (0xa3, 5, 6),
            (0xb4, 7, 8),
            (0xc5, 9, 0),
            (0xd6, 10, 0),
            (0xef, 1, 0x40),
        ]
    );
}

#[test]
fn a_list_is_played_through_once() {
    let a = track("a", vec![vec![note(0, 1)], vec![note(0, 2)]]);
    let b = track("b", vec![]);
    let c = track("c", vec![vec![note(0, 3)]]);
    let mut p = Player::new(vec![a, b, c], false, speed(1.0));
    let mut heard = Vec::new();
    let mut inputs = 0;
    while p.phase() != Phase::Done {
        let input = match p.phase() {
            Phase::Starting => Input::Proceed,
            _ => Input::NoCommand,
        };
        inputs += 1;
        heard.extend(
            go(&mut p, input)
                .into_iter()
                .filter(|a| matches!(a, Action::Play(_))),
        );
    }
    assert_eq!(inputs, 3 + 3);
    assert_eq!(heard, vec![on(1), on(2), on(3)]);
}

#[test]
fn a_repeated_list_starts_again() {
    let mut p = Player::new(vec![track("a", vec![vec![note(0, 1)]])], true, speed(1.0));
    go(&mut p, Input::Proceed);
    assert_eq!(go(&mut p, Input::NoCommand), vec![Action::Sleep(0), on(1)]);
    assert_eq!(p.phase(), Phase::Starting);
    assert_eq!(p.cursor().n_track, 0);
    go(&mut p, Input::Proceed);
    assert_eq!(
        go(&mut p, Input::Closed),
        vec![Action::Reset, Action::AllNotesOff]
    );
    assert_eq!(p.phase(), Phase::Done);
}

#[test]
fn pausing_and_going_on() {
    let mut p = one_track();
    go(&mut p, Input::Proceed);
    go(&mut p, Input::NoCommand);
    assert_eq!(
        go(&mut p, Input::Command(Command::Pause)),
        vec![
            Action::AllNotesOff,
            Action::Show(Print::Append, Screen::Paused)
        ]
    );
    assert_eq!(p.phase(), Phase::Paused);
    let at = p.cursor().position;
    assert_eq!(
        go(&mut p, Input::Command(Command::SpeedUp)),
        vec![
            Action::SetTimerSpeed(speed(1.1)),
            Action::Show(Print::ReplaceLast, Screen::PausedSpeed { speed: speed(1.1) }),
        ]
    );
    assert_eq!(p.cursor().position, at);
    assert_eq!(
        go(&mut p, Input::Command(Command::Pause)),
        vec![Action::Show(Print::ReplaceAll, full(0, Some(500_000), 1.1))]
    );
    assert_eq!(p.phase(), Phase::Polling);
    assert_eq!(p.cursor().position, at + 1);
    // A second pause in the same track takes the place of the last line.
    assert_eq!(
        go(&mut p, Input::Command(Command::Pause)),
        vec![
            Action::AllNotesOff,
            Action::Show(Print::ReplaceLast, Screen::Paused)
        ]
    );
    assert_eq!(
        go(&mut p, Input::Closed),
        vec![Action::Reset, Action::AllNotesOff]
    );
}

#[test]
fn a_pause_loses_nothing() {
    let mut straight = one_track();
    let mut paused = one_track();
    for p in [&mut straight, &mut paused] {
        go(p, Input::Proceed);
        for _ in 0..3 {
            go(p, Input::NoCommand);
        }
    }
    let expected = go(&mut straight, Input::NoCommand);
    go(&mut paused, Input::Command(Command::Pause));
    let mut actual = go(&mut paused, Input::Command(Command::Pause));
    actual.remove(0);
    assert_eq!(actual, expected);
}

#[test]
fn changing_the_speed() {
    let mut p = one_track();
    go(&mut p, Input::Proceed);
    assert_eq!(
        go(&mut p, Input::Command(Command::SpeedDown)),
        vec![
            Action::SetTimerSpeed(speed(0.9)),
            Action::Show(Print::ReplaceLast, status(None, 0.9)),
            Action::Sleep(0),
            Action::ChangeTempo(500_000),
            Action::Show(Print::ReplaceLast, status(Some(500_000), 0.9)),
            on(60),
        ]
    );
    assert_eq!(
        go(&mut p, Input::Command(Command::SetSpeed(speed(2.5)))),
        vec![
            Action::SetTimerSpeed(speed(2.5)),
            Action::Show(Print::ReplaceLast, status(Some(500_000), 2.5)),
        ]
    );
    assert_eq!(p.cursor().speed, speed(2.5));
}

#[test]
fn speed_keeps_within_bounds() {
    let mut p = Player::new(
        vec![track("long", vec![vec![]; 400])],
        true,
        speed(1.0),
    );
    go(&mut p, Input::Proceed);
    let mut x = 1.0_f32;
    for _ in 0..150 {
        go(&mut p, Input::Command(Command::SpeedUp));
        x = (x + 0.1).min(10.0);
        assert_eq!(p.cursor().speed, speed(x));
    }
    assert_eq!(p.cursor().speed, speed(10.0));
    for _ in 0..150 {
        go(&mut p, Input::Command(Command::SpeedDown));
        x = (x - 0.1).max(0.1);
        assert_eq!(p.cursor().speed, speed(x));
    }
    assert_eq!(p.cursor().speed, speed(0.1));
}

#[test]
fn the_speed_carries_over_to_the_next_track() {
    let list = vec![track("a", vec![vec![]; 3]), track("b", vec![vec![]])];
    let mut p = Player::new(list, false, speed(1.0));
    go(&mut p, Input::Proceed);
    assert_eq!(
        go(&mut p, Input::Command(Command::SpeedUp))[0],
        Action::SetTimerSpeed(speed(1.1))
    );
    go(&mut p, Input::NoCommand);
    assert_eq!(p.cursor().speed, speed(1.1));
    go(&mut p, Input::Command(Command::Next));
    assert_eq!(go(&mut p, Input::Proceed), opening(1, 1.1));
}

#[test]
fn next_and_previous() {
    let list = || {
        vec![
            track("a", vec![vec![], vec![]]),
            track("b", vec![vec![], vec![]]),
        ]
    };
    let mut p = Player::new(list(), false, speed(1.0));
    go(&mut p, Input::Proceed);
    go(&mut p, Input::NoCommand);
    assert_eq!(go(&mut p, Input::Command(Command::Prev)), vec![]);
    assert_eq!((p.phase(), p.cursor().n_track), (Phase::Starting, 0));
    go(&mut p, Input::Proceed);
    assert_eq!(go(&mut p, Input::Command(Command::Next)), vec![]);
    assert_eq!(go(&mut p, Input::Proceed), opening(1, 1.0));
    go(&mut p, Input::Command(Command::Prev));
    assert_eq!((p.phase(), p.cursor().n_track), (Phase::Starting, 0));
    go(&mut p, Input::Proceed);
    go(&mut p, Input::Command(Command::Pause));
    go(&mut p, Input::Command(Command::Next));
    go(&mut p, Input::Proceed);
    assert_eq!(
        go(&mut p, Input::Command(Command::Next)),
        vec![Action::Reset, Action::AllNotesOff]
    );
    assert_eq!(p.phase(), Phase::Done);

    let mut p = Player::new(list(), true, speed(1.0));
    go(&mut p, Input::Proceed);
    go(&mut p, Input::Command(Command::Next));
    go(&mut p, Input::Proceed);
    assert_eq!(go(&mut p, Input::Command(Command::Next)), vec![]);
    assert_eq!((p.phase(), p.cursor().n_track), (Phase::Starting, 0));
}

#[test]
fn small_changes_of_tempo_are_not_displayed() {
    // 120 bpm, then 120.48 bpm, then 121 bpm.
    let t = track(
        "tempo",
        vec![vec![
            Event::Tempo(500_000),
            Event::Tempo(498_000),
            Event::Tempo(495_868),
        ]],
    );
    let mut p = Player::new(vec![t], true, speed(1.0));
    go(&mut p, Input::Proceed);
    assert_eq!(
        go(&mut p, Input::NoCommand),
        vec![
            Action::Sleep(0),
            Action::ChangeTempo(500_000),
            Action::Show(Print::ReplaceLast, status(Some(500_000), 1.0)),
            Action::ChangeTempo(498_000),
            Action::ChangeTempo(495_868),
            Action::Show(Print::ReplaceLast, status(Some(495_868), 1.0)),
        ]
    );
}

#[test]
fn moments_come_in_time() {
    let t = track(
        "gaps",
        vec![vec![], vec![note(0, 1)], vec![], vec![], vec![note(0, 2)]],
    );
    let mut p = Player::new(vec![t], true, speed(1.0));
    go(&mut p, Input::Proceed);
    let mut slept = 0;
    for k in 0..5_u32 {
        for a in go(&mut p, Input::NoCommand) {
            match a {
                Action::Sleep(n) => slept += n,
                Action::Play(_) => assert_eq!(slept, k),
                _ => (),
            }
        }
    }
    assert_eq!(slept, 4);
}

#[test]
fn state_follows_playback() {
    let mut p = one_track();
    let mut state = PlaybackState::new(p.tracks(), speed(1.0));
    assert_eq!(state.playlist, vec![("song".to_string(), 2_000_000_000)]);
    assert_eq!(state.track_index, 0);
    assert!(state.bpm.is_none() && !state.paused && !state.done);
    go(&mut p, Input::Proceed);
    go(&mut p, Input::NoCommand);
    go(&mut p, Input::Command(Command::Pause));
    state.update(&p);
    assert!(state.paused && !state.done);
    assert_eq!(state.bpm, Some(Bpm { micros_per_beat: 500_000 }));
    go(&mut p, Input::Command(Command::SpeedUp));
    go(&mut p, Input::Closed);
    state.update(&p);
    assert!(!state.paused && state.done);
    assert_eq!(state.speed, speed(1.1));
    assert_eq!(state.playlist.len(), 1);
}
