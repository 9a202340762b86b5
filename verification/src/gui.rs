//! What the window says, and what its buttons ask for.

use crate::command::Command;
use crate::display::{display_text, duration_text, format_duration, status_text, SECOND};
use crate::playback::{Phase, PlayerModel};
use crate::speed::{Speed, NORMAL};
use crate::state::{entries, entries_of, PlaybackState};
use crate::tempo::Bpm;
use crate::text::{decimal, decimal_text, texts};
use vstd::prelude::*;

verus! {

/// What the window says about the current track.
#[derive(Debug, PartialEq, Eq)]
pub enum NowPlaying {
    /// That playback is over.
    Finished,
    /// That there are no tracks yet.
    Loading,
    /// The track and, once there was a tempo, its beats per minute.
    Track { label: String, bpm: Option<String> },
}

/// The name of the track at `index`, or a dash if there is no such track.
pub open spec fn name_at(playlist: Seq<(Seq<char>, nat)>, index: nat) -> Seq<char> {
    if index < playlist.len() {
        playlist[index as int].0
    } else {
        "—"@
    }
}

/// A track by its name and its place in the list.
pub open spec fn track_label(playlist: Seq<(Seq<char>, nat)>, index: nat) -> Seq<char> {
    name_at(playlist, index) + " ["@ + decimal(index + 1) + "/"@ + decimal(playlist.len()) + "]"@
}

/// Beats per minute, as the window shows them.
pub open spec fn bpm_label(bpm: Bpm) -> Seq<char> {
    "BPM: "@ + bpm.shown()
}

/// An entry of the playlist: name and duration, with a mark if it is the track
/// that is being played.
pub open spec fn entry_label(entry: (Seq<char>, nat), current: bool) -> Seq<char> {
    let mark = if current {
        "▶ "@
    } else {
        "   "@
    };
    mark + entry.0 + " ("@ + duration_text(entry.1 / SECOND as nat) + ")"@
}

/// All entries of the playlist. None is marked once playback is over.
pub open spec fn entry_labels(
    playlist: Seq<(Seq<char>, nat)>,
    track_index: nat,
    done: bool,
) -> Seq<Seq<char>> {
    Seq::new(
        playlist.len(),
        |i: int| entry_label(playlist[i], i == track_index && !done),
    )
}

/// Tells what the window says about the current track.
pub fn now_playing(state: &PlaybackState) -> (now: NowPlaying)
    ensures
        match now {
            NowPlaying::Finished => state.done,
            NowPlaying::Loading => !state.done && state.playlist@.len() == 0,
            NowPlaying::Track { label, bpm } => {
                &&& !state.done && state.playlist@.len() > 0
                &&& label@ == track_label(entries(state.playlist@), state.track_index as nat)
                &&& match (bpm, state.bpm) {
                    (Some(text), Some(b)) => text@ == bpm_label(b),
                    (None, None) => true,
                    _ => false,
                }
            },
        },
{
    if state.done {
        return NowPlaying::Finished;
    }
    let count: usize = state.playlist.len();
    if count == 0 {
        return NowPlaying::Loading;
    }
    let index: usize = state.track_index;
    let mut label = if index < count {
        assert(entries(state.playlist@)[index as int].0 == state.playlist@[index as int].0@);
        state.playlist[index].0.clone()
    } else {
        "—".to_owned()
    };
    label.append(" [");
    label.append(decimal_text(index as u128 + 1).as_str());
    label.append("/");
    label.append(decimal_text(count as u128).as_str());
    label.append("]");
    let bpm = match state.bpm {
        Some(b) => {
            let mut text = "BPM: ".to_owned();
            text.append(b.text().as_str());
            Some(text)
        },
        None => None,
    };
    NowPlaying::Track { label, bpm }
}

/// Tells what the window says about each entry of the playlist.
pub fn playlist_labels(state: &PlaybackState) -> (labels: Vec<String>)
    ensures
        texts(labels@) == entry_labels(
            entries(state.playlist@),
            state.track_index as nat,
            state.done,
        ),
{
    let ghost all = entry_labels(entries(state.playlist@), state.track_index as nat, state.done);
    let mut labels: Vec<String> = Vec::new();
    let mut i: usize = 0;
    while i < state.playlist.len()
        invariant
            i <= state.playlist@.len() == all.len(),
            all == entry_labels(entries(state.playlist@), state.track_index as nat, state.done),
            texts(labels@) == all.take(i as int),
        decreases state.playlist@.len() - i,
    {
        let mut label = if i == state.track_index && !state.done {
            "▶ ".to_owned()
        } else {
            "   ".to_owned()
        };
        label.append(state.playlist[i].0.as_str());
        label.append(" (");
        label.append(format_duration(state.playlist[i].1).as_str());
        label.append(")");
        let ghost before = labels@;
        assert(label@ == all[i as int]);
        labels.push(label);
        assert(texts(labels@) =~= texts(before).push(all[i as int]));
        assert(all.take(i + 1) =~= all.take(i as int).push(all[i as int]));
        i = i + 1;
    }
    assert(all.take(all.len() as int) =~= all);
    labels
}

/// What stands on the button that pauses playback and lets it go on.
pub fn pause_label(paused: bool) -> (label: &'static str)
    ensures
        label@ == if paused {
            "▶  Play"@
        } else {
            "⏸  Pause"@
        },
{
    if paused {
        "▶  Play"
    } else {
        "⏸  Pause"
    }
}

/// The buttons of the window.
#[derive(Clone, Copy, Debug, PartialEq, Eq)]
pub enum Button {
    Prev,
    Pause,
    Next,
    SpeedDown,
    SpeedUp,
    /// Back to normal speed.
    ResetSpeed,
}

impl Button {
    /// What a click on the button asks for.
    pub fn command(self) -> (command: Command)
        ensures
            command == match self {
                Button::Prev => Command::Prev,
                Button::Pause => Command::Pause,
                Button::Next => Command::Next,
                Button::SpeedDown => Command::SpeedDown,
                Button::SpeedUp => Command::SpeedUp,
                Button::ResetSpeed => Command::SetSpeed(Speed { bits: NORMAL }),
            },
    {
        match self {
            Button::Prev => Command::Prev,
            Button::Pause => Command::Pause,
            Button::Next => Command::Next,
            Button::SpeedDown => Command::SpeedDown,
            Button::SpeedUp => Command::SpeedUp,
            Button::ResetSpeed => Command::SetSpeed(Speed { bits: NORMAL }),
        }
    }
}

/// At most one entry of the playlist is marked, and it is the one that the
/// window names as the current track.
pub proof fn one_entry_is_marked(playlist: Seq<(Seq<char>, nat)>, track_index: nat, i: int)
    requires
        0 <= i < playlist.len(),
    ensures
        i == track_index ==> entry_labels(playlist, track_index, false)[i] == entry_label(
            (name_at(playlist, track_index), playlist[i].1),
            true,
        ),
        i != track_index ==> entry_labels(playlist, track_index, false)[i] == entry_label(
            playlist[i],
            false,
        ),
        entry_labels(playlist, track_index, true)[i] == entry_label(playlist[i], false),
{
}

/// The window and the terminal name the same track, by the same place in the
/// list: the one that is being played.
pub proof fn window_and_terminal_agree(
    p: PlayerModel,
    header: Seq<char>,
    speed: Speed,
    bpm: Option<Bpm>,
)
    requires
        p.valid(),
        p.cursor.phase != Phase::Done,
    ensures
        ({
            let n = p.cursor.n_track as nat;
            let track = p.tracks[n as int];
            let label = track_label(entries_of(p.tracks), n);
            &&& label == track.name + " ["@ + decimal(n + 1) + "/"@ + decimal(p.tracks.len())
                + "]"@
            &&& display_text(header, track, n, p.tracks.len(), speed, bpm) == header
                + "\nCurrent: "@ + label + "\n"@ + status_text(track, speed, bpm)
        }),
{
    reveal_strlit("]\n");
    reveal_strlit("]");
    reveal_strlit("\n");
    let n = p.cursor.n_track as nat;
    let track = p.tracks[n as int];
    assert("]\n"@ =~= "]"@ + "\n"@);
    assert(display_text(header, track, n, p.tracks.len(), speed, bpm) =~= header + "\nCurrent: "@
        + track_label(entries_of(p.tracks), n) + "\n"@ + status_text(track, speed, bpm));
}

/// The window names the current track and its number, counted from one, and how
/// many there are; it gives the beats per minute as the terminal does.
pub proof fn window_names_the_track(playlist: Seq<(Seq<char>, nat)>, index: nat, bpm: Bpm)
    ensures
        index < playlist.len() ==> track_label(playlist, index) == playlist[index as int].0 + " ["@
            + decimal(index + 1) + "/"@ + decimal(playlist.len()) + "]"@,
        index >= playlist.len() ==> track_label(playlist, index) == "—"@ + " ["@ + decimal(
            index + 1,
        ) + "/"@ + decimal(playlist.len()) + "]"@,
        bpm_label(bpm) == "BPM: "@ + bpm.shown(),
{
}

/// The playlist in the window has a line for each track, in their order, with its
/// name and how long it lasts at normal speed. The current track is marked, and
/// no other one is; once playback is over, none is.
pub proof fn playlist_has_a_line_for_each_track(
    playlist: Seq<(Seq<char>, nat)>,
    track_index: nat,
    done: bool,
    i: int,
)
    requires
        0 <= i < playlist.len(),
    ensures
        entry_labels(playlist, track_index, done).len() == playlist.len(),
        entry_labels(playlist, track_index, done)[i] == if i == track_index && !done {
            "▶ "@
        } else {
            "   "@
        } + playlist[i].0 + " ("@ + duration_text(playlist[i].1 / 1_000_000_000) + ")"@,
{
}

} // verus!
