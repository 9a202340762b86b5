//! The text on the screen, and how it gets there.

use crate::command::Command;
use crate::midi::SheetEvent;
use crate::playback::{events_actions, Action, Cursor, Input, PlayerModel, Print, Screen};
use crate::speed::{normal_speed_changes_nothing, product_is_ordered, Speed, NORMAL};
use crate::tempo::Bpm;
use crate::text::{decimal, decimal_text, lines, split_lines, texts};
use crate::track::{
    models, no_track_outlasts_the_list, total_length, total_micros, Track, TrackModel, LONGEST,
};
use vstd::arithmetic::power2::pow2;
use vstd::prelude::*;

verus! {

/// The nanoseconds in a second.
pub const SECOND: u128 = 1_000_000_000;

/// The microseconds in a second.
pub const SECOND_IN_MICROS: u64 = 1_000_000;

/// A time in minutes and seconds, or in seconds if it is under a minute.
pub open spec fn duration_text(secs: nat) -> Seq<char> {
    if secs / 60 > 0 {
        decimal(secs / 60) + "m"@ + decimal(secs % 60) + "s"@
    } else {
        decimal(secs % 60) + "s"@
    }
}

fn seconds_text(secs: u128) -> (text: String)
    ensures
        text@ == duration_text(secs as nat),
{
    let mins: u128 = secs / 60;
    let mut text = String::new();
    if mins > 0 {
        text.append(decimal_text(mins).as_str());
        text.append("m");
    }
    text.append(decimal_text(secs % 60).as_str());
    text.append("s");
    text
}

/// Writes a time of `t` nanoseconds, cut to whole seconds.
pub fn format_duration(t: u128) -> (text: String)
    ensures
        text@ == duration_text(t as nat / SECOND as nat),
{
    seconds_text(t / SECOND)
}

/// How many seconds the screen gives for what takes `nanos` nanoseconds at normal
/// speed.
pub open spec fn shown_seconds(nanos: nat, speed: Speed) -> nat {
    speed.times(nanos / 1_000) / SECOND_IN_MICROS as nat
}

/// What the screen says about the list: how many tracks there are, how long
/// they take, and which keys there are.
pub open spec fn header_text(tracks: Seq<TrackModel>, speed: Speed) -> Seq<char> {
    let plural = if tracks.len() == 1 {
        ""@
    } else {
        "s"@
    };
    "Playing "@ + decimal(tracks.len()) + " track"@ + plural + "\nTotal duration: "@ + duration_text(
        shown_seconds(total_length(tracks), speed),
    )
        + "\nPress the spacebar to play/pause, ctrl-left/right to play previous/next track\nPress +/- to adjust the playback speed. Press the esc key or ctrl-c to exit"@
}

/// Writes the header for tracks that are played at `speed`.
pub fn gen_header(tracks: &Vec<Track>, speed: Speed) -> (text: String)
    requires
        total_length(models(tracks@)) <= LONGEST,
    ensures
        text@ == header_text(models(tracks@), speed),
{
    let count: usize = tracks.len();
    let micros: u64 = speed.multiply(total_micros(tracks).unwrap());
    let mut text = "Playing ".to_owned();
    text.append(decimal_text(count as u128).as_str());
    text.append(" track");
    text.append(
        if count == 1 {
            ""
        } else {
            "s"
        },
    );
    text.append("\nTotal duration: ");
    text.append(seconds_text((micros / SECOND_IN_MICROS) as u128).as_str());
    text.append(
        "\nPress the spacebar to play/pause, ctrl-left/right to play previous/next track\nPress +/- to adjust the playback speed. Press the esc key or ctrl-c to exit",
    );
    text
}

/// What the screen says about the current track: how long it takes, how fast it
/// is played and, once there was a tempo, how many beats there are per minute.
pub open spec fn status_text(track: TrackModel, speed: Speed, bpm: Option<Bpm>) -> Seq<char> {
    let beats = match bpm {
        Some(b) => " | "@ + b.shown() + " BPM"@,
        None => ""@,
    };
    "Duration = "@ + duration_text(shown_seconds(track.duration, speed)) + " | Speed: "@
        + speed.shown() + "x"@ + beats
}

/// Writes the status line for a track that is played at `speed`.
pub fn gen_status_line(track: &Track, speed: Speed, bpm: Option<Bpm>) -> (text: String)
    requires
        track.duration <= LONGEST,
    ensures
        text@ == status_text(track@, speed, bpm),
{
    let micros: u64 = speed.multiply(track.micros().unwrap());
    let mut bpm_text = "".to_owned();
    if let Some(b) = bpm {
        bpm_text = " | ".to_owned();
        bpm_text.append(b.text().as_str());
        bpm_text.append(" BPM");
    }
    let mut text = "Duration = ".to_owned();
    text.append(seconds_text((micros / SECOND_IN_MICROS) as u128).as_str());
    text.append(" | Speed: ");
    text.append(speed.text().as_str());
    text.append("x");
    text.append(bpm_text.as_str());
    text
}

/// The whole screen: the header, the current track by its name and its place in
/// the list, and its status line.
pub open spec fn display_text(
    header: Seq<char>,
    track: TrackModel,
    n_track: nat,
    total: nat,
    speed: Speed,
    bpm: Option<Bpm>,
) -> Seq<char> {
    header + "\nCurrent: "@ + track.name + " ["@ + decimal(n_track + 1) + "/"@ + decimal(total)
        + "]\n"@ + status_text(track, speed, bpm)
}

/// Writes the whole screen.
pub fn make_display(
    header: &str,
    track: &Track,
    n_track: usize,
    total: usize,
    speed: Speed,
    bpm: Option<Bpm>,
) -> (text: String)
    requires
        track.duration <= LONGEST,
    ensures
        text@ == display_text(header@, track@, n_track as nat, total as nat, speed, bpm),
{
    let mut text = header.to_owned();
    text.append("\nCurrent: ");
    text.append(track.name.as_str());
    text.append(" [");
    text.append(decimal_text(n_track as u128 + 1).as_str());
    text.append("/");
    text.append(decimal_text(total as u128).as_str());
    text.append("]\n");
    text.append(gen_status_line(track, speed, bpm).as_str());
    text
}

impl Screen {
    /// Whether the track that is to be shown is one of `count` tracks.
    pub open spec fn within(self, count: nat) -> bool {
        match self {
            Screen::Full { n_track, .. } => n_track < count,
            Screen::Status { n_track, .. } => n_track < count,
            _ => true,
        }
    }

    /// Whether the screen can be shown: there is such a track, and how long it
    /// or the list lasts can be told.
    pub open spec fn fits(self, tracks: Seq<TrackModel>) -> bool {
        &&& self.within(tracks.len())
        &&& match self {
            Screen::Full { .. } => total_length(tracks) <= LONGEST,
            Screen::Status { n_track, .. } => tracks[n_track as int].duration <= LONGEST,
            _ => true,
        }
    }

    /// The text of the screen.
    pub open spec fn shown(self, tracks: Seq<TrackModel>) -> Seq<char> {
        match self {
            Screen::Full { n_track, speed, bpm } => display_text(
                header_text(tracks, speed),
                tracks[n_track as int],
                n_track as nat,
                tracks.len(),
                speed,
                bpm,
            ),
            Screen::Status { n_track, speed, bpm } => status_text(
                tracks[n_track as int],
                speed,
                bpm,
            ),
            Screen::Paused => "paused"@,
            Screen::PausedSpeed { speed } => "paused | Speed: "@ + speed.shown() + "x"@,
        }
    }

    /// Writes the text of the screen.
    pub fn text(self, tracks: &Vec<Track>) -> (text: String)
        requires
            self.fits(models(tracks@)),
        ensures
            text@ == self.shown(models(tracks@)),
    {
        match self {
            Screen::Full { n_track, speed, bpm } => {
                proof {
                    assert(models(tracks@)[n_track as int] == tracks@[n_track as int]@);
                    no_track_outlasts_the_list(models(tracks@), n_track as int);
                }
                let header = gen_header(tracks, speed);
                make_display(header.as_str(), &tracks[n_track], n_track, tracks.len(), speed, bpm)
            },
            Screen::Status { n_track, speed, bpm } => {
                assert(models(tracks@)[n_track as int] == tracks@[n_track as int]@);
                gen_status_line(&tracks[n_track], speed, bpm)
            },
            Screen::Paused => "paused".to_owned(),
            Screen::PausedSpeed { speed } => {
                let mut text = "paused | Speed: ".to_owned();
                text.append(speed.text().as_str());
                text.append("x");
                text
            },
        }
    }
}

/// Of the same track, a higher speed shows no fewer seconds.
pub proof fn shown_seconds_grow_with_the_speed(nanos: nat, slow: Speed, fast: Speed)
    requires
        (Speed { bits: 0 }).at_most(slow),
        slow.at_most(fast),
    ensures
        shown_seconds(nanos, slow) <= shown_seconds(nanos, fast),
{
    product_is_ordered(slow, fast, nanos / 1_000);
}

/// At normal speed the time shown is the one that [`format_duration`] writes for
/// the track, as long as that is under 2 to the power of 53 microseconds.
pub proof fn normal_speed_shows_the_duration(nanos: nat)
    requires
        nanos / 1_000 < pow2(53),
    ensures
        shown_seconds(nanos, Speed { bits: NORMAL }) == nanos / SECOND as nat,
        duration_text(shown_seconds(nanos, Speed { bits: NORMAL })) == duration_text(
            nanos / SECOND as nat,
        ),
{
    normal_speed_changes_nothing(nanos / 1_000);
}

/// Where the list as a whole can be told, so can every screen about one of its
/// tracks.
pub proof fn screens_fit(screen: Screen, tracks: Seq<TrackModel>)
    requires
        screen.within(tracks.len()),
        total_length(tracks) <= LONGEST,
    ensures
        screen.fits(tracks),
{
    if let Screen::Status { n_track, .. } = screen {
        no_track_outlasts_the_list(tracks, n_track as int);
    }
}

/// What is done to the terminal.
#[derive(Debug, PartialEq, Eq)]
pub enum Stroke {
    /// Clear all of it.
    ClearAll,
    /// Clear the line from the cursor on.
    ClearUntilNewLine,
    /// Start a new line.
    NewLine,
    /// Write this text.
    Text(String),
    /// Make what was written visible.
    Flush,
    /// Write this text and start a new line.
    TextLine(String),
}

/// A stroke, by its text.
pub enum StrokeModel {
    ClearAll,
    ClearUntilNewLine,
    NewLine,
    Text(Seq<char>),
    Flush,
    TextLine(Seq<char>),
}

impl View for Stroke {
    type V = StrokeModel;

    open spec fn view(&self) -> StrokeModel {
        match *self {
            Stroke::ClearAll => StrokeModel::ClearAll,
            Stroke::ClearUntilNewLine => StrokeModel::ClearUntilNewLine,
            Stroke::NewLine => StrokeModel::NewLine,
            Stroke::Text(text) => StrokeModel::Text(text@),
            Stroke::Flush => StrokeModel::Flush,
            Stroke::TextLine(text) => StrokeModel::TextLine(text@),
        }
    }
}

/// The strokes of a list, in their order.
pub open spec fn strokes(v: Seq<Stroke>) -> Seq<StrokeModel> {
    v.map_values(|s: Stroke| s@)
}

/// Lines written one below the other. In a raw terminal a new line does not
/// lead back to the left, so that each line ends with a carriage return.
pub open spec fn drawn_lines(found: Seq<Seq<char>>) -> Seq<StrokeModel>
    decreases found.len(),
{
    if found.len() == 0 {
        seq![]
    } else {
        let gap = if found.len() > 1 {
            seq![StrokeModel::NewLine]
        } else {
            seq![]
        };
        drawn_lines(found.drop_last()) + gap + seq![StrokeModel::Text(found.last() + "\r"@), StrokeModel::Flush]
    }
}

impl Print {
    /// What makes room for the text.
    pub open spec fn making_room(self) -> StrokeModel {
        match self {
            Print::Append => StrokeModel::NewLine,
            Print::ReplaceLast => StrokeModel::ClearUntilNewLine,
            Print::ReplaceAll => StrokeModel::ClearAll,
        }
    }

    /// How `s` gets on the screen. A terminal that is not in raw mode is just
    /// written to, line by line.
    pub open spec fn drawn(self, s: Seq<char>, raw: bool) -> Seq<StrokeModel> {
        if raw {
            seq![self.making_room()] + drawn_lines(lines(s))
        } else {
            seq![StrokeModel::TextLine(s)]
        }
    }

    /// Tells how `s` gets on the screen. `raw` is whether the terminal is in raw
    /// mode.
    pub fn print(self, s: &str, raw: bool) -> (done: Vec<Stroke>)
        ensures
            strokes(done@) == self.drawn(s@, raw),
    {
        let mut done: Vec<Stroke> = Vec::new();
        if !raw {
            done.push(Stroke::TextLine(s.to_owned()));
            assert(strokes(done@) =~= self.drawn(s@, raw));
            return done;
        }
        done.push(
            match self {
                Print::Append => Stroke::NewLine,
                Print::ReplaceLast => Stroke::ClearUntilNewLine,
                Print::ReplaceAll => Stroke::ClearAll,
            },
        );
        let found = split_lines(s);
        let ghost all = texts(found@);
        let ghost room = seq![self.making_room()];
        let mut i: usize = 0;
        assert(all.take(0) =~= Seq::empty());
        assert(strokes(done@) =~= room + drawn_lines(all.take(0)));
        while i < found.len()
            invariant
                i <= found@.len(),
                all == texts(found@),
                strokes(done@) == room + drawn_lines(all.take(i as int)),
            decreases found@.len() - i,
        {
            let ghost before = done@;
            proof {
                assert(all.take(i + 1).drop_last() =~= all.take(i as int));
                assert(all.take(i + 1).last() == found@[i as int]@);
            }
            if i > 0 {
                done.push(Stroke::NewLine);
            }
            let mut text = found[i].as_str().to_owned();
            text.append("\r");
            done.push(Stroke::Text(text));
            done.push(Stroke::Flush);
            proof {
                let gap = if i > 0 {
                    seq![StrokeModel::NewLine]
                } else {
                    seq![]
                };
                let own = seq![
                    StrokeModel::Text(found@[i as int]@ + "\r"@),
                    StrokeModel::Flush,
                ];
                assert(strokes(done@) =~= strokes(before) + gap + own);
                assert(strokes(done@) =~= room + (drawn_lines(all.take(i as int)) + gap + own));
            }
            i = i + 1;
        }
        assert(all.take(all.len() as int) =~= all);
        done
    }
}

/// Every screen that playback asks for shows a track that there is.
pub proof fn screens_show_tracks_that_exist(p: PlayerModel, input: Input)
    requires
        p.valid(),
        p.accepts(input),
    ensures
        screens_within(p.step(input).1, p.tracks.len()),
{
    match input {
        Input::NoCommand => {
            moment_shows_tracks_that_exist(p, seq![]);
        },
        Input::Command(command) if command != Command::Next && command != Command::Prev => {
            let c = p.cursor;
            let speed = match command {
                Command::SpeedUp => c.speed.raised(),
                Command::SpeedDown => c.speed.lowered(),
                Command::SetSpeed(speed) => speed,
                _ => c.speed,
            };
            let q = p.at(Cursor { speed, ..c });
            let redraw = seq![
                Action::Show(
                    Print::ReplaceAll,
                    Screen::Full { n_track: c.n_track, speed: c.speed, bpm: c.bpm },
                ),
            ];
            let faster = seq![
                Action::SetTimerSpeed(speed),
                Action::Show(
                    Print::ReplaceLast,
                    Screen::Status { n_track: c.n_track, speed, bpm: c.bpm },
                ),
            ];
            moment_shows_tracks_that_exist(p, redraw);
            moment_shows_tracks_that_exist(q, faster);
        },
        _ => {},
    }
}

proof fn moment_shows_tracks_that_exist(p: PlayerModel, first: Seq<Action>)
    requires
        p.cursor.n_track < p.tracks.len(),
        screens_within(first, p.tracks.len()),
    ensures
        screens_within(p.play_moment(first).1, p.tracks.len()),
{
    let c = p.cursor;
    events_show_tracks_that_exist(
        p.moments()[c.position as int],
        c.n_track,
        c.speed,
        c.bpm,
        p.tracks.len(),
    );
}

/// Whether every screen that `actions` show is about one of `count` tracks, if
/// it is about a track.
pub open spec fn screens_within(actions: Seq<Action>, count: nat) -> bool {
    forall|i: int|
        0 <= i < actions.len() ==> (#[trigger] actions[i] matches Action::Show(_, screen)
            ==> screen.within(count))
}

proof fn events_show_tracks_that_exist(
    events: Seq<SheetEvent>,
    n_track: usize,
    speed: Speed,
    shown: Option<Bpm>,
    count: nat,
)
    requires
        n_track < count,
    ensures
        screens_within(events_actions(events, n_track, speed, shown), count),
    decreases events.len(),
{
    if events.len() > 0 {
        events_show_tracks_that_exist(events.drop_last(), n_track, speed, shown, count);
    }
}

/// A time of so many minutes and seconds is written as that, and without the
/// minutes if there are none.
pub proof fn durations_are_minutes_and_seconds(mins: nat, secs: nat)
    requires
        secs < 60,
    ensures
        duration_text(60 * mins + secs) == if mins > 0 {
            decimal(mins) + "m"@ + decimal(secs) + "s"@
        } else {
            decimal(secs) + "s"@
        },
{
    assert((60 * mins + secs) / 60 == mins);
    assert((60 * mins + secs) % 60 == secs);
}

/// The seconds shown are those of the microseconds, cut, times the speed, cut:
/// any time and speed that come to `whole` seconds and less than one more are
/// shown as `whole` seconds.
pub proof fn shown_seconds_are_cut(nanos: nat, speed: Speed, whole: nat, rest: nat)
    requires
        speed.times(nanos / 1_000) == whole * 1_000_000 + rest,
        rest < 1_000_000,
    ensures
        shown_seconds(nanos, speed) == whole,
{
    assert((whole * 1_000_000 + rest) / 1_000_000 == whole);
}

/// The header counts the tracks and gives the time they take at the speed of now,
/// however many they are: the very time that the status line gives, at every
/// speed, for one track that lasts as long as the list.
pub proof fn header_and_status_give_the_same_time(
    tracks: Seq<TrackModel>,
    track: TrackModel,
    speed: Speed,
    bpm: Option<Bpm>,
)
    requires
        track.duration == total_length(tracks),
    ensures
        ({
            let secs = speed.times(total_length(tracks) / 1_000) / 1_000_000;
            let plural = if tracks.len() == 1 {
                ""@
            } else {
                "s"@
            };
            let beats = match bpm {
                Some(b) => " | "@ + b.shown() + " BPM"@,
                None => ""@,
            };
            &&& header_text(tracks, speed) == "Playing "@ + decimal(tracks.len()) + " track"@
                + plural + "\nTotal duration: "@ + duration_text(secs)
                + "\nPress the spacebar to play/pause, ctrl-left/right to play previous/next track\nPress +/- to adjust the playback speed. Press the esc key or ctrl-c to exit"@
            &&& status_text(track, speed, bpm) == "Duration = "@ + duration_text(secs)
                + " | Speed: "@ + speed.shown() + "x"@ + beats
        }),
{
}

/// The time in the header grows with the speed, for every list.
pub proof fn total_duration_grows_with_the_speed(
    tracks: Seq<TrackModel>,
    slow: Speed,
    fast: Speed,
)
    requires
        (Speed { bits: 0 }).at_most(slow),
        slow.at_most(fast),
    ensures
        exists|few: nat, many: nat|
            #![trigger duration_text(few), duration_text(many)]
            {
                let head = "Playing "@ + decimal(tracks.len()) + " track"@ + if tracks.len() == 1 {
                    ""@
                } else {
                    "s"@
                } + "\nTotal duration: "@;
                let tail = "\nPress the spacebar to play/pause, ctrl-left/right to play previous/next track\nPress +/- to adjust the playback speed. Press the esc key or ctrl-c to exit"@;
                &&& few <= many
                &&& header_text(tracks, slow) == head + duration_text(few) + tail
                &&& header_text(tracks, fast) == head + duration_text(many) + tail
            },
{
    let few = shown_seconds(total_length(tracks), slow);
    let many = shown_seconds(total_length(tracks), fast);
    shown_seconds_grow_with_the_speed(total_length(tracks), slow, fast);
    assert(duration_text(few) == duration_text(few) && duration_text(many) == duration_text(many));
}

/// The whole screen is the header, the name of the current track with its number,
/// counted from one, and how many there are, and the status line of that track.
pub proof fn display_names_the_track(
    header: Seq<char>,
    track: TrackModel,
    n_track: nat,
    total: nat,
    speed: Speed,
    bpm: Option<Bpm>,
)
    ensures
        display_text(header, track, n_track, total, speed, bpm) == header + "\nCurrent: "@
            + track.name + " ["@ + decimal(n_track + 1) + "/"@ + decimal(total) + "]\n"@
            + status_text(track, speed, bpm),
{
}

/// What each screen says is about the list, the track, the speed and the tempo
/// that it is meant to show.
pub proof fn screens_say_what_they_show(
    tracks: Seq<TrackModel>,
    n_track: usize,
    speed: Speed,
    bpm: Option<Bpm>,
)
    requires
        n_track < tracks.len(),
    ensures
        ({
            let track = tracks[n_track as int];
            let status = status_text(track, speed, bpm);
            &&& (Screen::Full { n_track, speed, bpm }).shown(tracks) == header_text(tracks, speed)
                + "\nCurrent: "@ + track.name + " ["@ + decimal((n_track + 1) as nat) + "/"@
                + decimal(tracks.len()) + "]\n"@ + status
            &&& (Screen::Status { n_track, speed, bpm }).shown(tracks) == status
            &&& Screen::Paused.shown(tracks) == "paused"@
            &&& (Screen::PausedSpeed { speed }).shown(tracks) == "paused | Speed: "@
                + speed.shown() + "x"@
        }),
{
}

proof fn strokes_of_lines(found: Seq<Seq<char>>)
    ensures
        drawn_lines(found).len() == if found.len() == 0 {
            0
        } else {
            3 * found.len() - 1
        },
    decreases found.len(),
{
    if found.len() > 0 {
        strokes_of_lines(found.drop_last());
    }
}

proof fn line_is_drawn(found: Seq<Seq<char>>, i: int)
    requires
        0 <= i < found.len(),
    ensures
        drawn_lines(found)[3 * i] == StrokeModel::Text(found[i] + "\r"@),
        drawn_lines(found)[3 * i + 1] == StrokeModel::Flush,
        i > 0 ==> drawn_lines(found)[3 * i - 1] == StrokeModel::NewLine,
    decreases found.len(),
{
    let rest = found.drop_last();
    let own = drawn_lines(rest);
    strokes_of_lines(found);
    strokes_of_lines(rest);
    if i < rest.len() {
        line_is_drawn(rest, i);
        assert(rest[i] == found[i]);
        assert(drawn_lines(found)[3 * i] == own[3 * i]);
        assert(drawn_lines(found)[3 * i + 1] == own[3 * i + 1]);
        if i > 0 {
            assert(drawn_lines(found)[3 * i - 1] == own[3 * i - 1]);
        }
    }
}

/// On a terminal in raw mode, room is made for the text first: below, in the last
/// line, or everywhere. Then each of its lines is written, in order, with a
/// carriage return behind it and a new line before all but the first, and made
/// visible. On any other terminal the text is written as it is.
pub proof fn every_line_is_drawn(print: Print, s: Seq<char>, i: int)
    requires
        0 <= i < lines(s).len(),
    ensures
        ({
            let drawn = print.drawn(s, true);
            &&& drawn.len() == 3 * lines(s).len()
            &&& drawn[3 * i + 1] == StrokeModel::Text(lines(s)[i] + "\r"@)
            &&& drawn[3 * i + 2] == StrokeModel::Flush
            &&& i > 0 ==> drawn[3 * i] == StrokeModel::NewLine
        }),
{
    strokes_of_lines(lines(s));
    line_is_drawn(lines(s), i);
}

/// What makes room for the text comes first, and with no line to be written it is
/// all there is.
pub proof fn room_is_made_first(print: Print, s: Seq<char>)
    ensures
        print.drawn(s, true).len() > 0,
        print.drawn(s, true)[0] == match print {
            Print::Append => StrokeModel::NewLine,
            Print::ReplaceLast => StrokeModel::ClearUntilNewLine,
            Print::ReplaceAll => StrokeModel::ClearAll,
        },
        lines(s).len() == 0 ==> print.drawn(s, true).len() == 1,
        print.drawn(s, false) == seq![StrokeModel::TextLine(s)],
{
    strokes_of_lines(lines(s));
}

} // verus!
