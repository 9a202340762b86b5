//! The course of playback, as a machine that is told what came in and answers
//! with what is to be done.
//!
//! The caller looks at [`Player::phase`], gets the input that the phase asks
//! for, hands it to [`Player::step`] and carries out the actions that come
//! back, in their order.

use crate::command::Command;
use crate::midi::{event_at, moment_len, sheet_moments, Message, SheetEvent};
use crate::speed::Speed;
use crate::tempo::{display_due, is_display_due, shown_after, Bpm};
use crate::track::{models, Track, TrackModel};
use vstd::prelude::*;

verus! {

/// Where new text goes on the screen.
#[derive(Clone, Copy, Debug, PartialEq, Eq)]
pub enum Print {
    /// Below what is there.
    Append,
    /// In place of the last line.
    ReplaceLast,
    /// In place of everything.
    ReplaceAll,
}

/// What there is to be shown.
#[derive(Clone, Copy, Debug, PartialEq, Eq)]
pub enum Screen {
    /// The header, the current track and its status line.
    Full { n_track: usize, speed: Speed, bpm: Option<Bpm> },
    /// The status line of the current track.
    Status { n_track: usize, speed: Speed, bpm: Option<Bpm> },
    /// That playback is paused.
    Paused,
    /// That playback is paused, and the speed at which it will go on.
    PausedSpeed { speed: Speed },
}

/// What is to be done.
#[derive(Clone, Copy, Debug, PartialEq, Eq)]
pub enum Action {
    /// Reset the synthesizer.
    Reset,
    /// Turn all notes off.
    AllNotesOff,
    /// Take a new timer for a track with this many ticks per beat.
    StartTimer { tpb: u16, speed: Speed },
    /// Let the timer run at another speed.
    SetTimerSpeed(Speed),
    /// Tell the timer how many microseconds a beat lasts.
    ChangeTempo(u32),
    /// Let the timer sleep for this many ticks.
    Sleep(u32),
    /// Send a message to the synthesizer.
    Play(Message),
    /// Put something on the screen.
    Show(Print, Screen),
}

/// What the player is waiting for.
#[derive(Clone, Copy, Debug, PartialEq, Eq)]
pub enum Phase {
    /// To begin with the current track.
    Starting,
    /// To hear whether a command has come in; if none has, it plays on.
    Polling,
    /// For a command, for as long as it takes.
    Paused,
    /// For nothing any more.
    Done,
}

/// What comes in.
#[derive(Clone, Copy, Debug, PartialEq, Eq)]
pub enum Input {
    /// The player may begin with the track.
    Proceed,
    /// No command has come in.
    NoCommand,
    /// This command has come in.
    Command(Command),
    /// No command will come in any more.
    Closed,
}

/// Where playback is.
#[derive(Clone, Copy, Debug, PartialEq, Eq)]
pub struct Cursor {
    pub phase: Phase,
    /// The current track.
    pub n_track: usize,
    /// The moment of the track that is next.
    pub position: usize,
    /// The ticks that have gone by since the last moment with an event in it.
    pub counter: u32,
    pub speed: Speed,
    /// The beats per minute on display.
    pub bpm: Option<Bpm>,
    /// Whether there was a pause in this track before.
    pub paused_before: bool,
}

/// All that the course of playback depends on.
pub struct PlayerModel {
    pub tracks: Seq<TrackModel>,
    pub repeat: bool,
    pub cursor: Cursor,
}

/// At the start of track `n`.
pub open spec fn enter(n: usize, speed: Speed) -> Cursor {
    Cursor {
        phase: Phase::Starting,
        n_track: n,
        position: 0,
        counter: 0,
        speed,
        bpm: None,
        paused_before: false,
    }
}

/// What is done when playback is over.
pub open spec fn farewell() -> Seq<Action> {
    seq![Action::Reset, Action::AllNotesOff]
}

/// The ticks that have gone by at moment `n` since the last moment with an
/// event in it, or since the start of the track if there was none.
pub open spec fn ticks_at(moments: Seq<Seq<SheetEvent>>, n: int) -> int
    decreases n,
{
    if n <= 0 {
        0
    } else if moments[n - 1].len() == 0 {
        ticks_at(moments, n - 1) + 1
    } else {
        1
    }
}

/// Whether the ticks between events can be counted throughout a track.
pub open spec fn countable(moments: Seq<Seq<SheetEvent>>) -> bool {
    &&& moments.len() <= usize::MAX
    &&& forall|n: int| 0 <= n <= moments.len() ==> #[trigger] ticks_at(moments, n) <= u32::MAX
}

/// Whether there are tracks, and the ticks in each of them can be counted.
pub open spec fn playable(tracks: Seq<TrackModel>) -> bool {
    &&& 0 < tracks.len() <= usize::MAX
    &&& forall|i: int| 0 <= i < tracks.len() ==> countable((#[trigger] tracks[i]).moments)
}

/// What an event asks for, with `shown` beats per minute on display.
pub open spec fn event_actions(
    event: SheetEvent,
    n_track: usize,
    speed: Speed,
    shown: Option<Bpm>,
) -> Seq<Action> {
    match event {
        SheetEvent::Tempo(tempo) => {
            let bpm = shown_after(shown, tempo);
            if display_due(shown, tempo) {
                seq![
                    Action::ChangeTempo(tempo),
                    Action::Show(Print::ReplaceLast, Screen::Status { n_track, speed, bpm }),
                ]
            } else {
                seq![Action::ChangeTempo(tempo)]
            }
        },
        SheetEvent::Midi(message) => seq![Action::Play(message)],
        _ => seq![],
    }
}

/// The beats per minute on display after `events`.
pub open spec fn bpm_after(events: Seq<SheetEvent>, shown: Option<Bpm>) -> Option<Bpm>
    decreases events.len(),
{
    if events.len() == 0 {
        shown
    } else {
        let before = bpm_after(events.drop_last(), shown);
        match events.last() {
            SheetEvent::Tempo(tempo) => shown_after(before, tempo),
            _ => before,
        }
    }
}

/// What the events of a moment ask for, one after the other.
pub open spec fn events_actions(
    events: Seq<SheetEvent>,
    n_track: usize,
    speed: Speed,
    shown: Option<Bpm>,
) -> Seq<Action>
    decreases events.len(),
{
    if events.len() == 0 {
        seq![]
    } else {
        let before = events.drop_last();
        events_actions(before, n_track, speed, shown) + event_actions(
            events.last(),
            n_track,
            speed,
            bpm_after(before, shown),
        )
    }
}

/// What a moment asks for: nothing if it is empty, else to let the ticks since
/// the last event pass and then to see to its events.
pub open spec fn moment_actions(events: Seq<SheetEvent>, c: Cursor) -> Seq<Action> {
    if events.len() == 0 {
        seq![]
    } else {
        seq![Action::Sleep(c.counter)] + events_actions(events, c.n_track, c.speed, c.bpm)
    }
}

impl PlayerModel {
    pub open spec fn moments(self) -> Seq<Seq<SheetEvent>> {
        self.tracks[self.cursor.n_track as int].moments
    }

    /// Whether the tracks can be played and the cursor points into them.
    pub open spec fn valid(self) -> bool {
        let c = self.cursor;
        &&& playable(self.tracks)
        &&& c.phase != Phase::Done ==> c.n_track < self.tracks.len()
        &&& c.phase == Phase::Starting ==> c == enter(c.n_track, c.speed)
        &&& c.phase == Phase::Polling || c.phase == Phase::Paused ==> {
            &&& c.position < self.moments().len()
            &&& c.counter == ticks_at(self.moments(), c.position as int)
        }
    }

    pub open spec fn at(self, cursor: Cursor) -> PlayerModel {
        PlayerModel { cursor, ..self }
    }

    /// Which input goes with which phase.
    pub open spec fn accepts(self, input: Input) -> bool {
        match self.cursor.phase {
            Phase::Starting => input == Input::Proceed,
            Phase::Polling => input != Input::Proceed,
            Phase::Paused => input != Input::Proceed && input != Input::NoCommand,
            Phase::Done => false,
        }
    }

    /// The current track is over: on to the next one, to the first one if that
    /// was the last and the list is to be repeated, or to the end.
    pub open spec fn leave_track(self) -> (Cursor, Seq<Action>) {
        let c = self.cursor;
        let next = c.n_track + 1;
        if next < self.tracks.len() {
            (enter(next as usize, c.speed), seq![])
        } else if self.repeat {
            (enter(0, c.speed), seq![])
        } else {
            (Cursor { phase: Phase::Done, n_track: next as usize, ..c }, farewell())
        }
    }

    /// Back to the previous track; the first track is its own previous one.
    pub open spec fn previous_track(self) -> Cursor {
        let n = self.cursor.n_track;
        enter(
            if n == 0 {
                0
            } else {
                (n - 1) as usize
            },
            self.cursor.speed,
        )
    }

    /// After `actions`: either there is a moment at the cursor, or the track is
    /// over.
    pub open spec fn arrive(self, actions: Seq<Action>) -> (Cursor, Seq<Action>) {
        if self.cursor.position < self.moments().len() {
            (self.cursor, actions)
        } else {
            let (cursor, more) = self.leave_track();
            (cursor, actions + more)
        }
    }

    /// The actions with which a track begins.
    pub open spec fn opening(self) -> Seq<Action> {
        let c = self.cursor;
        seq![
            Action::Reset,
            Action::AllNotesOff,
            Action::StartTimer { tpb: self.tracks[c.n_track as int].tpb, speed: c.speed },
            Action::Show(
                Print::ReplaceAll,
                Screen::Full { n_track: c.n_track, speed: c.speed, bpm: c.bpm },
            ),
        ]
    }

    /// The current track begins.
    pub open spec fn begin(self) -> (Cursor, Seq<Action>) {
        self.at(Cursor { phase: Phase::Polling, ..self.cursor }).arrive(self.opening())
    }

    /// After `actions`, the moment at the cursor is played.
    pub open spec fn play_moment(self, actions: Seq<Action>) -> (Cursor, Seq<Action>) {
        let c = self.cursor;
        let events = self.moments()[c.position as int];
        let next = Cursor {
            phase: Phase::Polling,
            position: (c.position + 1) as usize,
            counter: if events.len() == 0 {
                (c.counter + 1) as u32
            } else {
                1
            },
            bpm: bpm_after(events, c.bpm),
            ..c
        };
        self.at(next).arrive(actions + moment_actions(events, c))
    }

    /// Playback pauses.
    pub open spec fn pause(self) -> (Cursor, Seq<Action>) {
        let c = self.cursor;
        let place = if c.paused_before {
            Print::ReplaceLast
        } else {
            Print::Append
        };
        (
            Cursor { phase: Phase::Paused, paused_before: true, ..c },
            seq![Action::AllNotesOff, Action::Show(place, Screen::Paused)],
        )
    }

    /// Playback goes on after a pause.
    pub open spec fn resume(self) -> (Cursor, Seq<Action>) {
        let c = self.cursor;
        self.play_moment(
            seq![
                Action::Show(
                    Print::ReplaceAll,
                    Screen::Full { n_track: c.n_track, speed: c.speed, bpm: c.bpm },
                ),
            ],
        )
    }

    /// The speed changes. A pause goes on; otherwise playback does.
    pub open spec fn change_speed(self, speed: Speed) -> (Cursor, Seq<Action>) {
        let c = Cursor { speed, ..self.cursor };
        if c.phase == Phase::Paused {
            (
                c,
                seq![
                    Action::SetTimerSpeed(speed),
                    Action::Show(Print::ReplaceLast, Screen::PausedSpeed { speed }),
                ],
            )
        } else {
            self.at(c).play_moment(
                seq![
                    Action::SetTimerSpeed(speed),
                    Action::Show(
                        Print::ReplaceLast,
                        Screen::Status { n_track: c.n_track, speed, bpm: c.bpm },
                    ),
                ],
            )
        }
    }

    /// A command comes in.
    pub open spec fn command(self, command: Command) -> (Cursor, Seq<Action>) {
        match command {
            Command::Next => self.leave_track(),
            Command::Prev => (self.previous_track(), seq![]),
            Command::Pause => if self.cursor.phase == Phase::Paused {
                self.resume()
            } else {
                self.pause()
            },
            Command::SpeedUp => self.change_speed(self.cursor.speed.raised()),
            Command::SpeedDown => self.change_speed(self.cursor.speed.lowered()),
            Command::SetSpeed(speed) => self.change_speed(speed),
        }
    }

    /// Where playback is after an input, and what is to be done for it.
    pub open spec fn step(self, input: Input) -> (Cursor, Seq<Action>) {
        match input {
            Input::Proceed => self.begin(),
            Input::NoCommand => self.play_moment(seq![]),
            Input::Closed => (Cursor { phase: Phase::Done, ..self.cursor }, farewell()),
            Input::Command(command) => self.command(command),
        }
    }
}

/// The tracks, and where playback is in them.
pub struct Player {
    tracks: Vec<Track>,
    repeat: bool,
    cursor: Cursor,
}

impl View for Player {
    type V = PlayerModel;

    closed spec fn view(&self) -> PlayerModel {
        PlayerModel { tracks: models(self.tracks@), repeat: self.repeat, cursor: self.cursor }
    }
}

fn entering(n: usize, speed: Speed) -> (cursor: Cursor)
    ensures
        cursor == enter(n, speed),
{
    Cursor {
        phase: Phase::Starting,
        n_track: n,
        position: 0,
        counter: 0,
        speed,
        bpm: None,
        paused_before: false,
    }
}

fn is_countable(track: &Track) -> (ok: bool)
    ensures
        ok == countable(track@.moments),
{
    let ghost moments = track@.moments;
    let len: usize = track.sheet.len();
    let mut ticks: u32 = 0;
    let mut n: usize = 0;
    while n < len
        invariant
            moments == track@.moments,
            n <= len == moments.len(),
            ticks == ticks_at(moments, n as int),
            forall|k: int| 0 <= k <= n ==> #[trigger] ticks_at(moments, k) <= u32::MAX,
        decreases len - n,
    {
        if moment_len(&track.sheet, n) > 0 {
            ticks = 1;
        } else if ticks < u32::MAX {
            ticks = ticks + 1;
        } else {
            assert(ticks_at(moments, n + 1) > u32::MAX);
            return false;
        }
        n = n + 1;
    }
    true
}

/// Tells whether a player can be made for the tracks.
pub fn can_be_played(tracks: &Vec<Track>) -> (ok: bool)
    ensures
        ok == playable(models(tracks@)),
{
    if tracks.len() == 0 {
        return false;
    }
    let ghost all = models(tracks@);
    let mut i: usize = 0;
    while i < tracks.len()
        invariant
            0 < tracks@.len(),
            i <= tracks@.len(),
            all == models(tracks@),
            forall|k: int| 0 <= k < i ==> countable((#[trigger] all[k]).moments),
        decreases tracks@.len() - i,
    {
        assert(all[i as int] == tracks@[i as int]@);
        if !is_countable(&tracks[i]) {
            return false;
        }
        i = i + 1;
    }
    assert(tracks.len() <= usize::MAX);
    true
}

impl Player {
    /// A player at the start of the first track.
    pub fn new(tracks: Vec<Track>, repeat: bool, speed: Speed) -> (player: Player)
        requires
            playable(models(tracks@)),
        ensures
            player@ == (PlayerModel { tracks: models(tracks@), repeat, cursor: enter(0, speed) }),
            player@.valid(),
    {
        Player { tracks, repeat, cursor: entering(0, speed) }
    }

    /// What the player is waiting for.
    pub fn phase(&self) -> (phase: Phase)
        ensures
            phase == self@.cursor.phase,
    {
        self.cursor.phase
    }

    /// Where playback is.
    pub fn cursor(&self) -> (cursor: Cursor)
        ensures
            cursor == self@.cursor,
    {
        self.cursor
    }

    /// The tracks that are played.
    pub fn tracks(&self) -> (tracks: &Vec<Track>)
        ensures
            models(tracks@) == self@.tracks,
    {
        &self.tracks
    }

    /// The number of moments in the current track.
    fn track_len(&self) -> (n: usize)
        requires
            self@.cursor.n_track < self@.tracks.len(),
        ensures
            n == self@.moments().len(),
    {
        let n_track: usize = self.cursor.n_track;
        assert(self@.tracks[n_track as int] == self.tracks@[n_track as int]@);
        self.tracks[n_track].sheet.len()
    }

    fn leave_track(&mut self, actions: &mut Vec<Action>)
        requires
            playable(old(self)@.tracks),
            old(self)@.cursor.n_track < old(self)@.tracks.len(),
        ensures
            final(self)@ == old(self)@.at(old(self)@.leave_track().0),
            final(actions)@ == old(actions)@ + old(self)@.leave_track().1,
            final(self)@.valid(),
    {
        let next: usize = self.cursor.n_track + 1;
        if next < self.tracks.len() {
            self.cursor = entering(next, self.cursor.speed);
        } else if self.repeat {
            self.cursor = entering(0, self.cursor.speed);
        } else {
            self.cursor.n_track = next;
            self.cursor.phase = Phase::Done;
            actions.push(Action::Reset);
            actions.push(Action::AllNotesOff);
        }
    }

    fn arrive(&mut self, actions: &mut Vec<Action>)
        requires
            playable(old(self)@.tracks),
            old(self)@.cursor.phase == Phase::Polling,
            old(self)@.cursor.n_track < old(self)@.tracks.len(),
            old(self)@.cursor.counter == ticks_at(
                old(self)@.moments(),
                old(self)@.cursor.position as int,
            ),
        ensures
            final(self)@ == old(self)@.at(old(self)@.arrive(old(actions)@).0),
            final(actions)@ == old(self)@.arrive(old(actions)@).1,
            final(self)@.valid(),
    {
        if self.cursor.position >= self.track_len() {
            self.leave_track(actions);
        }
    }

    fn begin(&mut self) -> (actions: Vec<Action>)
        requires
            old(self)@.valid(),
            old(self)@.cursor.phase == Phase::Starting,
        ensures
            final(self)@ == old(self)@.at(old(self)@.begin().0),
            actions@ == old(self)@.begin().1,
            final(self)@.valid(),
    {
        let c = self.cursor;
        assert(self@.tracks[c.n_track as int] == self.tracks@[c.n_track as int]@);
        let mut actions: Vec<Action> = vec![
            Action::Reset,
            Action::AllNotesOff,
            Action::StartTimer { tpb: self.tracks[c.n_track].tpb, speed: c.speed },
            Action::Show(
                Print::ReplaceAll,
                Screen::Full { n_track: c.n_track, speed: c.speed, bpm: c.bpm },
            ),
        ];
        self.cursor.phase = Phase::Polling;
        assert(actions@ =~= old(self)@.opening());
        self.arrive(&mut actions);
        actions
    }

    /// Sees to the events of a moment.
    fn play_events(&mut self, actions: &mut Vec<Action>)
        requires
            old(self)@.valid(),
            old(self)@.cursor.phase == Phase::Polling,
        ensures
            ({
                let c = old(self)@.cursor;
                let events = old(self)@.moments()[c.position as int];
                &&& final(self)@ == old(self)@.at(Cursor { bpm: bpm_after(events, c.bpm), ..c })
                &&& final(actions)@ == old(actions)@ + events_actions(
                    events,
                    c.n_track,
                    c.speed,
                    c.bpm,
                )
            }),
    {
        let c = self.cursor;
        let ghost model = self@;
        let ghost events = model.moments()[c.position as int];
        assert(self@.tracks[c.n_track as int] == self.tracks@[c.n_track as int]@);
        let sheet = &self.tracks[c.n_track].sheet;
        let count: usize = moment_len(sheet, c.position);
        let mut bpm = c.bpm;
        let mut n: usize = 0;
        assert(events.take(0) =~= Seq::empty());
        while n < count
            invariant
                n <= count == events.len(),
                c.position < sheet_moments(*sheet).len(),
                sheet_moments(*sheet)[c.position as int] == events,
                bpm == bpm_after(events.take(n as int), c.bpm),
                actions@ == old(actions)@ + events_actions(
                    events.take(n as int),
                    c.n_track,
                    c.speed,
                    c.bpm,
                ),
            decreases count - n,
        {
            let ghost before = actions@;
            let event = event_at(sheet, c.position, n);
            proof {
                assert(events.take(n + 1).drop_last() =~= events.take(n as int));
                assert(events.take(n + 1).last() == event);
            }
            let ghost shown = bpm;
            match event {
                SheetEvent::Tempo(tempo) => {
                    actions.push(Action::ChangeTempo(tempo));
                    if is_display_due(bpm, tempo) {
                        bpm = Some(Bpm { micros_per_beat: tempo });
                        actions.push(
                            Action::Show(
                                Print::ReplaceLast,
                                Screen::Status { n_track: c.n_track, speed: c.speed, bpm },
                            ),
                        );
                    }
                },
                SheetEvent::Midi(message) => {
                    actions.push(Action::Play(message));
                },
                _ => {},
            }
            assert(actions@ =~= before + event_actions(event, c.n_track, c.speed, shown));
            n = n + 1;
        }
        assert(events.take(count as int) =~= events);
        self.cursor.bpm = bpm;
    }

    fn play_moment(&mut self, actions: &mut Vec<Action>)
        requires
            old(self)@.valid(),
            old(self)@.cursor.phase == Phase::Polling || old(self)@.cursor.phase == Phase::Paused,
        ensures
            final(self)@ == old(self)@.at(old(self)@.play_moment(old(actions)@).0),
            final(actions)@ == old(self)@.play_moment(old(actions)@).1,
            final(self)@.valid(),
    {
        self.cursor.phase = Phase::Polling;
        let c = self.cursor;
        let ghost model = self@;
        let ghost events = model.moments()[c.position as int];
        assert(self@.tracks[c.n_track as int] == self.tracks@[c.n_track as int]@);
        let count: usize = moment_len(&self.tracks[c.n_track].sheet, c.position);
        assert(countable(model.moments()));
        assert(ticks_at(model.moments(), c.position + 1) <= u32::MAX);
        if count == 0 {
            self.cursor.counter = c.counter + 1;
        } else {
            actions.push(Action::Sleep(c.counter));
            self.play_events(actions);
            self.cursor.counter = 1;
        }
        self.cursor.position = c.position + 1;
        assert(actions@ =~= old(actions)@ + moment_actions(events, c));
        self.arrive(actions);
    }

    /// Takes an input and tells what is to be done for it.
    pub fn step(&mut self, input: Input) -> (actions: Vec<Action>)
        requires
            old(self)@.valid(),
            old(self)@.accepts(input),
        ensures
            final(self)@ == old(self)@.at(old(self)@.step(input).0),
            actions@ == old(self)@.step(input).1,
            final(self)@.valid(),
    {
        match input {
            Input::Proceed => self.begin(),
            Input::NoCommand => {
                let mut actions: Vec<Action> = Vec::new();
                self.play_moment(&mut actions);
                actions
            },
            Input::Closed => {
                self.cursor.phase = Phase::Done;
                vec![Action::Reset, Action::AllNotesOff]
            },
            Input::Command(command) => self.take_command(command),
        }
    }

    fn take_command(&mut self, command: Command) -> (actions: Vec<Action>)
        requires
            old(self)@.valid(),
            old(self)@.accepts(Input::Command(command)),
        ensures
            final(self)@ == old(self)@.at(old(self)@.command(command).0),
            actions@ == old(self)@.command(command).1,
            final(self)@.valid(),
    {
        match command {
            Command::Next => {
                let mut actions: Vec<Action> = Vec::new();
                self.leave_track(&mut actions);
                actions
            },
            Command::Prev => {
                let n: usize = self.cursor.n_track;
                let previous: usize = if n == 0 {
                    0
                } else {
                    n - 1
                };
                self.cursor = entering(previous, self.cursor.speed);
                Vec::new()
            },
            Command::Pause => match self.cursor.phase {
                Phase::Paused => self.resume(),
                _ => self.pause(),
            },
            Command::SpeedUp => self.change_speed(self.cursor.speed.raise()),
            Command::SpeedDown => self.change_speed(self.cursor.speed.lower()),
            Command::SetSpeed(speed) => self.change_speed(speed),
        }
    }

    fn pause(&mut self) -> (actions: Vec<Action>)
        requires
            old(self)@.valid(),
            old(self)@.cursor.phase == Phase::Polling,
        ensures
            final(self)@ == old(self)@.at(old(self)@.pause().0),
            actions@ == old(self)@.pause().1,
            final(self)@.valid(),
    {
        let place = if self.cursor.paused_before {
            Print::ReplaceLast
        } else {
            Print::Append
        };
        self.cursor.phase = Phase::Paused;
        self.cursor.paused_before = true;
        vec![Action::AllNotesOff, Action::Show(place, Screen::Paused)]
    }

    fn resume(&mut self) -> (actions: Vec<Action>)
        requires
            old(self)@.valid(),
            old(self)@.cursor.phase == Phase::Paused,
        ensures
            final(self)@ == old(self)@.at(old(self)@.resume().0),
            actions@ == old(self)@.resume().1,
            final(self)@.valid(),
    {
        let c = self.cursor;
        let mut actions: Vec<Action> = vec![
            Action::Show(
                Print::ReplaceAll,
                Screen::Full { n_track: c.n_track, speed: c.speed, bpm: c.bpm },
            ),
        ];
        self.play_moment(&mut actions);
        actions
    }

    fn change_speed(&mut self, speed: Speed) -> (actions: Vec<Action>)
        requires
            old(self)@.valid(),
            old(self)@.cursor.phase == Phase::Polling || old(self)@.cursor.phase == Phase::Paused,
        ensures
            final(self)@ == old(self)@.at(old(self)@.change_speed(speed).0),
            actions@ == old(self)@.change_speed(speed).1,
            final(self)@.valid(),
    {
        self.cursor.speed = speed;
        let c = self.cursor;
        let mut actions: Vec<Action> = vec![Action::SetTimerSpeed(speed)];
        match c.phase {
            Phase::Paused => {
                actions.push(Action::Show(Print::ReplaceLast, Screen::PausedSpeed { speed }));
            },
            _ => {
                actions.push(
                    Action::Show(
                        Print::ReplaceLast,
                        Screen::Status { n_track: c.n_track, speed, bpm: c.bpm },
                    ),
                );
                self.play_moment(&mut actions);
            },
        }
        actions
    }
}

} // verus!
