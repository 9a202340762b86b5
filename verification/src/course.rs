//! What playback amounts to: which messages reach the synthesizer, in which
//! order and after how many ticks, and what commands change about it.

use crate::command::Command;
use crate::midi::{messages, tempos, Message, SheetEvent};
use crate::playback::{
    bpm_after, countable, enter, event_actions, events_actions, farewell, moment_actions, playable,
    ticks_at, Action, Cursor, Input, Phase, PlayerModel, Print, Screen,
};
use crate::speed::{steps_stay_in_bounds, Speed};
use crate::tempo::{display_keeps_up, half_a_beat_apart, Bpm};
use crate::track::TrackModel;
use vstd::prelude::*;

verus! {

/// The messages that `actions` send to the synthesizer, in their order.
pub open spec fn plays(actions: Seq<Action>) -> Seq<Message> {
    actions.filter_map(
        |a: Action|
            match a {
                Action::Play(message) => Some(message),
                _ => None,
            },
    )
}

/// The ticks that `actions` let pass.
pub open spec fn slept(actions: Seq<Action>) -> nat
    decreases actions.len(),
{
    if actions.len() == 0 {
        0
    } else {
        slept(actions.drop_last()) + match actions.last() {
            Action::Sleep(ticks) => ticks as nat,
            _ => 0,
        }
    }
}

/// The messages of a track, in their order.
pub open spec fn track_messages(moments: Seq<Seq<SheetEvent>>) -> Seq<Message>
    decreases moments.len(),
{
    if moments.len() == 0 {
        seq![]
    } else {
        track_messages(moments.drop_last()) + messages(moments.last())
    }
}

/// The messages of several tracks, one track after the other.
pub open spec fn list_messages(tracks: Seq<TrackModel>) -> Seq<Message>
    decreases tracks.len(),
{
    if tracks.len() == 0 {
        seq![]
    } else {
        list_messages(tracks.drop_last()) + track_messages(tracks.last().moments)
    }
}

/// The inputs that it takes to play the tracks through: one to begin with each
/// of them and one for each of its moments.
pub open spec fn inputs_needed(tracks: Seq<TrackModel>) -> nat
    decreases tracks.len(),
{
    if tracks.len() == 0 {
        0
    } else {
        inputs_needed(tracks.drop_last()) + 1 + tracks.last().moments.len()
    }
}

impl PlayerModel {
    /// The input with which playback runs its course.
    pub open spec fn quiet_input(self) -> Input {
        if self.cursor.phase == Phase::Starting {
            Input::Proceed
        } else {
            Input::NoCommand
        }
    }

    /// Where playback is after `n` inputs without a command, or at the end if
    /// that comes first, and all that was done on the way.
    pub open spec fn undisturbed(self, n: nat) -> (Cursor, Seq<Action>)
        decreases n,
    {
        if n == 0 || self.cursor.phase == Phase::Done {
            (self.cursor, seq![])
        } else {
            let (cursor, actions) = self.step(self.quiet_input());
            let (last, more) = self.at(cursor).undisturbed((n - 1) as nat);
            (last, actions + more)
        }
    }
}

proof fn plays_of_both(a: Seq<Action>, b: Seq<Action>)
    ensures
        plays(a + b) == plays(a) + plays(b),
        slept(a + b) == slept(a) + slept(b),
    decreases b.len(),
{
    if b.len() == 0 {
        assert(a + b =~= a);
        assert(plays(a) + plays(b) =~= plays(a));
    } else {
        plays_of_both(a, b.drop_last());
        assert((a + b).drop_last() =~= a + b.drop_last());
        assert((a + b).last() == b.last());
        assert(plays(a + b) =~= plays(a) + plays(b));
    }
}

proof fn plays_of_one(a: Action)
    ensures
        plays(seq![a]) == (match a {
            Action::Play(message) => seq![message],
            _ => seq![],
        }),
        slept(seq![a]) == (match a {
            Action::Sleep(ticks) => ticks as nat,
            _ => 0,
        }),
{
    assert(seq![a].drop_last() =~= Seq::<Action>::empty());
    assert(plays(seq![a].drop_last()) =~= Seq::<Message>::empty());
    assert(slept(seq![a].drop_last()) == 0);
    assert(plays(seq![a]) =~= (match a {
        Action::Play(message) => seq![message],
        _ => seq![],
    }));
}

/// Actions that neither play nor let time pass.
proof fn plays_of_none(actions: Seq<Action>)
    requires
        forall|i: int|
            0 <= i < actions.len() ==> !(#[trigger] actions[i] is Play) && !(actions[i] is Sleep),
    ensures
        plays(actions) == Seq::<Message>::empty(),
        slept(actions) == 0,
    decreases actions.len(),
{
    if actions.len() > 0 {
        let rest = actions.drop_last();
        assert forall|i: int| 0 <= i < rest.len() implies !(#[trigger] rest[i] is Play)
            && !(rest[i] is Sleep) by {
            assert(rest[i] == actions[i]);
        }
        plays_of_none(rest);
        assert(!(actions[actions.len() - 1] is Play));
    }
}

proof fn plays_of_event(event: SheetEvent, n_track: usize, speed: Speed, shown: Option<Bpm>)
    ensures
        plays(event_actions(event, n_track, speed, shown)) == messages(seq![event]),
        slept(event_actions(event, n_track, speed, shown)) == 0,
{
    let actions = event_actions(event, n_track, speed, shown);
    assert(seq![event].drop_last() =~= Seq::<SheetEvent>::empty());
    assert(messages(seq![event].drop_last()) =~= Seq::<Message>::empty());
    match event {
        SheetEvent::Midi(message) => {
            plays_of_one(Action::Play(message));
            assert(messages(seq![event]) =~= seq![message]);
        },
        _ => {
            plays_of_none(actions);
            assert(messages(seq![event]) =~= seq![]);
        },
    }
}

proof fn plays_of_events(
    events: Seq<SheetEvent>,
    n_track: usize,
    speed: Speed,
    shown: Option<Bpm>,
)
    ensures
        plays(events_actions(events, n_track, speed, shown)) == messages(events),
        slept(events_actions(events, n_track, speed, shown)) == 0,
    decreases events.len(),
{
    if events.len() > 0 {
        let before = events.drop_last();
        plays_of_events(before, n_track, speed, shown);
        plays_of_event(events.last(), n_track, speed, bpm_after(before, shown));
        plays_of_both(
            events_actions(before, n_track, speed, shown),
            event_actions(events.last(), n_track, speed, bpm_after(before, shown)),
        );
        let one = seq![events.last()];
        assert(one.drop_last() =~= Seq::<SheetEvent>::empty());
        assert(messages(one.drop_last()) =~= Seq::<Message>::empty());
        assert(messages(events) =~= messages(before) + messages(one));
    }
}

proof fn plays_of_moment(events: Seq<SheetEvent>, c: Cursor)
    ensures
        plays(moment_actions(events, c)) == messages(events),
        slept(moment_actions(events, c)) == if events.len() == 0 {
            0
        } else {
            c.counter as nat
        },
{
    if events.len() > 0 {
        plays_of_events(events, c.n_track, c.speed, c.bpm);
        plays_of_one(Action::Sleep(c.counter));
        plays_of_both(
            seq![Action::Sleep(c.counter)],
            events_actions(events, c.n_track, c.speed, c.bpm),
        );
        assert(plays(moment_actions(events, c)) =~= messages(events));
    }
}

/// One moment is played: its messages, in their order, and nothing else; and
/// between the ticks that are let pass and those that are still to come, one
/// tick has gone by.
pub proof fn moment_is_played(p: PlayerModel)
    requires
        p.valid(),
        p.cursor.phase == Phase::Polling,
    ensures
        ({
            let (cursor, actions) = p.step(Input::NoCommand);
            let events = p.moments()[p.cursor.position as int];
            &&& plays(actions) == messages(events)
            &&& slept(actions) == if events.len() == 0 {
                0
            } else {
                p.cursor.counter as nat
            }
            &&& p.at(cursor).valid()
            &&& p.cursor.position + 1 < p.moments().len() ==> {
                &&& cursor.phase == Phase::Polling
                &&& cursor.n_track == p.cursor.n_track
                &&& cursor.position == p.cursor.position + 1
                &&& cursor.speed == p.cursor.speed
                &&& slept(actions) + cursor.counter == p.cursor.counter + 1
            }
            &&& p.cursor.position + 1 == p.moments().len() ==> {
                &&& cursor.phase == p.leave_track().0.phase
                &&& cursor.n_track == p.leave_track().0.n_track
                &&& cursor.speed == p.cursor.speed
                &&& cursor.phase == Phase::Starting ==> cursor == p.leave_track().0
            }
        }),
{
    let c = p.cursor;
    let events = p.moments()[c.position as int];
    let own = Seq::<Action>::empty() + moment_actions(events, c);
    assert(countable(p.moments()));
    assert(ticks_at(p.moments(), c.position + 1) <= u32::MAX);
    assert(own =~= moment_actions(events, c));
    plays_of_moment(events, c);
    plays_of_none(farewell());
    plays_of_both(own, farewell());
    plays_of_both(own, seq![]);
    assert(plays(own) + Seq::<Message>::empty() =~= plays(own));
    assert(own + Seq::<Action>::empty() =~= own);
}

proof fn track_messages_of_both(a: Seq<Seq<SheetEvent>>, b: Seq<Seq<SheetEvent>>)
    ensures
        track_messages(a + b) == track_messages(a) + track_messages(b),
    decreases b.len(),
{
    if b.len() == 0 {
        assert(a + b =~= a);
        assert(track_messages(a) + track_messages(b) =~= track_messages(a));
    } else {
        track_messages_of_both(a, b.drop_last());
        assert((a + b).drop_last() =~= a + b.drop_last());
        assert(track_messages(a + b) =~= track_messages(a) + track_messages(b));
    }
}

proof fn track_messages_from(moments: Seq<Seq<SheetEvent>>, from: int, to: int)
    requires
        0 <= from < to <= moments.len(),
    ensures
        track_messages(moments.subrange(from, to)) == messages(moments[from]) + track_messages(
            moments.subrange(from + 1, to),
        ),
{
    let first = seq![moments[from]];
    assert(moments.subrange(from, to) =~= first + moments.subrange(from + 1, to));
    track_messages_of_both(first, moments.subrange(from + 1, to));
    assert(first.drop_last() =~= Seq::<Seq<SheetEvent>>::empty());
    assert(track_messages(first.drop_last()) =~= Seq::<Message>::empty());
    assert(track_messages(first) =~= messages(moments[from]));
}

/// If no command comes in, the next `n` moments of a track are played: all
/// their messages, in the order of the sheet, each once. As many ticks go by,
/// let pass or still to come.
pub proof fn moments_are_played_in_full(p: PlayerModel, n: nat)
    requires
        p.valid(),
        p.cursor.phase == Phase::Polling,
        p.cursor.position + n <= p.moments().len(),
    ensures
        ({
            let from = p.cursor.position as int;
            let (cursor, actions) = p.undisturbed(n);
            &&& plays(actions) == track_messages(p.moments().subrange(from, from + n))
            &&& p.at(cursor).valid()
            &&& cursor.speed == p.cursor.speed
            &&& from + n < p.moments().len() ==> {
                &&& cursor.phase == Phase::Polling
                &&& cursor.n_track == p.cursor.n_track
                &&& cursor.position == from + n
                &&& slept(actions) + cursor.counter == p.cursor.counter + n
            }
            &&& from + n == p.moments().len() ==> {
                &&& cursor.phase == p.leave_track().0.phase
                &&& cursor.n_track == p.leave_track().0.n_track
                &&& cursor.phase == Phase::Starting ==> cursor == p.leave_track().0
            }
        }),
    decreases n,
{
    let from = p.cursor.position as int;
    if n == 0 {
        assert(p.moments().subrange(from, from) =~= Seq::<Seq<SheetEvent>>::empty());
        assert(plays(Seq::<Action>::empty()) =~= Seq::<Message>::empty());
    } else {
        moment_is_played(p);
        let (next, actions) = p.step(Input::NoCommand);
        let q = p.at(next);
        track_messages_from(p.moments(), from, from + n);
        let (last, more) = q.undisturbed((n - 1) as nat);
        plays_of_both(actions, more);
        if n == 1 {
            assert(p.moments().subrange(from + 1, from + n) =~= Seq::<Seq<SheetEvent>>::empty());
            assert(plays(more) =~= Seq::<Message>::empty());
        } else {
            assert(next.phase == Phase::Polling);
            assert(q.moments() == p.moments());
            moments_are_played_in_full(q, (n - 1) as nat);
            assert(q.leave_track().0.phase == p.leave_track().0.phase);
        }
    }
}

proof fn undisturbed_in_two(p: PlayerModel, m: nat, n: nat)
    ensures
        ({
            let (middle, first) = p.undisturbed(m);
            let (last, second) = p.at(middle).undisturbed(n);
            p.undisturbed(m + n) == (last, first + second)
        }),
    decreases m,
{
    let (middle, first) = p.undisturbed(m);
    let (last, second) = p.at(middle).undisturbed(n);
    if m == 0 || p.cursor.phase == Phase::Done {
        assert(p.at(middle) == p);
        assert(first + second =~= second);
    } else {
        let (next, actions) = p.step(p.quiet_input());
        let q = p.at(next);
        undisturbed_in_two(q, (m - 1) as nat, n);
        let (middle2, rest) = q.undisturbed((m - 1) as nat);
        assert(q.at(middle2) == p.at(middle));
        assert(first == actions + rest);
        assert((m + n - 1) as nat == (m - 1) as nat + n);
        assert(actions + (rest + second) =~= first + second);
    }
}

/// The opening of a track lets nothing sound and no time pass.
proof fn track_begins(p: PlayerModel)
    requires
        p.valid(),
        p.cursor.phase == Phase::Starting,
    ensures
        ({
            let (cursor, actions) = p.step(Input::Proceed);
            &&& plays(actions) == Seq::<Message>::empty()
            &&& slept(actions) == 0
            &&& p.at(cursor).valid()
            &&& cursor.speed == p.cursor.speed
            &&& p.moments().len() > 0 ==> cursor == (Cursor { phase: Phase::Polling, ..p.cursor })
            &&& p.moments().len() == 0 ==> {
                &&& cursor.phase == p.leave_track().0.phase
                &&& cursor.n_track == p.leave_track().0.n_track
                &&& cursor.phase == Phase::Starting ==> cursor == p.leave_track().0
            }
        }),
{
    plays_of_none(p.opening());
    plays_of_none(p.opening() + farewell());
    assert(p.opening() + Seq::<Action>::empty() =~= p.opening());
}

/// If no command comes in, every message is played in time: when the messages
/// of the `k`th moment of a track go out, `k` ticks have been let pass since
/// the track began.
pub proof fn moments_are_played_in_time(p: PlayerModel, k: nat)
    requires
        p.valid(),
        p.cursor.phase == Phase::Starting,
        k < p.moments().len(),
        p.moments()[k as int].len() > 0,
    ensures
        slept(p.undisturbed(k + 1).1) <= k,
        slept(p.undisturbed(k + 2).1) == k,
        plays(p.undisturbed(k + 2).1) == plays(p.undisturbed(k + 1).1) + messages(
            p.moments()[k as int],
        ),
{
    track_begins(p);
    let (begun, opening) = p.step(Input::Proceed);
    let q = p.at(begun);
    assert(q.moments() == p.moments());
    moments_are_played_in_full(q, k);
    let (there, before) = q.undisturbed(k);
    let r = q.at(there);
    assert(r.moments() == p.moments());
    moment_is_played(r);
    let (after, own) = r.step(Input::NoCommand);
    assert(r.undisturbed(1) == (after, own)) by {
        assert(r.at(after).undisturbed(0).1 =~= Seq::<Action>::empty());
        assert(own + Seq::<Action>::empty() =~= own);
    }
    undisturbed_in_two(q, k, 1);
    assert(q.undisturbed(k + 1).1 == before + own);
    plays_of_both(before, own);
    assert(p.undisturbed(k + 1).1 == opening + before);
    assert((k + 2 - 1) as nat == k + 1);
    assert(p.undisturbed(k + 2).1 == opening + (before + own));
    plays_of_both(opening, before);
    plays_of_both(opening, before + own);
    assert(plays(opening) + (plays(before) + plays(own)) =~= (plays(opening) + plays(before))
        + plays(own));
}

/// If no command comes in, a track is played from its beginning to its end: all
/// its messages, in the order of the sheet, each once; and then it is left.
pub proof fn track_is_played_in_full(p: PlayerModel)
    requires
        p.valid(),
        p.cursor.phase == Phase::Starting,
    ensures
        ({
            let (cursor, actions) = p.undisturbed(1 + p.moments().len());
            &&& plays(actions) == track_messages(p.moments())
            &&& p.at(cursor).valid()
            &&& cursor.speed == p.cursor.speed
            &&& cursor.phase == p.leave_track().0.phase
            &&& cursor.n_track == p.leave_track().0.n_track
            &&& cursor.phase == Phase::Starting ==> cursor == p.leave_track().0
        }),
{
    let len = p.moments().len();
    track_begins(p);
    let (begun, opening) = p.step(Input::Proceed);
    let q = p.at(begun);
    let (last, more) = q.undisturbed(len);
    assert((1 + len - 1) as nat == len);
    plays_of_both(opening, more);
    if len == 0 {
        assert(plays(more) =~= Seq::<Message>::empty());
        assert(track_messages(p.moments()) =~= Seq::<Message>::empty());
    } else {
        assert(q.moments() == p.moments());
        moments_are_played_in_full(q, len);
        assert(p.moments().subrange(0, len as int) =~= p.moments());
    }
    assert(Seq::<Message>::empty() + plays(more) =~= plays(more));
}

proof fn list_of_both(a: Seq<TrackModel>, b: Seq<TrackModel>)
    ensures
        list_messages(a + b) == list_messages(a) + list_messages(b),
        inputs_needed(a + b) == inputs_needed(a) + inputs_needed(b),
    decreases b.len(),
{
    if b.len() == 0 {
        assert(a + b =~= a);
        assert(list_messages(a) + list_messages(b) =~= list_messages(a));
    } else {
        list_of_both(a, b.drop_last());
        assert((a + b).drop_last() =~= a + b.drop_last());
        assert(list_messages(a + b) =~= list_messages(a) + list_messages(b));
    }
}

proof fn list_from(tracks: Seq<TrackModel>, n: int)
    requires
        0 <= n < tracks.len(),
    ensures
        list_messages(tracks.skip(n)) == track_messages(tracks[n].moments) + list_messages(
            tracks.skip(n + 1),
        ),
        inputs_needed(tracks.skip(n)) == 1 + tracks[n].moments.len() + inputs_needed(
            tracks.skip(n + 1),
        ),
{
    let first = seq![tracks[n]];
    assert(tracks.skip(n) =~= first + tracks.skip(n + 1));
    list_of_both(first, tracks.skip(n + 1));
    assert(first.drop_last() =~= Seq::<TrackModel>::empty());
    assert(list_messages(first.drop_last()) =~= Seq::<Message>::empty());
    assert(list_messages(first) =~= track_messages(tracks[n].moments));
    assert(inputs_needed(first.drop_last()) == 0);
}

/// If no command comes in, the list is played through from the current track
/// on: all messages of every track, in order, each once. Then playback is over,
/// or it starts with the first track again if the list is to be repeated.
pub proof fn list_is_played_in_full(p: PlayerModel)
    requires
        p.valid(),
        p.cursor.phase == Phase::Starting,
    ensures
        ({
            let rest = p.tracks.skip(p.cursor.n_track as int);
            let (cursor, actions) = p.undisturbed(inputs_needed(rest));
            &&& plays(actions) == list_messages(rest)
            &&& p.repeat ==> cursor == enter(0, p.cursor.speed)
            &&& !p.repeat ==> cursor.phase == Phase::Done
        }),
    decreases p.tracks.len() - p.cursor.n_track,
{
    let n = p.cursor.n_track as int;
    let rest = p.tracks.skip(n);
    let own = 1 + p.moments().len();
    let others = inputs_needed(p.tracks.skip(n + 1));
    list_from(p.tracks, n);
    track_is_played_in_full(p);
    undisturbed_in_two(p, own, others);
    let (middle, first) = p.undisturbed(own);
    let q = p.at(middle);
    let (last, second) = q.undisturbed(others);
    assert(p.undisturbed(inputs_needed(rest)) == (last, first + second));
    plays_of_both(first, second);
    if n + 1 < p.tracks.len() {
        list_is_played_in_full(q);
    } else {
        assert(p.tracks.skip(n + 1) =~= Seq::<TrackModel>::empty());
        assert(others == 0);
        assert(plays(second) =~= Seq::<Message>::empty());
        assert(list_messages(p.tracks.skip(n + 1)) =~= Seq::<Message>::empty());
    }
}

/// Whatever comes in, playback stays within the tracks.
pub proof fn every_step_is_valid(p: PlayerModel, input: Input)
    requires
        p.valid(),
        p.accepts(input),
    ensures
        p.at(p.step(input).0).valid(),
{
}

/// A list that is repeated goes on until no command can come in any more.
pub proof fn repeated_list_goes_on(p: PlayerModel, input: Input)
    requires
        p.valid(),
        p.accepts(input),
        p.repeat,
    ensures
        p.step(input).0.phase == Phase::Done <==> input == Input::Closed,
{
}

/// A list that is not repeated ends in two ways only: no command can come in
/// any more, or the last track is left.
pub proof fn list_ends_behind_its_last_track(p: PlayerModel, input: Input)
    requires
        p.valid(),
        p.accepts(input),
        p.step(input).0.phase == Phase::Done,
        input != Input::Closed,
    ensures
        !p.repeat,
        p.cursor.n_track == p.tracks.len() - 1,
{
}

/// When no command can come in any more, playback is over at once, paused or
/// not.
pub proof fn closing_ends_playback(p: PlayerModel)
    requires
        p.valid(),
        p.cursor.phase == Phase::Polling || p.cursor.phase == Phase::Paused,
    ensures
        p.accepts(Input::Closed),
        p.step(Input::Closed).0.phase == Phase::Done,
        p.step(Input::Closed).1 == farewell(),
{
}

/// Once playback is over, no input is taken any more.
pub proof fn end_is_final(p: PlayerModel, input: Input)
    requires
        p.cursor.phase == Phase::Done,
    ensures
        !p.accepts(input),
{
}

/// No note is left sounding: not at the end, not in a pause, and not from one
/// track to the next, since a track begins with turning all notes off.
pub proof fn no_note_is_left_sounding(p: PlayerModel, input: Input)
    requires
        p.valid(),
        p.accepts(input),
    ensures
        ({
            let (cursor, actions) = p.step(input);
            &&& cursor.phase == Phase::Done ==> {
                &&& actions.len() >= 2
                &&& actions.subrange(actions.len() - 2, actions.len() as int) == farewell()
            }
            &&& cursor.phase == Phase::Paused && p.cursor.phase != Phase::Paused ==> {
                &&& actions.len() > 0
                &&& actions[0] == Action::AllNotesOff
            }
            &&& cursor.phase == Phase::Paused ==> plays(actions) == Seq::<Message>::empty()
            &&& p.cursor.phase == Phase::Starting ==> {
                &&& actions.len() >= 2
                &&& actions[0] == Action::Reset
                &&& actions[1] == Action::AllNotesOff
            }
        }),
{
    let (cursor, actions) = p.step(input);
    if cursor.phase == Phase::Done {
        assert(actions.subrange(actions.len() - 2, actions.len() as int) =~= farewell());
    }
    if cursor.phase == Phase::Paused {
        plays_of_none(actions);
    }
}

/// What comes first does not change how a moment is played.
proof fn moment_after(p: PlayerModel, first: Seq<Action>)
    ensures
        p.play_moment(first).0 == p.play_moment(seq![]).0,
        p.play_moment(first).1 == first + p.play_moment(seq![]).1,
{
    let own = moment_actions(p.moments()[p.cursor.position as int], p.cursor);
    assert(Seq::<Action>::empty() + own =~= own);
    assert(p.play_moment(first).1 =~= first + p.play_moment(seq![]).1);
}

/// A pause loses nothing: when playback goes on, the moment that was next is
/// played, with the same messages and ticks as if there had been no pause.
pub proof fn pause_loses_nothing(p: PlayerModel)
    requires
        p.valid(),
        p.cursor.phase == Phase::Polling,
    ensures
        ({
            let pause = Input::Command(Command::Pause);
            let (paused, first) = p.step(pause);
            let (resumed, second) = p.at(paused).step(pause);
            let (straight, actions) = p.step(Input::NoCommand);
            &&& p.at(paused).accepts(pause)
            &&& plays(first + second) == plays(actions)
            &&& slept(first + second) == slept(actions)
            &&& straight.phase != Phase::Starting ==> resumed == (Cursor {
                paused_before: true,
                ..straight
            })
            &&& straight.phase == Phase::Starting ==> resumed == straight
        }),
{
    let pause = Input::Command(Command::Pause);
    let (paused, first) = p.step(pause);
    let q = p.at(paused);
    let (resumed, second) = q.step(pause);
    let (straight, actions) = p.step(Input::NoCommand);
    let redraw = seq![
        Action::Show(
            Print::ReplaceAll,
            Screen::Full { n_track: paused.n_track, speed: paused.speed, bpm: paused.bpm },
        ),
    ];
    assert(q.moments() == p.moments());
    moment_after(q, redraw);
    assert(moment_actions(p.moments()[p.cursor.position as int], paused) == moment_actions(
        p.moments()[p.cursor.position as int],
        p.cursor,
    ));
    assert(q.play_moment(seq![]).1 == actions);
    plays_of_none(first);
    plays_of_none(redraw);
    plays_of_both(redraw, actions);
    plays_of_both(first, second);
    assert(plays(first + second) =~= plays(actions));
}

/// A change of speed changes nothing else: the same messages are played after
/// the same ticks as without it.
pub proof fn speed_does_not_change_the_music(p: PlayerModel, command: Command)
    requires
        p.valid(),
        p.cursor.phase == Phase::Polling,
        command is SpeedUp || command is SpeedDown || command is SetSpeed,
    ensures
        ({
            let (cursor, actions) = p.step(Input::Command(command));
            let (straight, own) = p.step(Input::NoCommand);
            &&& plays(actions) == plays(own)
            &&& slept(actions) == slept(own)
            &&& cursor == (Cursor { speed: cursor.speed, ..straight })
        }),
{
    let (cursor, actions) = p.step(Input::Command(command));
    let speed = cursor.speed;
    let c = Cursor { speed, ..p.cursor };
    let q = p.at(c);
    moment_is_played(p);
    moment_is_played(q);
    let prefix = seq![
        Action::SetTimerSpeed(speed),
        Action::Show(
            Print::ReplaceLast,
            Screen::Status { n_track: c.n_track, speed, bpm: c.bpm },
        ),
    ];
    let own = q.step(Input::NoCommand).1;
    assert(p.step(Input::Command(command)) == p.change_speed(speed));
    moment_after(q, prefix);
    plays_of_none(prefix);
    plays_of_both(prefix, own);
    assert(plays(actions) =~= plays(own));
}

/// Next and then previous leads back to the track that was left, at its start.
pub proof fn previous_undoes_next(p: PlayerModel)
    requires
        p.valid(),
        p.cursor.phase == Phase::Polling || p.cursor.phase == Phase::Paused,
        p.cursor.n_track + 1 < p.tracks.len(),
        p.tracks[p.cursor.n_track + 1].moments.len() > 0,
    ensures
        ({
            let (left, _) = p.step(Input::Command(Command::Next));
            let (begun, _) = p.at(left).step(Input::Proceed);
            let (back, _) = p.at(begun).step(Input::Command(Command::Prev));
            &&& left == enter((p.cursor.n_track + 1) as usize, p.cursor.speed)
            &&& begun.phase == Phase::Polling
            &&& back == enter(p.cursor.n_track, p.cursor.speed)
        }),
{
}

/// The first track is its own previous one: going back from it starts it again.
pub proof fn previous_of_the_first_track(p: PlayerModel)
    requires
        p.valid(),
        p.cursor.phase == Phase::Polling || p.cursor.phase == Phase::Paused,
        p.cursor.n_track == 0,
    ensures
        p.step(Input::Command(Command::Prev)).0 == enter(0, p.cursor.speed),
{
}

/// The speed is what the listener made it: commands about the speed change it,
/// and the timer runs at it from then on; nothing else changes it, and the next
/// track begins with it.
pub proof fn speed_is_the_listeners(p: PlayerModel, input: Input)
    requires
        p.valid(),
        p.accepts(input),
    ensures
        ({
            let (cursor, actions) = p.step(input);
            let before = p.cursor.speed;
            &&& cursor.speed == match input {
                Input::Command(Command::SpeedUp) => before.raised(),
                Input::Command(Command::SpeedDown) => before.lowered(),
                Input::Command(Command::SetSpeed(speed)) => speed,
                _ => before,
            }
            &&& input matches Input::Command(command) ==> {
                command is SpeedUp || command is SpeedDown || command is SetSpeed ==> {
                    &&& actions.len() > 0
                    &&& actions[0] == Action::SetTimerSpeed(cursor.speed)
                }
            }
            &&& input == Input::Proceed ==> {
                &&& actions.len() > 2
                &&& actions[2] == (Action::StartTimer {
                    tpb: p.tracks[p.cursor.n_track as int].tpb,
                    speed: before,
                })
            }
        }),
{
}

/// A speed within bounds stays within bounds, whatever comes in.
pub proof fn speed_stays_in_bounds(p: PlayerModel, input: Input)
    requires
        p.valid(),
        p.accepts(input),
        p.cursor.speed.in_bounds(),
        input matches Input::Command(Command::SetSpeed(speed)) ==> speed.in_bounds(),
    ensures
        p.step(input).0.speed.in_bounds(),
{
    steps_stay_in_bounds(p.cursor.speed);
}

/// After a moment with a change of tempo in it, the beats per minute on display
/// are less than half a beat away from those that are played.
pub proof fn display_follows_the_tempo(events: Seq<SheetEvent>, shown: Option<Bpm>)
    requires
        tempos(events).len() > 0,
    ensures
        bpm_after(events, shown) is Some,
        !half_a_beat_apart(bpm_after(events, shown)->0.micros_per_beat, tempos(events).last()),
    decreases events.len(),
{
    let before = events.drop_last();
    match events.last() {
        SheetEvent::Tempo(tempo) => {
            display_keeps_up(bpm_after(before, shown), tempo);
            assert(tempos(events) == tempos(before) + seq![tempo]);
        },
        _ => {
            assert(tempos(events) == tempos(before));
            display_follows_the_tempo(before, shown);
        },
    }
}

/// What `actions` tell the synthesizer and the timer, as events: messages and
/// changes of tempo, in their order.
pub open spec fn performed(actions: Seq<Action>) -> Seq<SheetEvent> {
    actions.filter_map(
        |a: Action|
            match a {
                Action::Play(message) => Some(SheetEvent::Midi(message)),
                Action::ChangeTempo(tempo) => Some(SheetEvent::Tempo(tempo)),
                _ => None,
            },
    )
}

/// The tempos that `actions` tell the timer, in their order.
pub open spec fn told(actions: Seq<Action>) -> Seq<u32> {
    actions.filter_map(
        |a: Action|
            match a {
                Action::ChangeTempo(tempo) => Some(tempo),
                _ => None,
            },
    )
}

/// The messages and changes of tempo among `events`, in their order.
pub open spec fn score(events: Seq<SheetEvent>) -> Seq<SheetEvent> {
    events.filter_map(
        |e: SheetEvent|
            match e {
                SheetEvent::Midi(_) => Some(e),
                SheetEvent::Tempo(_) => Some(e),
                _ => None,
            },
    )
}

/// The messages and changes of tempo of a track, in their order.
pub open spec fn track_score(moments: Seq<Seq<SheetEvent>>) -> Seq<SheetEvent>
    decreases moments.len(),
{
    if moments.len() == 0 {
        seq![]
    } else {
        track_score(moments.drop_last()) + score(moments.last())
    }
}

/// The tempos of a track, in their order.
pub open spec fn track_tempos(moments: Seq<Seq<SheetEvent>>) -> Seq<u32>
    decreases moments.len(),
{
    if moments.len() == 0 {
        seq![]
    } else {
        track_tempos(moments.drop_last()) + tempos(moments.last())
    }
}

proof fn performed_of_both(a: Seq<Action>, b: Seq<Action>)
    ensures
        performed(a + b) == performed(a) + performed(b),
        told(a + b) == told(a) + told(b),
    decreases b.len(),
{
    if b.len() == 0 {
        assert(a + b =~= a);
        assert(performed(a) + performed(b) =~= performed(a));
        assert(told(a) + told(b) =~= told(a));
    } else {
        performed_of_both(a, b.drop_last());
        assert((a + b).drop_last() =~= a + b.drop_last());
        assert((a + b).last() == b.last());
        assert(performed(a + b) =~= performed(a) + performed(b));
        assert(told(a + b) =~= told(a) + told(b));
    }
}

proof fn performed_of_none(actions: Seq<Action>)
    requires
        forall|i: int|
            0 <= i < actions.len() ==> !(#[trigger] actions[i] is Play) && !(actions[i] is ChangeTempo),
    ensures
        performed(actions) == Seq::<SheetEvent>::empty(),
        told(actions) == Seq::<u32>::empty(),
    decreases actions.len(),
{
    if actions.len() > 0 {
        let rest = actions.drop_last();
        assert forall|i: int| 0 <= i < rest.len() implies !(#[trigger] rest[i] is Play) && !(
        rest[i] is ChangeTempo) by {
            assert(rest[i] == actions[i]);
        }
        performed_of_none(rest);
        assert(!(actions[actions.len() - 1] is Play));
    }
}

proof fn performed_of_one(a: Action)
    ensures
        performed(seq![a]) == (match a {
            Action::Play(message) => seq![SheetEvent::Midi(message)],
            Action::ChangeTempo(tempo) => seq![SheetEvent::Tempo(tempo)],
            _ => seq![],
        }),
        told(seq![a]) == (match a {
            Action::ChangeTempo(tempo) => seq![tempo],
            _ => seq![],
        }),
{
    assert(seq![a].drop_last() =~= Seq::<Action>::empty());
    assert(performed(seq![a].drop_last()) =~= Seq::<SheetEvent>::empty());
    assert(told(seq![a].drop_last()) =~= Seq::<u32>::empty());
    assert(performed(seq![a]) =~= (match a {
        Action::Play(message) => seq![SheetEvent::Midi(message)],
        Action::ChangeTempo(tempo) => seq![SheetEvent::Tempo(tempo)],
        _ => seq![],
    }));
    assert(told(seq![a]) =~= (match a {
        Action::ChangeTempo(tempo) => seq![tempo],
        _ => seq![],
    }));
}

proof fn performed_of_events(
    events: Seq<SheetEvent>,
    n_track: usize,
    speed: Speed,
    shown: Option<Bpm>,
)
    ensures
        performed(events_actions(events, n_track, speed, shown)) == score(events),
        told(events_actions(events, n_track, speed, shown)) == tempos(events),
    decreases events.len(),
{
    if events.len() > 0 {
        let before = events.drop_last();
        let event = events.last();
        let bpm = bpm_after(before, shown);
        let own = event_actions(event, n_track, speed, bpm);
        performed_of_events(before, n_track, speed, shown);
        performed_of_both(events_actions(before, n_track, speed, shown), own);
        match event {
            SheetEvent::Tempo(tempo) => {
                let first = seq![Action::ChangeTempo(tempo)];
                let rest = own.skip(1);
                performed_of_one(Action::ChangeTempo(tempo));
                performed_of_none(rest);
                performed_of_both(first, rest);
                assert(own =~= first + rest);
                assert(performed(own) =~= seq![event]);
                assert(told(own) =~= seq![tempo]);
            },
            SheetEvent::Midi(message) => {
                performed_of_one(Action::Play(message));
                assert(told(events_actions(events, n_track, speed, shown)) =~= tempos(events));
            },
            _ => {
                performed_of_none(own);
                assert(performed(events_actions(events, n_track, speed, shown)) =~= score(events));
                assert(told(events_actions(events, n_track, speed, shown)) =~= tempos(events));
            },
        }
    }
}

proof fn performed_of_moment(p: PlayerModel, first: Seq<Action>)
    requires
        p.cursor.n_track < p.tracks.len(),
        forall|i: int|
            0 <= i < first.len() ==> !(#[trigger] first[i] is Play) && !(first[i] is ChangeTempo),
    ensures
        performed(p.play_moment(first).1) == score(p.moments()[p.cursor.position as int]),
        told(p.play_moment(first).1) == tempos(p.moments()[p.cursor.position as int]),
{
    let c = p.cursor;
    let events = p.moments()[c.position as int];
    let own = moment_actions(events, c);
    performed_of_none(first);
    performed_of_none(farewell());
    performed_of_events(events, c.n_track, c.speed, c.bpm);
    if events.len() > 0 {
        performed_of_one(Action::Sleep(c.counter));
        performed_of_both(
            seq![Action::Sleep(c.counter)],
            events_actions(events, c.n_track, c.speed, c.bpm),
        );
    } else {
        performed_of_none(own);
    }
    assert(performed(own) =~= score(events));
    assert(told(own) =~= tempos(events));
    performed_of_both(first, own);
    performed_of_both(first + own, farewell());
    performed_of_both(first + own, seq![]);
    performed_of_none(seq![]);
    assert(performed(p.play_moment(first).1) =~= score(events));
    assert(told(p.play_moment(first).1) =~= tempos(events));
}

/// The timer and the synthesizer are told what the sheet says and nothing else. A
/// step that plays a moment tells them the messages and the tempos of that
/// moment, all of them, each once and in their order; every other step tells
/// them none. A moment is played when no command has come in, when playback goes
/// on after a pause, and after a change of speed that does not come in a pause.
pub proof fn sheet_is_performed(p: PlayerModel, input: Input)
    requires
        p.valid(),
        p.accepts(input),
    ensures
        ({
            let actions = p.step(input).1;
            let c = p.cursor;
            let events = p.tracks[c.n_track as int].moments[c.position as int];
            let plays_on = match input {
                Input::NoCommand => true,
                Input::Command(Command::Pause) => c.phase == Phase::Paused,
                Input::Command(Command::SpeedUp) => c.phase == Phase::Polling,
                Input::Command(Command::SpeedDown) => c.phase == Phase::Polling,
                Input::Command(Command::SetSpeed(_)) => c.phase == Phase::Polling,
                _ => false,
            };
            &&& plays_on ==> performed(actions) == score(events) && told(actions) == tempos(events)
            &&& !plays_on ==> performed(actions) == Seq::<SheetEvent>::empty() && told(actions)
                == Seq::<u32>::empty()
        }),
{
    let c = p.cursor;
    let actions = p.step(input).1;
    match input {
        Input::NoCommand => {
            performed_of_moment(p, seq![]);
        },
        Input::Command(Command::Pause) if c.phase == Phase::Paused => {
            performed_of_moment(
                p,
                seq![
                    Action::Show(
                        Print::ReplaceAll,
                        Screen::Full { n_track: c.n_track, speed: c.speed, bpm: c.bpm },
                    ),
                ],
            );
        },
        Input::Command(Command::Pause) => {
            performed_of_none(actions);
        },
        Input::Command(Command::Next) => {
            performed_of_none(actions);
        },
        Input::Command(Command::Prev) => {
            performed_of_none(actions);
        },
        Input::Command(_) => {
            if c.phase == Phase::Paused {
                performed_of_none(actions);
            } else {
                let speed = p.step(input).0.speed;
                let q = p.at(Cursor { speed, ..c });
                performed_of_moment(
                    q,
                    seq![
                        Action::SetTimerSpeed(speed),
                        Action::Show(
                            Print::ReplaceLast,
                            Screen::Status { n_track: c.n_track, speed, bpm: c.bpm },
                        ),
                    ],
                );
            }
        },
        _ => {
            performed_of_none(actions);
        },
    }
}

proof fn score_of_both(a: Seq<Seq<SheetEvent>>, b: Seq<Seq<SheetEvent>>)
    ensures
        track_score(a + b) == track_score(a) + track_score(b),
        track_tempos(a + b) == track_tempos(a) + track_tempos(b),
    decreases b.len(),
{
    if b.len() == 0 {
        assert(a + b =~= a);
        assert(track_score(a) + track_score(b) =~= track_score(a));
        assert(track_tempos(a) + track_tempos(b) =~= track_tempos(a));
    } else {
        score_of_both(a, b.drop_last());
        assert((a + b).drop_last() =~= a + b.drop_last());
        assert(track_score(a + b) =~= track_score(a) + track_score(b));
        assert(track_tempos(a + b) =~= track_tempos(a) + track_tempos(b));
    }
}

proof fn score_from(moments: Seq<Seq<SheetEvent>>, from: int, to: int)
    requires
        0 <= from < to <= moments.len(),
    ensures
        track_score(moments.subrange(from, to)) == score(moments[from]) + track_score(
            moments.subrange(from + 1, to),
        ),
        track_tempos(moments.subrange(from, to)) == tempos(moments[from]) + track_tempos(
            moments.subrange(from + 1, to),
        ),
{
    let first = seq![moments[from]];
    assert(moments.subrange(from, to) =~= first + moments.subrange(from + 1, to));
    score_of_both(first, moments.subrange(from + 1, to));
    assert(first.drop_last() =~= Seq::<Seq<SheetEvent>>::empty());
    assert(track_score(first.drop_last()) =~= Seq::<SheetEvent>::empty());
    assert(track_tempos(first.drop_last()) =~= Seq::<u32>::empty());
    assert(track_score(first) =~= score(moments[from]));
    assert(track_tempos(first) =~= tempos(moments[from]));
}

/// If no command comes in, the next `n` moments of a track are performed as the
/// sheet has them: messages and changes of tempo, each once, in one order.
pub proof fn moments_are_performed(p: PlayerModel, n: nat)
    requires
        p.valid(),
        p.cursor.phase == Phase::Polling,
        p.cursor.position + n <= p.tracks[p.cursor.n_track as int].moments.len(),
    ensures
        ({
            let from = p.cursor.position as int;
            let moments = p.tracks[p.cursor.n_track as int].moments.subrange(from, from + n);
            let actions = p.undisturbed(n).1;
            &&& performed(actions) == track_score(moments)
            &&& told(actions) == track_tempos(moments)
        }),
    decreases n,
{
    let from = p.cursor.position as int;
    if n == 0 {
        assert(p.moments().subrange(from, from) =~= Seq::<Seq<SheetEvent>>::empty());
        performed_of_none(seq![]);
    } else {
        moment_is_played(p);
        sheet_is_performed(p, Input::NoCommand);
        let (next, actions) = p.step(Input::NoCommand);
        let q = p.at(next);
        score_from(p.moments(), from, from + n);
        let more = q.undisturbed((n - 1) as nat).1;
        performed_of_both(actions, more);
        if n == 1 {
            assert(p.moments().subrange(from + 1, from + n) =~= Seq::<Seq<SheetEvent>>::empty());
            performed_of_none(more);
        } else {
            assert(next.phase == Phase::Polling);
            assert(q.moments() == p.moments());
            moments_are_performed(q, (n - 1) as nat);
        }
    }
}

/// If no command comes in, a track is performed as its sheet has it, from its
/// beginning to its end. The timer is told every tempo of the track, the
/// slow-downs and the speed-ups, in their order.
pub proof fn track_is_performed(p: PlayerModel)
    requires
        p.valid(),
        p.cursor.phase == Phase::Starting,
    ensures
        ({
            let moments = p.tracks[p.cursor.n_track as int].moments;
            let actions = p.undisturbed(1 + moments.len()).1;
            &&& performed(actions) == track_score(moments)
            &&& told(actions) == track_tempos(moments)
        }),
{
    let len = p.moments().len();
    track_begins(p);
    sheet_is_performed(p, Input::Proceed);
    let (begun, opening) = p.step(Input::Proceed);
    let q = p.at(begun);
    let more = q.undisturbed(len).1;
    assert((1 + len - 1) as nat == len);
    performed_of_both(opening, more);
    if len == 0 {
        performed_of_none(more);
    } else {
        assert(q.moments() == p.moments());
        moments_are_performed(q, len);
        assert(p.moments().subrange(0, len as int) =~= p.moments());
    }
    assert(Seq::<SheetEvent>::empty() + performed(more) =~= performed(more));
    assert(Seq::<u32>::empty() + told(more) =~= told(more));
}

/// Which input is taken when: a track that starts may begin, and nothing else is
/// asked; from then on every command is taken, paused or not, and so is that no
/// command will come any more.
pub proof fn every_command_is_taken(p: PlayerModel, command: Command)
    ensures
        p.cursor.phase == Phase::Starting ==> p.accepts(Input::Proceed),
        p.cursor.phase == Phase::Polling ==> p.accepts(Input::NoCommand),
        p.cursor.phase == Phase::Polling || p.cursor.phase == Phase::Paused ==> p.accepts(
            Input::Command(command),
        ) && p.accepts(Input::Closed),
{
}

/// A player starts with the first track, from its beginning, at the speed that
/// was asked for, with no tempo on display and no pause behind it.
pub proof fn playback_starts_with_the_first_track(
    tracks: Seq<TrackModel>,
    repeat: bool,
    speed: Speed,
)
    requires
        playable(tracks),
    ensures
        ({
            let p = PlayerModel { tracks, repeat, cursor: enter(0, speed) };
            &&& p.valid()
            &&& p.cursor.phase == Phase::Starting
            &&& p.cursor.n_track == 0
            &&& p.cursor.position == 0
            &&& p.cursor.counter == 0
            &&& p.cursor.speed == speed
            &&& p.cursor.bpm == None::<Bpm>
            &&& !p.cursor.paused_before
        }),
{
}

/// A track begins with a reset, with all notes off, with a timer of its own at
/// the speed of before, and with the whole screen. If there is nothing in it, it
/// is left at once: for the next track, for the first one behind the last one of
/// a list that is repeated, or for good.
pub proof fn tracks_begin_alike(p: PlayerModel)
    requires
        p.valid(),
        p.cursor.phase == Phase::Starting,
    ensures
        ({
            let (cursor, actions) = p.step(Input::Proceed);
            let n = p.cursor.n_track;
            let track = p.tracks[n as int];
            let speed = p.cursor.speed;
            let opening = seq![
                Action::Reset,
                Action::AllNotesOff,
                Action::StartTimer { tpb: track.tpb, speed },
                Action::Show(Print::ReplaceAll, Screen::Full { n_track: n, speed, bpm: None }),
            ];
            let ends = track.moments.len() == 0 && n + 1 == p.tracks.len() && !p.repeat;
            &&& actions == if ends {
                opening + seq![Action::Reset, Action::AllNotesOff]
            } else {
                opening
            }
            &&& cursor.speed == speed
            &&& cursor.position == 0
            &&& cursor.counter == 0
            &&& cursor.bpm == None::<Bpm>
            &&& !cursor.paused_before
            &&& cursor.phase == if track.moments.len() > 0 {
                Phase::Polling
            } else if ends {
                Phase::Done
            } else {
                Phase::Starting
            }
            &&& cursor.n_track == if track.moments.len() > 0 {
                n as int
            } else if ends || n + 1 < p.tracks.len() {
                n + 1
            } else {
                0
            }
        }),
{
    let (cursor, actions) = p.step(Input::Proceed);
    assert(actions =~= p.opening() || actions =~= p.opening() + seq![
        Action::Reset,
        Action::AllNotesOff,
    ]);
}

/// Next leads to the start of the next track, from wherever playback is in this
/// one, paused or not. Behind the last track it leads to the first one if the
/// list is repeated, and to the end if it is not. The speed stays.
pub proof fn next_leads_to_the_next_track(p: PlayerModel)
    requires
        p.valid(),
        p.cursor.phase == Phase::Polling || p.cursor.phase == Phase::Paused,
    ensures
        ({
            let (cursor, actions) = p.step(Input::Command(Command::Next));
            let n = p.cursor.n_track;
            let over = n + 1 == p.tracks.len() && !p.repeat;
            &&& cursor.n_track == if n + 1 == p.tracks.len() && p.repeat {
                0
            } else {
                n + 1
            }
            &&& cursor.speed == p.cursor.speed
            &&& over ==> cursor.phase == Phase::Done && cursor.bpm == p.cursor.bpm && actions
                == seq![Action::Reset, Action::AllNotesOff]
            &&& !over ==> {
                &&& cursor.phase == Phase::Starting
                &&& cursor.position == 0
                &&& cursor.counter == 0
                &&& cursor.bpm == None::<Bpm>
                &&& !cursor.paused_before
                &&& actions == Seq::<Action>::empty()
            }
        }),
{
}

/// Previous leads to the start of the track before this one, from wherever
/// playback is in this one, paused or not. The first track is started again. The
/// speed stays, and nothing else is done.
pub proof fn previous_leads_to_the_track_before(p: PlayerModel)
    requires
        p.valid(),
        p.cursor.phase == Phase::Polling || p.cursor.phase == Phase::Paused,
    ensures
        ({
            let (cursor, actions) = p.step(Input::Command(Command::Prev));
            let n = p.cursor.n_track;
            &&& n > 0 ==> cursor.n_track == n - 1
            &&& n == 0 ==> cursor.n_track == 0
            &&& cursor.phase == Phase::Starting
            &&& cursor.position == 0
            &&& cursor.counter == 0
            &&& cursor.speed == p.cursor.speed
            &&& cursor.bpm == None::<Bpm>
            &&& !cursor.paused_before
            &&& actions == Seq::<Action>::empty()
        }),
{
}

/// A pause turns all notes off and says so, below the screen the first time in a
/// track and in place of the last line after that. Playback stays where it is.
pub proof fn pause_stops_playback(p: PlayerModel)
    requires
        p.valid(),
        p.cursor.phase == Phase::Polling,
    ensures
        ({
            let (cursor, actions) = p.step(Input::Command(Command::Pause));
            let c = p.cursor;
            &&& cursor.phase == Phase::Paused
            &&& cursor.n_track == c.n_track
            &&& cursor.position == c.position
            &&& cursor.counter == c.counter
            &&& cursor.speed == c.speed
            &&& cursor.bpm == c.bpm
            &&& cursor.paused_before
            &&& actions.len() == 2
            &&& actions[0] == Action::AllNotesOff
            &&& actions[1] == if c.paused_before {
                Action::Show(Print::ReplaceLast, Screen::Paused)
            } else {
                Action::Show(Print::Append, Screen::Paused)
            }
        }),
{
}

/// A change of speed in a pause changes the speed and nothing else: the pause
/// goes on where it is, the timer and the screen are told, no message is played
/// and no tick passes.
pub proof fn pause_outlasts_changes_of_speed(p: PlayerModel, command: Command)
    requires
        p.valid(),
        p.cursor.phase == Phase::Paused,
        command is SpeedUp || command is SpeedDown || command is SetSpeed,
    ensures
        ({
            let (cursor, actions) = p.step(Input::Command(command));
            let speed = match command {
                Command::SpeedUp => p.cursor.speed.raised(),
                Command::SpeedDown => p.cursor.speed.lowered(),
                Command::SetSpeed(asked) => asked,
                _ => p.cursor.speed,
            };
            &&& cursor.phase == Phase::Paused
            &&& cursor == (Cursor { speed, ..p.cursor })
            &&& actions == seq![
                Action::SetTimerSpeed(speed),
                Action::Show(Print::ReplaceLast, Screen::PausedSpeed { speed }),
            ]
            &&& plays(actions) == Seq::<Message>::empty()
            &&& slept(actions) == 0
        }),
{
    plays_of_none(p.step(Input::Command(command)).1);
}

/// A change of speed while a track is played tells the timer and the screen, and
/// then playback goes on as it would have done at that speed.
pub proof fn playback_goes_on_at_another_speed(p: PlayerModel, command: Command)
    requires
        p.valid(),
        p.cursor.phase == Phase::Polling,
        command is SpeedUp || command is SpeedDown || command is SetSpeed,
    ensures
        ({
            let c = p.cursor;
            let speed = match command {
                Command::SpeedUp => c.speed.raised(),
                Command::SpeedDown => c.speed.lowered(),
                Command::SetSpeed(asked) => asked,
                _ => c.speed,
            };
            let (cursor, actions) = p.step(Input::Command(command));
            let (straight, own) = p.at(Cursor { speed, ..c }).step(Input::NoCommand);
            &&& cursor == straight
            &&& actions == seq![
                Action::SetTimerSpeed(speed),
                Action::Show(
                    Print::ReplaceLast,
                    Screen::Status { n_track: c.n_track, speed, bpm: c.bpm },
                ),
            ] + own
        }),
{
    let c = p.cursor;
    let speed = p.step(Input::Command(command)).0.speed;
    let prefix = seq![
        Action::SetTimerSpeed(speed),
        Action::Show(
            Print::ReplaceLast,
            Screen::Status { n_track: c.n_track, speed, bpm: c.bpm },
        ),
    ];
    moment_after(p.at(Cursor { speed, ..c }), prefix);
    assert(p.step(Input::Command(command)) == p.change_speed(speed));
}

/// A second pause ends the first one: the whole screen comes back, with the speed
/// and the tempo of now, and then playback goes on as if it had not been paused.
pub proof fn pause_ends_with_the_next_one(p: PlayerModel)
    requires
        p.valid(),
        p.cursor.phase == Phase::Paused,
    ensures
        ({
            let c = p.cursor;
            let (cursor, actions) = p.step(Input::Command(Command::Pause));
            let (straight, own) = p.at(Cursor { phase: Phase::Polling, ..c }).step(
                Input::NoCommand,
            );
            &&& cursor == straight
            &&& actions == seq![
                Action::Show(
                    Print::ReplaceAll,
                    Screen::Full { n_track: c.n_track, speed: c.speed, bpm: c.bpm },
                ),
            ] + own
        }),
{
    let c = p.cursor;
    let redraw = seq![
        Action::Show(
            Print::ReplaceAll,
            Screen::Full { n_track: c.n_track, speed: c.speed, bpm: c.bpm },
        ),
    ];
    let q = p.at(Cursor { phase: Phase::Polling, ..c });
    assert(q.moments() == p.moments());
    let events = p.moments()[c.position as int];
    assert(moment_actions(events, c) == moment_actions(events, q.cursor));
    moment_after(p, redraw);
    assert(p.play_moment(seq![]) == q.play_moment(seq![]));
}

/// When no command will come any more, the synthesizer is reset and all notes are
/// turned off, and that is all.
pub proof fn closing_says_farewell(p: PlayerModel)
    requires
        p.valid(),
        p.cursor.phase == Phase::Polling || p.cursor.phase == Phase::Paused,
    ensures
        ({
            let (cursor, actions) = p.step(Input::Closed);
            &&& cursor == (Cursor { phase: Phase::Done, ..p.cursor })
            &&& actions == seq![Action::Reset, Action::AllNotesOff]
        }),
{
}

/// The beats per minute that the screen shows after `actions`.
pub open spec fn on_display(actions: Seq<Action>, before: Option<Bpm>) -> Option<Bpm>
    decreases actions.len(),
{
    if actions.len() == 0 {
        before
    } else {
        match actions.last() {
            Action::Show(_, Screen::Status { bpm, .. }) => bpm,
            Action::Show(_, Screen::Full { bpm, .. }) => bpm,
            _ => on_display(actions.drop_last(), before),
        }
    }
}

/// Whether the action at `i` has its place among those of a moment: the status
/// line is shown right behind each change of tempo that is half a beat or more
/// from what is on display or that is the first one, with that tempo and in place
/// of the last line, and nothing else is shown.
pub open spec fn in_step_at(
    actions: Seq<Action>,
    i: int,
    n_track: usize,
    speed: Speed,
    before: Option<Bpm>,
) -> bool {
    match actions[i] {
        Action::Play(_) => true,
        Action::ChangeTempo(tempo) => {
            let shown = on_display(actions.take(i), before);
            let due = shown is None || half_a_beat_apart(shown->0.micros_per_beat, tempo);
            due <==> i + 1 < actions.len() && actions[i + 1] is Show
        },
        Action::Show(place, screen) => {
            &&& i > 0
            &&& actions[i - 1] is ChangeTempo
            &&& place == Print::ReplaceLast
            &&& screen == Screen::Status {
                n_track,
                speed,
                bpm: Some(Bpm { micros_per_beat: actions[i - 1]->ChangeTempo_0 }),
            }
        },
        _ => false,
    }
}

/// Whether all of `actions` have their place.
pub open spec fn display_in_step(
    actions: Seq<Action>,
    n_track: usize,
    speed: Speed,
    before: Option<Bpm>,
) -> bool {
    forall|i: int|
        0 <= i < actions.len() ==> #[trigger] in_step_at(actions, i, n_track, speed, before)
}

proof fn on_display_after(a: Seq<Action>, b: Seq<Action>, before: Option<Bpm>)
    ensures
        on_display(a + b, before) == on_display(b, on_display(a, before)),
    decreases b.len(),
{
    if b.len() == 0 {
        assert(a + b =~= a);
    } else {
        on_display_after(a, b.drop_last(), before);
        assert((a + b).drop_last() =~= a + b.drop_last());
        assert((a + b).last() == b.last());
    }
}

proof fn events_keep_the_display_in_step(
    events: Seq<SheetEvent>,
    n_track: usize,
    speed: Speed,
    before: Option<Bpm>,
)
    ensures
        ({
            let actions = events_actions(events, n_track, speed, before);
            &&& display_in_step(actions, n_track, speed, before)
            &&& on_display(actions, before) == bpm_after(events, before)
        }),
    decreases events.len(),
{
    if events.len() > 0 {
        let rest = events.drop_last();
        let a = events_actions(rest, n_track, speed, before);
        let shown = bpm_after(rest, before);
        let event = events.last();
        let b = event_actions(event, n_track, speed, shown);
        let all = a + b;
        events_keep_the_display_in_step(rest, n_track, speed, before);
        on_display_after(a, b, before);
        assert(all.take(a.len() as int) =~= a);
        match event {
            SheetEvent::Tempo(tempo) => {
                assert(b[0] == Action::ChangeTempo(tempo));
                assert(b.take(0) =~= Seq::<Action>::empty());
                assert(all[a.len() as int] == b[0]);
                if b.len() == 2 {
                    assert(all[a.len() as int + 1] == b[1]);
                } else {
                    assert(b.drop_last() =~= Seq::<Action>::empty());
                    assert(on_display(b.drop_last(), shown) == shown);
                }
            },
            SheetEvent::Midi(message) => {
                assert(b.drop_last() =~= Seq::<Action>::empty());
                assert(on_display(b.drop_last(), shown) == shown);
                assert(all[a.len() as int] == b[0]);
            },
            _ => {
                assert(all =~= a);
            },
        }
        assert forall|i: int| 0 <= i < all.len() implies #[trigger] in_step_at(
            all,
            i,
            n_track,
            speed,
            before,
        ) by {
            if i < a.len() {
                assert(in_step_at(a, i, n_track, speed, before));
                assert(all.take(i) =~= a.take(i));
                if i + 1 == a.len() && i + 1 < all.len() {
                    assert(all[i + 1] == b[0]);
                    assert(!(b[0] is Show));
                }
            }
        }
    }
}

/// The actions of a moment, apart from those with which the track is left.
pub open spec fn own_actions(p: PlayerModel) -> Seq<Action> {
    let actions = p.step(Input::NoCommand).1;
    let leaving = p.step(Input::Command(Command::Next)).1;
    let moments = p.tracks[p.cursor.n_track as int].moments;
    if p.cursor.position + 1 == moments.len() {
        actions.take(actions.len() - leaving.len())
    } else {
        actions
    }
}

proof fn own_actions_are(p: PlayerModel)
    requires
        p.valid(),
        p.cursor.phase == Phase::Polling,
    ensures
        own_actions(p) == moment_actions(p.moments()[p.cursor.position as int], p.cursor),
        p.cursor.position + 1 == p.moments().len() ==> p.step(Input::NoCommand).1 == own_actions(p)
            + p.leave_track().1,
{
    let c = p.cursor;
    let own = moment_actions(p.moments()[c.position as int], c);
    let actions = p.step(Input::NoCommand).1;
    let leaving = p.leave_track().1;
    assert(Seq::<Action>::empty() + own =~= own);
    if c.position + 1 == p.moments().len() {
        assert(actions =~= own + leaving);
        assert(actions.take(actions.len() - leaving.len()) =~= own);
    } else {
        assert(actions =~= own);
    }
}

/// What is done for a moment when no command comes in. For an empty one, nothing.
/// For another one the ticks since the last event are let pass first; then come
/// its messages and its changes of tempo, with the display in step. Behind the
/// last moment the track is left with the same actions as by the command for the
/// next one.
#[verifier::rlimit(30)]
pub proof fn moment_goes_by(p: PlayerModel)
    requires
        p.valid(),
        p.cursor.phase == Phase::Polling,
    ensures
        ({
            let c = p.cursor;
            let moments = p.tracks[c.n_track as int].moments;
            let events = moments[c.position as int];
            let own = own_actions(p);
            &&& c.position + 1 == moments.len() ==> p.step(Input::NoCommand).1 == own + p.step(
                Input::Command(Command::Next),
            ).1
            &&& events.len() == 0 ==> own == Seq::<Action>::empty()
            &&& events.len() > 0 ==> {
                &&& own.len() > 0
                &&& own[0] == Action::Sleep(c.counter)
                &&& performed(own.skip(1)) == score(events)
                &&& display_in_step(own.skip(1), c.n_track, c.speed, c.bpm)
            }
        }),
{
    let c = p.cursor;
    let events = p.moments()[c.position as int];
    let inner = events_actions(events, c.n_track, c.speed, c.bpm);
    own_actions_are(p);
    if events.len() > 0 {
        events_keep_the_display_in_step(events, c.n_track, c.speed, c.bpm);
        performed_of_events(events, c.n_track, c.speed, c.bpm);
        assert(own_actions(p).skip(1) =~= inner);
    }
}

proof fn display_after_moment(p: PlayerModel)
    requires
        p.valid(),
        p.cursor.phase == Phase::Polling,
    ensures
        on_display(own_actions(p), p.cursor.bpm) == bpm_after(
            p.moments()[p.cursor.position as int],
            p.cursor.bpm,
        ),
{
    let c = p.cursor;
    let events = p.moments()[c.position as int];
    let inner = events_actions(events, c.n_track, c.speed, c.bpm);
    own_actions_are(p);
    events_keep_the_display_in_step(events, c.n_track, c.speed, c.bpm);
    if events.len() > 0 {
        let sleep = seq![Action::Sleep(c.counter)];
        on_display_after(sleep, inner, c.bpm);
        assert(sleep.drop_last() =~= Seq::<Action>::empty());
        assert(on_display(sleep.drop_last(), c.bpm) == c.bpm);
    }
}

/// Where playback is after a moment. The next one is up, one tick further; the
/// count of ticks starts again behind a moment with an event in it; and the tempo
/// that is kept is the one on display. Behind the last moment the track is left
/// for where the command for the next one leads.
pub proof fn moment_leads_to_the_next(p: PlayerModel)
    requires
        p.valid(),
        p.cursor.phase == Phase::Polling,
    ensures
        ({
            let c = p.cursor;
            let moments = p.tracks[c.n_track as int].moments;
            let cursor = p.step(Input::NoCommand).0;
            let left = p.step(Input::Command(Command::Next)).0;
            let last = c.position + 1 == moments.len();
            &&& !last ==> {
                &&& cursor.phase == Phase::Polling
                &&& cursor.n_track == c.n_track
                &&& cursor.position == c.position + 1
                &&& cursor.counter == if moments[c.position as int].len() == 0 {
                    c.counter + 1
                } else {
                    1
                }
                &&& cursor.speed == c.speed
                &&& cursor.bpm == on_display(own_actions(p), c.bpm)
                &&& cursor.paused_before == c.paused_before
            }
            &&& last ==> {
                &&& cursor.phase == left.phase
                &&& cursor.n_track == left.n_track
                &&& cursor.speed == left.speed
                &&& left.phase == Phase::Starting ==> cursor == left
                &&& left.phase == Phase::Done ==> cursor.bpm == on_display(own_actions(p), c.bpm)
            }
        }),
{
    let c = p.cursor;
    display_after_moment(p);
    assert(countable(p.moments()));
    assert(ticks_at(p.moments(), c.position + 1) <= u32::MAX);
}

/// The ticks that are let pass before an event are those since the moment `m` of
/// the event before it, if all moments between the two are empty.
pub proof fn ticks_count_from_the_last_event(moments: Seq<Seq<SheetEvent>>, m: int, n: int)
    requires
        0 <= m < n <= moments.len(),
        moments[m].len() > 0,
        forall|k: int| m < k < n ==> (#[trigger] moments[k]).len() == 0,
    ensures
        ticks_at(moments, n) == n - m,
    decreases n - m,
{
    if m + 1 < n {
        assert(moments[n - 1].len() == 0);
        ticks_count_from_the_last_event(moments, m, n - 1);
    }
}

/// Before the first event, they are those since the track began.
pub proof fn ticks_count_from_the_start(moments: Seq<Seq<SheetEvent>>, n: int)
    requires
        0 <= n <= moments.len(),
        forall|k: int| 0 <= k < n ==> (#[trigger] moments[k]).len() == 0,
    ensures
        ticks_at(moments, n) == n,
    decreases n,
{
    if n > 0 {
        assert(moments[n - 1].len() == 0);
        ticks_count_from_the_start(moments, n - 1);
    }
}

proof fn ticks_are_at_most(moments: Seq<Seq<SheetEvent>>, n: int)
    requires
        0 <= n <= moments.len(),
    ensures
        0 <= ticks_at(moments, n) <= n,
    decreases n,
{
    if n > 0 {
        ticks_are_at_most(moments, n - 1);
    }
}

/// Nothing can be played without a track. Every list with a track in it can be,
/// unless one of its tracks has more moments than ticks can be counted.
pub proof fn almost_every_list_can_be_played(tracks: Seq<TrackModel>)
    ensures
        tracks.len() == 0 ==> !playable(tracks),
        0 < tracks.len() <= usize::MAX && (forall|i: int|
            0 <= i < tracks.len() ==> (#[trigger] tracks[i]).moments.len() <= u32::MAX
                && tracks[i].moments.len() <= usize::MAX) ==> playable(tracks),
{
    assert forall|i: int, n: int|
        0 <= i < tracks.len() && 0 <= n <= tracks[i].moments.len() implies #[trigger] ticks_at(
        tracks[i].moments,
        n,
    ) <= n by {
        ticks_are_at_most(tracks[i].moments, n);
    }
}

/// In a list that can be played, no pause between two events is longer than ticks
/// can be counted.
pub proof fn counted_ticks_fit(tracks: Seq<TrackModel>, i: int, n: int)
    requires
        playable(tracks),
        0 <= i < tracks.len(),
        0 <= n <= tracks[i].moments.len(),
    ensures
        ticks_at(tracks[i].moments, n) <= u32::MAX,
{
    assert(countable(tracks[i].moments));
}

/// The messages and changes of tempo of several tracks, one track after the
/// other.
pub open spec fn list_score(tracks: Seq<TrackModel>) -> Seq<SheetEvent>
    decreases tracks.len(),
{
    if tracks.len() == 0 {
        seq![]
    } else {
        track_score(tracks.first().moments) + list_score(tracks.drop_first())
    }
}

/// If no command comes in, the list is performed from the current track on as its
/// sheets have it: every message and every change of tempo of every track, in
/// their order, each once.
pub proof fn list_is_performed(p: PlayerModel)
    requires
        p.valid(),
        p.cursor.phase == Phase::Starting,
    ensures
        ({
            let rest = p.tracks.skip(p.cursor.n_track as int);
            performed(p.undisturbed(inputs_needed(rest)).1) == list_score(rest)
        }),
    decreases p.tracks.len() - p.cursor.n_track,
{
    let n = p.cursor.n_track as int;
    let rest = p.tracks.skip(n);
    let own = 1 + p.moments().len();
    let others = inputs_needed(p.tracks.skip(n + 1));
    list_from(p.tracks, n);
    track_is_played_in_full(p);
    track_is_performed(p);
    undisturbed_in_two(p, own, others);
    let (middle, first) = p.undisturbed(own);
    let q = p.at(middle);
    let second = q.undisturbed(others).1;
    performed_of_both(first, second);
    assert(rest.drop_first() =~= p.tracks.skip(n + 1));
    assert(rest.first() == p.tracks[n]);
    if n + 1 < p.tracks.len() {
        list_is_performed(q);
    } else {
        assert(p.tracks.skip(n + 1) =~= Seq::<TrackModel>::empty());
        assert(others == 0);
        performed_of_none(second);
        assert(list_score(p.tracks.skip(n + 1)) =~= Seq::<SheetEvent>::empty());
    }
}

} // verus!
