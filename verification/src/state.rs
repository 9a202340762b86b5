//! What the window shows of playback.

use crate::playback::{Phase, Player};
use crate::speed::Speed;
use crate::tempo::Bpm;
use crate::track::{models, Track, TrackModel};
use vstd::prelude::*;

verus! {

/// Shared playback state, written by the playback thread and read by the
/// window.
pub struct PlaybackState {
    /// Playlist entries: track name and duration in nanoseconds. Set once
    /// before the playback thread starts.
    pub playlist: Vec<(String, u128)>,
    pub track_index: usize,
    pub speed: Speed,
    pub bpm: Option<Bpm>,
    pub paused: bool,
    pub done: bool,
}

/// The entries of a playlist: the name of each track and its duration in
/// nanoseconds.
pub open spec fn entries(playlist: Seq<(String, u128)>) -> Seq<(Seq<char>, nat)> {
    playlist.map_values(|e: (String, u128)| (e.0@, e.1 as nat))
}

/// The entries for a list of tracks.
pub open spec fn entries_of(tracks: Seq<TrackModel>) -> Seq<(Seq<char>, nat)> {
    tracks.map_values(|t: TrackModel| (t.name, t.duration))
}

impl PlaybackState {
    /// The state before playback begins.
    pub fn new(tracks: &Vec<Track>, speed: Speed) -> (state: PlaybackState)
        ensures
            entries(state.playlist@) == entries_of(models(tracks@)),
            state.playlist@.len() == tracks@.len(),
            forall|i: int|
                0 <= i < tracks@.len() ==> {
                    &&& (#[trigger] state.playlist@[i]).0@ == tracks@[i].name@
                    &&& state.playlist@[i].1 == tracks@[i].duration
                },
            state.track_index == 0,
            state.speed == speed,
            state.bpm == None::<Bpm>,
            !state.paused,
            !state.done,
    {
        let mut playlist: Vec<(String, u128)> = Vec::new();
        let ghost all = entries_of(models(tracks@));
        let mut i: usize = 0;
        while i < tracks.len()
            invariant
                i <= tracks@.len() == all.len(),
                all == entries_of(models(tracks@)),
                entries(playlist@) == all.take(i as int),
            decreases tracks@.len() - i,
        {
            let ghost before = playlist@;
            playlist.push((tracks[i].name.clone(), tracks[i].duration));
            assert(entries(playlist@) =~= entries(before).push(all[i as int]));
            assert(all.take(i + 1) =~= all.take(i as int).push(all[i as int]));
            i = i + 1;
        }
        assert(all.take(all.len() as int) =~= all);
        proof {
            assert(entries(playlist@).len() == playlist@.len());
            assert forall|i: int| 0 <= i < tracks@.len() implies {
                &&& (#[trigger] playlist@[i]).0@ == tracks@[i].name@
                &&& playlist@[i].1 == tracks@[i].duration
            } by {
                assert(entries(playlist@)[i] == all[i]);
            }
        }
        PlaybackState { playlist, track_index: 0, speed, bpm: None, paused: false, done: false }
    }

    /// Takes over where playback is.
    pub fn update(&mut self, player: &Player)
        ensures
            *final(self) == (PlaybackState {
                playlist: old(self).playlist,
                track_index: player@.cursor.n_track,
                speed: player@.cursor.speed,
                bpm: player@.cursor.bpm,
                paused: player@.cursor.phase == Phase::Paused,
                done: player@.cursor.phase == Phase::Done,
            }),
    {
        let c = player.cursor();
        self.track_index = c.n_track;
        self.speed = c.speed;
        self.bpm = c.bpm;
        self.paused = match c.phase {
            Phase::Paused => true,
            _ => false,
        };
        self.done = match c.phase {
            Phase::Done => true,
            _ => false,
        };
    }
}

/// The playlist has an entry for each track, in their order: its name and how long
/// it lasts.
pub proof fn playlist_holds_every_track(tracks: Seq<TrackModel>, i: int)
    requires
        0 <= i < tracks.len(),
    ensures
        entries_of(tracks).len() == tracks.len(),
        entries_of(tracks)[i].0 == tracks[i].name,
        entries_of(tracks)[i].1 == tracks[i].duration,
{
}

} // verus!
