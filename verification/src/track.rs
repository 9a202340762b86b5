//! Tracks, and the list of them that is to be played.

use crate::midi::{sheet_moments, transposed_moments, SheetEvent};
use nodi::Sheet;
use rand::seq::SliceRandom;
use vstd::prelude::*;

verus! {

/// A MIDI file that is ready to be played.
pub struct Track {
    /// What the track is called.
    pub name: String,
    /// How long it plays at normal speed, in nanoseconds.
    pub duration: u128,
    /// Ticks per beat.
    pub tpb: u16,
    /// What is played, tick by tick.
    pub sheet: Sheet,
}

/// What there is to know of a track.
pub struct TrackModel {
    pub name: Seq<char>,
    pub duration: nat,
    pub tpb: u16,
    pub moments: Seq<Seq<SheetEvent>>,
}

impl View for Track {
    type V = TrackModel;

    open spec fn view(&self) -> TrackModel {
        TrackModel {
            name: self.name@,
            duration: self.duration as nat,
            tpb: self.tpb,
            moments: sheet_moments(self.sheet),
        }
    }
}

/// The tracks of a list, in their order.
pub open spec fn models(tracks: Seq<Track>) -> Seq<TrackModel> {
    tracks.map_values(|t: Track| t@)
}

impl TrackModel {
    /// The track with its notes transposed, percussion aside.
    pub open spec fn transposed(self, shift: i8) -> TrackModel {
        TrackModel { moments: transposed_moments(self.moments, shift, false), ..self }
    }
}

/// Every track of a list, transposed.
pub open spec fn transposed_tracks(tracks: Seq<TrackModel>, shift: i8) -> Seq<TrackModel> {
    tracks.map_values(|t: TrackModel| t.transposed(shift))
}

/// Transposes every track by `shift` half notes, percussion aside.
pub fn transpose_tracks(tracks: &mut Vec<Track>, shift: i8)
    ensures
        models(final(tracks)@) == transposed_tracks(models(old(tracks)@), shift),
        final(tracks)@.len() == old(tracks)@.len(),
        forall|i: int|
            0 <= i < old(tracks)@.len() ==> {
                let was = old(tracks)@[i]@;
                let now = (#[trigger] final(tracks)@[i])@;
                &&& now.moments == transposed_moments(was.moments, shift, false)
                &&& now.name == was.name
                &&& now.duration == was.duration
                &&& now.tpb == was.tpb
            },
{
    let ghost before = models(tracks@);
    let mut i: usize = 0;
    while i < tracks.len()
        invariant
            i <= tracks@.len() == before.len(),
            forall|k: int| 0 <= k < i ==> #[trigger] tracks@[k]@ == before[k].transposed(shift),
            forall|k: int| i <= k < tracks@.len() ==> #[trigger] tracks@[k]@ == before[k],
        decreases tracks@.len() - i,
    {
        assert(tracks@[i as int]@ == before[i as int]);
        tracks[i].sheet.transpose(shift, false);
        assert(tracks@[i as int]@ == before[i as int].transposed(shift));
        i = i + 1;
    }
    assert(models(tracks@) =~= transposed_tracks(before, shift));
}

/// `rand::seq::SliceRandom::shuffle` with `rand::thread_rng`: puts the tracks
/// in another order. Which order is left to chance; no track is lost and none
/// is added.
#[verifier::external_body]
fn shuffle(tracks: &mut Vec<Track>)
    ensures
        final(tracks)@.to_multiset() == old(tracks)@.to_multiset(),
{
    tracks.shuffle(&mut rand::thread_rng());
}

/// Makes the loaded tracks ready to be played: transposed by `transpose` half
/// notes, and in an order left to chance if `shuffled` is set.
pub fn prepare_tracks(tracks: &mut Vec<Track>, transpose: i8, shuffled: bool)
    ensures
        models(final(tracks)@).to_multiset() == transposed_tracks(
            models(old(tracks)@),
            transpose,
        ).to_multiset(),
        !shuffled ==> models(final(tracks)@) == transposed_tracks(models(old(tracks)@), transpose),
        final(tracks)@.len() == old(tracks)@.len(),
        !shuffled ==> forall|i: int|
            0 <= i < old(tracks)@.len() ==> {
                let was = old(tracks)@[i]@;
                let now = (#[trigger] final(tracks)@[i])@;
                &&& now.moments == transposed_moments(was.moments, transpose, false)
                &&& now.name == was.name
                &&& now.duration == was.duration
                &&& now.tpb == was.tpb
            },
{
    transpose_tracks(tracks, transpose);
    if shuffled {
        let ghost ordered = tracks@;
        shuffle(tracks);
        proof {
            tracks@.to_multiset_ensures();
            ordered.to_multiset_ensures();
            same_models(tracks@, ordered);
        }
    }
}

proof fn same_models(a: Seq<Track>, b: Seq<Track>)
    requires
        a.to_multiset() == b.to_multiset(),
    ensures
        models(a).to_multiset() == models(b).to_multiset(),
    decreases a.len(),
{
    broadcast use vstd::seq_lib::group_to_multiset_ensures;

    a.to_multiset_ensures();
    b.to_multiset_ensures();
    if a.len() == 0 {
        assert(models(a) =~= models(b));
    } else {
        let end = a.len() - 1;
        assert(b.to_multiset().count(a[end]) > 0) by {
            assert(a.contains(a[end]));
        }
        let j = b.index_of(a[end]);
        assert(b.contains(a[end]));
        assert(a.remove(end).to_multiset() == b.remove(j).to_multiset());
        same_models(a.remove(end), b.remove(j));
        assert(models(a).remove(end) =~= models(a.remove(end)));
        assert(models(b).remove(j) =~= models(b.remove(j)));
        let x = a[end]@;
        assert(models(a)[end] == x && models(b)[j] == x);
        assert(models(a).contains(x) && models(b).contains(x));
        assert(models(a).to_multiset() =~= models(a).to_multiset().remove(x).insert(x));
        assert(models(b).to_multiset() =~= models(b).to_multiset().remove(x).insert(x));
    }
}

/// How many nanoseconds the tracks last in all, at normal speed.
pub open spec fn total_length(tracks: Seq<TrackModel>) -> nat
    decreases tracks.len(),
{
    if tracks.len() == 0 {
        0
    } else {
        total_length(tracks.drop_last()) + tracks.last().duration
    }
}

proof fn total_length_grows(tracks: Seq<TrackModel>, n: int)
    requires
        0 <= n <= tracks.len(),
    ensures
        total_length(tracks.take(n)) <= total_length(tracks),
    decreases tracks.len() - n,
{
    if n == tracks.len() {
        assert(tracks.take(n) =~= tracks);
    } else {
        total_length_grows(tracks, n + 1);
        assert(tracks.take(n + 1).drop_last() =~= tracks.take(n));
    }
}

/// The longest time that can be told, in nanoseconds: `u64::MAX` seconds and a
/// second but one nanosecond.
pub const LONGEST: u128 = 18_446_744_073_709_551_615_999_999_999;

/// The longest time that can be told, in microseconds.
pub const LONGEST_IN_MICROS: u128 = 18_446_744_073_709_551_615_999_999;

impl Track {
    /// Tells how long the track plays at normal speed, in whole microseconds, or
    /// nothing if that is longer than can be told.
    pub fn micros(&self) -> (micros: Option<u128>)
        ensures
            micros == if self.duration <= LONGEST {
                Some((self.duration / 1_000) as u128)
            } else {
                None
            },
    {
        if self.duration <= LONGEST {
            Some(self.duration / 1_000)
        } else {
            None
        }
    }
}

/// Adds up how long the tracks play at normal speed, in whole microseconds, or
/// tells nothing if that is longer than can be told.
pub fn total_micros(tracks: &Vec<Track>) -> (total: Option<u128>)
    ensures
        total == if total_length(models(tracks@)) <= LONGEST {
            Some((total_length(models(tracks@)) / 1_000) as u128)
        } else {
            None
        },
{
    let ghost all = models(tracks@);
    let mut total: u128 = 0;
    let mut i: usize = 0;
    assert(all.take(0) =~= Seq::empty());
    while i < tracks.len()
        invariant
            i <= tracks@.len(),
            all == models(tracks@),
            total == total_length(all.take(i as int)),
            total <= LONGEST,
        decreases tracks@.len() - i,
    {
        proof {
            total_length_grows(all, i + 1);
            assert(all.take(i + 1).drop_last() =~= all.take(i as int));
            assert(all.take(i + 1).last() == tracks@[i as int]@);
        }
        if tracks[i].duration > LONGEST - total {
            return None;
        }
        total = total + tracks[i].duration;
        i = i + 1;
    }
    assert(all.take(all.len() as int) =~= all);
    Some(total / 1_000)
}

/// No track lasts longer than all of them.
pub proof fn no_track_outlasts_the_list(tracks: Seq<TrackModel>, i: int)
    requires
        0 <= i < tracks.len(),
    ensures
        tracks[i].duration <= total_length(tracks),
{
    total_length_without(tracks, i);
}

proof fn total_length_without(tracks: Seq<TrackModel>, i: int)
    requires
        0 <= i < tracks.len(),
    ensures
        total_length(tracks) == total_length(tracks.remove(i)) + tracks[i].duration,
    decreases tracks.len(),
{
    let end = tracks.len() - 1;
    if i == end {
        assert(tracks.remove(i) =~= tracks.drop_last());
    } else {
        total_length_without(tracks.drop_last(), i);
        assert(tracks.remove(i).drop_last() =~= tracks.drop_last().remove(i));
        assert(tracks.remove(i).last() == tracks.last());
    }
}

/// In whatever order the tracks come, they last as long in all.
pub proof fn order_keeps_total_length(a: Seq<TrackModel>, b: Seq<TrackModel>)
    requires
        a.to_multiset() == b.to_multiset(),
    ensures
        total_length(a) == total_length(b),
    decreases a.len(),
{
    broadcast use vstd::seq_lib::group_to_multiset_ensures;

    a.to_multiset_ensures();
    b.to_multiset_ensures();
    if a.len() > 0 {
        let end = a.len() - 1;
        assert(a.contains(a[end]));
        assert(b.to_multiset().count(a[end]) > 0);
        let j = b.index_of(a[end]);
        assert(b.contains(a[end]));
        assert(a.remove(end) =~= a.drop_last());
        order_keeps_total_length(a.remove(end), b.remove(j));
        total_length_without(b, j);
    }
}

/// Transposing changes neither how many tracks there are nor what they are
/// called, nor how long they last.
pub proof fn transposing_keeps_the_list(tracks: Seq<TrackModel>, shift: i8)
    ensures
        transposed_tracks(tracks, shift).len() == tracks.len(),
        forall|i: int|
            0 <= i < tracks.len() ==> {
                let t = #[trigger] transposed_tracks(tracks, shift)[i];
                &&& t.name == tracks[i].name
                &&& t.duration == tracks[i].duration
                &&& t.tpb == tracks[i].tpb
                &&& t.moments.len() == tracks[i].moments.len()
            },
        total_length(transposed_tracks(tracks, shift)) == total_length(tracks),
    decreases tracks.len(),
{
    if tracks.len() > 0 {
        transposing_keeps_the_list(tracks.drop_last(), shift);
        assert(transposed_tracks(tracks, shift).drop_last() =~= transposed_tracks(
            tracks.drop_last(),
            shift,
        ));
    }
}

/// Every track of a list is transposed: its moments are, and its name, its
/// duration and its ticks per beat are what they were.
pub proof fn every_track_is_transposed(tracks: Seq<TrackModel>, shift: i8, i: int)
    requires
        0 <= i < tracks.len(),
    ensures
        ({
            let t = transposed_tracks(tracks, shift)[i];
            &&& transposed_tracks(tracks, shift).len() == tracks.len()
            &&& t.moments == transposed_moments(tracks[i].moments, shift, false)
            &&& t.name == tracks[i].name
            &&& t.duration == tracks[i].duration
            &&& t.tpb == tracks[i].tpb
        }),
{
}

/// A list lasts as long as its tracks do one after the other: nothing if there is
/// none, one track as long as that track, and two lists together as long as the
/// one and the other.
pub proof fn lengths_add_up(a: Seq<TrackModel>, b: Seq<TrackModel>, track: TrackModel)
    ensures
        total_length(Seq::empty()) == 0,
        total_length(seq![track]) == track.duration,
        total_length(a + b) == total_length(a) + total_length(b),
    decreases b.len(),
{
    assert(seq![track].drop_last() =~= Seq::<TrackModel>::empty());
    assert(total_length(seq![track].drop_last()) == 0);
    if b.len() == 0 {
        assert(a + b =~= a);
    } else {
        lengths_add_up(a, b.drop_last(), track);
        assert((a + b).drop_last() =~= a + b.drop_last());
    }
}

} // verus!
