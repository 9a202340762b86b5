//! MIDI events, and the sheets of `nodi` that hold them.

use nodi::Sheet;
use vstd::prelude::*;

verus! {

/// A MIDI channel message, by the bytes in which it goes to a synthesizer: the
/// status byte, which holds the kind of message and the channel, and the data
/// bytes. `second` is 0 in a message that has one data byte only.
#[derive(Clone, Copy, Debug, PartialEq, Eq, Structural)]
pub struct Message {
    pub status: u8,
    pub first: u8,
    pub second: u8,
}

impl Message {
    /// The channel that the message is for, counted from 0.
    pub open spec fn channel(self) -> int {
        self.status as int % 16
    }

    /// Whether the message is about one key: a note off, a note on or an
    /// aftertouch message. Its first data byte is then the key.
    pub open spec fn has_key(self) -> bool {
        8 <= self.status as int / 16 <= 10
    }
}

/// What can happen at one moment of a sheet.
#[derive(Clone, Copy, Debug, PartialEq, Eq, Structural)]
pub enum SheetEvent {
    /// From here on a beat lasts this many microseconds.
    Tempo(u32),
    /// Numerator, denominator, MIDI clocks per click, 32nd notes per quarter.
    TimeSignature(u8, u8, u8, u8),
    /// Sharps, or flats if negative; whether the scale is a minor one.
    KeySignature(i8, bool),
    /// A message for the synthesizer.
    Midi(Message),
}

/// The channel that percussion is on.
pub open spec fn drum_channel() -> int {
    9
}

/// What becomes of a message that is transposed by `shift` half notes: one
/// about a key moves to another key, or is gone if there is no such key. All
/// else stays as it is, and so does the drum channel unless `drums` is set.
pub open spec fn transposed_message(m: Message, shift: i8, drums: bool) -> Option<Message> {
    if shift == 0 || (!drums && m.channel() == drum_channel()) || !m.has_key() {
        Some(m)
    } else if 0 <= m.first + shift < 128 {
        Some(Message { first: (m.first + shift) as u8, ..m })
    } else {
        None
    }
}

/// What becomes of an event that is transposed. Only messages change.
pub open spec fn transposed_event(e: SheetEvent, shift: i8, drums: bool) -> Option<SheetEvent> {
    match e {
        SheetEvent::Midi(m) => match transposed_message(m, shift, drums) {
            Some(n) => Some(SheetEvent::Midi(n)),
            None => None,
        },
        _ => Some(e),
    }
}

/// The events of a moment, transposed, in their order.
pub open spec fn transposed_moment(events: Seq<SheetEvent>, shift: i8, drums: bool) -> Seq<SheetEvent> {
    events.filter_map(|e: SheetEvent| transposed_event(e, shift, drums))
}

/// The moments of a sheet, transposed one by one.
pub open spec fn transposed_moments(
    moments: Seq<Seq<SheetEvent>>,
    shift: i8,
    drums: bool,
) -> Seq<Seq<SheetEvent>> {
    moments.map_values(|events: Seq<SheetEvent>| transposed_moment(events, shift, drums))
}

/// The messages among `events`, in their order.
pub open spec fn messages(events: Seq<SheetEvent>) -> Seq<Message> {
    events.filter_map(
        |e: SheetEvent|
            match e {
                SheetEvent::Midi(m) => Some(m),
                _ => None,
            },
    )
}

/// The tempo changes among `events`, in their order.
pub open spec fn tempos(events: Seq<SheetEvent>) -> Seq<u32> {
    events.filter_map(
        |e: SheetEvent|
            match e {
                SheetEvent::Tempo(t) => Some(t),
                _ => None,
            },
    )
}

/// `nodi::Sheet`: the moments of a track, one for each tick.
#[verifier::external_type_specification]
#[verifier::external_body]
pub struct ExSheet(nodi::Sheet);

/// `nodi::Moment`: what happens at one tick. `nodi::Sheet` implements `Deref` with
/// a list of them as its target, so that Verus has to know the type.
#[verifier::external_type_specification]
#[verifier::external_body]
pub struct ExMoment(nodi::Moment);

/// `nodi::Event`: an item of a moment, known to Verus for the same reason:
/// `nodi::Moment` implements `Deref` with a list of them as its target.
#[verifier::external_type_specification]
#[verifier::external_body]
pub struct ExEvent(nodi::Event);

/// The moments that a sheet holds, each with its events in order. A MIDI event
/// stands there by the bytes that `nodi::MidiEvent::write` gives for it.
pub uninterp spec fn sheet_moments(sheet: nodi::Sheet) -> Seq<Seq<SheetEvent>>;

/// `nodi::Sheet::len`: the number of moments in the sheet.
pub assume_specification[ nodi::Sheet::len ](sheet: &nodi::Sheet) -> (n: usize)
    ensures
        n == sheet_moments(*sheet).len(),
;

/// `nodi::Sheet::transpose`: transposes each moment of the sheet by `shift`
/// half notes, percussion only if `transpose_ch9` is set. Notes that would
/// leave the range of MIDI keys are dropped.
pub assume_specification[ nodi::Sheet::transpose ](
    sheet: &mut nodi::Sheet,
    shift: i8,
    transpose_ch9: bool,
)
    ensures
        sheet_moments(*final(sheet)) == transposed_moments(
            sheet_moments(*old(sheet)),
            shift,
            transpose_ch9,
        ),
;

/// The length of `nodi::Moment::events`, for the moment that `nodi::Sheet`
/// gives at index `at`.
#[verifier::external_body]
pub(crate) fn moment_len(sheet: &Sheet, at: usize) -> (n: usize)
    requires
        at < sheet_moments(*sheet).len(),
    ensures
        n == sheet_moments(*sheet)[at as int].len(),
{
    sheet[at].events.len()
}

/// The event at index `n` of `nodi::Moment::events`, for the moment at index
/// `at` of the sheet. A MIDI event is turned into bytes by
/// `nodi::MidiEvent::write`, which writes two or three of them.
#[verifier::external_body]
pub(crate) fn event_at(sheet: &Sheet, at: usize, n: usize) -> (event: SheetEvent)
    requires
        at < sheet_moments(*sheet).len(),
        n < sheet_moments(*sheet)[at as int].len(),
    ensures
        event == sheet_moments(*sheet)[at as int][n as int],
{
    match sheet[at].events[n] {
        nodi::Event::Tempo(tempo) => SheetEvent::Tempo(tempo),
        nodi::Event::TimeSignature(a, b, c, d) => SheetEvent::TimeSignature(a, b, c, d),
        nodi::Event::KeySignature(sharps, minor) => SheetEvent::KeySignature(sharps, minor),
        nodi::Event::Midi(message) => {
            let mut raw: [u8; 3] = [0; 3];
            let _ = message.write(&mut raw.as_mut_slice());
            SheetEvent::Midi(Message { status: raw[0], first: raw[1], second: raw[2] })
        },
    }
}

/// Transposing leaves the tempo changes of a moment as they are, so that the
/// timing of a sheet stays the same.
pub proof fn transposing_keeps_tempos(events: Seq<SheetEvent>, shift: i8, drums: bool)
    ensures
        tempos(transposed_moment(events, shift, drums)) == tempos(events),
    decreases events.len(),
{
    let moved = transposed_moment(events, shift, drums);
    if events.len() > 0 {
        let rest = events.drop_last();
        transposing_keeps_tempos(rest, shift, drums);
        match transposed_event(events.last(), shift, drums) {
            Some(e) => {
                assert(moved == transposed_moment(rest, shift, drums) + seq![e]);
                assert(moved.drop_last() =~= transposed_moment(rest, shift, drums));
                assert(moved.last() == e);
            },
            None => {
                assert(moved == transposed_moment(rest, shift, drums));
            },
        }
    }
}

/// A sheet that is transposed by no half note at all is the sheet it was.
pub proof fn transposing_by_zero_changes_nothing(moments: Seq<Seq<SheetEvent>>, drums: bool)
    ensures
        transposed_moments(moments, 0, drums) == moments,
{
    assert forall|i: int| 0 <= i < moments.len() implies transposed_moment(
        moments[i],
        0,
        drums,
    ) == moments[i] by {
        moment_by_zero(moments[i], drums);
    }
    assert(transposed_moments(moments, 0, drums) =~= moments);
}

proof fn moment_by_zero(events: Seq<SheetEvent>, drums: bool)
    ensures
        transposed_moment(events, 0, drums) == events,
    decreases events.len(),
{
    if events.len() > 0 {
        moment_by_zero(events.drop_last(), drums);
        assert(transposed_event(events.last(), 0, drums) == Some(events.last()));
        assert(events.drop_last() + seq![events.last()] =~= events);
    }
}

/// What transposing keeps of a message: its channel, its kind, its second data
/// byte, and its key in the range of MIDI keys.
pub proof fn transposing_moves_keys_only(m: Message, shift: i8, drums: bool)
    requires
        m.first < 128,
    ensures
        match transposed_message(m, shift, drums) {
            Some(n) => n.status == m.status && n.second == m.second && n.first < 128,
            None => m.has_key() && !(0 <= m.first + shift < 128),
        },
        !drums && m.channel() == drum_channel() ==> transposed_message(m, shift, drums) == Some(m),
{
}

/// A message about a key moves by the shift, up or down, wherever that leads to a
/// key; elsewhere it is gone. No other message changes, and none on the drum
/// channel unless the drums are transposed, too.
pub proof fn every_key_moves_by_the_shift(m: Message, shift: i8, drums: bool)
    requires
        m.first < 128,
    ensures
        ({
            let now = transposed_message(m, shift, drums);
            let moves = 8 <= m.status / 16 <= 10 && (drums || m.status % 16 != 9);
            let key = m.first + shift;
            &&& !moves ==> now == Some(m)
            &&& moves && (key < 0 || key > 127) ==> now == None::<Message>
            &&& moves && 0 <= key <= 127 ==> {
                &&& now is Some
                &&& now->0.first == key
                &&& now->0.status == m.status
                &&& now->0.second == m.second
            }
        }),
{
}

/// The messages of a moment that is transposed are those of the moment, each of
/// them transposed, in their order.
pub proof fn every_message_is_transposed(events: Seq<SheetEvent>, shift: i8, drums: bool)
    ensures
        messages(transposed_moment(events, shift, drums)) == messages(events).filter_map(
            |m: Message| transposed_message(m, shift, drums),
        ),
    decreases events.len(),
{
    let f = |m: Message| transposed_message(m, shift, drums);
    let moved = transposed_moment(events, shift, drums);
    if events.len() == 0 {
        assert(messages(moved) =~= Seq::<Message>::empty());
        assert(messages(events) =~= Seq::<Message>::empty());
    } else {
        let rest = events.drop_last();
        every_message_is_transposed(rest, shift, drums);
        match transposed_event(events.last(), shift, drums) {
            Some(e) => {
                assert(moved == transposed_moment(rest, shift, drums) + seq![e]);
                assert(moved.drop_last() =~= transposed_moment(rest, shift, drums));
                assert(moved.last() == e);
            },
            None => {
                assert(moved == transposed_moment(rest, shift, drums));
            },
        }
        if let SheetEvent::Midi(m) = events.last() {
            assert(messages(events) == messages(rest) + seq![m]);
            assert(messages(events).drop_last() =~= messages(rest));
            assert(messages(events).last() == m);
        } else {
            assert(messages(events) == messages(rest));
        }
    }
}

/// A message that is moved and moved back is the one it was.
pub proof fn transposing_back_restores(m: Message, shift: i8, drums: bool)
    requires
        m.first < 128,
        shift > i8::MIN,
        transposed_message(m, shift, drums) is Some,
    ensures
        transposed_message(transposed_message(m, shift, drums)->0, (-shift) as i8, drums) == Some(m),
{
}

/// Of a sheet, every moment is transposed by itself, and none is lost.
pub proof fn every_moment_is_transposed(
    moments: Seq<Seq<SheetEvent>>,
    shift: i8,
    drums: bool,
    i: int,
)
    requires
        0 <= i < moments.len(),
    ensures
        transposed_moments(moments, shift, drums).len() == moments.len(),
        messages(transposed_moments(moments, shift, drums)[i]) == messages(moments[i]).filter_map(
            |m: Message| transposed_message(m, shift, drums),
        ),
        tempos(transposed_moments(moments, shift, drums)[i]) == tempos(moments[i]),
{
    every_message_is_transposed(moments[i], shift, drums);
    transposing_keeps_tempos(moments[i], shift, drums);
}

} // verus!
