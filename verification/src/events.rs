//! All events of a chart.

#[allow(unused_imports)]
use crate::bms::{
    BgaArgbObj, BgaKeyboundObj, BgaObj, BgaOpacityObj, BpmChangeObj, JudgeObj, LayerChanges,
    OptionObj, ScrollingFactorObj, SeekObj, SpeedObj, StopObj, TextObj, VolumeObj,
};
#[allow(unused_imports)]
use crate::bms::{lemma_next_on_channel, next_on_channel};
use crate::bms::{Bms, WavObj};
use crate::channel::{Key, KeyLayoutMapper, NoteKind, PlayerSide};
use crate::chart::AllEventsIndex;
use crate::event::{
    BgaLayer, BmpId, BmsEvent, ChartEvent, ChartEventId, PlayheadEvent, Seconds, YCoordinate,
};
use crate::note::{event_for_note_static, Lanes};
#[allow(unused_imports)]
use crate::event::WavId;
#[allow(unused_imports)]
use crate::note::{long_note_length, note_event};
use crate::num::{NonNegativeF64, PositiveF64};
#[allow(unused_imports)]
use crate::num::group_patterns;
#[allow(unused_imports)]
use crate::ordered::OrderKey;
use crate::ordered::OrderedMap;
use crate::position::ByPosition;
#[allow(unused_imports)]
use crate::position::{
    grouped, is_last_position, items_at, keys_of, lemma_grouped, lemma_grouped_push,
    lemma_item_at, lemma_items_in_order, lemma_placed_keys,
};
use crate::process::BmsProcessor;
#[allow(unused_imports)]
use crate::rounding::quotient_of;
use crate::sorting::sort_by_position;
#[allow(unused_imports)]
use crate::sorting::sorted;
use crate::time::{ObjTime, Track};
use crate::y_memo::{bpm_from_u8, nonzero_bpms, YMemo};
#[allow(unused_imports)]
use crate::y_memo::{bpm_of_u8, nonzero, Layout};
use vstd::prelude::*;

verus! {

/// The pattern of 48, the number of 192nd notes in a beat.
pub const PER_BEAT_BITS: u64 = 0x4048_0000_0000_0000;

/// The beats that a number of 192nd notes lasts.
pub open spec fn stop_beats(duration: NonNegativeF64) -> NonNegativeF64 {
    match quotient_of(duration@, PER_BEAT_BITS) {
        Some(bits) => NonNegativeF64::of(bits),
        None => NonNegativeF64::of(0),
    }
}

/// Convert STOP duration from 192nd-note units to beats.
///
/// `#STOPxx` value unit = 192nd note (1 value = 1/192 whole note = 1/48 beat, 4/4 time).
/// Matches beatoraja (`stop_ms = 1250 × value / bpm` ⇔ beat × 60 / bpm).
#[must_use]
pub fn convert_stop_duration_to_beats(duration_192nd: NonNegativeF64) -> (r: NonNegativeF64)
    ensures
        r == stop_beats(duration_192nd),
{
    broadcast use group_patterns;

    match duration_192nd.over(PositiveF64::from_bits(PER_BEAT_BITS).unwrap()) {
        Some(beats) => beats,
        None => NonNegativeF64::zero(),
    }
}

/// An event with its position and its position without spacing.
pub struct Found {
    /// The position.
    pub y: u64,
    /// The position without spacing.
    pub unspaced: u64,
    /// The event.
    pub event: ChartEvent,
}

/// An event at a time.
pub type Timed = (ObjTime, ChartEvent);

/// The event of a change to a defined tempo.
pub open spec fn bpm_event(e: (ObjTime, BpmChangeObj)) -> Timed {
    (e.1.time, ChartEvent::BpmChange { bpm: e.1.bpm })
}

/// The event of a change to a tempo given in place.
pub open spec fn bpm_u8_event(e: (ObjTime, u8)) -> Timed {
    (e.0, ChartEvent::BpmChange { bpm: bpm_of_u8(e.1) })
}

/// The event of a change of the scroll speed.
pub open spec fn scroll_event(e: (ObjTime, ScrollingFactorObj)) -> Timed {
    (e.1.time, ChartEvent::ScrollChange { factor: e.1.factor })
}

/// The event of a change of the spacing.
pub open spec fn speed_event(e: (ObjTime, SpeedObj)) -> Timed {
    (e.1.time, ChartEvent::SpeedChange { factor: e.1.factor })
}

/// The event of a stop.
pub open spec fn stop_event(e: (ObjTime, StopObj)) -> Timed {
    (e.1.time, ChartEvent::Stop { duration: stop_beats(e.1.duration) })
}

/// The event of a change of the background animation.
pub open spec fn bga_event(e: (ObjTime, BgaObj)) -> Timed {
    (
        e.1.time,
        ChartEvent::BgaChange { layer: e.1.layer, bmp_id: Some(BmpId(e.1.id.0 as usize)) },
    )
}

/// The event of a change of the opacity of a layer.
pub open spec fn opacity_event(layer: BgaLayer, e: (ObjTime, BgaOpacityObj)) -> Timed {
    (e.1.time, ChartEvent::Bms(BmsEvent::BgaOpacityChange { layer, opacity: e.1.opacity }))
}

/// The event of a change of the colour of a layer.
pub open spec fn argb_event(layer: BgaLayer, e: (ObjTime, BgaArgbObj)) -> Timed {
    (e.1.time, ChartEvent::Bms(BmsEvent::BgaArgbChange { layer, argb: e.1.argb }))
}

/// The event of a change of the volume of the background music.
pub open spec fn bgm_volume_event(e: (ObjTime, VolumeObj)) -> Timed {
    (e.1.time, ChartEvent::Bms(BmsEvent::BgmVolumeChange { volume: e.1.volume }))
}

/// The event of a change of the volume of the key sounds.
pub open spec fn key_volume_event(e: (ObjTime, VolumeObj)) -> Timed {
    (e.1.time, ChartEvent::Bms(BmsEvent::KeyVolumeChange { volume: e.1.volume }))
}

/// The event of a text.
pub open spec fn text_event(e: (ObjTime, TextObj)) -> Timed {
    (e.1.time, ChartEvent::Bms(BmsEvent::TextDisplay { text: e.1.text }))
}

/// The event of a change of the judge level.
pub open spec fn judge_event(e: (ObjTime, JudgeObj)) -> Timed {
    (e.1.time, ChartEvent::Bms(BmsEvent::JudgeLevelChange { level: e.1.judge_level }))
}

/// The event of a seek.
pub open spec fn seek_event(e: (ObjTime, SeekObj)) -> Timed {
    (e.1.time, ChartEvent::Bms(BmsEvent::VideoSeek { seek_time: e.1.position }))
}

/// The event of an animation that is bound to keys.
pub open spec fn keybound_event(e: (ObjTime, BgaKeyboundObj)) -> Timed {
    (e.1.time, ChartEvent::Bms(BmsEvent::BgaKeybound { event: e.1.event }))
}

/// The event of a change of an option.
pub open spec fn option_event(e: (ObjTime, OptionObj)) -> Timed {
    (e.1.time, ChartEvent::Bms(BmsEvent::OptionChange { option: e.1.option }))
}

/// An event that is found at a time.
pub open spec fn found_at(layout: Layout, time: ObjTime, event: ChartEvent) -> Found {
    Found { y: layout.y(time), unspaced: layout.unspaced().y(time), event }
}

/// The events of objects, each with its position.
pub open spec fn events_of<V>(
    layout: Layout,
    s: Seq<(ObjTime, V)>,
    event_of: spec_fn((ObjTime, V)) -> Timed,
) -> Seq<Found> {
    s.map_values(|e: (ObjTime, V)| found_at(layout, event_of(e).0, event_of(e).1))
}

/// The changes of the opacity of all layers.
pub open spec fn opacity_events(layout: Layout, changes: LayerChanges<BgaOpacityObj>) -> Seq<Found> {
    events_of(layout, changes.base@, |e| opacity_event(BgaLayer::Base, e)) + events_of(
        layout,
        changes.poor@,
        |e| opacity_event(BgaLayer::Poor, e),
    ) + events_of(layout, changes.overlay@, |e| opacity_event(BgaLayer::Overlay, e)) + events_of(
        layout,
        changes.overlay2@,
        |e| opacity_event(BgaLayer::Overlay2, e),
    )
}

/// The changes of the colour of all layers.
pub open spec fn argb_events(layout: Layout, changes: LayerChanges<BgaArgbObj>) -> Seq<Found> {
    events_of(layout, changes.base@, |e| argb_event(BgaLayer::Base, e)) + events_of(
        layout,
        changes.poor@,
        |e| argb_event(BgaLayer::Poor, e),
    ) + events_of(layout, changes.overlay@, |e| argb_event(BgaLayer::Overlay, e)) + events_of(
        layout,
        changes.overlay2@,
        |e| argb_event(BgaLayer::Overlay2, e),
    )
}

/// The notes, each with its position.
pub open spec fn placed_notes(layout: Layout, notes: Seq<WavObj>) -> Seq<(YCoordinate, WavObj)> {
    notes.map_values(|note: WavObj| (YCoordinate::of(layout.y(note.offset)), note))
}

/// The lane of a long note.
pub open spec fn long_lane(event: ChartEvent) -> Option<(PlayerSide, Key)> {
    match event {
        ChartEvent::Note { side, key, kind, .. } => if kind == NoteKind::Long {
            Some((side, key))
        } else {
            None
        },
        _ => None,
    }
}

/// The lanes on which a long note is open after notes. A long note opens its lane if it
/// has a length, and the next one on the lane closes it.
pub open spec fn open_lanes<T: KeyLayoutMapper>(
    bms: Bms,
    layout: Layout,
    s: Seq<(YCoordinate, WavObj)>,
) -> Set<(PlayerSide, Key)>
    decreases s.len(),
{
    if s.len() == 0 {
        Set::empty()
    } else {
        let open = open_lanes::<T>(bms, layout, s.drop_last());
        let event = note_event::<T>(bms, layout, s.last().1);
        match long_lane(event) {
            Some(lane) => if open.contains(lane) {
                open.remove(lane)
            } else if event->length is Some {
                open.insert(lane)
            } else {
                open
            },
            None => open,
        }
    }
}

/// Whether a note has no event: a long note that closes its lane, or that neither closes
/// it nor has another one to end at.
pub open spec fn is_silent<T: KeyLayoutMapper>(
    bms: Bms,
    layout: Layout,
    earlier: Seq<(YCoordinate, WavObj)>,
    note: WavObj,
) -> bool {
    let event = note_event::<T>(bms, layout, note);
    match long_lane(event) {
        Some(lane) => open_lanes::<T>(bms, layout, earlier).contains(lane)
            || event->length is None,
        None => false,
    }
}

/// The event of a placed note.
pub open spec fn found_note<T: KeyLayoutMapper>(
    bms: Bms,
    layout: Layout,
    note: (YCoordinate, WavObj),
) -> Found {
    Found {
        y: note.0@,
        unspaced: layout.unspaced().y(note.1.offset),
        event: note_event::<T>(bms, layout, note.1),
    }
}

/// The events of sorted notes. A note that closes a long note has none, and neither has
/// a long note without an end.
pub open spec fn note_events<T: KeyLayoutMapper>(
    bms: Bms,
    layout: Layout,
    s: Seq<(YCoordinate, WavObj)>,
) -> Seq<Found>
    decreases s.len(),
{
    if s.len() == 0 {
        Seq::empty()
    } else {
        let earlier = note_events::<T>(bms, layout, s.drop_last());
        if is_silent::<T>(bms, layout, s.drop_last(), s.last().1) {
            earlier
        } else {
            earlier.push(found_note::<T>(bms, layout, s.last()))
        }
    }
}

/// The events of all objects, in the order in which they are found. The changes of the
/// spacing are given apart.
pub open spec fn object_events<T: KeyLayoutMapper>(
    bms: Bms,
    layout: Layout,
    speeds: Seq<(ObjTime, SpeedObj)>,
) -> Seq<Found> {
    note_events::<T>(bms, layout, sorted(placed_notes(layout, bms.wav.notes@))) + events_of(
        layout,
        bms.bpm.bpm_changes@,
        |e| bpm_event(e),
    ) + events_of(layout, nonzero(bms.bpm.bpm_changes_u8@), |e| bpm_u8_event(e)) + events_of(
        layout,
        bms.scroll.scrolling_factor_changes@,
        |e| scroll_event(e),
    ) + events_of(layout, speeds, |e| speed_event(e)) + events_of(
        layout,
        bms.stop.stops@,
        |e| stop_event(e),
    ) + events_of(layout, bms.bmp.bga_changes@, |e| bga_event(e)) + opacity_events(
        layout,
        bms.bmp.bga_opacity_changes,
    ) + argb_events(layout, bms.bmp.bga_argb_changes) + events_of(
        layout,
        bms.volume.bgm_volume_changes@,
        |e| bgm_volume_event(e),
    ) + events_of(layout, bms.volume.key_volume_changes@, |e| key_volume_event(e)) + events_of(
        layout,
        bms.text.text_events@,
        |e| text_event(e),
    ) + events_of(layout, bms.judge.judge_events@, |e| judge_event(e)) + events_of(
        layout,
        bms.video.seek_events@,
        |e| seek_event(e),
    ) + events_of(layout, bms.bmp.bga_keybound_events@, |e| keybound_event(e)) + events_of(
        layout,
        bms.option.option_events@,
        |e| option_event(e),
    )
}

/// The last position of events.
pub open spec fn last_y(events: Seq<Found>) -> Option<u64>
    decreases events.len(),
{
    if events.len() == 0 {
        None
    } else {
        match last_y(events.drop_last()) {
            Some(y) => if y < events.last().y {
                Some(events.last().y)
            } else {
                Some(y)
            },
            None => Some(events.last().y),
        }
    }
}

/// The measure line of a track.
pub open spec fn bar_line(layout: Layout, track: Track) -> Found {
    Found {
        y: layout.start_y(track),
        unspaced: layout.unspaced().start_y(track),
        event: ChartEvent::BarLine,
    }
}

/// The measure lines of the first tracks, as far as they do not lie beyond a position.
pub open spec fn bar_lines(layout: Layout, tracks: nat, last: u64) -> Seq<Found>
    decreases tracks,
{
    if tracks == 0 {
        Seq::empty()
    } else {
        let earlier = bar_lines(layout, (tracks - 1) as nat, last);
        let line = bar_line(layout, Track((tracks - 1) as u64));
        if line.y <= last {
            earlier.push(line)
        } else {
            earlier
        }
    }
}

/// The number of tracks up to that of a last object.
pub open spec fn tracks_up_to(last: Option<ObjTime>) -> nat {
    match last {
        Some(time) => time.spec_track().0 as nat + 1,
        None => 1,
    }
}

/// Events together with the measure lines of the first tracks, but without them where
/// all events are at the start.
pub open spec fn with_bar_lines(layout: Layout, tracks: nat, events: Seq<Found>) -> Seq<Found> {
    match last_y(events) {
        Some(last) => if last == 0 {
            events
        } else {
            events + bar_lines(layout, tracks, last)
        },
        None => events,
    }
}

/// All events of a chart, with measure lines up to the last object.
pub open spec fn all_events<T: KeyLayoutMapper>(bms: Bms, layout: Layout) -> Seq<Found> {
    with_bar_lines(
        layout,
        tracks_up_to(bms.spec_last_obj_time()),
        object_events::<T>(bms, layout, bms.speed.speed_factor_changes@),
    )
}

/// All events of a chart as it would be without changes of the spacing.
pub open spec fn unspaced_events<T: KeyLayoutMapper>(bms: Bms, layout: Layout) -> Seq<Found> {
    with_bar_lines(
        layout.unspaced(),
        tracks_up_to(bms.spec_last_unspaced_time()),
        object_events::<T>(bms, layout.unspaced(), Seq::empty()),
    )
}

/// The points from which the events of a chart are timed: the positions that have events
/// in the chart without spacing.
pub open spec fn timing_points<T: KeyLayoutMapper>(bms: Bms, layout: Layout) -> Set<u64> {
    grouped(numbered(unspaced_events::<T>(bms, layout))).dom()
}

/// An event with its number and position, not yet timed.
pub open spec fn untimed(number: int, found: Found) -> PlayheadEvent {
    PlayheadEvent {
        id: ChartEventId(number as u128),
        position: YCoordinate::of(found.y),
        unspaced: YCoordinate::of(found.unspaced),
        event: found.event,
        activate_time: Seconds::Finite(NonNegativeF64::of(0)),
    }
}

/// The events numbered in the order in which they were found.
pub open spec fn numbered(events: Seq<Found>) -> Seq<(u64, PlayheadEvent)> {
    Seq::new(events.len(), |i: int| (events[i].y, untimed(i, events[i])))
}

/// The event of a change of the opacity of a layer.
fn make_opacity(layer: BgaLayer, e: &(ObjTime, BgaOpacityObj)) -> (r: Timed)
    ensures
        r == opacity_event(layer, *e),
{
    (e.1.time, ChartEvent::Bms(BmsEvent::BgaOpacityChange { layer, opacity: e.1.opacity }))
}

/// The event of a change of the opacity of the base layer.
fn make_base_opacity(e: &(ObjTime, BgaOpacityObj)) -> (r: Timed)
    ensures
        r == opacity_event(BgaLayer::Base, *e),
{
    make_opacity(BgaLayer::Base, e)
}

/// The event of a change of the opacity of the poor layer.
fn make_poor_opacity(e: &(ObjTime, BgaOpacityObj)) -> (r: Timed)
    ensures
        r == opacity_event(BgaLayer::Poor, *e),
{
    make_opacity(BgaLayer::Poor, e)
}

/// The event of a change of the opacity of the overlay.
fn make_overlay_opacity(e: &(ObjTime, BgaOpacityObj)) -> (r: Timed)
    ensures
        r == opacity_event(BgaLayer::Overlay, *e),
{
    make_opacity(BgaLayer::Overlay, e)
}

/// The event of a change of the opacity of the second overlay.
fn make_overlay2_opacity(e: &(ObjTime, BgaOpacityObj)) -> (r: Timed)
    ensures
        r == opacity_event(BgaLayer::Overlay2, *e),
{
    make_opacity(BgaLayer::Overlay2, e)
}

/// The event of a change of the colour of a layer.
fn make_argb(layer: BgaLayer, e: &(ObjTime, BgaArgbObj)) -> (r: Timed)
    ensures
        r == argb_event(layer, *e),
{
    (e.1.time, ChartEvent::Bms(BmsEvent::BgaArgbChange { layer, argb: e.1.argb }))
}

/// The event of a change of the colour of the base layer.
fn make_base_argb(e: &(ObjTime, BgaArgbObj)) -> (r: Timed)
    ensures
        r == argb_event(BgaLayer::Base, *e),
{
    make_argb(BgaLayer::Base, e)
}

/// The event of a change of the colour of the poor layer.
fn make_poor_argb(e: &(ObjTime, BgaArgbObj)) -> (r: Timed)
    ensures
        r == argb_event(BgaLayer::Poor, *e),
{
    make_argb(BgaLayer::Poor, e)
}

/// The event of a change of the colour of the overlay.
fn make_overlay_argb(e: &(ObjTime, BgaArgbObj)) -> (r: Timed)
    ensures
        r == argb_event(BgaLayer::Overlay, *e),
{
    make_argb(BgaLayer::Overlay, e)
}

/// The event of a change of the colour of the second overlay.
fn make_overlay2_argb(e: &(ObjTime, BgaArgbObj)) -> (r: Timed)
    ensures
        r == argb_event(BgaLayer::Overlay2, *e),
{
    make_argb(BgaLayer::Overlay2, e)
}

/// The event of a change to a defined tempo.
fn make_bpm(e: &(ObjTime, BpmChangeObj)) -> (r: Timed)
    ensures
        r == bpm_event(*e),
{
    (e.1.time, ChartEvent::BpmChange { bpm: e.1.bpm })
}

/// The event of a change to a tempo given in place.
fn make_bpm_u8(e: &(ObjTime, u8)) -> (r: Timed)
    ensures
        r == bpm_u8_event(*e),
{
    (e.0, ChartEvent::BpmChange { bpm: bpm_from_u8(e.1) })
}

/// The event of a change of the scroll speed.
fn make_scroll(e: &(ObjTime, ScrollingFactorObj)) -> (r: Timed)
    ensures
        r == scroll_event(*e),
{
    (e.1.time, ChartEvent::ScrollChange { factor: e.1.factor })
}

/// The event of a change of the spacing.
fn make_speed(e: &(ObjTime, SpeedObj)) -> (r: Timed)
    ensures
        r == speed_event(*e),
{
    (e.1.time, ChartEvent::SpeedChange { factor: e.1.factor })
}

/// The event of a stop.
fn make_stop(e: &(ObjTime, StopObj)) -> (r: Timed)
    ensures
        r == stop_event(*e),
{
    (
        e.1.time,
        ChartEvent::Stop { duration: convert_stop_duration_to_beats(e.1.duration) },
    )
}

/// The event of a change of the background animation.
fn make_bga(e: &(ObjTime, BgaObj)) -> (r: Timed)
    ensures
        r == bga_event(*e),
{
    (
        e.1.time,
        ChartEvent::BgaChange {
            layer: e.1.layer,
            bmp_id: Some(BmpId(e.1.id.0 as usize)),
        },
    )
}

/// The event of a change of the volume of the background music.
fn make_bgm_volume(e: &(ObjTime, VolumeObj)) -> (r: Timed)
    ensures
        r == bgm_volume_event(*e),
{
    (
        e.1.time,
        ChartEvent::Bms(BmsEvent::BgmVolumeChange { volume: e.1.volume }),
    )
}

/// The event of a change of the volume of the key sounds.
fn make_key_volume(e: &(ObjTime, VolumeObj)) -> (r: Timed)
    ensures
        r == key_volume_event(*e),
{
    (
        e.1.time,
        ChartEvent::Bms(BmsEvent::KeyVolumeChange { volume: e.1.volume }),
    )
}

/// The event of a text.
fn make_text(e: &(ObjTime, TextObj)) -> (r: Timed)
    ensures
        r == text_event(*e),
{
    (
        e.1.time,
        ChartEvent::Bms(BmsEvent::TextDisplay { text: e.1.text.clone() }),
    )
}

/// The event of a change of the judge level.
fn make_judge(e: &(ObjTime, JudgeObj)) -> (r: Timed)
    ensures
        r == judge_event(*e),
{
    (
        e.1.time,
        ChartEvent::Bms(BmsEvent::JudgeLevelChange { level: e.1.judge_level }),
    )
}

/// The event of a seek.
fn make_seek(e: &(ObjTime, SeekObj)) -> (r: Timed)
    ensures
        r == seek_event(*e),
{
    (
        e.1.time,
        ChartEvent::Bms(BmsEvent::VideoSeek { seek_time: e.1.position }),
    )
}

/// The event of an animation that is bound to keys.
fn make_keybound(e: &(ObjTime, BgaKeyboundObj)) -> (r: Timed)
    ensures
        r == keybound_event(*e),
{
    (
        e.1.time,
        ChartEvent::Bms(BmsEvent::BgaKeybound { event: e.1.event.clone() }),
    )
}

/// The event of a change of an option.
fn make_option(e: &(ObjTime, OptionObj)) -> (r: Timed)
    ensures
        r == option_event(*e),
{
    (
        e.1.time,
        ChartEvent::Bms(BmsEvent::OptionChange { option: e.1.option.clone() }),
    )
}

/// Events in the making.
pub struct EventList {
    events: ByPosition<PlayheadEvent>,
    next_id: u128,
    found: Ghost<Seq<Found>>,
}

/// The largest number of events that one kind of object can have.
pub const MOST: u128 = 0x1_0000_0000_0000_0000;

impl View for EventList {
    type V = Seq<Found>;

    closed spec fn view(&self) -> Seq<Found> {
        self.found@
    }
}

impl EventList {
    #[verifier::type_invariant]
    spec fn inv(self) -> bool {
        &&& self.next_id == self.found@.len()
        &&& self.events@ == grouped(numbered(self.found@))
    }

    /// No events.
    pub fn new() -> (r: Self)
        ensures
            r@ == Seq::<Found>::empty(),
    {
        let events: ByPosition<PlayheadEvent> = ByPosition::new();
        assert(events@ =~= grouped(numbered(Seq::empty())));
        EventList { events, next_id: 0, found: Ghost(Seq::empty()) }
    }

    /// The events by position.
    pub fn events(&self) -> (r: &ByPosition<PlayheadEvent>)
        ensures
            r@ == grouped(numbered(self@)),
    {
        proof {
            use_type_invariant(self);
        }
        &self.events
    }

    /// Adds an event at a position, and at a position without spacing.
    pub fn push(&mut self, y: YCoordinate, unspaced: YCoordinate, event: ChartEvent)
        requires
            old(self)@.len() < u128::MAX,
        ensures
            final(self)@ == old(self)@.push(Found { y: y@, unspaced: unspaced@, event }),
    {
        broadcast use group_patterns;

        proof {
            use_type_invariant(&*self);
        }
        let ghost found = self.found@;
        let ghost after = found.push(Found { y: y@, unspaced: unspaced@, event });
        let mut fresh = EventList::new();
        std::mem::swap(self, &mut fresh);
        let EventList { events: taken, next_id, found: _ } = fresh;
        let mut events = taken;
        let item = PlayheadEvent {
            id: ChartEventId(next_id),
            position: y,
            unspaced,
            event,
            activate_time: Seconds::Finite(NonNegativeF64::zero()),
        };
        proof {
            lemma_grouped_push(numbered(found), y@, item);
            assert(numbered(after) =~= numbered(found).push((y@, item)));
        }
        events.push(y, item);
        *self = EventList { events, next_id: next_id + 1, found: Ghost(after) };
    }

    /// Adds the events of objects.
    fn extend<V, F: Fn(&(ObjTime, V)) -> Timed>(
        &mut self,
        y_memo: &YMemo,
        changes: &OrderedMap<ObjTime, V>,
        make: F,
        Ghost(event_of): Ghost<spec_fn((ObjTime, V)) -> Timed>,
    )
        requires
            old(self)@.len() <= u128::MAX - MOST,
            forall|e: &(ObjTime, V)| #[trigger] call_requires(make, (e,)),
            forall|e: &(ObjTime, V), r: Timed| #[trigger]
                call_ensures(make, (e,), r) ==> r == event_of(*e),
        ensures
            final(self)@ == old(self)@ + events_of(y_memo.layout(), changes@, event_of),
            final(self)@.len() <= old(self)@.len() + MOST,
    {
        let entries = changes.entries();
        let ghost layout = y_memo.layout();
        let ghost s = changes@;
        let ghost before = self@;
        let mut i: usize = 0;
        assert(before + events_of(layout, s.take(0), event_of) =~= before);
        while i < entries.len()
            invariant
                entries@ == s,
                layout == y_memo.layout(),
                i <= entries@.len(),
                before.len() <= u128::MAX - MOST,
                self@ == before + events_of(layout, s.take(i as int), event_of),
                forall|e: &(ObjTime, V)| #[trigger] call_requires(make, (e,)),
                forall|e: &(ObjTime, V), r: Timed| #[trigger]
                    call_ensures(make, (e,), r) ==> r == event_of(*e),
            decreases entries@.len() - i,
        {
            let (time, event) = make(&entries[i]);
            let y = y_memo.get_y(time);
            let unspaced = y_memo.get_unspaced_y(time);
            self.push(y, unspaced, event);
            assert(self@ =~= before + events_of(layout, s.take(i + 1), event_of));
            i = i + 1;
        }
        assert(s.take(i as int) =~= s);
    }

    /// Adds the changes of the opacity of all layers.
    fn extend_opacity(&mut self, y_memo: &YMemo, changes: &LayerChanges<BgaOpacityObj>)
        requires
            old(self)@.len() <= u128::MAX - 4 * MOST,
        ensures
            final(self)@ == old(self)@ + opacity_events(y_memo.layout(), *changes),
            final(self)@.len() <= old(self)@.len() + 4 * MOST,
    {
        let ghost before = self@;
        self.extend(
            y_memo,
            &changes.base,
            make_base_opacity,
            Ghost(|e| opacity_event(BgaLayer::Base, e)),
        );
        self.extend(
            y_memo,
            &changes.poor,
            make_poor_opacity,
            Ghost(|e| opacity_event(BgaLayer::Poor, e)),
        );
        self.extend(
            y_memo,
            &changes.overlay,
            make_overlay_opacity,
            Ghost(|e| opacity_event(BgaLayer::Overlay, e)),
        );
        self.extend(
            y_memo,
            &changes.overlay2,
            make_overlay2_opacity,
            Ghost(|e| opacity_event(BgaLayer::Overlay2, e)),
        );
        assert(self@ =~= before + opacity_events(y_memo.layout(), *changes));
    }

    /// Adds the changes of the colour of all layers.
    fn extend_argb(&mut self, y_memo: &YMemo, changes: &LayerChanges<BgaArgbObj>)
        requires
            old(self)@.len() <= u128::MAX - 4 * MOST,
        ensures
            final(self)@ == old(self)@ + argb_events(y_memo.layout(), *changes),
            final(self)@.len() <= old(self)@.len() + 4 * MOST,
    {
        let ghost before = self@;
        self.extend(
            y_memo,
            &changes.base,
            make_base_argb,
            Ghost(|e| argb_event(BgaLayer::Base, e)),
        );
        self.extend(
            y_memo,
            &changes.poor,
            make_poor_argb,
            Ghost(|e| argb_event(BgaLayer::Poor, e)),
        );
        self.extend(
            y_memo,
            &changes.overlay,
            make_overlay_argb,
            Ghost(|e| argb_event(BgaLayer::Overlay, e)),
        );
        self.extend(
            y_memo,
            &changes.overlay2,
            make_overlay2_argb,
            Ghost(|e| argb_event(BgaLayer::Overlay2, e)),
        );
        assert(self@ =~= before + argb_events(y_memo.layout(), *changes));
    }
}

/// The notes, each with its position.
fn place_notes(y_memo: &YMemo, notes: &Vec<WavObj>) -> (r: Vec<(YCoordinate, WavObj)>)
    ensures
        r@ == placed_notes(y_memo.layout(), notes@),
{
    broadcast use group_patterns;

    let mut r: Vec<(YCoordinate, WavObj)> = Vec::new();
    let mut i: usize = 0;
    while i < notes.len()
        invariant
            i <= notes@.len(),
            r@ == placed_notes(y_memo.layout(), notes@.take(i as int)),
        decreases notes@.len() - i,
    {
        broadcast use group_patterns;

        let note = notes[i];
        let y = y_memo.get_y(note.offset);
        r.push((y, note));
        assert(r@ =~= placed_notes(y_memo.layout(), notes@.take(i + 1)));
        i = i + 1;
    }
    assert(notes@.take(i as int) =~= notes@);
    r
}

/// Adds the events of sorted notes.
///
/// A long note is given by two notes on its lane: the first starts it and has its
/// length, the second ends it. Only the first becomes an event. One that has no other to
/// end at is no playable note and is left out.
fn add_note_events<T: KeyLayoutMapper>(
    bms: &Bms,
    y_memo: &YMemo,
    notes: &Vec<(YCoordinate, WavObj)>,
    list: &mut EventList,
)
    requires
        old(list)@.len() <= u128::MAX - MOST,
    ensures
        final(list)@ == old(list)@ + note_events::<T>(*bms, y_memo.layout(), notes@),
        final(list)@.len() <= old(list)@.len() + MOST,
{
    let ghost layout = y_memo.layout();
    let ghost s = notes@;
    let ghost before = list@;
    let mut started = Lanes::new();
    let mut i: usize = 0;
    assert(before + note_events::<T>(*bms, layout, s.take(0)) =~= before);
    while i < notes.len()
        invariant
            notes@ == s,
            layout == y_memo.layout(),
            i <= notes@.len(),
            before.len() <= u128::MAX - MOST,
            started@ == open_lanes::<T>(*bms, layout, s.take(i as int)),
            list@ == before + note_events::<T>(*bms, layout, s.take(i as int)),
            list@.len() <= before.len() + i,
        decreases notes@.len() - i,
    {
        let (y, obj) = notes[i];
        let event = event_for_note_static::<T>(bms, y_memo, &obj);
        proof {
            assert(s.take(i + 1).drop_last() =~= s.take(i as int));
            assert(s.take(i + 1).last() == s[i as int]);
            let earlier = note_events::<T>(*bms, layout, s.take(i as int));
            let found = found_note::<T>(*bms, layout, s[i as int]);
            assert(before + earlier.push(found) =~= (before + earlier).push(found));
        }
        let unspaced = y_memo.get_unspaced_y(obj.offset);
        i = i + 1;
        if let ChartEvent::Note { side, key, kind, length, .. } = &event {
            if *kind == NoteKind::Long {
                if started.remove(*side, *key) {
                    continue;
                }
                proof {
                    let lane = (*side, *key);
                    let open = open_lanes::<T>(*bms, layout, s.take(i - 1));
                    assert(open.remove(lane) =~= open);
                }
                if length.is_none() {
                    continue;
                }
                started.insert(*side, *key);
            }
        }
        list.push(y, unspaced, event);
    }
    assert(s.take(i as int) =~= s);
}

/// The last position of events is the greatest of theirs.
pub proof fn lemma_last_y(events: Seq<Found>)
    ensures
        match last_y(events) {
            Some(last) => {
                &&& exists|i: int| 0 <= i < events.len() && (#[trigger] events[i]).y == last
                &&& forall|i: int| 0 <= i < events.len() ==> (#[trigger] events[i]).y <= last
            },
            None => events.len() == 0,
        },
    decreases events.len(),
{
    if events.len() > 0 {
        let front = events.drop_last();
        lemma_last_y(front);
        let last = last_y(events)->0;
        if last_y(front) == Some(last) {
            let i = choose|i: int| 0 <= i < front.len() && (#[trigger] front[i]).y == last;
            assert(events[i].y == last);
        } else {
            assert(events[events.len() - 1].y == last);
        }
        assert forall|i: int| 0 <= i < events.len() implies (#[trigger] events[i]).y <= last by {
            if i < front.len() {
                assert(front[i].y <= last_y(front)->0);
            }
        }
    }
}

/// The last position of the lists is the last position of the events.
proof fn lemma_last_position(events: Seq<Found>, last: Option<YCoordinate>)
    requires
        is_last_position(grouped(numbered(events)), last),
    ensures
        last_y(events) == match last {
            Some(y) => Some(y@),
            None => None::<u64>,
        },
{
    let items = numbered(events);
    lemma_last_y(events);
    match last_y(events) {
        Some(y) => {
            let i = choose|i: int| 0 <= i < events.len() && (#[trigger] events[i]).y == y;
            assert(items[i].0 == y);
            lemma_grouped(items, y);
            assert(last is Some);
            lemma_grouped(items, last->0@);
            let j = choose|j: int| 0 <= j < items.len() && (#[trigger] items[j]).0 == last->0@;
            assert(events[j].y <= y);
        },
        None => {
            if last is Some {
                lemma_grouped(items, last->0@);
            }
        },
    }
}

/// Measure lines never lie beyond the other events: they leave the last position as it
/// is.
pub proof fn lemma_bar_lines_within(layout: Layout, tracks: nat, events: Seq<Found>)
    requires
        tracks <= u64::MAX + 1,
    ensures
        last_y(with_bar_lines(layout, tracks, events)) == last_y(events),
{
    if let Some(last) = last_y(events) {
        if last != 0 {
            let lines = bar_lines(layout, tracks, last);
            lemma_bar_lines(layout, tracks, last);
            lemma_last_y(events);
            lemma_last_y(events + lines);
            let all = events + lines;
            let i = choose|i: int| 0 <= i < events.len() && (#[trigger] events[i]).y == last;
            assert(all[i].y == last);
            let j = choose|j: int| 0 <= j < all.len() && (#[trigger] all[j]).y == last_y(all)->0;
            if j >= events.len() {
                assert(all[j] == lines[j - events.len()]);
            } else {
                assert(all[j] == events[j]);
            }
        }
    }
}

/// All measure lines are measure lines.
pub proof fn lemma_only_lines(layout: Layout, tracks: nat, last: u64, i: int)
    requires
        0 <= i < bar_lines(layout, tracks, last).len(),
    ensures
        bar_lines(layout, tracks, last)[i].event is BarLine,
    decreases tracks,
{
    if i < bar_lines(layout, (tracks - 1) as nat, last).len() {
        lemma_only_lines(layout, (tracks - 1) as nat, last, i);
    }
}

/// The measure lines: each is that of one of the tracks and does not lie beyond the given
/// position, and each track that starts no later than that has one.
pub proof fn lemma_bar_lines(layout: Layout, tracks: nat, last: u64)
    requires
        tracks <= u64::MAX + 1,
    ensures
        forall|i: int|
            0 <= i < bar_lines(layout, tracks, last).len() ==> {
                &&& (#[trigger] bar_lines(layout, tracks, last)[i]).y <= last
                &&& exists|track: u64|
                    track < tracks && #[trigger] bar_line(layout, Track(track)) == bar_lines(
                        layout,
                        tracks,
                        last,
                    )[i]
            },
        forall|track: u64|
            track < tracks && (#[trigger] bar_line(layout, Track(track))).y <= last ==> bar_lines(
                layout,
                tracks,
                last,
            ).contains(bar_line(layout, Track(track))),
    decreases tracks,
{
    if tracks > 0 {
        let before = (tracks - 1) as nat;
        let earlier = bar_lines(layout, before, last);
        let lines = bar_lines(layout, tracks, last);
        let new = before as u64;
        lemma_bar_lines(layout, before, last);
        assert forall|i: int| 0 <= i < lines.len() implies {
            &&& (#[trigger] lines[i]).y <= last
            &&& exists|track: u64|
                track < tracks && #[trigger] bar_line(layout, Track(track)) == lines[i]
        } by {
            if i < earlier.len() {
                assert(lines[i] == earlier[i]);
                let track = choose|track: u64|
                    track < before && #[trigger] bar_line(layout, Track(track)) == earlier[i];
                assert(bar_line(layout, Track(track)) == lines[i]);
            } else {
                assert(bar_line(layout, Track(new)) == lines[i]);
            }
        }
        assert forall|track: u64|
            track < tracks && (#[trigger] bar_line(layout, Track(track))).y
                <= last implies lines.contains(bar_line(layout, Track(track))) by {
            let line = bar_line(layout, Track(track));
            if track == new {
                assert(lines[lines.len() - 1] == line);
            } else {
                assert(earlier.contains(line));
                let i = choose|i: int| 0 <= i < earlier.len() && earlier[i] == line;
                assert(lines[i] == line);
            }
        }
    }
}

/// Whether a note is a long note of a lane.
pub open spec fn is_long_on<T: KeyLayoutMapper>(
    bms: Bms,
    layout: Layout,
    note: WavObj,
    lane: (PlayerSide, Key),
) -> bool {
    long_lane(note_event::<T>(bms, layout, note)) == Some(lane)
}

/// Notes that are no long notes of a lane neither open nor close it.
proof fn lemma_lane_unchanged<T: KeyLayoutMapper>(
    bms: Bms,
    layout: Layout,
    s: Seq<(YCoordinate, WavObj)>,
    between: Seq<(YCoordinate, WavObj)>,
    lane: (PlayerSide, Key),
)
    requires
        forall|i: int|
            0 <= i < between.len() ==> !is_long_on::<T>(
                bms,
                layout,
                (#[trigger] between[i]).1,
                lane,
            ),
    ensures
        open_lanes::<T>(bms, layout, s + between).contains(lane) == open_lanes::<T>(
            bms,
            layout,
            s,
        ).contains(lane),
    decreases between.len(),
{
    if between.len() == 0 {
        assert(s + between =~= s);
    } else {
        let front = between.drop_last();
        lemma_lane_unchanged::<T>(bms, layout, s, front, lane);
        assert((s + between).drop_last() =~= s + front);
        assert((s + between).last() == between[between.len() - 1]);
    }
}

/// Each long note becomes one event. Of two long notes on a lane, the first of which
/// starts with the lane closed and has a length, and between which there is no other on
/// the lane, the first has an event with that length and the second has none; after
/// both the lane is closed again.
pub proof fn lemma_long_note<T: KeyLayoutMapper>(
    bms: Bms,
    layout: Layout,
    s: Seq<(YCoordinate, WavObj)>,
    start: (YCoordinate, WavObj),
    between: Seq<(YCoordinate, WavObj)>,
    end: (YCoordinate, WavObj),
    lane: (PlayerSide, Key),
)
    requires
        !open_lanes::<T>(bms, layout, s).contains(lane),
        is_long_on::<T>(bms, layout, start.1, lane),
        long_note_length(bms, layout, start.1) is Some,
        is_long_on::<T>(bms, layout, end.1, lane),
        forall|i: int|
            0 <= i < between.len() ==> !is_long_on::<T>(
                bms,
                layout,
                (#[trigger] between[i]).1,
                lane,
            ),
    ensures
        note_events::<T>(bms, layout, s.push(start)) == note_events::<T>(bms, layout, s).push(
            found_note::<T>(bms, layout, start),
        ),
        note_event::<T>(bms, layout, start.1)->length == long_note_length(bms, layout, start.1),
        note_events::<T>(bms, layout, (s.push(start) + between).push(end)) == note_events::<T>(
            bms,
            layout,
            s.push(start) + between,
        ),
        !open_lanes::<T>(bms, layout, (s.push(start) + between).push(end)).contains(lane),
{
    let started = s.push(start);
    let before_end = started + between;
    assert(started.drop_last() =~= s);
    assert(open_lanes::<T>(bms, layout, started).contains(lane));
    lemma_lane_unchanged::<T>(bms, layout, started, between, lane);
    assert(before_end.push(end).drop_last() =~= before_end);
}

/// A note that is no long note always has an event.
pub proof fn lemma_other_note<T: KeyLayoutMapper>(
    bms: Bms,
    layout: Layout,
    s: Seq<(YCoordinate, WavObj)>,
    note: (YCoordinate, WavObj),
)
    requires
        long_lane(note_event::<T>(bms, layout, note.1)) is None,
    ensures
        note_events::<T>(bms, layout, s.push(note)) == note_events::<T>(bms, layout, s).push(
            found_note::<T>(bms, layout, note),
        ),
{
    assert(s.push(note).drop_last() =~= s);
}

/// A long note that has no other to end at has no event where its lane is closed, and
/// leaves the lane closed.
pub proof fn lemma_lone_long_note<T: KeyLayoutMapper>(
    bms: Bms,
    layout: Layout,
    s: Seq<(YCoordinate, WavObj)>,
    note: (YCoordinate, WavObj),
    lane: (PlayerSide, Key),
)
    requires
        !open_lanes::<T>(bms, layout, s).contains(lane),
        is_long_on::<T>(bms, layout, note.1, lane),
        long_note_length(bms, layout, note.1) is None,
    ensures
        note_events::<T>(bms, layout, s.push(note)) == note_events::<T>(bms, layout, s),
        open_lanes::<T>(bms, layout, s.push(note)) == open_lanes::<T>(bms, layout, s),
{
    assert(s.push(note).drop_last() =~= s);
}

/// Every long note among the events has a length.
pub proof fn lemma_long_events<T: KeyLayoutMapper>(
    bms: Bms,
    layout: Layout,
    s: Seq<(YCoordinate, WavObj)>,
    i: int,
)
    requires
        0 <= i < note_events::<T>(bms, layout, s).len(),
        long_lane(note_events::<T>(bms, layout, s)[i].event) is Some,
    ensures
        note_events::<T>(bms, layout, s)[i].event->length is Some,
    decreases s.len(),
{
    if i < note_events::<T>(bms, layout, s.drop_last()).len() {
        lemma_long_events::<T>(bms, layout, s.drop_last(), i);
    }
}

/// Whether a note is one end of a long note on a lane.
pub open spec fn is_marker<T: KeyLayoutMapper>(note: WavObj, lane: (PlayerSide, Key)) -> bool {
    T::of_channel(note.channel_id) matches Some(l) && l.spec_kind() == NoteKind::Long
        && l.spec_side() == lane.0 && l.spec_key() == lane.1
}

/// Whether one of several notes has an event.
pub open spec fn is_heard<T: KeyLayoutMapper>(
    bms: Bms,
    layout: Layout,
    s: Seq<(YCoordinate, WavObj)>,
    k: int,
) -> bool {
    note_events::<T>(bms, layout, s.take(k + 1)).len() > note_events::<T>(
        bms,
        layout,
        s.take(k),
    ).len()
}

/// Whether another note comes after a note on its channel.
pub open spec fn has_next(bms: Bms, note: WavObj) -> bool {
    exists|m: int|
        0 <= m < bms.wav.notes@.len() && (#[trigger] bms.wav.notes@[m]).channel_id
            == note.channel_id && note.offset.below(bms.wav.notes@[m].offset)
}

/// A note is one end of a long note as its channel says, and has a length if another note
/// comes after it.
proof fn lemma_marker<T: KeyLayoutMapper>(
    bms: Bms,
    layout: Layout,
    note: WavObj,
    lane: (PlayerSide, Key),
)
    ensures
        is_long_on::<T>(bms, layout, note, lane) == is_marker::<T>(note, lane),
        is_marker::<T>(note, lane) ==> note_event::<T>(bms, layout, note)->length
            == long_note_length(bms, layout, note),
        long_note_length(bms, layout, note) is Some <==> has_next(bms, note),
{
    let notes = bms.wav.notes@;
    lemma_next_on_channel(notes, note.channel_id, note.offset);
    if next_on_channel(notes, note.channel_id, note.offset) is None && has_next(bms, note) {
        let m = choose|m: int|
            0 <= m < notes.len() && (#[trigger] notes[m]).channel_id == note.channel_id
                && note.offset.below(notes[m].offset);
        assert(!note.offset.below(notes[m].offset));
    }
}

/// After a note the lane of a long note is open if and only if its last marker has an
/// event.
proof fn lemma_lane_after<T: KeyLayoutMapper>(
    bms: Bms,
    layout: Layout,
    s: Seq<(YCoordinate, WavObj)>,
    i: int,
    j: int,
    lane: (PlayerSide, Key),
)
    requires
        0 <= i < j <= s.len(),
        is_marker::<T>(s[i].1, lane),
        forall|k: int| i < k < j ==> !is_marker::<T>((#[trigger] s[k]).1, lane),
    ensures
        open_lanes::<T>(bms, layout, s.take(j)).contains(lane) == is_heard::<T>(bms, layout, s, i),
{
    let upto = s.take(i + 1);
    lemma_marker::<T>(bms, layout, s[i].1, lane);
    assert(upto.drop_last() =~= s.take(i));
    assert(upto.last() == s[i]);
    let between = s.subrange(i + 1, j);
    assert forall|k: int| 0 <= k < between.len() implies !is_long_on::<T>(
        bms,
        layout,
        (#[trigger] between[k]).1,
        lane,
    ) by {
        assert(between[k] == s[i + 1 + k]);
        lemma_marker::<T>(bms, layout, between[k].1, lane);
    }
    lemma_lane_unchanged::<T>(bms, layout, upto, between, lane);
    assert(upto + between =~= s.take(j));
}

/// The markers of a lane start and end long notes in turn: of two that follow one another
/// on the lane, the second has no event if the first has one, and if the first has none,
/// the second has one where another note comes after it on its channel.
pub proof fn lemma_markers_alternate<T: KeyLayoutMapper>(
    bms: Bms,
    layout: Layout,
    s: Seq<(YCoordinate, WavObj)>,
    i: int,
    j: int,
    lane: (PlayerSide, Key),
)
    requires
        0 <= i < j < s.len(),
        is_marker::<T>(s[i].1, lane),
        is_marker::<T>(s[j].1, lane),
        forall|k: int| i < k < j ==> !is_marker::<T>((#[trigger] s[k]).1, lane),
    ensures
        is_heard::<T>(bms, layout, s, j) <==> !is_heard::<T>(bms, layout, s, i) && has_next(
            bms,
            s[j].1,
        ),
{
    lemma_lane_after::<T>(bms, layout, s, i, j, lane);
    lemma_marker::<T>(bms, layout, s[j].1, lane);
    assert(s.take(j + 1).drop_last() =~= s.take(j));
    assert(s.take(j + 1).last() == s[j]);
}

/// The first marker of a lane has an event where another note comes after it on its
/// channel.
pub proof fn lemma_first_marker<T: KeyLayoutMapper>(
    bms: Bms,
    layout: Layout,
    s: Seq<(YCoordinate, WavObj)>,
    j: int,
    lane: (PlayerSide, Key),
)
    requires
        0 <= j < s.len(),
        is_marker::<T>(s[j].1, lane),
        forall|k: int| 0 <= k < j ==> !is_marker::<T>((#[trigger] s[k]).1, lane),
    ensures
        is_heard::<T>(bms, layout, s, j) <==> has_next(bms, s[j].1),
{
    let before = s.take(j);
    assert forall|k: int| 0 <= k < before.len() implies !is_long_on::<T>(
        bms,
        layout,
        (#[trigger] before[k]).1,
        lane,
    ) by {
        assert(before[k] == s[k]);
        lemma_marker::<T>(bms, layout, before[k].1, lane);
    }
    lemma_lane_unchanged::<T>(bms, layout, Seq::empty(), before, lane);
    assert(Seq::<(YCoordinate, WavObj)>::empty() + before =~= before);
    lemma_marker::<T>(bms, layout, s[j].1, lane);
    assert(s.take(j + 1).drop_last() =~= before);
    assert(s.take(j + 1).last() == s[j]);
}

/// A note that has an event has one at its place: a sound of the background where its
/// channel is no lane, and else a note of that lane, with the sound of the note.
pub proof fn lemma_heard_note<T: KeyLayoutMapper>(
    bms: Bms,
    layout: Layout,
    s: Seq<(YCoordinate, WavObj)>,
    k: int,
)
    requires
        0 <= k < s.len(),
    ensures
        is_heard::<T>(bms, layout, s, k) ==> {
            let events = note_events::<T>(bms, layout, s.take(k + 1));
            let note = s[k].1;
            &&& events.drop_last() == note_events::<T>(bms, layout, s.take(k))
            &&& events.last().y == s[k].0@
            &&& events.last().unspaced == layout.unspaced().y(note.offset)
            &&& match T::of_channel(note.channel_id) {
                Some(l) => events.last().event matches ChartEvent::Note {
                    side,
                    key,
                    kind,
                    wav_id,
                    length,
                    continue_play,
                } && side == l.spec_side() && key == l.spec_key() && kind == l.spec_kind()
                    && wav_id == Some(WavId(note.wav_id.0 as usize)) && (length is Some <==> kind
                    == NoteKind::Long) && continue_play is None,
                None => events.last().event == (ChartEvent::Bgm {
                    wav_id: Some(WavId(note.wav_id.0 as usize)),
                }),
            }
        },
        !is_heard::<T>(bms, layout, s, k) ==> {
            &&& note_events::<T>(bms, layout, s.take(k + 1)) == note_events::<T>(
                bms,
                layout,
                s.take(k),
            )
            &&& T::of_channel(s[k].1.channel_id) matches Some(l) && l.spec_kind() == NoteKind::Long
        },
{
    let more = s.take(k + 1);
    assert(more.drop_last() =~= s.take(k));
    assert(more.last() == s[k]);
    let earlier = note_events::<T>(bms, layout, s.take(k));
    assert(earlier.push(found_note::<T>(bms, layout, s[k])).drop_last() =~= earlier);
}

/// The notes of two charts with the same notes become the same events.
proof fn lemma_same_notes<T: KeyLayoutMapper>(
    bms: Bms,
    other: Bms,
    layout: Layout,
    s: Seq<(YCoordinate, WavObj)>,
)
    requires
        bms.wav.notes@ == other.wav.notes@,
    ensures
        note_events::<T>(bms, layout, s) == note_events::<T>(other, layout, s),
        open_lanes::<T>(bms, layout, s) == open_lanes::<T>(other, layout, s),
    decreases s.len(),
{
    if s.len() > 0 {
        lemma_same_notes::<T>(bms, other, layout, s.drop_last());
    }
}

/// Two charts that differ in nothing but the changes of the spacing have the same events
/// without it.
pub proof fn lemma_respaced_points<T: KeyLayoutMapper>(bms: Bms, other: Bms, layout: Layout)
    requires
        layout == layout.unspaced(),
        other == (Bms { speed: other.speed, ..bms }),
    ensures
        unspaced_events::<T>(bms, layout) == unspaced_events::<T>(other, layout),
{
    lemma_same_notes::<T>(bms, other, layout, sorted(placed_notes(layout, bms.wav.notes@)));
}

/// Every event stands in the list of its own position, and is the one that was found
/// under its number.
pub proof fn lemma_listed(events: Seq<Found>, y: u64, i: int)
    requires
        grouped(numbered(events)).dom().contains(y),
        0 <= i < grouped(numbered(events))[y].len(),
    ensures
        grouped(numbered(events))[y][i].position@ == y,
        exists|k: int|
            0 <= k < events.len() && (#[trigger] events[k]).y == y && grouped(
                numbered(events),
            )[y][i] == untimed(k, events[k]),
{
    broadcast use group_patterns;

    let items = numbered(events);
    lemma_grouped(items, y);
    lemma_item_at(items, y, i);
    let k = choose|k: int|
        0 <= k < items.len() && (#[trigger] items[k]).0 == y && items[k].1 == items_at(
            items,
            y,
        )[i];
    assert(events[k].y == y);
}

/// No two events have the same number.
pub proof fn lemma_numbers_differ(events: Seq<Found>, y: u64, i: int, z: u64, j: int)
    requires
        events.len() <= u128::MAX,
        grouped(numbered(events)).dom().contains(y),
        0 <= i < grouped(numbered(events))[y].len(),
        grouped(numbered(events)).dom().contains(z),
        0 <= j < grouped(numbered(events))[z].len(),
        grouped(numbered(events))[y][i].id == grouped(numbered(events))[z][j].id,
    ensures
        y == z,
        i == j,
{
    let items = numbered(events);
    lemma_listed(events, y, i);
    lemma_listed(events, z, j);
    lemma_grouped(items, y);
    assert(y == z);
    if i != j {
        let (a, b) = if i < j {
            (i, j)
        } else {
            (j, i)
        };
        lemma_items_in_order(items, y, a, b);
        let (k, m) = choose|k: int, m: int|
            0 <= k < m < items.len() && (#[trigger] items[k]).1 == items_at(items, y)[a]
                && (#[trigger] items[m]).1 == items_at(items, y)[b];
        assert(items[k].1.id == ChartEventId(k as u128));
        assert(items[m].1.id == ChartEventId(m as u128));
    }
}

/// Adds the measure lines of the tracks up to a last one.
fn add_bar_lines(y_memo: &YMemo, last_track: u64, list: &mut EventList)
    requires
        old(list)@.len() <= u128::MAX - MOST,
    ensures
        final(list)@ == with_bar_lines(y_memo.layout(), last_track as nat + 1, old(list)@),
{
    let ghost events = list@;
    let ghost layout = y_memo.layout();
    let last_position = list.events().last_position();
    proof {
        lemma_last_position(events, last_position);
    }
    let max_y = match last_position {
        Some(y) => y,
        None => return,
    };
    if max_y.0.is_zero() {
        return;
    }
    let mut track: u64 = 0;
    assert(events + bar_lines(layout, 0, max_y@) =~= events);
    loop
        invariant_except_break
            layout == y_memo.layout(),
            track <= last_track,
            events.len() <= u128::MAX - MOST,
            list@ == events + bar_lines(layout, track as nat, max_y@),
            list@.len() <= events.len() + track,
        ensures
            list@ == events + bar_lines(layout, last_track as nat + 1, max_y@),
        decreases last_track - track,
    {
        let track_y = y_memo.get_section_start_y(Track(track));
        proof {
            let earlier = bar_lines(layout, track as nat, max_y@);
            let line = bar_line(layout, Track(track));
            assert(events + earlier.push(line) =~= (events + earlier).push(line));
            assert(bar_lines(layout, track as nat + 1, max_y@) == if track_y@ <= max_y@ {
                earlier.push(line)
            } else {
                earlier
            });
        }
        if !max_y.is_below(&track_y) {
            let unspaced = y_memo.get_unspaced_start_y(Track(track));
            list.push(track_y, unspaced, ChartEvent::BarLine);
        }
        if track == last_track {
            break;
        }
        track = track + 1;
    }
}

/// The track of a last object.
fn last_track(last: Option<ObjTime>) -> (r: u64)
    ensures
        r + 1 == tracks_up_to(last),
{
    match last {
        Some(time) => time.track().0,
        None => 0,
    }
}

impl BmsProcessor {
    /// Generate measure lines for BMS (generated for each track, but not exceeding other
    /// objects' Y values).
    pub fn generate_barlines_for_bms(bms: &Bms, y_memo: &YMemo, list: &mut EventList)
        requires
            old(list)@.len() <= u128::MAX - MOST,
        ensures
            final(list)@ == with_bar_lines(
                y_memo.layout(),
                tracks_up_to(bms.spec_last_obj_time()),
                old(list)@,
            ),
    {
        add_bar_lines(y_memo, last_track(bms.last_obj_time()), list);
    }
}

/// The events of all objects. The changes of the spacing are given apart.
fn find_object_events<T: KeyLayoutMapper>(
    bms: &Bms,
    y_memo: &YMemo,
    speeds: &OrderedMap<ObjTime, SpeedObj>,
) -> (r: EventList)
    ensures
        r@ == object_events::<T>(*bms, y_memo.layout(), speeds@),
        r@.len() <= u128::MAX - MOST,
{
    let notes = sort_by_position(place_notes(y_memo, bms.notes().all_notes()));
    let u8_changes = nonzero_bpms(&bms.bpm.bpm_changes_u8);
    let mut list = EventList::new();
    add_note_events::<T>(bms, y_memo, &notes, &mut list);
    list.extend(y_memo, &bms.bpm.bpm_changes, make_bpm, Ghost(|e| bpm_event(e)));
    list.extend(y_memo, &u8_changes, make_bpm_u8, Ghost(|e| bpm_u8_event(e)));
    list.extend(
        y_memo,
        &bms.scroll.scrolling_factor_changes,
        make_scroll,
        Ghost(|e| scroll_event(e)),
    );
    list.extend(y_memo, speeds, make_speed, Ghost(|e| speed_event(e)));
    list.extend(y_memo, &bms.stop.stops, make_stop, Ghost(|e| stop_event(e)));
    list.extend(y_memo, &bms.bmp.bga_changes, make_bga, Ghost(|e| bga_event(e)));
    list.extend_opacity(y_memo, &bms.bmp.bga_opacity_changes);
    list.extend_argb(y_memo, &bms.bmp.bga_argb_changes);
    list.extend(
        y_memo,
        &bms.volume.bgm_volume_changes,
        make_bgm_volume,
        Ghost(|e| bgm_volume_event(e)),
    );
    list.extend(
        y_memo,
        &bms.volume.key_volume_changes,
        make_key_volume,
        Ghost(|e| key_volume_event(e)),
    );
    list.extend(y_memo, &bms.text.text_events, make_text, Ghost(|e| text_event(e)));
    list.extend(y_memo, &bms.judge.judge_events, make_judge, Ghost(|e| judge_event(e)));
    list.extend(y_memo, &bms.video.seek_events, make_seek, Ghost(|e| seek_event(e)));
    list.extend(
        y_memo,
        &bms.bmp.bga_keybound_events,
        make_keybound,
        Ghost(|e| keybound_event(e)),
    );
    list.extend(y_memo, &bms.option.option_events, make_option, Ghost(|e| option_event(e)));
    assert(list@ =~= object_events::<T>(*bms, y_memo.layout(), speeds@));
    list
}

/// The positions of lists.
fn positions_of(lists: &ByPosition<PlayheadEvent>) -> (r: OrderedMap<YCoordinate, ()>)
    ensures
        keys_of(r@) == lists@.dom(),
{
    let n = lists.len();
    let mut points: OrderedMap<YCoordinate, ()> = OrderedMap::new();
    let mut i: usize = 0;
    while i < n
        invariant
            n == lists.positions().len(),
            i <= n,
            forall|y: u64| #[trigger]
                keys_of(points@).contains(y) <==> exists|k: int|
                    0 <= k < i && (#[trigger] lists.positions()[k])@ == y,
        decreases n - i,
    {
        let position = lists.position(i);
        let ghost before = keys_of(points@);
        proof {
            lemma_placed_keys(points@, position, ());
        }
        points.insert(position, ());
        proof {
            assert forall|y: u64| #[trigger] keys_of(points@).contains(y) <==> exists|k: int|
                0 <= k < i + 1 && (#[trigger] lists.positions()[k])@ == y by {
                assert(keys_of(points@).contains(y) <==> before.contains(y) || y == position@);
                if y == position@ {
                    assert(lists.positions()[i as int]@ == y);
                }
                if exists|k: int| 0 <= k < i + 1 && (#[trigger] lists.positions()[k])@ == y {
                    let k = choose|k: int|
                        0 <= k < i + 1 && (#[trigger] lists.positions()[k])@ == y;
                    if k < i {
                        assert(before.contains(y));
                    }
                }
            }
        }
        i = i + 1;
    }
    assert(keys_of(points@) =~= lists@.dom());
    points
}

impl AllEventsIndex {
    /// Precompute all events, store grouped by Y coordinate.
    ///
    /// Speed effects are calculated into event positions, ensuring event trigger times
    /// remain unchanged: the events are timed by their positions without spacing, from
    /// the points that the chart would have without it.
    #[must_use]
    pub fn precompute_all_events<T: KeyLayoutMapper>(bms: &Bms, y_memo: &YMemo) -> (r: Self)
        ensures
            r@ == grouped(numbered(all_events::<T>(*bms, y_memo.layout()))),
            r.spec_points() == timing_points::<T>(*bms, y_memo.layout()),
    {
        let mut list = find_object_events::<T>(bms, y_memo, &bms.speed.speed_factor_changes);
        BmsProcessor::generate_barlines_for_bms(bms, y_memo, &mut list);
        let unspaced = y_memo.unspaced();
        let no_speeds: OrderedMap<ObjTime, SpeedObj> = OrderedMap::new();
        let mut unspaced_list = find_object_events::<T>(bms, &unspaced, &no_speeds);
        add_bar_lines(&unspaced, last_track(bms.last_unspaced_time()), &mut unspaced_list);
        AllEventsIndex::new(list.events(), positions_of(unspaced_list.events()))
    }
}

} // verus!
