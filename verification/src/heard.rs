//! That every note is heard as its channel says, and how long a long note lasts.

#[allow(unused_imports)]
use crate::bms::{lemma_next_on_channel, next_on_channel, Bms, WavObj};
#[allow(unused_imports)]
use crate::census::{
    asks_event, asks_found, count, event_count, exactly, lemma_chart_holds_found, lemma_count_add,
    lemma_count_no_lines, lemma_count_push, lemma_count_same, lemma_count_sorted,
    lemma_count_sorts, lemma_counted, lemma_some_counted, stands_at, Question,
};
#[allow(unused_imports)]
use crate::channel::{KeyLayoutMapper, NoteKind};
#[allow(unused_imports)]
use crate::chart::{indexes, Chart};
#[allow(unused_imports)]
use crate::event::{ChartEvent, WavId, YCoordinate};
#[allow(unused_imports)]
use crate::events::{
    all_events, bar_lines, found_at, found_note, last_y, lemma_long_events, lemma_only_lines,
    note_events, object_events, placed_notes, tracks_up_to,
};
#[allow(unused_imports)]
use crate::inventory::{lemma_note_source, lemma_other_objects};
#[allow(unused_imports)]
use crate::note::note_event;
#[allow(unused_imports)]
use crate::num::{difference_or_zero, group_patterns, PositiveF64};
#[allow(unused_imports)]
use crate::ordered::OrderKey;
#[allow(unused_imports)]
use crate::process::is_chart_at;
#[allow(unused_imports)]
use crate::rounding::{
    distance, lemma_nearest, lemma_order, lemma_rounded_below, lemma_zero_magnitude, magnitude,
    INFINITE,
};
#[allow(unused_imports)]
use crate::sorting::sorted;
#[allow(unused_imports)]
use crate::time::ObjTime;
#[allow(unused_imports)]
use crate::y_memo::{layout_of, Layout};
use vstd::prelude::*;

verus! {

/// The question whether a placed note has an event.
spec fn asks_placed<T: KeyLayoutMapper>(bms: Bms, layout: Layout, p: Question) -> spec_fn(
    (YCoordinate, WavObj),
) -> bool {
    |e: (YCoordinate, WavObj)|
        p((e.0@, layout.unspaced().y(e.1.offset), note_event::<T>(bms, layout, e.1)))
}

/// Notes that are not ends of long notes have one event each.
proof fn lemma_count_notes<T: KeyLayoutMapper>(
    bms: Bms,
    layout: Layout,
    s: Seq<(YCoordinate, WavObj)>,
    p: Question,
)
    requires
        forall|x: (u64, u64, ChartEvent)| #[trigger]
            p(x) ==> !(x.2 matches ChartEvent::Note { kind, .. } && kind == NoteKind::Long),
    ensures
        count(note_events::<T>(bms, layout, s), asks_found(p)) == count(
            s,
            asks_placed::<T>(bms, layout, p),
        ),
    decreases s.len(),
{
    if s.len() > 0 {
        lemma_count_notes::<T>(bms, layout, s.drop_last(), p);
        let earlier = note_events::<T>(bms, layout, s.drop_last());
        let found = found_note::<T>(bms, layout, s.last());
        lemma_count_push(earlier, found, asks_found(p));
        assert(asks_found(p)(found) == asks_placed::<T>(bms, layout, p)(s.last()));
    }
}

/// Every note that is not one end of a long note is heard once, at its place and with its
/// sound, and no others are: as a sound of the background where its channel is no lane,
/// and else as a note of the side, key and kind of its lane.
#[verifier::rlimit(40)]
pub proof fn lemma_events_of_notes<T: KeyLayoutMapper>(
    chart: Chart,
    bms: Bms,
    init_bpm: PositiveF64,
    y: u64,
    unspaced: u64,
    event: ChartEvent,
)
    requires
        is_chart_at::<T>(chart, bms, init_bpm),
        indexes(chart.events.spec_events(), chart.events.spec_by_y(), chart.events@),
    ensures
        match event {
            ChartEvent::Bgm { wav_id } => event_count(chart, y, unspaced, event) == count(
                bms.wav.notes@,
                |note: WavObj|
                    T::of_channel(note.channel_id) is None && wav_id == Some(
                        WavId(note.wav_id.0 as usize),
                    ) && stands_at(layout_of(bms), note.offset, y, unspaced),
            ),
            ChartEvent::Note { side, key, kind, wav_id, length, continue_play } => kind
                != NoteKind::Long ==> event_count(chart, y, unspaced, event) == count(
                bms.wav.notes@,
                |note: WavObj|
                    T::of_channel(note.channel_id) is Some && side == T::of_channel(
                        note.channel_id,
                    )->0.spec_side() && key == T::of_channel(note.channel_id)->0.spec_key() && kind
                        == T::of_channel(note.channel_id)->0.spec_kind() && wav_id == Some(
                        WavId(note.wav_id.0 as usize),
                    ) && length is None && continue_play is None && stands_at(
                        layout_of(bms),
                        note.offset,
                        y,
                        unspaced,
                    ),
            ),
            _ => true,
        },
{
    broadcast use group_patterns;

    let layout = layout_of(bms);
    let p = exactly(y, unspaced, event);
    let speeds = bms.speed.speed_factor_changes@;
    let objects = object_events::<T>(bms, layout, speeds);
    let notes = bms.wav.notes@;
    let placed = placed_notes(layout, notes);
    let q = asks_placed::<T>(bms, layout, p);
    let long = event matches ChartEvent::Note { kind, .. } && kind == NoteKind::Long;
    if (event is Note || event is Bgm) && !long {
        lemma_chart_holds_found::<T>(chart, bms, init_bpm, p);
        lemma_count_sorts::<T>(bms, layout, speeds, y, unspaced, event);
        if let Some(last) = last_y(objects) {
            let tracks = tracks_up_to(bms.spec_last_obj_time());
            lemma_count_no_lines(layout, tracks, last, p);
            lemma_count_add(objects, bar_lines(layout, tracks, last), asks_found(p));
        }
        lemma_count_notes::<T>(bms, layout, sorted(placed), p);
        lemma_count_sorted(placed, q);
        assert forall|i: int| 0 <= i < placed.len() implies q(#[trigger] placed[i]) == (
        stands_at(layout, notes[i].offset, y, unspaced) && note_event::<T>(bms, layout, notes[i])
            == event) by {}
        match event {
            ChartEvent::Bgm { wav_id } => lemma_count_same(
                placed,
                q,
                notes,
                |note: WavObj|
                    T::of_channel(note.channel_id) is None && wav_id == Some(
                        WavId(note.wav_id.0 as usize),
                    ) && stands_at(layout_of(bms), note.offset, y, unspaced),
            ),
            ChartEvent::Note { side, key, kind, wav_id, length, continue_play } => lemma_count_same(
                placed,
                q,
                notes,
                |note: WavObj|
                    T::of_channel(note.channel_id) is Some && side == T::of_channel(
                        note.channel_id,
                    )->0.spec_side() && key == T::of_channel(note.channel_id)->0.spec_key() && kind
                        == T::of_channel(note.channel_id)->0.spec_kind() && wav_id == Some(
                        WavId(note.wav_id.0 as usize),
                    ) && length is None && continue_play is None && stands_at(
                        layout_of(bms),
                        note.offset,
                        y,
                        unspaced,
                    ),
            ),
            _ => {},
        }
    }
}

/// A position is a finite number.
pub proof fn lemma_finite_position(layout: Layout, time: ObjTime)
    ensures
        layout.y(time) < INFINITE,
{
}

/// The difference of two positions is the number nearest to it, or zero where it would be
/// negative.
proof fn lemma_difference(end: u64, start: u64)
    requires
        end < INFINITE,
    ensures
        end <= start ==> difference_or_zero(end, start) == 0,
        start <= end ==> magnitude(start as nat) <= magnitude(end as nat) && forall|other: nat|
            distance(
                magnitude(difference_or_zero(end, start) as nat) as int,
                magnitude(end as nat) - magnitude(start as nat),
            ) <= distance(
                #[trigger] magnitude(other) as int,
                magnitude(end as nat) - magnitude(start as nat),
            ),
{
    lemma_zero_magnitude();
    if start <= end {
        lemma_order(start as nat, end as nat);
        let units = (magnitude(end as nat) - magnitude(start as nat)) as nat;
        lemma_rounded_below(units, 1, end);
        assert forall|other: nat| distance(
            magnitude(difference_or_zero(end, start) as nat) as int,
            units as int,
        ) <= distance(#[trigger] magnitude(other) as int, units as int) by {
            lemma_nearest(units, 1, other);
        }
    }
}

/// The start of a long note plus its length is the position of its end. Every event of a
/// long note is that of a note on a lane for long notes, at the place and with the sound
/// of that note; another note on its channel comes after it with none between the two, and
/// the length is the number nearest to the difference of the positions of the two, so that
/// it is the difference where that needs no rounding. Where the second does not stand
/// behind the first, the length is zero.
#[verifier::rlimit(40)]
pub proof fn lemma_long_note_ends<T: KeyLayoutMapper>(
    chart: Chart,
    bms: Bms,
    init_bpm: PositiveF64,
    k: int,
)
    requires
        is_chart_at::<T>(chart, bms, init_bpm),
        indexes(chart.events.spec_events(), chart.events.spec_by_y(), chart.events@),
        0 <= k < chart.events.spec_events().len(),
        chart.events.spec_events()[k].event matches ChartEvent::Note { kind, .. } && kind
            == NoteKind::Long,
    ensures
        exists|i: int, j: int|
            #![trigger bms.wav.notes@[i], bms.wav.notes@[j]]
            0 <= i < bms.wav.notes@.len() && 0 <= j < bms.wav.notes@.len() && {
                let heard = chart.events.spec_events()[k];
                let start = bms.wav.notes@[i];
                let end = bms.wav.notes@[j];
                let from = layout_of(bms).y(start.offset);
                let to = layout_of(bms).y(end.offset);
                &&& T::of_channel(start.channel_id) matches Some(l)
                &&& heard.event->side == l.spec_side()
                &&& heard.event->key == l.spec_key()
                &&& l.spec_kind() == NoteKind::Long
                &&& heard.event->Note_wav_id == Some(WavId(start.wav_id.0 as usize))
                &&& heard.event->continue_play is None
                &&& heard.position@ == from
                &&& heard.unspaced@ == layout_of(bms).unspaced().y(start.offset)
                &&& end.channel_id == start.channel_id
                &&& start.offset.below(end.offset)
                &&& forall|m: int|
                    0 <= m < bms.wav.notes@.len() && (#[trigger] bms.wav.notes@[m]).channel_id
                        == start.channel_id && start.offset.below(bms.wav.notes@[m].offset)
                        ==> !bms.wav.notes@[m].offset.below(end.offset)
                &&& heard.event->length is Some
                &&& to <= from ==> heard.event->length->0@ == 0
                &&& from <= to ==> magnitude(from as nat) <= magnitude(to as nat) && forall|
                    other: nat,
                |
                    distance(
                        magnitude(heard.event->length->0@ as nat) as int,
                        magnitude(to as nat) - magnitude(from as nat),
                    ) <= distance(
                        #[trigger] magnitude(other) as int,
                        magnitude(to as nat) - magnitude(from as nat),
                    )
            },
{
    broadcast use group_patterns;

    let layout = layout_of(bms);
    let heard = chart.events.spec_events()[k];
    let p = exactly(heard.position@, heard.unspaced@, heard.event);
    let found = all_events::<T>(bms, layout);
    let notes = bms.wav.notes@;
    lemma_counted(chart.events.spec_events(), asks_event(p), k);
    lemma_chart_holds_found::<T>(chart, bms, init_bpm, p);
    let f = lemma_some_counted(found, asks_found(p));
    lemma_note_source::<T>(bms, layout, f);
    let i = choose|i: int|
        0 <= i < notes.len() && found[f] == found_at(
            layout,
            (#[trigger] notes[i]).offset,
            note_event::<T>(bms, layout, notes[i]),
        );
    lemma_long_found::<T>(bms, layout, f);
    let start = notes[i];
    lemma_next_on_channel(notes, start.channel_id, start.offset);
    let end = next_on_channel(notes, start.channel_id, start.offset)->0;
    let j = choose|j: int| #![trigger notes[j]]
        0 <= j < notes.len() && notes[j] == end && end.channel_id == start.channel_id
            && start.offset.below(end.offset) && forall|m: int| #![trigger notes[m]]
            0 <= m < notes.len() && notes[m].channel_id == start.channel_id && start.offset.below(
                notes[m].offset,
            ) ==> !notes[m].offset.below(end.offset) && (m < j ==> end.offset.below(
                notes[m].offset,
            ));
    lemma_finite_position(layout, end.offset);
    lemma_difference(layout.y(end.offset), layout.y(start.offset));
    assert(notes[i] == start && notes[j] == end);
}

/// Every long note among the events that were found has a length.
#[verifier::rlimit(40)]
proof fn lemma_long_found<T: KeyLayoutMapper>(bms: Bms, layout: Layout, f: int)
    requires
        0 <= f < all_events::<T>(bms, layout).len(),
        all_events::<T>(bms, layout)[f].event matches ChartEvent::Note { kind, .. } && kind
            == NoteKind::Long,
    ensures
        all_events::<T>(bms, layout)[f].event->length is Some,
{
    let all = all_events::<T>(bms, layout);
    let s = sorted(placed_notes(layout, bms.wav.notes@));
    let notes = note_events::<T>(bms, layout, s);
    let objects = object_events::<T>(bms, layout, bms.speed.speed_factor_changes@);
    lemma_other_objects::<T>(bms, layout);
    if let Some(last) = last_y(objects) {
        let tracks = tracks_up_to(bms.spec_last_obj_time());
        if f >= objects.len() {
            lemma_only_lines(layout, tracks, last, f - objects.len());
            assert(all[f] == bar_lines(layout, tracks, last)[f - objects.len()]);
        }
    }
    if f >= notes.len() {
        assert(objects.skip(notes.len() as int)[f - notes.len()] == objects[f]);
    }
    assert(notes[f] == objects.take(notes.len() as int)[f]);
    lemma_long_events::<T>(bms, layout, s, f);
}

} // verus!
