//! That no sound is lost or doubled on the way from the objects to the events.

#[allow(unused_imports)]
use crate::bms::{Bms, WavObj};
#[allow(unused_imports)]
use crate::channel::{lane_of, KeyLayoutMapper, NoteKind};
#[allow(unused_imports)]
use crate::chart::{indexes, PositionRange};
#[allow(unused_imports)]
use crate::event::{ChartEvent, PlayheadEvent, YCoordinate};
#[allow(unused_imports)]
use crate::events::{
    all_events, bar_lines, found_at, found_note, last_y, note_events, numbered, object_events,
    placed_notes, tracks_up_to, Found,
};
#[allow(unused_imports)]
use crate::note::note_event;
#[allow(unused_imports)]
use crate::num::group_patterns;
#[allow(unused_imports)]
use crate::position::{grouped, items_at, lemma_grouped};
#[allow(unused_imports)]
use crate::sorting::{inserted, sorted};
#[allow(unused_imports)]
use crate::y_memo::Layout;
#[allow(unused_imports)]
use vstd::multiset::Multiset;
use vstd::prelude::*;

verus! {

/// Whether an event is a sound of the background, or a note that is no long note.
pub open spec fn is_sound(event: ChartEvent) -> bool {
    match event {
        ChartEvent::Note { kind, .. } => kind != NoteKind::Long,
        ChartEvent::Bgm { .. } => true,
        _ => false,
    }
}

/// Whether an event is that of a note.
pub open spec fn is_of_note(event: ChartEvent) -> bool {
    event is Note || event is Bgm
}

/// Whether an object is on no lane, or on one that is not for long notes.
pub open spec fn is_sound_object<T: KeyLayoutMapper>(note: WavObj) -> bool {
    match lane_of::<T>(note.channel_id) {
        Some((_, _, kind)) => kind != NoteKind::Long,
        None => true,
    }
}

/// One thing more, if it counts.
pub open spec fn counted(
    rest: Multiset<(u64, ChartEvent)>,
    counts: bool,
    y: u64,
    event: ChartEvent,
) -> Multiset<(u64, ChartEvent)> {
    if counts {
        rest.insert((y, event))
    } else {
        rest
    }
}

/// The sounds among events that were found, each with its position.
pub open spec fn found_sounds(events: Seq<Found>) -> Multiset<(u64, ChartEvent)>
    decreases events.len(),
{
    if events.len() == 0 {
        Multiset::empty()
    } else {
        let last = events.last();
        counted(found_sounds(events.drop_last()), is_sound(last.event), last.y, last.event)
    }
}

/// The sounds among the events of a chart, each with its position.
pub open spec fn event_sounds(events: Seq<PlayheadEvent>) -> Multiset<(u64, ChartEvent)>
    decreases events.len(),
{
    if events.len() == 0 {
        Multiset::empty()
    } else {
        let last = events.last();
        counted(
            event_sounds(events.drop_last()),
            is_sound(last.event),
            last.position@,
            last.event,
        )
    }
}

/// The sounds that the objects of a chart stand for, each with its position.
pub open spec fn object_sounds<T: KeyLayoutMapper>(
    bms: Bms,
    layout: Layout,
    notes: Seq<WavObj>,
) -> Multiset<(u64, ChartEvent)>
    decreases notes.len(),
{
    if notes.len() == 0 {
        Multiset::empty()
    } else {
        let last = notes.last();
        counted(
            object_sounds::<T>(bms, layout, notes.drop_last()),
            is_sound_object::<T>(last),
            layout.y(last.offset),
            note_event::<T>(bms, layout, last),
        )
    }
}

/// The sounds that placed objects stand for.
spec fn placed_sounds<T: KeyLayoutMapper>(
    bms: Bms,
    layout: Layout,
    s: Seq<(YCoordinate, WavObj)>,
) -> Multiset<(u64, ChartEvent)>
    decreases s.len(),
{
    if s.len() == 0 {
        Multiset::empty()
    } else {
        let (y, note) = s.last();
        counted(
            placed_sounds::<T>(bms, layout, s.drop_last()),
            is_sound_object::<T>(note),
            y@,
            note_event::<T>(bms, layout, note),
        )
    }
}

/// Events without sounds behind others.
proof fn lemma_no_sounds(a: Seq<Found>, b: Seq<Found>)
    requires
        forall|i: int| 0 <= i < b.len() ==> !is_of_note((#[trigger] b[i]).event),
    ensures
        found_sounds(a + b) == found_sounds(a),
    decreases b.len(),
{
    if b.len() == 0 {
        assert(a + b =~= a);
    } else {
        let front = b.drop_last();
        assert forall|i: int| 0 <= i < front.len() implies !is_of_note(
            (#[trigger] front[i]).event,
        ) by {
            assert(front[i] == b[i]);
        }
        lemma_no_sounds(a, front);
        assert((a + b).drop_last() =~= a + front);
        assert((a + b).last() == b[b.len() - 1]);
    }
}

/// Notes become the events of the sounds that they stand for.
proof fn lemma_note_sounds<T: KeyLayoutMapper>(
    bms: Bms,
    layout: Layout,
    s: Seq<(YCoordinate, WavObj)>,
)
    ensures
        found_sounds(note_events::<T>(bms, layout, s)) == placed_sounds::<T>(bms, layout, s),
    decreases s.len(),
{
    if s.len() > 0 {
        lemma_note_sounds::<T>(bms, layout, s.drop_last());
        let earlier = note_events::<T>(bms, layout, s.drop_last());
        let found = found_note::<T>(bms, layout, s.last());
        assert(earlier.push(found).drop_last() =~= earlier);
    }
}

/// Inserting an object counts it.
proof fn lemma_inserted_sounds<T: KeyLayoutMapper>(
    bms: Bms,
    layout: Layout,
    s: Seq<(YCoordinate, WavObj)>,
    entry: (YCoordinate, WavObj),
)
    ensures
        placed_sounds::<T>(bms, layout, inserted(s, entry)) == counted(
            placed_sounds::<T>(bms, layout, s),
            is_sound_object::<T>(entry.1),
            entry.0@,
            note_event::<T>(bms, layout, entry.1),
        ),
    decreases s.len(),
{
    let r = inserted(s, entry);
    if s.len() == 0 || s.last().0@ <= entry.0@ {
        assert(r.drop_last() =~= s);
    } else {
        lemma_inserted_sounds::<T>(bms, layout, s.drop_last(), entry);
        assert(r.drop_last() =~= inserted(s.drop_last(), entry));
        assert(r.last() == s.last());
        let rest = placed_sounds::<T>(bms, layout, s.drop_last());
        let a = (entry.0@, note_event::<T>(bms, layout, entry.1));
        let b = (s.last().0@, note_event::<T>(bms, layout, s.last().1));
        assert(rest.insert(a).insert(b) =~= rest.insert(b).insert(a));
    }
}

/// Sorting keeps the sounds.
proof fn lemma_sorted_sounds<T: KeyLayoutMapper>(
    bms: Bms,
    layout: Layout,
    s: Seq<(YCoordinate, WavObj)>,
)
    ensures
        placed_sounds::<T>(bms, layout, sorted(s)) == placed_sounds::<T>(bms, layout, s),
    decreases s.len(),
{
    if s.len() > 0 {
        lemma_sorted_sounds::<T>(bms, layout, s.drop_last());
        lemma_inserted_sounds::<T>(bms, layout, sorted(s.drop_last()), s.last());
    }
}

/// Placing keeps the sounds.
proof fn lemma_placed_sounds<T: KeyLayoutMapper>(bms: Bms, layout: Layout, notes: Seq<WavObj>)
    ensures
        placed_sounds::<T>(bms, layout, placed_notes(layout, notes)) == object_sounds::<T>(
            bms,
            layout,
            notes,
        ),
    decreases notes.len(),
{
    broadcast use group_patterns;

    if notes.len() > 0 {
        lemma_placed_sounds::<T>(bms, layout, notes.drop_last());
        let placed = placed_notes(layout, notes);
        assert(placed.drop_last() =~= placed_notes(layout, notes.drop_last()));
        assert(placed.last() == (YCoordinate::of(layout.y(notes.last().offset)), notes.last()));
    }
}

/// Measure lines are not those of notes.
proof fn lemma_bar_line_sounds(layout: Layout, tracks: nat, last: u64)
    ensures
        forall|i: int|
            0 <= i < bar_lines(layout, tracks, last).len() ==> !is_of_note(
                (#[trigger] bar_lines(layout, tracks, last)[i]).event,
            ),
    decreases tracks,
{
    if tracks > 0 {
        lemma_bar_line_sounds(layout, (tracks - 1) as nat, last);
    }
}

/// The sounds among the events that were found are those of the objects: none is lost,
/// none is doubled, and each stands at the position of its object.
pub proof fn lemma_found_sounds<T: KeyLayoutMapper>(bms: Bms, layout: Layout)
    ensures
        found_sounds(all_events::<T>(bms, layout)) == object_sounds::<T>(
            bms,
            layout,
            bms.wav.notes@,
        ),
{
    let s = sorted(placed_notes(layout, bms.wav.notes@));
    let notes = note_events::<T>(bms, layout, s);
    let speeds = bms.speed.speed_factor_changes@;
    let objects = object_events::<T>(bms, layout, speeds);
    let rest = objects.skip(notes.len() as int);
    lemma_note_sounds::<T>(bms, layout, s);
    lemma_sorted_sounds::<T>(bms, layout, placed_notes(layout, bms.wav.notes@));
    lemma_placed_sounds::<T>(bms, layout, bms.wav.notes@);
    lemma_other_objects::<T>(bms, layout);
    assert(objects =~= notes + rest);
    lemma_no_sounds(notes, rest);
    if let Some(last) = last_y(objects) {
        let tracks = tracks_up_to(bms.spec_last_obj_time());
        lemma_bar_line_sounds(layout, tracks, last);
        lemma_no_sounds(objects, bar_lines(layout, tracks, last));
    }
}

/// The events of notes come first, and the other objects have none of theirs.
pub proof fn lemma_other_objects<T: KeyLayoutMapper>(bms: Bms, layout: Layout)
    ensures
        ({
            let notes = note_events::<T>(
                bms,
                layout,
                sorted(placed_notes(layout, bms.wav.notes@)),
            );
            let objects = object_events::<T>(bms, layout, bms.speed.speed_factor_changes@);
            &&& notes.len() <= objects.len()
            &&& notes == objects.take(notes.len() as int)
            &&& forall|i: int|
                0 <= i < objects.skip(notes.len() as int).len() ==> !is_of_note(
                    (#[trigger] objects.skip(notes.len() as int)[i]).event,
                )
        }),
{
    let notes = note_events::<T>(bms, layout, sorted(placed_notes(layout, bms.wav.notes@)));
    let objects = object_events::<T>(bms, layout, bms.speed.speed_factor_changes@);
    assert(notes =~= objects.take(notes.len() as int));
}

/// Every entry of sorted ones is one of those that were sorted.
pub proof fn lemma_sorted_entry<V>(s: Seq<(YCoordinate, V)>, i: int)
    requires
        0 <= i < sorted(s).len(),
    ensures
        s.contains(sorted(s)[i]),
    decreases s.len(),
{
    if s.len() > 0 {
        let front = s.drop_last();
        lemma_inserted_entry(sorted(front), s.last(), i);
        let entry = sorted(s)[i];
        if entry == s.last() {
            assert(s[s.len() - 1] == entry);
        } else {
            let j = choose|j: int| 0 <= j < sorted(front).len() && sorted(front)[j] == entry;
            lemma_sorted_entry(front, j);
            let k = choose|k: int| 0 <= k < front.len() && front[k] == entry;
            assert(s[k] == entry);
        }
    }
}

/// Every entry after an insertion is the new one or one of the others.
proof fn lemma_inserted_entry<V>(s: Seq<(YCoordinate, V)>, entry: (YCoordinate, V), i: int)
    requires
        0 <= i < inserted(s, entry).len(),
    ensures
        inserted(s, entry)[i] == entry || s.contains(inserted(s, entry)[i]),
    decreases s.len(),
{
    let r = inserted(s, entry);
    if s.len() == 0 || s.last().0@ <= entry.0@ {
        if i < s.len() {
            assert(s[i] == r[i]);
        }
    } else {
        let front = s.drop_last();
        if i < r.len() - 1 {
            lemma_inserted_entry(front, entry, i);
            if r[i] != entry {
                let k = choose|k: int| 0 <= k < front.len() && front[k] == r[i];
                assert(s[k] == r[i]);
            }
        } else {
            assert(s[s.len() - 1] == r[i]);
        }
    }
}

/// Every event of notes comes from one of them.
proof fn lemma_from_note<T: KeyLayoutMapper>(
    bms: Bms,
    layout: Layout,
    s: Seq<(YCoordinate, WavObj)>,
    k: int,
)
    requires
        0 <= k < note_events::<T>(bms, layout, s).len(),
    ensures
        exists|i: int|
            0 <= i < s.len() && note_events::<T>(bms, layout, s)[k] == found_note::<T>(
                bms,
                layout,
                #[trigger] s[i],
            ),
    decreases s.len(),
{
    let front = s.drop_last();
    let earlier = note_events::<T>(bms, layout, front);
    if k < earlier.len() {
        lemma_from_note::<T>(bms, layout, front, k);
        let i = choose|i: int|
            0 <= i < front.len() && earlier[k] == found_note::<T>(
                bms,
                layout,
                #[trigger] front[i],
            );
        assert(s[i] == front[i]);
    } else {
        assert(s[s.len() - 1] == s.last());
    }
}

/// Every event of a note among those of a chart has the event and the positions of one of
/// the notes.
pub proof fn lemma_note_source<T: KeyLayoutMapper>(bms: Bms, layout: Layout, k: int)
    requires
        0 <= k < all_events::<T>(bms, layout).len(),
        is_of_note(all_events::<T>(bms, layout)[k].event),
    ensures
        exists|i: int|
            0 <= i < bms.wav.notes@.len() && all_events::<T>(bms, layout)[k] == found_at(
                layout,
                (#[trigger] bms.wav.notes@[i]).offset,
                note_event::<T>(bms, layout, bms.wav.notes@[i]),
            ),
{
    broadcast use group_patterns;

    let all = all_events::<T>(bms, layout);
    let placed = placed_notes(layout, bms.wav.notes@);
    let s = sorted(placed);
    let notes = note_events::<T>(bms, layout, s);
    let objects = object_events::<T>(bms, layout, bms.speed.speed_factor_changes@);
    lemma_other_objects::<T>(bms, layout);
    if let Some(last) = last_y(objects) {
        let tracks = tracks_up_to(bms.spec_last_obj_time());
        lemma_bar_line_sounds(layout, tracks, last);
        if k >= objects.len() {
            assert(all[k] == bar_lines(layout, tracks, last)[k - objects.len()]);
        }
    }
    if k >= notes.len() {
        assert(objects.skip(notes.len() as int)[k - notes.len()] == objects[k]);
    }
    assert(notes[k] == objects.take(notes.len() as int)[k]);
    lemma_from_note::<T>(bms, layout, s, k);
    let i = choose|i: int|
        0 <= i < s.len() && notes[k] == found_note::<T>(bms, layout, #[trigger] s[i]);
    lemma_sorted_entry(placed, i);
    let j = choose|j: int| 0 <= j < placed.len() && placed[j] == s[i];
    assert(bms.wav.notes@[j] == placed[j].1);
}

/// Whether positions are among the first ones.
spec fn first_positions(by_y: Seq<PositionRange>, n: int) -> Set<u64> {
    Set::new(|y: u64| exists|i: int| 0 <= i < n && (#[trigger] by_y[i]).position@ == y)
}

/// The sounds among events that were found at given positions.
spec fn sounds_at(events: Seq<Found>, positions: Set<u64>) -> Multiset<(u64, ChartEvent)>
    decreases events.len(),
{
    if events.len() == 0 {
        Multiset::empty()
    } else {
        let last = events.last();
        counted(
            sounds_at(events.drop_last(), positions),
            is_sound(last.event) && positions.contains(last.y),
            last.y,
            last.event,
        )
    }
}

/// The sounds at one position more.
proof fn lemma_sounds_at_one_more(events: Seq<Found>, positions: Set<u64>, y: u64)
    requires
        !positions.contains(y),
    ensures
        sounds_at(events, positions.insert(y)) == sounds_at(events, positions).add(
            sounds_at(events, Set::empty().insert(y)),
        ),
    decreases events.len(),
{
    let one = Set::empty().insert(y);
    if events.len() == 0 {
        assert(sounds_at(events, positions.insert(y)) =~= sounds_at(events, positions).add(
            sounds_at(events, one),
        ));
    } else {
        let front = events.drop_last();
        lemma_sounds_at_one_more(front, positions, y);
        let last = (events.last().y, events.last().event);
        let a = sounds_at(front, positions);
        let b = sounds_at(front, one);
        assert(a.insert(last).add(b) =~= a.add(b).insert(last));
        assert(a.add(b.insert(last)) =~= a.add(b).insert(last));
    }
}

/// The sounds at no position.
proof fn lemma_sounds_nowhere(events: Seq<Found>)
    ensures
        sounds_at(events, Set::empty()) == Multiset::<(u64, ChartEvent)>::empty(),
    decreases events.len(),
{
    if events.len() > 0 {
        lemma_sounds_nowhere(events.drop_last());
    }
}

/// The sounds at all positions.
proof fn lemma_sounds_everywhere(events: Seq<Found>, positions: Set<u64>)
    requires
        forall|i: int| 0 <= i < events.len() ==> positions.contains((#[trigger] events[i]).y),
    ensures
        sounds_at(events, positions) == found_sounds(events),
    decreases events.len(),
{
    if events.len() > 0 {
        let front = events.drop_last();
        assert forall|i: int| 0 <= i < front.len() implies positions.contains(
            (#[trigger] front[i]).y,
        ) by {
            assert(front[i] == events[i]);
        }
        assert(events[events.len() - 1] == events.last());
        lemma_sounds_everywhere(front, positions);
    }
}

/// The sounds in the list of a position are those that were found there.
proof fn lemma_list_sounds(events: Seq<Found>, y: u64)
    ensures
        event_sounds(items_at(numbered(events), y)) == sounds_at(events, Set::empty().insert(y)),
    decreases events.len(),
{
    broadcast use group_patterns;

    if events.len() > 0 {
        let front = events.drop_last();
        let items = numbered(events);
        lemma_list_sounds(front, y);
        assert(items.drop_last() =~= numbered(front));
        let before = items_at(items.drop_last(), y);
        let last = items.last().1;
        assert(before.push(last).drop_last() =~= before);
    }
}

/// The sounds of events behind others.
proof fn lemma_event_add(a: Seq<PlayheadEvent>, b: Seq<PlayheadEvent>)
    ensures
        event_sounds(a + b) == event_sounds(a).add(event_sounds(b)),
    decreases b.len(),
{
    if b.len() == 0 {
        assert(a + b =~= a);
        assert(event_sounds(a).add(event_sounds(b)) =~= event_sounds(a));
    } else {
        let front = b.drop_last();
        lemma_event_add(a, front);
        assert((a + b).drop_last() =~= a + front);
        assert((a + b).last() == b.last());
        let last = (b.last().position@, b.last().event);
        assert(event_sounds(a).add(event_sounds(front).insert(last)) =~= event_sounds(a).add(
            event_sounds(front),
        ).insert(last));
    }
}

/// The sounds of the first positions of an index.
proof fn lemma_index_prefix(
    events: Seq<PlayheadEvent>,
    by_y: Seq<PositionRange>,
    found: Seq<Found>,
    n: int,
)
    requires
        indexes(events, by_y, grouped(numbered(found))),
        0 <= n <= by_y.len(),
    ensures
        event_sounds(
            events.take(
                if n == 0 {
                    0
                } else {
                    by_y[n - 1].end as int
                },
            ),
        ) == sounds_at(found, first_positions(by_y, n)),
    decreases n,
{
    if n == 0 {
        assert(first_positions(by_y, 0) =~= Set::empty());
        lemma_sounds_nowhere(found);
        assert(events.take(0) =~= Seq::empty());
    } else {
        let range = by_y[n - 1];
        let y = range.position@;
        let before = first_positions(by_y, n - 1);
        let list = grouped(numbered(found))[y];
        lemma_index_prefix(events, by_y, found, n - 1);
        if n > 1 {
            assert(by_y[n - 2].end == by_y[n - 1].start);
        }
        assert(list == events.subrange(range.start as int, range.end as int));
        let head = events.take(range.start as int);
        assert(events.take(range.end as int) =~= head + list);
        lemma_event_add(head, list);
        lemma_grouped(numbered(found), y);
        lemma_list_sounds(found, y);
        assert(!before.contains(y)) by {
            if before.contains(y) {
                let i = choose|i: int| 0 <= i < n - 1 && (#[trigger] by_y[i]).position@ == y;
                assert(by_y[i].position@ < by_y[n - 1].position@);
            }
        }
        lemma_sounds_at_one_more(found, before, y);
        assert forall|z: u64| first_positions(by_y, n).contains(z) == before.insert(y).contains(
            z,
        ) by {
            if before.contains(z) {
                let i = choose|i: int| 0 <= i < n - 1 && (#[trigger] by_y[i]).position@ == z;
                assert(by_y[i].position@ == z);
            }
            if z == y {
                assert(by_y[n - 1].position@ == z);
            }
        }
        assert(first_positions(by_y, n) =~= before.insert(y));
    }
}

/// The events of a chart hold each sound of its objects once, at the position of its
/// object, and no other sounds. That is so also of objects on one lane that all stand at
/// the start of a track without length.
pub proof fn lemma_sounds_kept<T: KeyLayoutMapper>(
    bms: Bms,
    layout: Layout,
    events: Seq<PlayheadEvent>,
    by_y: Seq<PositionRange>,
)
    requires
        indexes(events, by_y, grouped(numbered(all_events::<T>(bms, layout)))),
    ensures
        event_sounds(events) == object_sounds::<T>(bms, layout, bms.wav.notes@),
{
    let found = all_events::<T>(bms, layout);
    let items = numbered(found);
    let n = by_y.len() as int;
    lemma_index_prefix(events, by_y, found, n);
    if n > 0 {
        assert(by_y[n - 1] == by_y.last());
    }
    assert(events.take(events.len() as int) =~= events);
    assert forall|i: int| 0 <= i < found.len() implies first_positions(by_y, n).contains(
        (#[trigger] found[i]).y,
    ) by {
        let y = found[i].y;
        assert(items[i].0 == y);
        lemma_grouped(items, y);
        let k = choose|k: int| 0 <= k < by_y.len() && (#[trigger] by_y[k]).position@ == y;
        assert(by_y[k].position@ == y);
    }
    lemma_sounds_everywhere(found, first_positions(by_y, n));
    lemma_found_sounds::<T>(bms, layout);
}

} // verus!
