//! Where the measure lines of a chart stand, and when they are reached.

#[allow(unused_imports)]
use crate::bms::{Bms, WavObj};
#[allow(unused_imports)]
use crate::census::{
    asks_event, asks_found, count, event_count, exactly, lemma_chart_holds_found, lemma_count_add,
    lemma_count_no_notes, lemma_count_none, lemma_count_push, lemma_count_sorts, lemma_counted,
    lemma_some_counted, Question,
};
#[allow(unused_imports)]
use crate::channel::KeyLayoutMapper;
#[allow(unused_imports)]
use crate::chart::{indexes, Chart, PositionRange};
#[allow(unused_imports)]
use crate::event::{ChartEvent, PlayheadEvent, YCoordinate};
#[allow(unused_imports)]
use crate::events::{
    all_events, bar_line, bar_lines, last_y, lemma_bar_lines, lemma_last_y, lemma_only_lines,
    note_events, numbered, object_events, placed_notes, tracks_up_to, Found,
};
#[allow(unused_imports)]
use crate::inventory::{is_of_note, lemma_note_source, lemma_other_objects};
#[allow(unused_imports)]
use crate::num::{group_patterns, PositiveF64};
#[allow(unused_imports)]
use crate::position::grouped;
#[allow(unused_imports)]
use crate::process::{is_chart_at, no_later};
#[allow(unused_imports)]
use crate::sorting::sorted;
#[allow(unused_imports)]
use crate::time::Track;
#[allow(unused_imports)]
use crate::timeline::{
    lemma_arrival_ordered, lemma_timed_events, stops_of, tempo_changes, tempo_map, time_at,
    timeline_points,
};
#[allow(unused_imports)]
use crate::y_memo::{layout_of, Layout};
use vstd::prelude::*;

verus! {

/// Every event of an index lies in the range of one of the positions.
pub proof fn lemma_in_range(
    events: Seq<PlayheadEvent>,
    by_y: Seq<PositionRange>,
    lists: Map<u64, Seq<PlayheadEvent>>,
    k: int,
    n: int,
) -> (r: int)
    requires
        indexes(events, by_y, lists),
        0 <= n < by_y.len(),
        0 <= k < by_y[n].end,
    ensures
        0 <= r <= n,
        by_y[r].start <= k < by_y[r].end,
    decreases n,
{
    if n == 0 || by_y[n].start <= k {
        n
    } else {
        assert(by_y[n - 1].end == by_y[n].start);
        lemma_in_range(events, by_y, lists, k, n - 1)
    }
}

/// Every event of an index stands in the list of a position.
pub proof fn lemma_indexed(
    events: Seq<PlayheadEvent>,
    by_y: Seq<PositionRange>,
    lists: Map<u64, Seq<PlayheadEvent>>,
    k: int,
) -> (r: (u64, int))
    requires
        indexes(events, by_y, lists),
        0 <= k < events.len(),
    ensures
        lists.dom().contains(r.0),
        0 <= r.1 < lists[r.0].len(),
        lists[r.0][r.1] == events[k],
{
    let n = by_y.len() - 1;
    assert(by_y[n] == by_y.last());
    let r = lemma_in_range(events, by_y, lists, k, n);
    let range = by_y[r];
    let y = range.position@;
    assert(lists[y] == events.subrange(range.start as int, range.end as int));
    (y, k - range.start)
}

/// Every event of a chart has the time at which its position without spacing is reached.
pub proof fn lemma_event_time<T: KeyLayoutMapper>(
    chart: Chart,
    bms: Bms,
    init_bpm: PositiveF64,
    k: int,
)
    requires
        is_chart_at::<T>(chart, bms, init_bpm),
        indexes(chart.events.spec_events(), chart.events.spec_by_y(), chart.events@),
        0 <= k < chart.events.spec_events().len(),
    ensures
        chart.events.spec_events()[k].activate_time == time_at(
            bms,
            layout_of(bms),
            init_bpm,
            chart.events.spec_points(),
            chart.events.spec_events()[k].unspaced@,
        ),
{
    let layout = layout_of(bms);
    let lists = grouped(numbered(all_events::<T>(bms, layout)));
    let (y, i) = lemma_indexed(
        chart.events.spec_events(),
        chart.events.spec_by_y(),
        chart.events@,
        k,
    );
    assert(lists.dom().contains(y));
    assert(chart.events@[y].len() == lists[y].len());
    lemma_timed_events(bms, layout, init_bpm, chart.events.spec_points(), lists, y, i);
}

/// Whatever their kinds, two events at the same position without spacing are reached at
/// the same time, and none is reached before one at an earlier such position.
pub proof fn lemma_same_place_same_time<T: KeyLayoutMapper>(
    chart: Chart,
    bms: Bms,
    init_bpm: PositiveF64,
    i: int,
    j: int,
)
    requires
        is_chart_at::<T>(chart, bms, init_bpm),
        indexes(chart.events.spec_events(), chart.events.spec_by_y(), chart.events@),
        0 <= i < chart.events.spec_events().len(),
        0 <= j < chart.events.spec_events().len(),
        chart.events.spec_events()[i].unspaced@ <= chart.events.spec_events()[j].unspaced@,
    ensures
        no_later(
            chart.events.spec_events()[i].activate_time,
            chart.events.spec_events()[j].activate_time,
        ),
        chart.events.spec_events()[i].unspaced@ == chart.events.spec_events()[j].unspaced@
            ==> chart.events.spec_events()[i].activate_time
            == chart.events.spec_events()[j].activate_time,
{
    broadcast use group_patterns;

    let layout = layout_of(bms);
    let changes = tempo_changes(bms, layout.unspaced());
    lemma_event_time::<T>(chart, bms, init_bpm, i);
    lemma_event_time::<T>(chart, bms, init_bpm, j);
    lemma_arrival_ordered(
        timeline_points(chart.events.spec_points(), changes),
        tempo_map(init_bpm, changes),
        sorted(stops_of(layout.unspaced(), bms.stop.stops@)),
        chart.events.spec_events()[i].unspaced@,
        chart.events.spec_events()[j].unspaced@,
    );
}

/// Objects other than notes that were found without changes of the spacing stand where
/// they would stand without it.
#[verifier::rlimit(40)]
proof fn lemma_found_unspaced<T: KeyLayoutMapper>(bms: Bms, layout: Layout, f: int)
    requires
        layout == layout.unspaced(),
        0 <= f < all_events::<T>(bms, layout).len(),
    ensures
        all_events::<T>(bms, layout)[f].y == all_events::<T>(bms, layout)[f].unspaced,
{
    let all = all_events::<T>(bms, layout);
    let notes = note_events::<T>(bms, layout, sorted(placed_notes(layout, bms.wav.notes@)));
    let objects = object_events::<T>(bms, layout, bms.speed.speed_factor_changes@);
    if is_of_note(all[f].event) {
        lemma_note_source::<T>(bms, layout, f);
    } else if f < objects.len() {
        assert(all[f] == objects[f]);
        if f < notes.len() {
            lemma_other_objects::<T>(bms, layout);
            assert(objects.take(notes.len() as int)[f] == objects[f]);
            lemma_notes_only::<T>(
                bms,
                layout,
                sorted(placed_notes(layout, bms.wav.notes@)),
                f,
            );
        }
    } else {
        let last = last_y(objects)->0;
        let tracks = tracks_up_to(bms.spec_last_obj_time());
        assert(all[f] == bar_lines(layout, tracks, last)[f - objects.len()]);
        lemma_bar_lines(layout, tracks, last);
    }
}

/// The events of notes are those of notes.
proof fn lemma_notes_only<T: KeyLayoutMapper>(
    bms: Bms,
    layout: Layout,
    s: Seq<(YCoordinate, WavObj)>,
    f: int,
)
    requires
        0 <= f < note_events::<T>(bms, layout, s).len(),
    ensures
        is_of_note(note_events::<T>(bms, layout, s)[f].event),
    decreases s.len(),
{
    if f < note_events::<T>(bms, layout, s.drop_last()).len() {
        lemma_notes_only::<T>(bms, layout, s.drop_last(), f);
    }
}

/// In a chart without changes of the spacing, every event stands at its position without
/// spacing, and any two events at the same position are reached at the same time, whatever
/// their kinds.
pub proof fn lemma_same_position_same_time<T: KeyLayoutMapper>(
    chart: Chart,
    bms: Bms,
    init_bpm: PositiveF64,
    i: int,
    j: int,
)
    requires
        is_chart_at::<T>(chart, bms, init_bpm),
        indexes(chart.events.spec_events(), chart.events.spec_by_y(), chart.events@),
        bms.speed.speed_factor_changes@.len() == 0,
        0 <= i < chart.events.spec_events().len(),
        0 <= j < chart.events.spec_events().len(),
        chart.events.spec_events()[i].position@ == chart.events.spec_events()[j].position@,
    ensures
        chart.events.spec_events()[i].position@ == chart.events.spec_events()[i].unspaced@,
        chart.events.spec_events()[i].activate_time
            == chart.events.spec_events()[j].activate_time,
{
    let layout = layout_of(bms);
    let found = all_events::<T>(bms, layout);
    let p: Question = |x: (u64, u64, ChartEvent)| x.0 != x.1;
    assert(bms.speed.speed_factor_changes@ =~= Seq::empty());
    assert forall|f: int| 0 <= f < found.len() implies !asks_found(p)(#[trigger] found[f]) by {
        lemma_found_unspaced::<T>(bms, layout, f);
    }
    lemma_count_none(found, asks_found(p));
    lemma_chart_holds_found::<T>(chart, bms, init_bpm, p);
    let events = chart.events.spec_events();
    if asks_event(p)(events[i]) {
        lemma_counted(events, asks_event(p), i);
    }
    if asks_event(p)(events[j]) {
        lemma_counted(events, asks_event(p), j);
    }
    lemma_same_place_same_time::<T>(chart, bms, init_bpm, i, j);
}

/// A measure line is reached when the start of its track is: every measure line of a chart
/// is that of a track up to the one of the last object, stands at the position of the
/// start of that track, and has the time at which that start is reached without spacing.
#[verifier::rlimit(40)]
pub proof fn lemma_line_of_track<T: KeyLayoutMapper>(
    chart: Chart,
    bms: Bms,
    init_bpm: PositiveF64,
    k: int,
)
    requires
        is_chart_at::<T>(chart, bms, init_bpm),
        indexes(chart.events.spec_events(), chart.events.spec_by_y(), chart.events@),
        0 <= k < chart.events.spec_events().len(),
        chart.events.spec_events()[k].event is BarLine,
    ensures
        exists|track: u64|
            (bms.spec_last_obj_time() matches Some(time) ==> track <= time.spec_track().0) && (
            bms.spec_last_obj_time() is None ==> track == 0) && chart.events.spec_events()[k].position@
                == #[trigger] layout_of(bms).start_y(Track(track))
                && chart.events.spec_events()[k].unspaced@ == layout_of(bms).unspaced().start_y(
                Track(track),
            ) && chart.events.spec_events()[k].activate_time == time_at(
                bms,
                layout_of(bms),
                init_bpm,
                chart.events.spec_points(),
                layout_of(bms).unspaced().start_y(Track(track)),
            ),
{
    let layout = layout_of(bms);
    let event = chart.events.spec_events()[k];
    let p = exactly(event.position@, event.unspaced@, event.event);
    let found = all_events::<T>(bms, layout);
    let speeds = bms.speed.speed_factor_changes@;
    let objects = object_events::<T>(bms, layout, speeds);
    lemma_counted(chart.events.spec_events(), asks_event(p), k);
    lemma_chart_holds_found::<T>(chart, bms, init_bpm, p);
    let f = lemma_some_counted(found, asks_found(p));
    if f < objects.len() {
        assert(objects[f] == found[f]);
        lemma_counted(objects, asks_found(p), f);
        lemma_no_object_lines::<T>(bms, layout, event.position@, event.unspaced@);
    }
    let last = last_y(objects)->0;
    let tracks = tracks_up_to(bms.spec_last_obj_time());
    lemma_bar_lines(layout, tracks, last);
    assert(found[f] == bar_lines(layout, tracks, last)[f - objects.len()]);
    let track = choose|track: u64|
        track < tracks && #[trigger] bar_line(layout, Track(track)) == bar_lines(
            layout,
            tracks,
            last,
        )[f - objects.len()];
    lemma_event_time::<T>(chart, bms, init_bpm, k);
    assert(event.position@ == layout.start_y(Track(track)));
}

/// No object is a measure line.
#[verifier::rlimit(40)]
proof fn lemma_no_object_lines<T: KeyLayoutMapper>(
    bms: Bms,
    layout: Layout,
    y: u64,
    unspaced: u64,
)
    ensures
        count(
            object_events::<T>(bms, layout, bms.speed.speed_factor_changes@),
            asks_found(exactly(y, unspaced, ChartEvent::BarLine)),
        ) == 0,
{
    let event = ChartEvent::BarLine;
    lemma_count_sorts::<T>(bms, layout, bms.speed.speed_factor_changes@, y, unspaced, event);
    lemma_count_no_notes::<T>(
        bms,
        layout,
        sorted(placed_notes(layout, bms.wav.notes@)),
        exactly(y, unspaced, event),
    );
}

/// The measure lines at a place are as many as the tracks that start there.
proof fn lemma_count_lines(layout: Layout, tracks: nat, last: u64, y: u64, unspaced: u64)
    requires
        tracks <= u64::MAX + 1,
    ensures
        count(
            bar_lines(layout, tracks, last),
            asks_found(exactly(y, unspaced, ChartEvent::BarLine)),
        ) == if y <= last {
            count(
                Seq::new(tracks, |t: int| t as u64),
                |t: u64|
                    layout.start_y(Track(t)) == y && layout.unspaced().start_y(Track(t))
                        == unspaced,
            )
        } else {
            0
        },
    decreases tracks,
{
    let p = asks_found(exactly(y, unspaced, ChartEvent::BarLine));
    if tracks > 0 {
        let fewer = (tracks - 1) as nat;
        lemma_count_lines(layout, fewer, last, y, unspaced);
        let earlier = bar_lines(layout, fewer, last);
        let new = fewer as u64;
        lemma_count_push(earlier, bar_line(layout, Track(new)), p);
        assert(Seq::new(tracks, |t: int| t as u64) =~= Seq::new(fewer, |t: int| t as u64).push(
            new,
        ));
        lemma_count_push(
            Seq::new(fewer, |t: int| t as u64),
            new,
            |t: u64|
                layout.start_y(Track(t)) == y && layout.unspaced().start_y(Track(t)) == unspaced,
        );
    } else {
        assert(Seq::new(tracks, |t: int| t as u64) =~= Seq::empty());
    }
}

/// The measure lines of a chart reach as far as its other events: where the furthest of
/// those stands behind the start, each track up to that of the last object has one line at
/// its start, unless it starts behind that event. There are no others.
#[verifier::rlimit(40)]
pub proof fn lemma_lines_of_tracks<T: KeyLayoutMapper>(
    chart: Chart,
    bms: Bms,
    init_bpm: PositiveF64,
    far: int,
    y: u64,
    unspaced: u64,
)
    requires
        is_chart_at::<T>(chart, bms, init_bpm),
        indexes(chart.events.spec_events(), chart.events.spec_by_y(), chart.events@),
        0 <= far < chart.events.spec_events().len(),
        !(chart.events.spec_events()[far].event is BarLine),
        chart.events.spec_events()[far].position@ > 0,
        forall|k: int|
            0 <= k < chart.events.spec_events().len() && !((
            #[trigger] chart.events.spec_events()[k]).event is BarLine)
                ==> chart.events.spec_events()[k].position@
                <= chart.events.spec_events()[far].position@,
    ensures
        event_count(chart, y, unspaced, ChartEvent::BarLine) == if y
            <= chart.events.spec_events()[far].position@ {
            count(
                Seq::new(
                    match bms.spec_last_obj_time() {
                        Some(time) => time.spec_track().0 as nat + 1,
                        None => 1,
                    },
                    |t: int| t as u64,
                ),
                |t: u64|
                    layout_of(bms).start_y(Track(t)) == y && layout_of(bms).unspaced().start_y(
                        Track(t),
                    ) == unspaced,
            )
        } else {
            0
        },
{
    let layout = layout_of(bms);
    let p = exactly(y, unspaced, ChartEvent::BarLine);
    let events = chart.events.spec_events();
    let end = events[far].position@;
    let objects = object_events::<T>(bms, layout, bms.speed.speed_factor_changes@);
    let tracks = tracks_up_to(bms.spec_last_obj_time());
    let found = all_events::<T>(bms, layout);
    lemma_lines_last::<T>(bms, layout);
    assert forall|q: Question| count(events, #[trigger] asks_event(q)) == count(
        found,
        asks_found(q),
    ) by {
        lemma_chart_holds_found::<T>(chart, bms, init_bpm, q);
    }
    lemma_furthest_of(events, found, objects, far);
    assert(count(events, asks_event(p)) == count(found, asks_found(p)));
    lemma_no_object_lines::<T>(bms, layout, y, unspaced);
    lemma_count_add(objects, bar_lines(layout, tracks, end), asks_found(p));
    lemma_count_lines(layout, tracks, end, y, unspaced);
}

/// Whether the events of objects come first among those that were found, and the others
/// are measure lines.
spec fn lines_last(found: Seq<Found>, objects: Seq<Found>) -> bool {
    &&& objects.len() <= found.len()
    &&& forall|k: int|
        0 <= k < objects.len() ==> (#[trigger] found[k]) == objects[k] && !(objects[k].event is BarLine)
    &&& forall|k: int|
        objects.len() <= k < found.len() ==> (#[trigger] found[k]).event is BarLine
}

/// The events of objects come first, and the others are measure lines.
#[verifier::rlimit(40)]
proof fn lemma_lines_last<T: KeyLayoutMapper>(bms: Bms, layout: Layout)
    ensures
        lines_last(
            all_events::<T>(bms, layout),
            object_events::<T>(bms, layout, bms.speed.speed_factor_changes@),
        ),
{
    let found = all_events::<T>(bms, layout);
    let objects = object_events::<T>(bms, layout, bms.speed.speed_factor_changes@);
    let tracks = tracks_up_to(bms.spec_last_obj_time());
    assert forall|k: int| 0 <= k < objects.len() implies (#[trigger] found[k]) == objects[k] && !(
    objects[k].event is BarLine) by {
        assert(found[k] == objects[k]);
        if objects[k].event is BarLine {
            let q = exactly(objects[k].y, objects[k].unspaced, ChartEvent::BarLine);
            lemma_counted(objects, asks_found(q), k);
            lemma_no_object_lines::<T>(bms, layout, objects[k].y, objects[k].unspaced);
        }
    }
    assert forall|k: int| objects.len() <= k < found.len() implies (
    #[trigger] found[k]).event is BarLine by {
        let last = last_y(objects)->0;
        assert(found[k] == bar_lines(layout, tracks, last)[k - objects.len()]);
        lemma_only_lines(layout, tracks, last, k - objects.len());
    }
}

/// The furthest of events other than measure lines is the furthest object.
proof fn lemma_furthest_of(
    events: Seq<PlayheadEvent>,
    found: Seq<Found>,
    objects: Seq<Found>,
    far: int,
)
    requires
        lines_last(found, objects),
        forall|p: Question|
            count(events, #[trigger] asks_event(p)) == count(found, asks_found(p)),
        0 <= far < events.len(),
        !(events[far].event is BarLine),
        forall|k: int|
            0 <= k < events.len() && !((#[trigger] events[k]).event is BarLine)
                ==> events[k].position@ <= events[far].position@,
    ensures
        last_y(objects) == Some(events[far].position@),
{
    let end = events[far].position@;
    lemma_last_y(objects);
    let here: Question = |x: (u64, u64, ChartEvent)| !(x.2 is BarLine) && x.0 == end;
    lemma_counted(events, asks_event(here), far);
    let f = lemma_some_counted(found, asks_found(here));
    assert(f < objects.len());
    assert(objects[f] == found[f]);
    let last = last_y(objects)->0;
    let i = choose|i: int| 0 <= i < objects.len() && (#[trigger] objects[i]).y == last;
    assert(found[i] == objects[i]);
    let there: Question = |x: (u64, u64, ChartEvent)| !(x.2 is BarLine) && x.0 == last;
    lemma_counted(found, asks_found(there), i);
    assert(count(events, asks_event(there)) > 0);
    let k = lemma_some_counted(events, asks_event(there));
    assert(events[k].position@ <= end);
}

/// Where all other events of a chart stand at its start, it has no measure lines.
#[verifier::rlimit(40)]
pub proof fn lemma_no_lines_at_start<T: KeyLayoutMapper>(
    chart: Chart,
    bms: Bms,
    init_bpm: PositiveF64,
    k: int,
)
    requires
        is_chart_at::<T>(chart, bms, init_bpm),
        indexes(chart.events.spec_events(), chart.events.spec_by_y(), chart.events@),
        forall|k: int|
            0 <= k < chart.events.spec_events().len() && !((
            #[trigger] chart.events.spec_events()[k]).event is BarLine)
                ==> chart.events.spec_events()[k].position@ == 0,
        0 <= k < chart.events.spec_events().len(),
    ensures
        !(chart.events.spec_events()[k].event is BarLine),
{
    let layout = layout_of(bms);
    let events = chart.events.spec_events();
    let objects = object_events::<T>(bms, layout, bms.speed.speed_factor_changes@);
    let found = all_events::<T>(bms, layout);
    assert(found.len() > objects.len() ==> last_y(objects) is Some && last_y(objects)->0 != 0);
    lemma_lines_last::<T>(bms, layout);
    assert forall|p: Question| count(events, #[trigger] asks_event(p)) == count(
        found,
        asks_found(p),
    ) by {
        lemma_chart_holds_found::<T>(chart, bms, init_bpm, p);
    }
    lemma_no_lines_of(events, found, objects, k);
}

/// Where no object stands behind the start, nothing but objects was found.
proof fn lemma_no_lines_of(
    events: Seq<PlayheadEvent>,
    found: Seq<Found>,
    objects: Seq<Found>,
    k: int,
)
    requires
        lines_last(found, objects),
        found.len() > objects.len() ==> last_y(objects) is Some && last_y(objects)->0 != 0,
        forall|p: Question|
            count(events, #[trigger] asks_event(p)) == count(found, asks_found(p)),
        forall|k: int|
            0 <= k < events.len() && !((#[trigger] events[k]).event is BarLine)
                ==> events[k].position@ == 0,
        0 <= k < events.len(),
    ensures
        !(events[k].event is BarLine),
{
    if events[k].event is BarLine {
        let line: Question = |x: (u64, u64, ChartEvent)| x.2 is BarLine;
        lemma_counted(events, asks_event(line), k);
        let f = lemma_some_counted(found, asks_found(line));
        assert(f >= objects.len());
        lemma_last_y(objects);
        let last = last_y(objects)->0;
        let i = choose|i: int| 0 <= i < objects.len() && (#[trigger] objects[i]).y == last;
        assert(found[i] == objects[i]);
        let there: Question = |x: (u64, u64, ChartEvent)| !(x.2 is BarLine) && x.0 == last;
        lemma_counted(found, asks_found(there), i);
        assert(count(events, asks_event(there)) > 0);
        let m = lemma_some_counted(events, asks_event(there));
        assert(events[m].position@ == 0);
    }
}

} // verus!
