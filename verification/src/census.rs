//! That every object has its event: the events of a chart counted against its objects.

#[allow(unused_imports)]
use crate::bms::{
    BgaArgbObj, BgaKeyboundObj, BgaObj, BgaOpacityObj, Bms, BpmChangeObj, JudgeObj, OptionObj,
    ScrollingFactorObj, SeekObj, SpeedObj, StopObj, TextObj, VolumeObj, WavObj,
};
#[allow(unused_imports)]
use crate::channel::KeyLayoutMapper;
#[allow(unused_imports)]
use crate::chart::{indexes, timed_lists, Chart, PositionRange};
#[allow(unused_imports)]
use crate::event::{
    timed_list, BgaLayer, BmpId, BmsEvent, ChartEvent, PlayheadEvent, Seconds, YCoordinate,
};
#[allow(unused_imports)]
use crate::events::{
    all_events, argb_event, bar_line, bar_lines, bga_event, bgm_volume_event, bpm_event,
    bpm_u8_event, events_of, found_note, judge_event, key_volume_event, keybound_event, last_y,
    note_events, numbered, object_events, opacity_event, option_event, placed_notes, scroll_event,
    seek_event, speed_event, stop_beats, stop_event, text_event, tracks_up_to, Found, Timed,
};
#[allow(unused_imports)]
use crate::num::{group_patterns, PositiveF64};
#[allow(unused_imports)]
use crate::position::{grouped, items_at, lemma_grouped};
#[allow(unused_imports)]
use crate::process::is_chart_at;
#[allow(unused_imports)]
use crate::rounding::{lemma_order, lemma_small_whole, magnitude, whole_of, UNIT_SCALE};
#[allow(unused_imports)]
use crate::sorting::{inserted, sorted};
#[allow(unused_imports)]
use crate::time::{ObjTime, Track};
#[allow(unused_imports)]
use crate::timeline::time_at;
#[allow(unused_imports)]
use crate::y_memo::{bpm_of_u8, layout_of, nonzero, Layout};
#[allow(unused_imports)]
use vstd::arithmetic::power2::pow2;
use vstd::prelude::*;

verus! {

/// How many of several things are as asked for.
pub open spec fn count<A>(s: Seq<A>, p: spec_fn(A) -> bool) -> nat
    decreases s.len(),
{
    if s.len() == 0 {
        0
    } else {
        count(s.drop_last(), p) + if p(s.last()) {
            1nat
        } else {
            0nat
        }
    }
}

/// Counting in two parts.
pub proof fn lemma_count_add<A>(a: Seq<A>, b: Seq<A>, p: spec_fn(A) -> bool)
    ensures
        count(a + b, p) == count(a, p) + count(b, p),
    decreases b.len(),
{
    if b.len() == 0 {
        assert(a + b =~= a);
    } else {
        assert((a + b).drop_last() =~= a + b.drop_last());
        lemma_count_add(a, b.drop_last(), p);
    }
}

/// Counting one thing more.
pub proof fn lemma_count_push<A>(a: Seq<A>, x: A, p: spec_fn(A) -> bool)
    ensures
        count(a.push(x), p) == count(a, p) + if p(x) {
            1nat
        } else {
            0nat
        },
{
    assert(a.push(x).drop_last() =~= a);
}

/// Things that correspond are as many.
pub proof fn lemma_count_same<A, B>(
    a: Seq<A>,
    p: spec_fn(A) -> bool,
    b: Seq<B>,
    q: spec_fn(B) -> bool,
)
    requires
        a.len() == b.len(),
        forall|i: int| 0 <= i < a.len() ==> p(#[trigger] a[i]) == q(b[i]),
    ensures
        count(a, p) == count(b, q),
    decreases a.len(),
{
    if a.len() > 0 {
        let front = a.drop_last();
        assert forall|i: int| 0 <= i < front.len() implies p(#[trigger] front[i]) == q(
            b.drop_last()[i],
        ) by {
            assert(front[i] == a[i]);
        }
        assert(p(a[a.len() - 1]) == q(b[a.len() - 1]));
        lemma_count_same(front, p, b.drop_last(), q);
    }
}

/// Nothing is counted where nothing is as asked for.
pub proof fn lemma_count_none<A>(s: Seq<A>, p: spec_fn(A) -> bool)
    requires
        forall|i: int| 0 <= i < s.len() ==> !p(#[trigger] s[i]),
    ensures
        count(s, p) == 0,
    decreases s.len(),
{
    if s.len() > 0 {
        let front = s.drop_last();
        assert forall|i: int| 0 <= i < front.len() implies !p(#[trigger] front[i]) by {
            assert(front[i] == s[i]);
        }
        assert(!p(s[s.len() - 1]));
        lemma_count_none(front, p);
    }
}

/// What is there is counted.
pub proof fn lemma_counted<A>(s: Seq<A>, p: spec_fn(A) -> bool, i: int)
    requires
        0 <= i < s.len(),
        p(s[i]),
    ensures
        count(s, p) > 0,
    decreases s.len(),
{
    if i < s.len() - 1 {
        lemma_counted(s.drop_last(), p, i);
    }
}

/// What is counted is there.
pub proof fn lemma_some_counted<A>(s: Seq<A>, p: spec_fn(A) -> bool) -> (i: int)
    requires
        count(s, p) > 0,
    ensures
        0 <= i < s.len(),
        p(s[i]),
    decreases s.len(),
{
    if p(s.last()) {
        s.len() - 1
    } else {
        lemma_some_counted(s.drop_last(), p)
    }
}

/// Sorting neither loses nor adds.
proof fn lemma_count_inserted<V>(
    s: Seq<(YCoordinate, V)>,
    entry: (YCoordinate, V),
    p: spec_fn((YCoordinate, V)) -> bool,
)
    ensures
        count(inserted(s, entry), p) == count(s, p) + if p(entry) {
            1nat
        } else {
            0nat
        },
    decreases s.len(),
{
    if s.len() == 0 || s.last().0@ <= entry.0@ {
        lemma_count_push(s, entry, p);
    } else {
        lemma_count_inserted(s.drop_last(), entry, p);
        lemma_count_push(inserted(s.drop_last(), entry), s.last(), p);
    }
}

/// Sorting neither loses nor adds.
pub proof fn lemma_count_sorted<V>(s: Seq<(YCoordinate, V)>, p: spec_fn((YCoordinate, V)) -> bool)
    ensures
        count(sorted(s), p) == count(s, p),
    decreases s.len(),
{
    if s.len() > 0 {
        lemma_count_sorted(s.drop_last(), p);
        lemma_count_inserted(sorted(s.drop_last()), s.last(), p);
    }
}

/// A question about the place of an event and what happens there.
pub type Question = spec_fn((u64, u64, ChartEvent)) -> bool;

/// The question, put to an event of a chart.
pub open spec fn asks_event(p: Question) -> spec_fn(PlayheadEvent) -> bool {
    |e: PlayheadEvent| p((e.position@, e.unspaced@, e.event))
}

/// The question, put to an event that was found.
pub open spec fn asks_found(p: Question) -> spec_fn(Found) -> bool {
    |f: Found| p((f.y, f.unspaced, f.event))
}

/// The question, put to an event that was found at one of the given positions.
spec fn asks_found_at(p: Question, positions: Set<u64>) -> spec_fn(Found) -> bool {
    |f: Found| p((f.y, f.unspaced, f.event)) && positions.contains(f.y)
}

/// The list of a position holds what was found there.
proof fn lemma_count_list(
    found: Seq<Found>,
    y: u64,
    time_of: spec_fn(u64) -> Seconds,
    p: Question,
)
    ensures
        count(timed_list(items_at(numbered(found), y), time_of), asks_event(p)) == count(
            found,
            asks_found_at(p, Set::empty().insert(y)),
        ),
    decreases found.len(),
{
    broadcast use group_patterns;

    if found.len() > 0 {
        let front = found.drop_last();
        let items = numbered(found);
        lemma_count_list(front, y, time_of, p);
        assert(items.drop_last() =~= numbered(front));
        let before = items_at(numbered(front), y);
        let last = items.last().1;
        if found.last().y == y {
            assert(timed_list(before.push(last), time_of) =~= timed_list(before, time_of).push(
                timed_list(before.push(last), time_of).last(),
            ));
            lemma_count_push(
                timed_list(before, time_of),
                timed_list(before.push(last), time_of).last(),
                asks_event(p),
            );
        }
    } else {
        assert(timed_list(items_at(numbered(found), y), time_of) =~= Seq::empty());
    }
}

/// Counting at one position more.
proof fn lemma_count_one_more(found: Seq<Found>, p: Question, positions: Set<u64>, y: u64)
    requires
        !positions.contains(y),
    ensures
        count(found, asks_found_at(p, positions.insert(y))) == count(
            found,
            asks_found_at(p, positions),
        ) + count(found, asks_found_at(p, Set::empty().insert(y))),
    decreases found.len(),
{
    if found.len() > 0 {
        lemma_count_one_more(found.drop_last(), p, positions, y);
    }
}

/// The first positions of an index.
spec fn first_of(by_y: Seq<PositionRange>, n: int) -> Set<u64> {
    Set::new(|y: u64| exists|i: int| 0 <= i < n && (#[trigger] by_y[i]).position@ == y)
}

/// The events of the first positions of an index.
proof fn lemma_count_first(
    events: Seq<PlayheadEvent>,
    by_y: Seq<PositionRange>,
    found: Seq<Found>,
    time_of: spec_fn(u64) -> Seconds,
    p: Question,
    n: int,
)
    requires
        indexes(events, by_y, timed_lists(grouped(numbered(found)), time_of)),
        0 <= n <= by_y.len(),
    ensures
        count(
            events.take(
                if n == 0 {
                    0
                } else {
                    by_y[n - 1].end as int
                },
            ),
            asks_event(p),
        ) == count(found, asks_found_at(p, first_of(by_y, n))),
    decreases n,
{
    if n == 0 {
        assert(first_of(by_y, 0) =~= Set::empty());
        lemma_count_none(found, asks_found_at(p, Set::empty()));
        assert(events.take(0) =~= Seq::empty());
    } else {
        let range = by_y[n - 1];
        let y = range.position@;
        let before = first_of(by_y, n - 1);
        let lists = timed_lists(grouped(numbered(found)), time_of);
        lemma_count_first(events, by_y, found, time_of, p, n - 1);
        if n > 1 {
            assert(by_y[n - 2].end == by_y[n - 1].start);
        }
        assert(lists.dom().contains(y));
        assert(lists[y] == events.subrange(range.start as int, range.end as int));
        let head = events.take(range.start as int);
        assert(events.take(range.end as int) =~= head + lists[y]);
        lemma_count_add(head, lists[y], asks_event(p));
        lemma_grouped(numbered(found), y);
        lemma_count_list(found, y, time_of, p);
        assert(!before.contains(y)) by {
            if before.contains(y) {
                let i = choose|i: int| 0 <= i < n - 1 && (#[trigger] by_y[i]).position@ == y;
                assert(by_y[i].position@ < by_y[n - 1].position@);
            }
        }
        lemma_count_one_more(found, p, before, y);
        assert forall|z: u64| first_of(by_y, n).contains(z) == before.insert(y).contains(z) by {
            if before.contains(z) {
                let i = choose|i: int| 0 <= i < n - 1 && (#[trigger] by_y[i]).position@ == z;
                assert(by_y[i].position@ == z);
            }
            if z == y {
                assert(by_y[n - 1].position@ == z);
            }
        }
        assert(first_of(by_y, n) =~= before.insert(y));
    }
}

/// The events of a chart are those that were found: listing them by position and timing
/// them neither loses, adds nor moves any.
pub proof fn lemma_chart_holds_found<T: KeyLayoutMapper>(
    chart: Chart,
    bms: Bms,
    init_bpm: PositiveF64,
    p: Question,
)
    requires
        is_chart_at::<T>(chart, bms, init_bpm),
        indexes(chart.events.spec_events(), chart.events.spec_by_y(), chart.events@),
    ensures
        count(chart.events.spec_events(), asks_event(p)) == count(
            all_events::<T>(bms, layout_of(bms)),
            asks_found(p),
        ),
{
    let layout = layout_of(bms);
    let found = all_events::<T>(bms, layout);
    let points = chart.events.spec_points();
    let time_of = |unspaced: u64| time_at(bms, layout, init_bpm, points, unspaced);
    let events = chart.events.spec_events();
    let by_y = chart.events.spec_by_y();
    let items = numbered(found);
    let n = by_y.len() as int;
    lemma_count_first(events, by_y, found, time_of, p, n);
    if n > 0 {
        assert(by_y[n - 1] == by_y.last());
    }
    assert(events.take(events.len() as int) =~= events);
    assert forall|i: int| 0 <= i < found.len() implies asks_found_at(p, first_of(by_y, n))(
        #[trigger] found[i],
    ) == asks_found(p)(found[i]) by {
        let y = found[i].y;
        assert(items[i].0 == y);
        lemma_grouped(items, y);
        assert(chart.events@.dom().contains(y));
        let k = choose|k: int| 0 <= k < by_y.len() && (#[trigger] by_y[k]).position@ == y;
        assert(by_y[k].position@ == y);
    }
    lemma_count_same(found, asks_found_at(p, first_of(by_y, n)), found, asks_found(p));
}

/// The question whether an event happens at a position, and at a position without spacing.
pub open spec fn exactly(y: u64, unspaced: u64, event: ChartEvent) -> Question {
    |x: (u64, u64, ChartEvent)| x == (y, unspaced, event)
}

/// Whether a time stands at a position, and at a position without spacing.
pub open spec fn stands_at(layout: Layout, time: ObjTime, y: u64, unspaced: u64) -> bool {
    layout.y(time) == y && layout.unspaced().y(time) == unspaced
}

/// How many events of a chart are exactly so.
pub open spec fn event_count(chart: Chart, y: u64, unspaced: u64, event: ChartEvent) -> nat {
    count(chart.events.spec_events(), asks_event(exactly(y, unspaced, event)))
}

/// The question whether an object has an event.
pub open spec fn has_event<V>(
    layout: Layout,
    event_of: spec_fn((ObjTime, V)) -> Timed,
    y: u64,
    unspaced: u64,
    event: ChartEvent,
) -> spec_fn((ObjTime, V)) -> bool {
    |e: (ObjTime, V)| event_of(e).1 == event && stands_at(layout, event_of(e).0, y, unspaced)
}

/// The objects of one sort that have an event.
proof fn lemma_count_sort<V>(
    layout: Layout,
    s: Seq<(ObjTime, V)>,
    event_of: spec_fn((ObjTime, V)) -> Timed,
    y: u64,
    unspaced: u64,
    event: ChartEvent,
    matching: bool,
)
    requires
        !matching ==> forall|e: (ObjTime, V)| (#[trigger] event_of(e)).1 != event,
    ensures
        count(events_of(layout, s, event_of), asks_found(exactly(y, unspaced, event))) == count(
            s,
            has_event(layout, event_of, y, unspaced, event),
        ),
        !matching ==> count(s, has_event(layout, event_of, y, unspaced, event)) == 0,
{
    let p = asks_found(exactly(y, unspaced, event));
    let q = has_event(layout, event_of, y, unspaced, event);
    let found = events_of(layout, s, event_of);
    assert forall|i: int| 0 <= i < found.len() implies p(#[trigger] found[i]) == q(s[i]) by {}
    lemma_count_same(found, p, s, q);
    if !matching {
        lemma_count_none(s, q);
    }
}

/// The events of notes are not those of other objects.
pub proof fn lemma_count_no_notes<T: KeyLayoutMapper>(
    bms: Bms,
    layout: Layout,
    s: Seq<(YCoordinate, WavObj)>,
    p: Question,
)
    requires
        forall|x: (u64, u64, ChartEvent)| #[trigger] p(x) ==> !(x.2 is Note) && !(x.2 is Bgm),
    ensures
        count(note_events::<T>(bms, layout, s), asks_found(p)) == 0,
    decreases s.len(),
{
    if s.len() > 0 {
        lemma_count_no_notes::<T>(bms, layout, s.drop_last(), p);
        let earlier = note_events::<T>(bms, layout, s.drop_last());
        lemma_count_push(earlier, found_note::<T>(bms, layout, s.last()), asks_found(p));
    }
}

/// Measure lines are not the events of objects.
pub proof fn lemma_count_no_lines(layout: Layout, tracks: nat, last: u64, p: Question)
    requires
        forall|x: (u64, u64, ChartEvent)| #[trigger] p(x) ==> !(x.2 is BarLine),
    ensures
        count(bar_lines(layout, tracks, last), asks_found(p)) == 0,
    decreases tracks,
{
    if tracks > 0 {
        lemma_count_no_lines(layout, (tracks - 1) as nat, last, p);
        let earlier = bar_lines(layout, (tracks - 1) as nat, last);
        lemma_count_push(
            earlier,
            bar_line(layout, Track((tracks - 1) as u64)),
            asks_found(p),
        );
    }
}

/// The events that were found, sort by sort.
#[verifier::rlimit(40)]
pub proof fn lemma_count_sorts<T: KeyLayoutMapper>(
    bms: Bms,
    layout: Layout,
    speeds: Seq<(ObjTime, SpeedObj)>,
    y: u64,
    unspaced: u64,
    event: ChartEvent,
)
    ensures
        ({
            let p = asks_found(exactly(y, unspaced, event));
            let notes = note_events::<T>(bms, layout, sorted(placed_notes(layout, bms.wav.notes@)));
            count(object_events::<T>(bms, layout, speeds), p) == count(notes, p)
                + count(bms.bpm.bpm_changes@, has_event::<BpmChangeObj>(layout, |e| bpm_event(e), y, unspaced, event))
                + count(nonzero(bms.bpm.bpm_changes_u8@), has_event::<u8>(layout, |e| bpm_u8_event(e), y, unspaced, event))
                + count(bms.scroll.scrolling_factor_changes@, has_event::<ScrollingFactorObj>(layout, |e| scroll_event(e), y, unspaced, event))
                + count(speeds, has_event::<SpeedObj>(layout, |e| speed_event(e), y, unspaced, event))
                + count(bms.stop.stops@, has_event::<StopObj>(layout, |e| stop_event(e), y, unspaced, event))
                + count(bms.bmp.bga_changes@, has_event::<BgaObj>(layout, |e| bga_event(e), y, unspaced, event))
                + count(bms.bmp.bga_opacity_changes.base@, has_event::<BgaOpacityObj>(layout, |e| opacity_event(BgaLayer::Base, e), y, unspaced, event))
                + count(bms.bmp.bga_opacity_changes.poor@, has_event::<BgaOpacityObj>(layout, |e| opacity_event(BgaLayer::Poor, e), y, unspaced, event))
                + count(bms.bmp.bga_opacity_changes.overlay@, has_event::<BgaOpacityObj>(layout, |e| opacity_event(BgaLayer::Overlay, e), y, unspaced, event))
                + count(bms.bmp.bga_opacity_changes.overlay2@, has_event::<BgaOpacityObj>(layout, |e| opacity_event(BgaLayer::Overlay2, e), y, unspaced, event))
                + count(bms.bmp.bga_argb_changes.base@, has_event::<BgaArgbObj>(layout, |e| argb_event(BgaLayer::Base, e), y, unspaced, event))
                + count(bms.bmp.bga_argb_changes.poor@, has_event::<BgaArgbObj>(layout, |e| argb_event(BgaLayer::Poor, e), y, unspaced, event))
                + count(bms.bmp.bga_argb_changes.overlay@, has_event::<BgaArgbObj>(layout, |e| argb_event(BgaLayer::Overlay, e), y, unspaced, event))
                + count(bms.bmp.bga_argb_changes.overlay2@, has_event::<BgaArgbObj>(layout, |e| argb_event(BgaLayer::Overlay2, e), y, unspaced, event))
                + count(bms.volume.bgm_volume_changes@, has_event::<VolumeObj>(layout, |e| bgm_volume_event(e), y, unspaced, event))
                + count(bms.volume.key_volume_changes@, has_event::<VolumeObj>(layout, |e| key_volume_event(e), y, unspaced, event))
                + count(bms.text.text_events@, has_event::<TextObj>(layout, |e| text_event(e), y, unspaced, event))
                + count(bms.judge.judge_events@, has_event::<JudgeObj>(layout, |e| judge_event(e), y, unspaced, event))
                + count(bms.video.seek_events@, has_event::<SeekObj>(layout, |e| seek_event(e), y, unspaced, event))
                + count(bms.bmp.bga_keybound_events@, has_event::<BgaKeyboundObj>(layout, |e| keybound_event(e), y, unspaced, event))
                + count(bms.option.option_events@, has_event::<OptionObj>(layout, |e| option_event(e), y, unspaced, event))
        }),
        !(event is BpmChange) ==> count(
            bms.bpm.bpm_changes@,
            has_event::<BpmChangeObj>(layout, |e| bpm_event(e), y, unspaced, event),
        ) == 0,
        !(event is BpmChange) ==> count(
            nonzero(bms.bpm.bpm_changes_u8@),
            has_event::<u8>(layout, |e| bpm_u8_event(e), y, unspaced, event),
        ) == 0,
        !(event is ScrollChange) ==> count(
            bms.scroll.scrolling_factor_changes@,
            has_event::<ScrollingFactorObj>(layout, |e| scroll_event(e), y, unspaced, event),
        ) == 0,
        !(event is SpeedChange) ==> count(
            speeds,
            has_event::<SpeedObj>(layout, |e| speed_event(e), y, unspaced, event),
        ) == 0,
        !(event is Stop) ==> count(
            bms.stop.stops@,
            has_event::<StopObj>(layout, |e| stop_event(e), y, unspaced, event),
        ) == 0,
        !(event is BgaChange) ==> count(
            bms.bmp.bga_changes@,
            has_event::<BgaObj>(layout, |e| bga_event(e), y, unspaced, event),
        ) == 0,
        !(event matches ChartEvent::Bms(BmsEvent::BgaOpacityChange { layer, .. }) && layer == BgaLayer::Base) ==> count(
            bms.bmp.bga_opacity_changes.base@,
            has_event::<BgaOpacityObj>(layout, |e| opacity_event(BgaLayer::Base, e), y, unspaced, event),
        ) == 0,
        !(event matches ChartEvent::Bms(BmsEvent::BgaOpacityChange { layer, .. }) && layer == BgaLayer::Poor) ==> count(
            bms.bmp.bga_opacity_changes.poor@,
            has_event::<BgaOpacityObj>(layout, |e| opacity_event(BgaLayer::Poor, e), y, unspaced, event),
        ) == 0,
        !(event matches ChartEvent::Bms(BmsEvent::BgaOpacityChange { layer, .. }) && layer == BgaLayer::Overlay) ==> count(
            bms.bmp.bga_opacity_changes.overlay@,
            has_event::<BgaOpacityObj>(layout, |e| opacity_event(BgaLayer::Overlay, e), y, unspaced, event),
        ) == 0,
        !(event matches ChartEvent::Bms(BmsEvent::BgaOpacityChange { layer, .. }) && layer == BgaLayer::Overlay2) ==> count(
            bms.bmp.bga_opacity_changes.overlay2@,
            has_event::<BgaOpacityObj>(layout, |e| opacity_event(BgaLayer::Overlay2, e), y, unspaced, event),
        ) == 0,
        !(event matches ChartEvent::Bms(BmsEvent::BgaArgbChange { layer, .. }) && layer == BgaLayer::Base) ==> count(
            bms.bmp.bga_argb_changes.base@,
            has_event::<BgaArgbObj>(layout, |e| argb_event(BgaLayer::Base, e), y, unspaced, event),
        ) == 0,
        !(event matches ChartEvent::Bms(BmsEvent::BgaArgbChange { layer, .. }) && layer == BgaLayer::Poor) ==> count(
            bms.bmp.bga_argb_changes.poor@,
            has_event::<BgaArgbObj>(layout, |e| argb_event(BgaLayer::Poor, e), y, unspaced, event),
        ) == 0,
        !(event matches ChartEvent::Bms(BmsEvent::BgaArgbChange { layer, .. }) && layer == BgaLayer::Overlay) ==> count(
            bms.bmp.bga_argb_changes.overlay@,
            has_event::<BgaArgbObj>(layout, |e| argb_event(BgaLayer::Overlay, e), y, unspaced, event),
        ) == 0,
        !(event matches ChartEvent::Bms(BmsEvent::BgaArgbChange { layer, .. }) && layer == BgaLayer::Overlay2) ==> count(
            bms.bmp.bga_argb_changes.overlay2@,
            has_event::<BgaArgbObj>(layout, |e| argb_event(BgaLayer::Overlay2, e), y, unspaced, event),
        ) == 0,
        !(event matches ChartEvent::Bms(BmsEvent::BgmVolumeChange { .. })) ==> count(
            bms.volume.bgm_volume_changes@,
            has_event::<VolumeObj>(layout, |e| bgm_volume_event(e), y, unspaced, event),
        ) == 0,
        !(event matches ChartEvent::Bms(BmsEvent::KeyVolumeChange { .. })) ==> count(
            bms.volume.key_volume_changes@,
            has_event::<VolumeObj>(layout, |e| key_volume_event(e), y, unspaced, event),
        ) == 0,
        !(event matches ChartEvent::Bms(BmsEvent::TextDisplay { .. })) ==> count(
            bms.text.text_events@,
            has_event::<TextObj>(layout, |e| text_event(e), y, unspaced, event),
        ) == 0,
        !(event matches ChartEvent::Bms(BmsEvent::JudgeLevelChange { .. })) ==> count(
            bms.judge.judge_events@,
            has_event::<JudgeObj>(layout, |e| judge_event(e), y, unspaced, event),
        ) == 0,
        !(event matches ChartEvent::Bms(BmsEvent::VideoSeek { .. })) ==> count(
            bms.video.seek_events@,
            has_event::<SeekObj>(layout, |e| seek_event(e), y, unspaced, event),
        ) == 0,
        !(event matches ChartEvent::Bms(BmsEvent::BgaKeybound { .. })) ==> count(
            bms.bmp.bga_keybound_events@,
            has_event::<BgaKeyboundObj>(layout, |e| keybound_event(e), y, unspaced, event),
        ) == 0,
        !(event matches ChartEvent::Bms(BmsEvent::OptionChange { .. })) ==> count(
            bms.option.option_events@,
            has_event::<OptionObj>(layout, |e| option_event(e), y, unspaced, event),
        ) == 0,
{
    let p = asks_found(exactly(y, unspaced, event));
    let s = note_events::<T>(bms, layout, sorted(placed_notes(layout, bms.wav.notes@)));
    let more = events_of::<BpmChangeObj>(layout, bms.bpm.bpm_changes@, |e| bpm_event(e));
    lemma_count_sort::<BpmChangeObj>(layout, bms.bpm.bpm_changes@, |e| bpm_event(e), y, unspaced, event, event is BpmChange);
    lemma_count_add(s, more, p);
    let s = s + more;
    let more = events_of::<u8>(layout, nonzero(bms.bpm.bpm_changes_u8@), |e| bpm_u8_event(e));
    lemma_count_sort::<u8>(layout, nonzero(bms.bpm.bpm_changes_u8@), |e| bpm_u8_event(e), y, unspaced, event, event is BpmChange);
    lemma_count_add(s, more, p);
    let s = s + more;
    let more = events_of::<ScrollingFactorObj>(layout, bms.scroll.scrolling_factor_changes@, |e| scroll_event(e));
    lemma_count_sort::<ScrollingFactorObj>(layout, bms.scroll.scrolling_factor_changes@, |e| scroll_event(e), y, unspaced, event, event is ScrollChange);
    lemma_count_add(s, more, p);
    let s = s + more;
    let more = events_of::<SpeedObj>(layout, speeds, |e| speed_event(e));
    lemma_count_sort::<SpeedObj>(layout, speeds, |e| speed_event(e), y, unspaced, event, event is SpeedChange);
    lemma_count_add(s, more, p);
    let s = s + more;
    let more = events_of::<StopObj>(layout, bms.stop.stops@, |e| stop_event(e));
    lemma_count_sort::<StopObj>(layout, bms.stop.stops@, |e| stop_event(e), y, unspaced, event, event is Stop);
    lemma_count_add(s, more, p);
    let s = s + more;
    let more = events_of::<BgaObj>(layout, bms.bmp.bga_changes@, |e| bga_event(e));
    lemma_count_sort::<BgaObj>(layout, bms.bmp.bga_changes@, |e| bga_event(e), y, unspaced, event, event is BgaChange);
    lemma_count_add(s, more, p);
    let s = s + more;
    let more = events_of::<BgaOpacityObj>(layout, bms.bmp.bga_opacity_changes.base@, |e| opacity_event(BgaLayer::Base, e));
    lemma_count_sort::<BgaOpacityObj>(layout, bms.bmp.bga_opacity_changes.base@, |e| opacity_event(BgaLayer::Base, e), y, unspaced, event, event matches ChartEvent::Bms(BmsEvent::BgaOpacityChange { layer, .. }) && layer == BgaLayer::Base);
    let layers = more;
    let more = events_of::<BgaOpacityObj>(layout, bms.bmp.bga_opacity_changes.poor@, |e| opacity_event(BgaLayer::Poor, e));
    lemma_count_sort::<BgaOpacityObj>(layout, bms.bmp.bga_opacity_changes.poor@, |e| opacity_event(BgaLayer::Poor, e), y, unspaced, event, event matches ChartEvent::Bms(BmsEvent::BgaOpacityChange { layer, .. }) && layer == BgaLayer::Poor);
    lemma_count_add(layers, more, p);
    let layers = layers + more;
    let more = events_of::<BgaOpacityObj>(layout, bms.bmp.bga_opacity_changes.overlay@, |e| opacity_event(BgaLayer::Overlay, e));
    lemma_count_sort::<BgaOpacityObj>(layout, bms.bmp.bga_opacity_changes.overlay@, |e| opacity_event(BgaLayer::Overlay, e), y, unspaced, event, event matches ChartEvent::Bms(BmsEvent::BgaOpacityChange { layer, .. }) && layer == BgaLayer::Overlay);
    lemma_count_add(layers, more, p);
    let layers = layers + more;
    let more = events_of::<BgaOpacityObj>(layout, bms.bmp.bga_opacity_changes.overlay2@, |e| opacity_event(BgaLayer::Overlay2, e));
    lemma_count_sort::<BgaOpacityObj>(layout, bms.bmp.bga_opacity_changes.overlay2@, |e| opacity_event(BgaLayer::Overlay2, e), y, unspaced, event, event matches ChartEvent::Bms(BmsEvent::BgaOpacityChange { layer, .. }) && layer == BgaLayer::Overlay2);
    lemma_count_add(layers, more, p);
    let layers = layers + more;
    lemma_count_add(s, layers, p);
    let s = s + layers;
    let more = events_of::<BgaArgbObj>(layout, bms.bmp.bga_argb_changes.base@, |e| argb_event(BgaLayer::Base, e));
    lemma_count_sort::<BgaArgbObj>(layout, bms.bmp.bga_argb_changes.base@, |e| argb_event(BgaLayer::Base, e), y, unspaced, event, event matches ChartEvent::Bms(BmsEvent::BgaArgbChange { layer, .. }) && layer == BgaLayer::Base);
    let layers = more;
    let more = events_of::<BgaArgbObj>(layout, bms.bmp.bga_argb_changes.poor@, |e| argb_event(BgaLayer::Poor, e));
    lemma_count_sort::<BgaArgbObj>(layout, bms.bmp.bga_argb_changes.poor@, |e| argb_event(BgaLayer::Poor, e), y, unspaced, event, event matches ChartEvent::Bms(BmsEvent::BgaArgbChange { layer, .. }) && layer == BgaLayer::Poor);
    lemma_count_add(layers, more, p);
    let layers = layers + more;
    let more = events_of::<BgaArgbObj>(layout, bms.bmp.bga_argb_changes.overlay@, |e| argb_event(BgaLayer::Overlay, e));
    lemma_count_sort::<BgaArgbObj>(layout, bms.bmp.bga_argb_changes.overlay@, |e| argb_event(BgaLayer::Overlay, e), y, unspaced, event, event matches ChartEvent::Bms(BmsEvent::BgaArgbChange { layer, .. }) && layer == BgaLayer::Overlay);
    lemma_count_add(layers, more, p);
    let layers = layers + more;
    let more = events_of::<BgaArgbObj>(layout, bms.bmp.bga_argb_changes.overlay2@, |e| argb_event(BgaLayer::Overlay2, e));
    lemma_count_sort::<BgaArgbObj>(layout, bms.bmp.bga_argb_changes.overlay2@, |e| argb_event(BgaLayer::Overlay2, e), y, unspaced, event, event matches ChartEvent::Bms(BmsEvent::BgaArgbChange { layer, .. }) && layer == BgaLayer::Overlay2);
    lemma_count_add(layers, more, p);
    let layers = layers + more;
    lemma_count_add(s, layers, p);
    let s = s + layers;
    let more = events_of::<VolumeObj>(layout, bms.volume.bgm_volume_changes@, |e| bgm_volume_event(e));
    lemma_count_sort::<VolumeObj>(layout, bms.volume.bgm_volume_changes@, |e| bgm_volume_event(e), y, unspaced, event, event matches ChartEvent::Bms(BmsEvent::BgmVolumeChange { .. }));
    lemma_count_add(s, more, p);
    let s = s + more;
    let more = events_of::<VolumeObj>(layout, bms.volume.key_volume_changes@, |e| key_volume_event(e));
    lemma_count_sort::<VolumeObj>(layout, bms.volume.key_volume_changes@, |e| key_volume_event(e), y, unspaced, event, event matches ChartEvent::Bms(BmsEvent::KeyVolumeChange { .. }));
    lemma_count_add(s, more, p);
    let s = s + more;
    let more = events_of::<TextObj>(layout, bms.text.text_events@, |e| text_event(e));
    lemma_count_sort::<TextObj>(layout, bms.text.text_events@, |e| text_event(e), y, unspaced, event, event matches ChartEvent::Bms(BmsEvent::TextDisplay { .. }));
    lemma_count_add(s, more, p);
    let s = s + more;
    let more = events_of::<JudgeObj>(layout, bms.judge.judge_events@, |e| judge_event(e));
    lemma_count_sort::<JudgeObj>(layout, bms.judge.judge_events@, |e| judge_event(e), y, unspaced, event, event matches ChartEvent::Bms(BmsEvent::JudgeLevelChange { .. }));
    lemma_count_add(s, more, p);
    let s = s + more;
    let more = events_of::<SeekObj>(layout, bms.video.seek_events@, |e| seek_event(e));
    lemma_count_sort::<SeekObj>(layout, bms.video.seek_events@, |e| seek_event(e), y, unspaced, event, event matches ChartEvent::Bms(BmsEvent::VideoSeek { .. }));
    lemma_count_add(s, more, p);
    let s = s + more;
    let more = events_of::<BgaKeyboundObj>(layout, bms.bmp.bga_keybound_events@, |e| keybound_event(e));
    lemma_count_sort::<BgaKeyboundObj>(layout, bms.bmp.bga_keybound_events@, |e| keybound_event(e), y, unspaced, event, event matches ChartEvent::Bms(BmsEvent::BgaKeybound { .. }));
    lemma_count_add(s, more, p);
    let s = s + more;
    let more = events_of::<OptionObj>(layout, bms.option.option_events@, |e| option_event(e));
    lemma_count_sort::<OptionObj>(layout, bms.option.option_events@, |e| option_event(e), y, unspaced, event, event matches ChartEvent::Bms(BmsEvent::OptionChange { .. }));
    lemma_count_add(s, more, p);
    let s = s + more;
    assert(s == object_events::<T>(bms, layout, speeds));
}

/// Values of zero are no changes.
proof fn lemma_count_nonzero(s: Seq<(ObjTime, u8)>, p: spec_fn((ObjTime, u8)) -> bool)
    ensures
        count(nonzero(s), p) == count(s, |e: (ObjTime, u8)| e.1 != 0 && p(e)),
    decreases s.len(),
{
    reveal(Seq::filter);
    if s.len() > 0 {
        lemma_count_nonzero(s.drop_last(), p);
        if s.last().1 != 0 {
            lemma_count_push(nonzero(s.drop_last()), s.last(), p);
        }
    }
}

/// The tempo that a byte other than zero stands for is that number of beats per minute.
pub proof fn lemma_bpm_of_u8(n: u8, bpm: PositiveF64)
    requires
        n != 0,
    ensures
        bpm_of_u8(n) == bpm <==> magnitude(bpm@ as nat) == n * pow2(UNIT_SCALE as nat),
{
    broadcast use group_patterns;

    lemma_small_whole(n as u64);
    let bits = whole_of(n as u64)->0;
    lemma_order(bits as nat, bpm@ as nat);
    lemma_order(bpm@ as nat, bits as nat);
    assert(PositiveF64::of(bpm@) == bpm);
}

/// Every object other than a note has its event, and there are no others: an event happens
/// as often as there are objects that stand for it, at the positions of their times. A
/// tempo given in place counts unless it is zero.
#[verifier::rlimit(40)]
pub proof fn lemma_events_of_objects<T: KeyLayoutMapper>(
    chart: Chart,
    bms: Bms,
    init_bpm: PositiveF64,
    y: u64,
    unspaced: u64,
    event: ChartEvent,
)
    requires
        is_chart_at::<T>(chart, bms, init_bpm),
        indexes(chart.events.spec_events(), chart.events.spec_by_y(), chart.events@),
    ensures
        match event {
            ChartEvent::BpmChange { bpm } => event_count(chart, y, unspaced, event) == count(
                bms.bpm.bpm_changes@,
                |e: (ObjTime, BpmChangeObj)|
                    e.1.bpm == bpm && stands_at(layout_of(bms), e.1.time, y, unspaced),
            ) + count(
                bms.bpm.bpm_changes_u8@,
                |e: (ObjTime, u8)|
                    e.1 != 0 && magnitude(bpm@ as nat) == e.1 * pow2(
                        UNIT_SCALE as nat,
                    ) && stands_at(layout_of(bms), e.0, y, unspaced),
            ),
            ChartEvent::ScrollChange { factor } => event_count(chart, y, unspaced, event) == count(
                bms.scroll.scrolling_factor_changes@,
                |e: (ObjTime, ScrollingFactorObj)|
                    e.1.factor == factor && stands_at(layout_of(bms), e.1.time, y, unspaced),
            ),
            ChartEvent::SpeedChange { factor } => event_count(chart, y, unspaced, event) == count(
                bms.speed.speed_factor_changes@,
                |e: (ObjTime, SpeedObj)|
                    e.1.factor == factor && stands_at(layout_of(bms), e.1.time, y, unspaced),
            ),
            ChartEvent::Stop { duration } => event_count(chart, y, unspaced, event) == count(
                bms.stop.stops@,
                |e: (ObjTime, StopObj)|
                    stop_beats(e.1.duration) == duration && stands_at(layout_of(bms), e.1.time, y, unspaced),
            ),
            ChartEvent::BgaChange { layer, bmp_id } => event_count(chart, y, unspaced, event) == count(
                bms.bmp.bga_changes@,
                |e: (ObjTime, BgaObj)|
                    e.1.layer == layer && Some(BmpId(e.1.id.0 as usize)) == bmp_id && stands_at(layout_of(bms), e.1.time, y, unspaced),
            ),
            ChartEvent::Bms(BmsEvent::BgaOpacityChange { layer, opacity }) => event_count(chart, y, unspaced, event) == count(
                match layer {
                    BgaLayer::Base => bms.bmp.bga_opacity_changes.base@,
                    BgaLayer::Poor => bms.bmp.bga_opacity_changes.poor@,
                    BgaLayer::Overlay => bms.bmp.bga_opacity_changes.overlay@,
                    BgaLayer::Overlay2 => bms.bmp.bga_opacity_changes.overlay2@,
                },
                |e: (ObjTime, BgaOpacityObj)|
                    e.1.opacity == opacity && stands_at(layout_of(bms), e.1.time, y, unspaced),
            ),
            ChartEvent::Bms(BmsEvent::BgaArgbChange { layer, argb }) => event_count(chart, y, unspaced, event) == count(
                match layer {
                    BgaLayer::Base => bms.bmp.bga_argb_changes.base@,
                    BgaLayer::Poor => bms.bmp.bga_argb_changes.poor@,
                    BgaLayer::Overlay => bms.bmp.bga_argb_changes.overlay@,
                    BgaLayer::Overlay2 => bms.bmp.bga_argb_changes.overlay2@,
                },
                |e: (ObjTime, BgaArgbObj)|
                    e.1.argb == argb && stands_at(layout_of(bms), e.1.time, y, unspaced),
            ),
            ChartEvent::Bms(BmsEvent::BgmVolumeChange { volume }) => event_count(chart, y, unspaced, event) == count(
                bms.volume.bgm_volume_changes@,
                |e: (ObjTime, VolumeObj)|
                    e.1.volume == volume && stands_at(layout_of(bms), e.1.time, y, unspaced),
            ),
            ChartEvent::Bms(BmsEvent::KeyVolumeChange { volume }) => event_count(chart, y, unspaced, event) == count(
                bms.volume.key_volume_changes@,
                |e: (ObjTime, VolumeObj)|
                    e.1.volume == volume && stands_at(layout_of(bms), e.1.time, y, unspaced),
            ),
            ChartEvent::Bms(BmsEvent::TextDisplay { text }) => event_count(chart, y, unspaced, event) == count(
                bms.text.text_events@,
                |e: (ObjTime, TextObj)|
                    e.1.text == text && stands_at(layout_of(bms), e.1.time, y, unspaced),
            ),
            ChartEvent::Bms(BmsEvent::JudgeLevelChange { level }) => event_count(chart, y, unspaced, event) == count(
                bms.judge.judge_events@,
                |e: (ObjTime, JudgeObj)|
                    e.1.judge_level == level && stands_at(layout_of(bms), e.1.time, y, unspaced),
            ),
            ChartEvent::Bms(BmsEvent::VideoSeek { seek_time }) => event_count(chart, y, unspaced, event) == count(
                bms.video.seek_events@,
                |e: (ObjTime, SeekObj)|
                    e.1.position == seek_time && stands_at(layout_of(bms), e.1.time, y, unspaced),
            ),
            ChartEvent::Bms(BmsEvent::BgaKeybound { event: animation }) => event_count(chart, y, unspaced, event) == count(
                bms.bmp.bga_keybound_events@,
                |e: (ObjTime, BgaKeyboundObj)|
                    e.1.event == animation && stands_at(layout_of(bms), e.1.time, y, unspaced),
            ),
            ChartEvent::Bms(BmsEvent::OptionChange { option }) => event_count(chart, y, unspaced, event) == count(
                bms.option.option_events@,
                |e: (ObjTime, OptionObj)|
                    e.1.option == option && stands_at(layout_of(bms), e.1.time, y, unspaced),
            ),
            ChartEvent::Note { .. } => true,
            ChartEvent::Bgm { .. } => true,
            ChartEvent::BarLine => true,
        },
{
    let layout = layout_of(bms);
    let p = exactly(y, unspaced, event);
    let speeds = bms.speed.speed_factor_changes@;
    let objects = object_events::<T>(bms, layout, speeds);
    lemma_chart_holds_found::<T>(chart, bms, init_bpm, p);
    lemma_count_sorts::<T>(bms, layout, speeds, y, unspaced, event);
    if !(event is Note) && !(event is Bgm) && !(event is BarLine) {
        lemma_count_no_notes::<T>(bms, layout, sorted(placed_notes(layout, bms.wav.notes@)), p);
        if let Some(last) = last_y(objects) {
            let tracks = tracks_up_to(bms.spec_last_obj_time());
            lemma_count_no_lines(layout, tracks, last, p);
            lemma_count_add(objects, bar_lines(layout, tracks, last), asks_found(p));
        }
    }
    match event {
        ChartEvent::BpmChange { bpm } => {
            lemma_count_same(
                bms.bpm.bpm_changes@,
                has_event::<BpmChangeObj>(layout, |e| bpm_event(e), y, unspaced, event),
                bms.bpm.bpm_changes@,
                |e: (ObjTime, BpmChangeObj)|
                    e.1.bpm == bpm && stands_at(layout_of(bms), e.1.time, y, unspaced),
            );
            let q = has_event::<u8>(layout, |e| bpm_u8_event(e), y, unspaced, event);
            lemma_count_nonzero(bms.bpm.bpm_changes_u8@, q);
            assert forall|i: int| 0 <= i < bms.bpm.bpm_changes_u8@.len() implies ({
                let e = #[trigger] bms.bpm.bpm_changes_u8@[i];
                (e.1 != 0 && q(e)) == (e.1 != 0 && magnitude(bpm@ as nat) == e.1 * pow2(
                    UNIT_SCALE as nat,
                ) && stands_at(layout_of(bms), e.0, y, unspaced))
            }) by {
                let e = bms.bpm.bpm_changes_u8@[i];
                if e.1 != 0 {
                    lemma_bpm_of_u8(e.1, bpm);
                }
            }
            lemma_count_same(
                bms.bpm.bpm_changes_u8@,
                |e: (ObjTime, u8)| e.1 != 0 && q(e),
                bms.bpm.bpm_changes_u8@,
                |e: (ObjTime, u8)|
                    e.1 != 0 && magnitude(bpm@ as nat) == e.1 * pow2(
                        UNIT_SCALE as nat,
                    ) && stands_at(layout_of(bms), e.0, y, unspaced),
            );
        },
        ChartEvent::ScrollChange { factor } => {
            lemma_count_same(
                bms.scroll.scrolling_factor_changes@,
                has_event::<ScrollingFactorObj>(layout, |e| scroll_event(e), y, unspaced, event),
                bms.scroll.scrolling_factor_changes@,
                |e: (ObjTime, ScrollingFactorObj)|
                    e.1.factor == factor && stands_at(layout_of(bms), e.1.time, y, unspaced),
            );
        },
        ChartEvent::SpeedChange { factor } => {
            lemma_count_same(
                bms.speed.speed_factor_changes@,
                has_event::<SpeedObj>(layout, |e| speed_event(e), y, unspaced, event),
                bms.speed.speed_factor_changes@,
                |e: (ObjTime, SpeedObj)|
                    e.1.factor == factor && stands_at(layout_of(bms), e.1.time, y, unspaced),
            );
        },
        ChartEvent::Stop { duration } => {
            lemma_count_same(
                bms.stop.stops@,
                has_event::<StopObj>(layout, |e| stop_event(e), y, unspaced, event),
                bms.stop.stops@,
                |e: (ObjTime, StopObj)|
                    stop_beats(e.1.duration) == duration && stands_at(layout_of(bms), e.1.time, y, unspaced),
            );
        },
        ChartEvent::BgaChange { layer, bmp_id } => {
            lemma_count_same(
                bms.bmp.bga_changes@,
                has_event::<BgaObj>(layout, |e| bga_event(e), y, unspaced, event),
                bms.bmp.bga_changes@,
                |e: (ObjTime, BgaObj)|
                    e.1.layer == layer && Some(BmpId(e.1.id.0 as usize)) == bmp_id && stands_at(layout_of(bms), e.1.time, y, unspaced),
            );
        },
        ChartEvent::Bms(BmsEvent::BgmVolumeChange { volume }) => {
            lemma_count_same(
                bms.volume.bgm_volume_changes@,
                has_event::<VolumeObj>(layout, |e| bgm_volume_event(e), y, unspaced, event),
                bms.volume.bgm_volume_changes@,
                |e: (ObjTime, VolumeObj)|
                    e.1.volume == volume && stands_at(layout_of(bms), e.1.time, y, unspaced),
            );
        },
        ChartEvent::Bms(BmsEvent::KeyVolumeChange { volume }) => {
            lemma_count_same(
                bms.volume.key_volume_changes@,
                has_event::<VolumeObj>(layout, |e| key_volume_event(e), y, unspaced, event),
                bms.volume.key_volume_changes@,
                |e: (ObjTime, VolumeObj)|
                    e.1.volume == volume && stands_at(layout_of(bms), e.1.time, y, unspaced),
            );
        },
        ChartEvent::Bms(BmsEvent::TextDisplay { text }) => {
            lemma_count_same(
                bms.text.text_events@,
                has_event::<TextObj>(layout, |e| text_event(e), y, unspaced, event),
                bms.text.text_events@,
                |e: (ObjTime, TextObj)|
                    e.1.text == text && stands_at(layout_of(bms), e.1.time, y, unspaced),
            );
        },
        ChartEvent::Bms(BmsEvent::JudgeLevelChange { level }) => {
            lemma_count_same(
                bms.judge.judge_events@,
                has_event::<JudgeObj>(layout, |e| judge_event(e), y, unspaced, event),
                bms.judge.judge_events@,
                |e: (ObjTime, JudgeObj)|
                    e.1.judge_level == level && stands_at(layout_of(bms), e.1.time, y, unspaced),
            );
        },
        ChartEvent::Bms(BmsEvent::VideoSeek { seek_time }) => {
            lemma_count_same(
                bms.video.seek_events@,
                has_event::<SeekObj>(layout, |e| seek_event(e), y, unspaced, event),
                bms.video.seek_events@,
                |e: (ObjTime, SeekObj)|
                    e.1.position == seek_time && stands_at(layout_of(bms), e.1.time, y, unspaced),
            );
        },
        ChartEvent::Bms(BmsEvent::BgaKeybound { event: animation }) => {
            lemma_count_same(
                bms.bmp.bga_keybound_events@,
                has_event::<BgaKeyboundObj>(layout, |e| keybound_event(e), y, unspaced, event),
                bms.bmp.bga_keybound_events@,
                |e: (ObjTime, BgaKeyboundObj)|
                    e.1.event == animation && stands_at(layout_of(bms), e.1.time, y, unspaced),
            );
        },
        ChartEvent::Bms(BmsEvent::OptionChange { option }) => {
            lemma_count_same(
                bms.option.option_events@,
                has_event::<OptionObj>(layout, |e| option_event(e), y, unspaced, event),
                bms.option.option_events@,
                |e: (ObjTime, OptionObj)|
                    e.1.option == option && stands_at(layout_of(bms), e.1.time, y, unspaced),
            );
        },
        ChartEvent::Bms(BmsEvent::BgaOpacityChange { layer, opacity }) => {
            match layer {
                BgaLayer::Base => lemma_count_same(
                    bms.bmp.bga_opacity_changes.base@,
                    has_event::<BgaOpacityObj>(layout, |e| opacity_event(BgaLayer::Base, e), y, unspaced, event),
                    bms.bmp.bga_opacity_changes.base@,
                    |e: (ObjTime, BgaOpacityObj)|
                    e.1.opacity == opacity && stands_at(layout_of(bms), e.1.time, y, unspaced),
                ),
                BgaLayer::Poor => lemma_count_same(
                    bms.bmp.bga_opacity_changes.poor@,
                    has_event::<BgaOpacityObj>(layout, |e| opacity_event(BgaLayer::Poor, e), y, unspaced, event),
                    bms.bmp.bga_opacity_changes.poor@,
                    |e: (ObjTime, BgaOpacityObj)|
                    e.1.opacity == opacity && stands_at(layout_of(bms), e.1.time, y, unspaced),
                ),
                BgaLayer::Overlay => lemma_count_same(
                    bms.bmp.bga_opacity_changes.overlay@,
                    has_event::<BgaOpacityObj>(layout, |e| opacity_event(BgaLayer::Overlay, e), y, unspaced, event),
                    bms.bmp.bga_opacity_changes.overlay@,
                    |e: (ObjTime, BgaOpacityObj)|
                    e.1.opacity == opacity && stands_at(layout_of(bms), e.1.time, y, unspaced),
                ),
                BgaLayer::Overlay2 => lemma_count_same(
                    bms.bmp.bga_opacity_changes.overlay2@,
                    has_event::<BgaOpacityObj>(layout, |e| opacity_event(BgaLayer::Overlay2, e), y, unspaced, event),
                    bms.bmp.bga_opacity_changes.overlay2@,
                    |e: (ObjTime, BgaOpacityObj)|
                    e.1.opacity == opacity && stands_at(layout_of(bms), e.1.time, y, unspaced),
                ),
            }
        },
        ChartEvent::Bms(BmsEvent::BgaArgbChange { layer, argb }) => {
            match layer {
                BgaLayer::Base => lemma_count_same(
                    bms.bmp.bga_argb_changes.base@,
                    has_event::<BgaArgbObj>(layout, |e| argb_event(BgaLayer::Base, e), y, unspaced, event),
                    bms.bmp.bga_argb_changes.base@,
                    |e: (ObjTime, BgaArgbObj)|
                    e.1.argb == argb && stands_at(layout_of(bms), e.1.time, y, unspaced),
                ),
                BgaLayer::Poor => lemma_count_same(
                    bms.bmp.bga_argb_changes.poor@,
                    has_event::<BgaArgbObj>(layout, |e| argb_event(BgaLayer::Poor, e), y, unspaced, event),
                    bms.bmp.bga_argb_changes.poor@,
                    |e: (ObjTime, BgaArgbObj)|
                    e.1.argb == argb && stands_at(layout_of(bms), e.1.time, y, unspaced),
                ),
                BgaLayer::Overlay => lemma_count_same(
                    bms.bmp.bga_argb_changes.overlay@,
                    has_event::<BgaArgbObj>(layout, |e| argb_event(BgaLayer::Overlay, e), y, unspaced, event),
                    bms.bmp.bga_argb_changes.overlay@,
                    |e: (ObjTime, BgaArgbObj)|
                    e.1.argb == argb && stands_at(layout_of(bms), e.1.time, y, unspaced),
                ),
                BgaLayer::Overlay2 => lemma_count_same(
                    bms.bmp.bga_argb_changes.overlay2@,
                    has_event::<BgaArgbObj>(layout, |e| argb_event(BgaLayer::Overlay2, e), y, unspaced, event),
                    bms.bmp.bga_argb_changes.overlay2@,
                    |e: (ObjTime, BgaArgbObj)|
                    e.1.argb == argb && stands_at(layout_of(bms), e.1.time, y, unspaced),
                ),
            }
        },
        _ => {},
    }
}

} // verus!
