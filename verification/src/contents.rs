//! What a chart holds besides places and times: its files, its start, and the order and the
//! numbers of its events.

#[allow(unused_imports)]
use crate::bms::{
    BgaArgbObj, BgaKeyboundObj, BgaObj, BgaOpacityObj, Bmp, Bms, BpmChangeObj, JudgeObj, ObjId,
    OptionObj, ScrollingFactorObj, SeekObj, SpeedObj, StopObj, TextObj, VolumeObj, WavObj,
};
#[allow(unused_imports)]
use crate::census::{asks_event, asks_found, count, lemma_chart_holds_found, Question};
#[allow(unused_imports)]
use crate::channel::KeyLayoutMapper;
#[allow(unused_imports)]
use crate::chart::{indexes, Chart, PositionRange};
#[allow(unused_imports)]
use crate::error::lemma_init_bpm;
#[allow(unused_imports)]
use crate::event::{BgaLayer, BmpId, BmsEvent, ChartEvent, PlayheadEvent, WavId, YCoordinate};
#[allow(unused_imports)]
use crate::events::{
    all_events, argb_event, argb_events, bar_lines, bga_event, bgm_volume_event, bpm_event,
    bpm_u8_event, events_of, judge_event, key_volume_event, keybound_event, last_y, lemma_listed,
    lemma_numbers_differ, lemma_only_lines, note_events, numbered, object_events, opacity_event,
    opacity_events, option_event, placed_notes, scroll_event, seek_event, speed_event, stop_event,
    text_event, tracks_up_to, untimed, Found, Timed,
};
#[allow(unused_imports)]
use crate::lines::lemma_in_range;
#[allow(unused_imports)]
use crate::measure::lemma_one;
#[allow(unused_imports)]
use crate::num::{group_patterns, PositiveF64};
#[allow(unused_imports)]
use crate::ordered::{value_of, OrderKey};
#[allow(unused_imports)]
use crate::position::{grouped, items_at, lemma_grouped, lemma_items_in_order};
#[allow(unused_imports)]
use crate::process::{bmp_files_of, is_chart_at, is_chart_of, wav_files_of};
#[allow(unused_imports)]
use crate::rounding::{magnitude, UNIT_SCALE};
#[allow(unused_imports)]
use crate::sorting::sorted;
#[allow(unused_imports)]
use crate::text::FromText;
#[allow(unused_imports)]
use crate::time::ObjTime;
#[allow(unused_imports)]
use crate::timeline::lemma_timed_events;
#[allow(unused_imports)]
use crate::y_memo::{layout_of, nonzero, Layout};
#[allow(unused_imports)]
use vstd::arithmetic::power2::pow2;
use vstd::prelude::*;

verus! {

/// A sound file is found under the number of its name.
proof fn lemma_wav_file(files: Seq<(ObjId, String)>, id: ObjId)
    ensures
        value_of(wav_files_of(files), WavId(id.0 as usize)) == value_of(files, id),
    decreases files.len(),
{
    if files.len() > 0 {
        lemma_wav_file(files.drop_last(), id);
        assert(wav_files_of(files).drop_last() =~= wav_files_of(files.drop_last()));
    }
}

/// An image file is found under the number of its name.
proof fn lemma_bmp_file(files: Seq<(ObjId, Bmp)>, id: ObjId)
    ensures
        value_of(bmp_files_of(files), BmpId(id.0 as usize)) == match value_of(files, id) {
            Some(bmp) => Some(bmp.file),
            None => None,
        },
    decreases files.len(),
{
    if files.len() > 0 {
        lemma_bmp_file(files.drop_last(), id);
        assert(bmp_files_of(files).drop_last() =~= bmp_files_of(files.drop_last()));
    }
}

/// A chart has the files of its objects, each under the number of its name, which is also
/// the number by which events speak of it, and no others. It starts at the given tempo and
/// with the spacing one.
pub proof fn lemma_files_and_start<T: KeyLayoutMapper>(
    chart: Chart,
    bms: Bms,
    init_bpm: PositiveF64,
    id: ObjId,
)
    requires
        is_chart_at::<T>(chart, bms, init_bpm),
    ensures
        value_of(chart.resources.wav_files@, WavId(id.0 as usize)) == value_of(
            bms.wav.wav_files@,
            id,
        ),
        chart.resources.wav_files@.len() == bms.wav.wav_files@.len(),
        value_of(chart.resources.bmp_files@, BmpId(id.0 as usize)) == match value_of(
            bms.bmp.bmp_files@,
            id,
        ) {
            Some(bmp) => Some(bmp.file),
            None => None,
        },
        chart.resources.bmp_files@.len() == bms.bmp.bmp_files@.len(),
        chart.init_bpm == init_bpm,
        magnitude(chart.init_speed@ as nat) == pow2(UNIT_SCALE as nat),
{
    broadcast use group_patterns;

    lemma_wav_file(bms.wav.wav_files@, id);
    lemma_bmp_file(bms.bmp.bmp_files@, id);
    lemma_one();
}

/// Asking for everything counts everything.
proof fn lemma_count_all<A>(s: Seq<A>, p: spec_fn(A) -> bool)
    requires
        forall|i: int| 0 <= i < s.len() ==> p(#[trigger] s[i]),
    ensures
        count(s, p) == s.len(),
    decreases s.len(),
{
    if s.len() > 0 {
        let front = s.drop_last();
        assert forall|i: int| 0 <= i < front.len() implies p(#[trigger] front[i]) by {
            assert(front[i] == s[i]);
        }
        assert(p(s[s.len() - 1]));
        lemma_count_all(front, p);
    }
}

/// A chart has as many events as were found.
proof fn lemma_as_many<T: KeyLayoutMapper>(chart: Chart, bms: Bms, init_bpm: PositiveF64)
    requires
        is_chart_at::<T>(chart, bms, init_bpm),
        indexes(chart.events.spec_events(), chart.events.spec_by_y(), chart.events@),
    ensures
        chart.events.spec_events().len() == all_events::<T>(bms, layout_of(bms)).len(),
{
    let p: Question = |x: (u64, u64, ChartEvent)| true;
    lemma_chart_holds_found::<T>(chart, bms, init_bpm, p);
    lemma_count_all(chart.events.spec_events(), asks_event(p));
    lemma_count_all(all_events::<T>(bms, layout_of(bms)), asks_found(p));
}

/// Where an event of a chart stands: in a range, and so in the list of its position, where
/// it has the number under which it was found.
proof fn lemma_where<T: KeyLayoutMapper>(
    chart: Chart,
    bms: Bms,
    init_bpm: PositiveF64,
    k: int,
) -> (r: int)
    requires
        is_chart_at::<T>(chart, bms, init_bpm),
        indexes(chart.events.spec_events(), chart.events.spec_by_y(), chart.events@),
        0 <= k < chart.events.spec_events().len(),
    ensures
        0 <= r < chart.events.spec_by_y().len(),
        chart.events.spec_by_y()[r].start <= k < chart.events.spec_by_y()[r].end,
        ({
            let event = chart.events.spec_events()[k];
            let range = chart.events.spec_by_y()[r];
            let lists = grouped(numbered(all_events::<T>(bms, layout_of(bms))));
            let y = range.position@;
            &&& event.position@ == y
            &&& lists.dom().contains(y)
            &&& lists[y].len() == range.end - range.start
            &&& event.id == lists[y][k - range.start].id
            &&& event.event == lists[y][k - range.start].event
        }),
{
    let layout = layout_of(bms);
    let found = all_events::<T>(bms, layout);
    let events = chart.events.spec_events();
    let by_y = chart.events.spec_by_y();
    let n = by_y.len() - 1;
    assert(by_y[n] == by_y.last());
    let r = lemma_in_range(events, by_y, chart.events@, k, n);
    let range = by_y[r];
    let y = range.position@;
    let lists = grouped(numbered(found));
    assert(chart.events@[y] == events.subrange(range.start as int, range.end as int));
    assert(chart.events@.dom().contains(y));
    assert(lists.dom().contains(y));
    assert(chart.events@[y].len() == lists[y].len());
    let i = k - range.start;
    assert(chart.events@[y][i] == events[k]);
    lemma_timed_events(bms, layout, init_bpm, chart.events.spec_points(), lists, y, i);
    lemma_listed(found, y, i);
    r
}

/// The events of a chart are listed in the order of their positions, those at one position
/// in the order of their numbers. No two have the same number, and each number is below how
/// many events there are.
#[verifier::rlimit(40)]
pub proof fn lemma_order_of_events<T: KeyLayoutMapper>(
    chart: Chart,
    bms: Bms,
    init_bpm: PositiveF64,
    i: int,
    j: int,
)
    requires
        is_chart_at::<T>(chart, bms, init_bpm),
        indexes(chart.events.spec_events(), chart.events.spec_by_y(), chart.events@),
        chart.events.spec_events().len() <= usize::MAX,
        0 <= i < j < chart.events.spec_events().len(),
    ensures
        chart.events.spec_events()[i].position@ <= chart.events.spec_events()[j].position@,
        chart.events.spec_events()[i].id != chart.events.spec_events()[j].id,
        chart.events.spec_events()[i].position@ == chart.events.spec_events()[j].position@
            ==> chart.events.spec_events()[i].id.0 < chart.events.spec_events()[j].id.0,
        chart.events.spec_events()[i].id.0 < chart.events.spec_events().len(),
        chart.events.spec_events()[j].id.0 < chart.events.spec_events().len(),
{
    let layout = layout_of(bms);
    let found = all_events::<T>(bms, layout);
    let items = numbered(found);
    let by_y = chart.events.spec_by_y();
    let events = chart.events.spec_events();
    lemma_as_many::<T>(chart, bms, init_bpm);
    let a = lemma_where::<T>(chart, bms, init_bpm, i);
    let b = lemma_where::<T>(chart, bms, init_bpm, j);
    let (y, z) = (by_y[a].position@, by_y[b].position@);
    let (m, n) = (i - by_y[a].start, j - by_y[b].start);
    if a > b {
        lemma_ranges_in_order(events, by_y, chart.events@, b, a);
    }
    if a < b {
        assert(by_y[a].position@ < by_y[b].position@);
    }
    if events[i].id == events[j].id {
        lemma_numbers_differ(found, y, m, z, n);
        if a != b {
            if a < b {
                assert(by_y[a].position@ < by_y[b].position@);
            } else {
                assert(by_y[b].position@ < by_y[a].position@);
            }
        }
    }
    lemma_listed(found, y, m);
    lemma_listed(found, z, n);
    if a == b {
        lemma_grouped(items, y);
        lemma_items_in_order(items, y, m, n);
        let (k, l) = choose|k: int, l: int|
            0 <= k < l < items.len() && (#[trigger] items[k]).1 == items_at(items, y)[m] && (
            #[trigger] items[l]).1 == items_at(items, y)[n];
        assert(items[k].1.id.0 == k as u128);
        assert(items[l].1.id.0 == l as u128);
    }
}

/// Ranges follow one another.
proof fn lemma_ranges_in_order(
    events: Seq<PlayheadEvent>,
    by_y: Seq<PositionRange>,
    lists: Map<u64, Seq<PlayheadEvent>>,
    a: int,
    b: int,
)
    requires
        indexes(events, by_y, lists),
        0 <= a < b < by_y.len(),
    ensures
        by_y[a].end <= by_y[b].start,
    decreases b - a,
{
    assert(by_y[b - 1].end == by_y[b].start);
    if a < b - 1 {
        lemma_ranges_in_order(events, by_y, lists, a, b - 1);
        assert(by_y[b - 1].start <= by_y[b - 1].end);
    }
}

/// In which order the kinds of events are found.
pub open spec fn rank(event: ChartEvent) -> int {
    match event {
        ChartEvent::Note { .. } => 0,
        ChartEvent::Bgm { .. } => 0,
        ChartEvent::BpmChange { .. } => 1,
        ChartEvent::ScrollChange { .. } => 2,
        ChartEvent::SpeedChange { .. } => 3,
        ChartEvent::Stop { .. } => 4,
        ChartEvent::BgaChange { .. } => 5,
        ChartEvent::Bms(BmsEvent::BgaOpacityChange { .. }) => 6,
        ChartEvent::Bms(BmsEvent::BgaArgbChange { .. }) => 7,
        ChartEvent::Bms(BmsEvent::BgmVolumeChange { .. }) => 8,
        ChartEvent::Bms(BmsEvent::KeyVolumeChange { .. }) => 9,
        ChartEvent::Bms(BmsEvent::TextDisplay { .. }) => 10,
        ChartEvent::Bms(BmsEvent::JudgeLevelChange { .. }) => 11,
        ChartEvent::Bms(BmsEvent::VideoSeek { .. }) => 12,
        ChartEvent::Bms(BmsEvent::BgaKeybound { .. }) => 13,
        ChartEvent::Bms(BmsEvent::OptionChange { .. }) => 14,
        ChartEvent::BarLine => 15,
    }
}

/// Whether events are in the order of their kinds, up to a last kind.
spec fn ranked(s: Seq<Found>, most: int) -> bool {
    &&& forall|i: int, j: int|
        0 <= i < j < s.len() ==> rank((#[trigger] s[i]).event) <= rank((#[trigger] s[j]).event)
    &&& forall|i: int| 0 <= i < s.len() ==> rank((#[trigger] s[i]).event) <= most
}

/// Whether events are all of one kind.
spec fn of_rank(s: Seq<Found>, kind: int) -> bool {
    forall|i: int| 0 <= i < s.len() ==> rank((#[trigger] s[i]).event) == kind
}

/// Events of a kind behind those of earlier kinds.
proof fn lemma_ranked_add(s: Seq<Found>, more: Seq<Found>, most: int, kind: int)
    requires
        ranked(s, most),
        of_rank(more, kind),
        most <= kind,
    ensures
        ranked(s + more, kind),
{
    let all = s + more;
    assert forall|i: int| 0 <= i < all.len() implies rank((#[trigger] all[i]).event) <= kind by {
        if i < s.len() {
            assert(all[i] == s[i]);
        } else {
            assert(all[i] == more[i - s.len()]);
        }
    }
    assert forall|i: int, j: int| 0 <= i < j < all.len() implies rank((#[trigger] all[i]).event)
        <= rank((#[trigger] all[j]).event) by {
        if j < s.len() {
            assert(all[i] == s[i] && all[j] == s[j]);
        } else {
            assert(all[j] == more[j - s.len()]);
        }
    }
}

/// The events of objects of one sort are of one kind.
proof fn lemma_of_rank<V>(
    layout: Layout,
    s: Seq<(ObjTime, V)>,
    event_of: spec_fn((ObjTime, V)) -> Timed,
    kind: int,
)
    requires
        forall|e: (ObjTime, V)| rank((#[trigger] event_of(e)).1) == kind,
    ensures
        of_rank(events_of(layout, s, event_of), kind),
{
}

/// The events of notes come first.
proof fn lemma_notes_ranked<T: KeyLayoutMapper>(
    bms: Bms,
    layout: Layout,
    s: Seq<(YCoordinate, WavObj)>,
)
    ensures
        of_rank(note_events::<T>(bms, layout, s), 0),
    decreases s.len(),
{
    if s.len() > 0 {
        lemma_notes_ranked::<T>(bms, layout, s.drop_last());
    }
}

/// The events that were found are in the order of their kinds.
#[verifier::rlimit(40)]
proof fn lemma_found_ranked<T: KeyLayoutMapper>(bms: Bms, layout: Layout)
    ensures
        ranked(all_events::<T>(bms, layout), 15),
{
    let speeds = bms.speed.speed_factor_changes@;
    let s = note_events::<T>(bms, layout, sorted(placed_notes(layout, bms.wav.notes@)));
    lemma_notes_ranked::<T>(bms, layout, sorted(placed_notes(layout, bms.wav.notes@)));
    assert(ranked(s, 0));
    lemma_of_rank::<BpmChangeObj>(layout, bms.bpm.bpm_changes@, |e| bpm_event(e), 1);
    let more = events_of::<BpmChangeObj>(layout, bms.bpm.bpm_changes@, |e| bpm_event(e));
    lemma_ranked_add(s, more, 0, 1);
    let s = s + more;
    lemma_of_rank::<u8>(layout, nonzero(bms.bpm.bpm_changes_u8@), |e| bpm_u8_event(e), 1);
    let more = events_of::<u8>(layout, nonzero(bms.bpm.bpm_changes_u8@), |e| bpm_u8_event(e));
    lemma_ranked_add(s, more, 1, 1);
    let s = s + more;
    lemma_of_rank::<ScrollingFactorObj>(layout, bms.scroll.scrolling_factor_changes@, |e| scroll_event(e), 2);
    let more = events_of::<ScrollingFactorObj>(layout, bms.scroll.scrolling_factor_changes@, |e| scroll_event(e));
    lemma_ranked_add(s, more, 1, 2);
    let s = s + more;
    lemma_of_rank::<SpeedObj>(layout, speeds, |e| speed_event(e), 3);
    let more = events_of::<SpeedObj>(layout, speeds, |e| speed_event(e));
    lemma_ranked_add(s, more, 2, 3);
    let s = s + more;
    lemma_of_rank::<StopObj>(layout, bms.stop.stops@, |e| stop_event(e), 4);
    let more = events_of::<StopObj>(layout, bms.stop.stops@, |e| stop_event(e));
    lemma_ranked_add(s, more, 3, 4);
    let s = s + more;
    lemma_of_rank::<BgaObj>(layout, bms.bmp.bga_changes@, |e| bga_event(e), 5);
    let more = events_of::<BgaObj>(layout, bms.bmp.bga_changes@, |e| bga_event(e));
    lemma_ranked_add(s, more, 4, 5);
    let s = s + more;
    lemma_of_rank::<BgaOpacityObj>(
        layout,
        bms.bmp.bga_opacity_changes.base@,
        |e| opacity_event(BgaLayer::Base, e),
        6,
    );
    lemma_of_rank::<BgaOpacityObj>(
        layout,
        bms.bmp.bga_opacity_changes.poor@,
        |e| opacity_event(BgaLayer::Poor, e),
        6,
    );
    lemma_of_rank::<BgaOpacityObj>(
        layout,
        bms.bmp.bga_opacity_changes.overlay@,
        |e| opacity_event(BgaLayer::Overlay, e),
        6,
    );
    lemma_of_rank::<BgaOpacityObj>(
        layout,
        bms.bmp.bga_opacity_changes.overlay2@,
        |e| opacity_event(BgaLayer::Overlay2, e),
        6,
    );
    let more = opacity_events(layout, bms.bmp.bga_opacity_changes);
    assert(of_rank(more, 6));
    lemma_ranked_add(s, more, 5, 6);
    let s = s + more;
    lemma_of_rank::<BgaArgbObj>(
        layout,
        bms.bmp.bga_argb_changes.base@,
        |e| argb_event(BgaLayer::Base, e),
        7,
    );
    lemma_of_rank::<BgaArgbObj>(
        layout,
        bms.bmp.bga_argb_changes.poor@,
        |e| argb_event(BgaLayer::Poor, e),
        7,
    );
    lemma_of_rank::<BgaArgbObj>(
        layout,
        bms.bmp.bga_argb_changes.overlay@,
        |e| argb_event(BgaLayer::Overlay, e),
        7,
    );
    lemma_of_rank::<BgaArgbObj>(
        layout,
        bms.bmp.bga_argb_changes.overlay2@,
        |e| argb_event(BgaLayer::Overlay2, e),
        7,
    );
    let more = argb_events(layout, bms.bmp.bga_argb_changes);
    assert(of_rank(more, 7));
    lemma_ranked_add(s, more, 6, 7);
    let s = s + more;
    lemma_of_rank::<VolumeObj>(layout, bms.volume.bgm_volume_changes@, |e| bgm_volume_event(e), 8);
    let more = events_of::<VolumeObj>(layout, bms.volume.bgm_volume_changes@, |e| bgm_volume_event(e));
    lemma_ranked_add(s, more, 7, 8);
    let s = s + more;
    lemma_of_rank::<VolumeObj>(layout, bms.volume.key_volume_changes@, |e| key_volume_event(e), 9);
    let more = events_of::<VolumeObj>(layout, bms.volume.key_volume_changes@, |e| key_volume_event(e));
    lemma_ranked_add(s, more, 8, 9);
    let s = s + more;
    lemma_of_rank::<TextObj>(layout, bms.text.text_events@, |e| text_event(e), 10);
    let more = events_of::<TextObj>(layout, bms.text.text_events@, |e| text_event(e));
    lemma_ranked_add(s, more, 9, 10);
    let s = s + more;
    lemma_of_rank::<JudgeObj>(layout, bms.judge.judge_events@, |e| judge_event(e), 11);
    let more = events_of::<JudgeObj>(layout, bms.judge.judge_events@, |e| judge_event(e));
    lemma_ranked_add(s, more, 10, 11);
    let s = s + more;
    lemma_of_rank::<SeekObj>(layout, bms.video.seek_events@, |e| seek_event(e), 12);
    let more = events_of::<SeekObj>(layout, bms.video.seek_events@, |e| seek_event(e));
    lemma_ranked_add(s, more, 11, 12);
    let s = s + more;
    lemma_of_rank::<BgaKeyboundObj>(layout, bms.bmp.bga_keybound_events@, |e| keybound_event(e), 13);
    let more = events_of::<BgaKeyboundObj>(layout, bms.bmp.bga_keybound_events@, |e| keybound_event(e));
    lemma_ranked_add(s, more, 12, 13);
    let s = s + more;
    lemma_of_rank::<OptionObj>(layout, bms.option.option_events@, |e| option_event(e), 14);
    let more = events_of::<OptionObj>(layout, bms.option.option_events@, |e| option_event(e));
    lemma_ranked_add(s, more, 13, 14);
    let s = s + more;
    assert(s == object_events::<T>(bms, layout, speeds));
    if let Some(last) = last_y(s) {
        let tracks = tracks_up_to(bms.spec_last_obj_time());
        let lines = bar_lines(layout, tracks, last);
        assert forall|i: int| 0 <= i < lines.len() implies rank((#[trigger] lines[i]).event)
            == 15 by {
            lemma_only_lines(layout, tracks, last, i);
        }
        lemma_ranked_add(s, lines, 14, 15);
    }
}

/// The numbers of the events of a chart follow the order of their kinds: those of the
/// notes come first, then those of the tempo, the scroll speed, the spacing, the stops, the
/// images, the other objects, and last the measure lines.
pub proof fn lemma_order_of_kinds<T: KeyLayoutMapper>(
    chart: Chart,
    bms: Bms,
    init_bpm: PositiveF64,
    i: int,
    j: int,
)
    requires
        is_chart_at::<T>(chart, bms, init_bpm),
        indexes(chart.events.spec_events(), chart.events.spec_by_y(), chart.events@),
        chart.events.spec_events().len() <= usize::MAX,
        0 <= i < chart.events.spec_events().len(),
        0 <= j < chart.events.spec_events().len(),
        chart.events.spec_events()[i].id.0 < chart.events.spec_events()[j].id.0,
    ensures
        rank(chart.events.spec_events()[i].event) <= rank(chart.events.spec_events()[j].event),
{
    let layout = layout_of(bms);
    let found = all_events::<T>(bms, layout);
    let by_y = chart.events.spec_by_y();
    let lists = grouped(numbered(found));
    lemma_as_many::<T>(chart, bms, init_bpm);
    lemma_found_ranked::<T>(bms, layout);
    let a = lemma_where::<T>(chart, bms, init_bpm, i);
    let b = lemma_where::<T>(chart, bms, init_bpm, j);
    let (y, z) = (by_y[a].position@, by_y[b].position@);
    let (m, n) = (i - by_y[a].start, j - by_y[b].start);
    lemma_listed(found, y, m);
    lemma_listed(found, z, n);
    let k = choose|k: int|
        0 <= k < found.len() && (#[trigger] found[k]).y == y && lists[y][m] == untimed(k, found[k]);
    let l = choose|l: int|
        0 <= l < found.len() && (#[trigger] found[l]).y == z && lists[z][n] == untimed(l, found[l]);
    assert(rank(found[k].event) <= rank(found[l].event));
}

/// The chart of a file is the one with the tempo that the file gives for the start, and with
/// 120 beats per minute where it gives none.
pub proof fn lemma_tempo_at_start<T: KeyLayoutMapper>(chart: Chart, bms: Bms)
    requires
        is_chart_of::<T>(chart, bms),
    ensures
        is_chart_at::<T>(chart, bms, chart.init_bpm),
        bms.bpm.bpm is None ==> magnitude(chart.init_bpm@ as nat) == 120 * pow2(
            UNIT_SCALE as nat,
        ),
        bms.bpm.bpm matches Some(text) ==> (PositiveF64::of_text(text.spec_raw()) matches Ok(bpm)
            ==> chart.init_bpm == bpm),
{
    lemma_init_bpm(bms);
}

} // verus!
