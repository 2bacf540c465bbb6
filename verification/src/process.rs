//! From a parsed file to a chart.

#[allow(unused_imports)]
use crate::bms::{SpeedObj, SpeedObjects, WavObj};
use crate::bms::{Bmp, Bms, ObjId};
#[allow(unused_imports)]
use crate::channel::lane_of;
use crate::channel::{Key, KeyLayoutMapper, NoteChannelId, NoteKind, PlayerSide};
use crate::chart::{AllEventsIndex, Chart, ChartResources};
use crate::error::{check_all_definitions, init_bpm, PlayingError};
#[allow(unused_imports)]
use crate::error::{fault_of, init_bpm_of};
#[allow(unused_imports)]
use crate::event::Seconds;
use crate::event::{BmpId, WavId};
#[allow(unused_imports)]
use crate::events::{
    all_events, found_at, lemma_listed, lemma_respaced_points, numbered, timing_points, untimed,
};
#[allow(unused_imports)]
use crate::inventory::{is_of_note, lemma_note_source};
#[allow(unused_imports)]
use crate::note::note_event;
#[allow(unused_imports)]
use crate::num::group_patterns;
use crate::num::{PositiveF64, ONE};
use crate::ordered::OrderedMap;
#[allow(unused_imports)]
use crate::ordered::{ascending, lemma_placed_last, OrderKey};
#[allow(unused_imports)]
use crate::position::grouped;
#[allow(unused_imports)]
use crate::time::ObjTime;
use crate::timeline::activate_times_from;
#[allow(unused_imports)]
use crate::timeline::{
    lemma_arrival_ordered, lemma_timed_events, stops_of, tempo_changes, tempo_map,
    time_at, timed_events, timeline_points,
};
use crate::y_memo::{default_speed, YMemo};
#[allow(unused_imports)]
use crate::y_memo::{flow_items, layout_of};
#[allow(unused_imports)]
use crate::sorting::sorted;
use vstd::prelude::*;

verus! {

/// The sound files, by the numbers under which the events know them.
pub open spec fn wav_files_of(files: Seq<(ObjId, String)>) -> Seq<(WavId, String)> {
    files.map_values(|e: (ObjId, String)| (WavId(e.0.0 as usize), e.1))
}

/// The image files, by the numbers under which the events know them.
pub open spec fn bmp_files_of(files: Seq<(ObjId, Bmp)>) -> Seq<(BmpId, String)> {
    files.map_values(|e: (ObjId, Bmp)| (BmpId(e.0.0 as usize), e.1.file))
}

/// Whether a chart is the one of a parsed file, given the tempo at its start.
pub open spec fn is_chart_at<T: KeyLayoutMapper>(
    chart: Chart,
    bms: Bms,
    init_bpm: PositiveF64,
) -> bool {
    let layout = layout_of(bms);
    let points = timing_points::<T>(bms, layout);
    let events = grouped(numbered(all_events::<T>(bms, layout)));
    &&& chart.resources.wav_files@ == wav_files_of(bms.wav.wav_files@)
    &&& chart.resources.bmp_files@ == bmp_files_of(bms.bmp.bmp_files@)
    &&& chart.events@ == timed_events(bms, layout, init_bpm, points, events)
    &&& chart.events.spec_points() == points
    &&& chart.flow_events@ == grouped(flow_items(bms))
    &&& chart.init_bpm == init_bpm
    &&& chart.init_speed == PositiveF64::of(ONE)
}

/// Whether a chart is the one of a parsed file.
pub open spec fn is_chart_of<T: KeyLayoutMapper>(chart: Chart, bms: Bms) -> bool {
    is_chart_at::<T>(chart, bms, init_bpm_of(bms))
}

/// Whether a time is not after another.
pub open spec fn no_later(a: Seconds, b: Seconds) -> bool {
    match (a, b) {
        (Seconds::Finite(x), Seconds::Finite(y)) => x@ <= y@,
        (Seconds::Infinite, Seconds::Finite(_)) => false,
        (_, Seconds::Infinite) => true,
    }
}

/// In a chart, every event stands at the position under which it is listed.
pub proof fn lemma_chart_positions<T: KeyLayoutMapper>(chart: Chart, bms: Bms, y: u64, i: int)
    requires
        is_chart_of::<T>(chart, bms),
        chart.events@.dom().contains(y),
        0 <= i < chart.events@[y].len(),
    ensures
        chart.events@[y][i].position@ == y,
{
    let layout = layout_of(bms);
    let found = all_events::<T>(bms, layout);
    let lists = grouped(numbered(found));
    assert(lists.dom().contains(y));
    lemma_listed(found, y, i);
    let points = timing_points::<T>(bms, layout);
    lemma_timed_events(bms, layout, init_bpm_of(bms), points, lists, y, i);
}

/// In a chart, no event is reached before one at an earlier position without spacing, and
/// events at the same position without spacing are reached at the same time.
pub proof fn lemma_chart_times<T: KeyLayoutMapper>(
    chart: Chart,
    bms: Bms,
    y: u64,
    i: int,
    z: u64,
    j: int,
)
    requires
        is_chart_of::<T>(chart, bms),
        chart.events@.dom().contains(y),
        chart.events@.dom().contains(z),
        0 <= i < chart.events@[y].len(),
        0 <= j < chart.events@[z].len(),
        chart.events@[y][i].unspaced@ <= chart.events@[z][j].unspaced@,
    ensures
        no_later(chart.events@[y][i].activate_time, chart.events@[z][j].activate_time),
        chart.events@[y][i].unspaced == chart.events@[z][j].unspaced
            ==> chart.events@[y][i].activate_time == chart.events@[z][j].activate_time,
{
    broadcast use group_patterns;

    let layout = layout_of(bms);
    let init = init_bpm_of(bms);
    let points = timing_points::<T>(bms, layout);
    let lists = grouped(numbered(all_events::<T>(bms, layout)));
    let changes = tempo_changes(bms, layout.unspaced());
    lemma_timed_events(bms, layout, init, points, lists, y, i);
    lemma_timed_events(bms, layout, init, points, lists, z, j);
    lemma_arrival_ordered(
        timeline_points(points, changes),
        tempo_map(init, changes),
        sorted(stops_of(layout.unspaced(), bms.stop.stops@)),
        chart.events@[y][i].unspaced@,
        chart.events@[z][j].unspaced@,
    );
}

/// A chart with other changes of the spacing.
pub open spec fn respaced(bms: Bms, speeds: OrderedMap<ObjTime, SpeedObj>) -> Bms {
    Bms {
        speed: SpeedObjects {
            speed_defs: bms.speed.speed_defs,
            speed_factor_changes: speeds,
        },
        ..bms
    }
}

/// The spacing goes into positions only: two charts that differ in nothing but the
/// changes of the spacing have all objects at the same positions without it, and events
/// at the same such position are reached at the same time in both.
pub proof fn lemma_spacing_keeps_times<T: KeyLayoutMapper>(
    chart: Chart,
    bms: Bms,
    other: Chart,
    speeds: OrderedMap<ObjTime, SpeedObj>,
    y: u64,
    i: int,
    z: u64,
    j: int,
)
    requires
        is_chart_of::<T>(chart, bms),
        is_chart_of::<T>(other, respaced(bms, speeds)),
        chart.events@.dom().contains(y),
        other.events@.dom().contains(z),
        0 <= i < chart.events@[y].len(),
        0 <= j < other.events@[z].len(),
        chart.events@[y][i].unspaced == other.events@[z][j].unspaced,
    ensures
        layout_of(bms).unspaced() == layout_of(respaced(bms, speeds)).unspaced(),
        chart.events@[y][i].activate_time == other.events@[z][j].activate_time,
{
    let next = respaced(bms, speeds);
    let layout = layout_of(bms);
    let next_layout = layout_of(next);
    let lists = grouped(numbered(all_events::<T>(bms, layout)));
    let next_lists = grouped(numbered(all_events::<T>(next, next_layout)));
    lemma_respaced_points::<T>(bms, next, layout.unspaced());
    assert(timing_points::<T>(bms, layout) == timing_points::<T>(next, next_layout));
    let points = timing_points::<T>(bms, layout);
    lemma_timed_events(bms, layout, init_bpm_of(bms), points, lists, y, i);
    lemma_timed_events(next, next_layout, init_bpm_of(next), points, next_lists, z, j);
}

/// When the position of a note is reached.
pub open spec fn note_time<T: KeyLayoutMapper>(bms: Bms, note: WavObj) -> Seconds {
    let layout = layout_of(bms);
    time_at(
        bms,
        layout,
        init_bpm_of(bms),
        timing_points::<T>(bms, layout),
        layout.unspaced().y(note.offset),
    )
}

/// In a chart, every event of a note is that of one of the notes, and has the time at
/// which the position of that note is reached.
pub proof fn lemma_note_times<T: KeyLayoutMapper>(chart: Chart, bms: Bms, y: u64, i: int)
    requires
        is_chart_of::<T>(chart, bms),
        chart.events@.dom().contains(y),
        0 <= i < chart.events@[y].len(),
        is_of_note(chart.events@[y][i].event),
    ensures
        exists|k: int|
            0 <= k < bms.wav.notes@.len() && {
                let note = #[trigger] bms.wav.notes@[k];
                &&& chart.events@[y][i].event == note_event::<T>(bms, layout_of(bms), note)
                &&& chart.events@[y][i].activate_time == note_time::<T>(bms, note)
            },
{
    broadcast use group_patterns;

    let layout = layout_of(bms);
    let found = all_events::<T>(bms, layout);
    let lists = grouped(numbered(found));
    let points = timing_points::<T>(bms, layout);
    assert(lists.dom().contains(y));
    lemma_timed_events(bms, layout, init_bpm_of(bms), points, lists, y, i);
    lemma_listed(found, y, i);
    let k = choose|k: int|
        0 <= k < found.len() && (#[trigger] found[k]).y == y && lists[y][i] == untimed(
            k,
            found[k],
        );
    lemma_note_source::<T>(bms, layout, k);
    let n = choose|n: int|
        0 <= n < bms.wav.notes@.len() && found[k] == found_at(
            layout,
            (#[trigger] bms.wav.notes@[n]).offset,
            note_event::<T>(bms, layout, bms.wav.notes@[n]),
        );
    assert(chart.events@[y][i].activate_time == note_time::<T>(bms, bms.wav.notes@[n]));
}

/// The spacing does not move the time of any note.
pub proof fn lemma_spacing_keeps_note_times<T: KeyLayoutMapper>(
    bms: Bms,
    speeds: OrderedMap<ObjTime, SpeedObj>,
    note: WavObj,
)
    ensures
        note_time::<T>(bms, note) == note_time::<T>(respaced(bms, speeds), note),
{
    let next = respaced(bms, speeds);
    let layout = layout_of(bms);
    lemma_respaced_points::<T>(bms, next, layout.unspaced());
    assert(timing_points::<T>(bms, layout) == timing_points::<T>(next, layout_of(next)));
}

/// The sound files, by the numbers under which the events know them.
fn collect_wav_files(files: &OrderedMap<ObjId, String>) -> (r: OrderedMap<WavId, String>)
    ensures
        r@ == wav_files_of(files@),
{
    let entries = files.entries();
    let mut r: OrderedMap<WavId, String> = OrderedMap::new();
    let mut i: usize = 0;
    assert(r@ =~= wav_files_of(files@.take(0)));
    while i < entries.len()
        invariant
            entries@ == files@,
            ascending(files@),
            i <= entries@.len(),
            r@ == wav_files_of(files@.take(i as int)),
        decreases entries@.len() - i,
    {
        let id = WavId(entries[i].0.0 as usize);
        let file = entries[i].1.clone();
        proof {
            if i > 0 {
                assert(files@[i - 1].0.below(files@[i as int].0));
            }
            lemma_placed_last(r@, id, file);
            assert(r@.push((id, file)) =~= wav_files_of(files@.take(i + 1)));
        }
        r.insert(id, file);
        i = i + 1;
    }
    assert(files@.take(i as int) =~= files@);
    r
}

/// The image files, by the numbers under which the events know them.
fn collect_bmp_files(files: &OrderedMap<ObjId, Bmp>) -> (r: OrderedMap<BmpId, String>)
    ensures
        r@ == bmp_files_of(files@),
{
    let entries = files.entries();
    let mut r: OrderedMap<BmpId, String> = OrderedMap::new();
    let mut i: usize = 0;
    assert(r@ =~= bmp_files_of(files@.take(0)));
    while i < entries.len()
        invariant
            entries@ == files@,
            ascending(files@),
            i <= entries@.len(),
            r@ == bmp_files_of(files@.take(i as int)),
        decreases entries@.len() - i,
    {
        let id = BmpId(entries[i].0.0 as usize);
        let file = entries[i].1.file.clone();
        proof {
            if i > 0 {
                assert(files@[i - 1].0.below(files@[i as int].0));
            }
            lemma_placed_last(r@, id, file);
            assert(r@.push((id, file)) =~= bmp_files_of(files@.take(i + 1)));
        }
        r.insert(id, file);
        i = i + 1;
    }
    assert(files@.take(i as int) =~= files@);
    r
}

impl Bms {
    /// The chart with all its events computed.
    ///
    /// # Errors
    ///
    /// Returns the error of [`BmsProcessor::parse`].
    pub fn process<L: KeyLayoutMapper>(&self) -> (r: Result<Chart, PlayingError>)
        ensures
            match r {
                Ok(chart) => fault_of(*self) is None && is_chart_of::<L>(chart, *self),
                Err(error) => fault_of(*self) == Some(error@) && error@.text().error.len() > 0,
            },
    {
        BmsProcessor::parse::<L>(self)
    }
}

/// Turns parsed files into charts.
pub struct BmsProcessor;

impl BmsProcessor {
    /// Parse BMS file and return a `Chart` containing all precomputed data.
    ///
    /// # Errors
    ///
    /// Returns [`PlayingError::InvalidBpm`] if the BPM value could not be parsed, and the
    /// error of the first definition whose value could not be parsed before that.
    pub fn parse<T: KeyLayoutMapper>(bms: &Bms) -> (r: Result<Chart, PlayingError>)
        ensures
            match r {
                Ok(chart) => fault_of(*bms) is None && is_chart_of::<T>(chart, *bms),
                Err(error) => fault_of(*bms) == Some(error@) && error@.text().error.len() > 0,
            },
    {
        if let Err(error) = check_all_definitions(bms) {
            return Err(error);
        }
        match init_bpm(bms) {
            Ok(bpm) => Ok(Self::parse_from::<T>(bms, bpm)),
            Err(error) => Err(error),
        }
    }

    /// The chart of a file whose definitions are all right, given the tempo at its start.
    pub fn parse_from<T: KeyLayoutMapper>(bms: &Bms, init_bpm: PositiveF64) -> (r: Chart)
        ensures
            is_chart_at::<T>(r, *bms, init_bpm),
    {
        let y_memo = YMemo::new(bms);
        let wav_files = collect_wav_files(&bms.wav.wav_files);
        let bmp_files = collect_bmp_files(&bms.bmp.bmp_files);
        let untimed = AllEventsIndex::precompute_all_events::<T>(bms, &y_memo);
        Chart {
            resources: ChartResources { wav_files, bmp_files },
            events: activate_times_from(bms, &untimed, &y_memo, init_bpm),
            flow_events: y_memo.flow_events().duplicate(),
            init_bpm,
            init_speed: default_speed(),
        }
    }

    /// The side, key and kind of the lane that a channel stands for.
    pub fn lane_of_channel_id<T: KeyLayoutMapper>(channel_id: NoteChannelId) -> (r: Option<
        (PlayerSide, Key, NoteKind),
    >)
        ensures
            r == lane_of::<T>(channel_id),
    {
        let map = match T::from_channel_id(channel_id) {
            Some(map) => map,
            None => return None,
        };
        let side = map.side();
        let key = map.key();
        let kind = map.kind();
        Some((side, key, kind))
    }
}

} // verus!
