//! Which tempo is in force where, and how the playhead travels from one event to the next.

#[allow(unused_imports)]
use crate::bms::Bms;
#[allow(unused_imports)]
use crate::census::{count, lemma_count_none, lemma_count_sorted};
#[allow(unused_imports)]
use crate::channel::KeyLayoutMapper;
#[allow(unused_imports)]
use crate::chart::{indexes, Chart};
#[allow(unused_imports)]
use crate::event::{Seconds, YCoordinate};
#[allow(unused_imports)]
use crate::events::{all_events, stop_beats, unspaced_events};
#[allow(unused_imports)]
use crate::inventory::lemma_sorted_entry;
#[allow(unused_imports)]
use crate::lines::lemma_event_time;
#[allow(unused_imports)]
use crate::num::{difference_or_zero, group_patterns, NonNegativeF64, PositiveF64};
#[allow(unused_imports)]
use crate::position::keys_of;
#[allow(unused_imports)]
use crate::process::is_chart_at;
#[allow(unused_imports)]
use crate::rounding::{
    distance, lemma_exact, lemma_nearest, lemma_rounded_below, lemma_small_whole, magnitude,
    nearest, sum_of, INFINITE, UNIT_SCALE,
};
#[allow(unused_imports)]
use crate::sorting::sorted;
#[allow(unused_imports)]
use crate::time::ObjTime;
#[allow(unused_imports)]
use crate::timeline::{
    after_stops, arrival, is_previous, lasting, later_by, lemma_durations, lemma_tempo_of_change,
    lemma_tempo_of_start, stops_of, tempo_at, tempo_changes, tempo_map, time_at, timeline_points,
    PER_MEASURE_BITS, PER_MINUTE_BITS,
};
#[allow(unused_imports)]
use crate::y_memo::{bpm_of_u8, layout_of, nonzero};
#[allow(unused_imports)]
use vstd::arithmetic::power2::{lemma_pow2_pos, pow2};
use vstd::prelude::*;

verus! {

/// The tempo of a chart at a position without spacing.
pub open spec fn chart_tempo(bms: Bms, init_bpm: PositiveF64, y: u64) -> PositiveF64 {
    tempo_at(
        tempo_map(init_bpm, tempo_changes(bms, layout_of(bms).unspaced())),
        YCoordinate::of(y),
    )
}

/// The position without spacing of a time of a chart.
pub open spec fn place(bms: Bms, time: ObjTime) -> u64 {
    layout_of(bms).unspaced().y(time)
}

/// A tempo other than zero that is given in place is kept, behind those before it.
proof fn lemma_nonzero_kept(s: Seq<(ObjTime, u8)>, j: int)
    requires
        0 <= j < s.len(),
        s[j].1 != 0,
    ensures
        nonzero(s.take(j)).len() < nonzero(s).len(),
        nonzero(s)[nonzero(s.take(j)).len() as int] == s[j],
    decreases s.len(),
{
    reveal(Seq::filter);
    let front = s.drop_last();
    if j == s.len() - 1 {
        assert(s.take(j) =~= front);
    } else {
        lemma_nonzero_kept(front, j);
        assert(front.take(j) =~= s.take(j));
    }
}

/// Every tempo that is kept is one of those given in place, other than zero.
proof fn lemma_nonzero_from(s: Seq<(ObjTime, u8)>, k: int) -> (j: int)
    requires
        0 <= k < nonzero(s).len(),
    ensures
        0 <= j < s.len(),
        s[j].1 != 0,
        nonzero(s)[k] == s[j],
        nonzero(s.take(j)).len() == k,
    decreases s.len(),
{
    reveal(Seq::filter);
    let front = s.drop_last();
    if k < nonzero(front).len() {
        let j = lemma_nonzero_from(front, k);
        assert(front.take(j) =~= s.take(j));
        j
    } else {
        assert(s.take(s.len() - 1) =~= front);
        s.len() - 1
    }
}

/// Those before come before.
proof fn lemma_nonzero_order(s: Seq<(ObjTime, u8)>, i: int, j: int)
    requires
        0 <= i <= j <= s.len(),
    ensures
        nonzero(s.take(i)).len() <= nonzero(s.take(j)).len(),
        i < j && s[i].1 != 0 ==> nonzero(s.take(i)).len() < nonzero(s.take(j)).len(),
    decreases j,
{
    reveal(Seq::filter);
    if i < j {
        assert(s.take(j).drop_last() =~= s.take(j - 1));
        assert(s.take(j).last() == s[j - 1]);
        lemma_nonzero_order(s, i, j - 1);
    }
}

/// The tempo is the one given in place by the last change up to a position: the last by
/// position, then by time. It goes before a change to a defined tempo at its position, and
/// a value of zero is no change.
pub proof fn lemma_tempo_given(bms: Bms, init_bpm: PositiveF64, y: u64, j: int)
    requires
        0 <= j < bms.bpm.bpm_changes_u8@.len(),
        bms.bpm.bpm_changes_u8@[j].1 != 0,
        place(bms, bms.bpm.bpm_changes_u8@[j].0) <= y,
        forall|k: int|
            0 <= k < bms.bpm.bpm_changes_u8@.len() && k != j && (
            #[trigger] bms.bpm.bpm_changes_u8@[k]).1 != 0 && place(
                bms,
                bms.bpm.bpm_changes_u8@[k].0,
            ) <= y ==> place(bms, bms.bpm.bpm_changes_u8@[k].0) < place(
                bms,
                bms.bpm.bpm_changes_u8@[j].0,
            ) || (place(bms, bms.bpm.bpm_changes_u8@[k].0) == place(
                bms,
                bms.bpm.bpm_changes_u8@[j].0,
            ) && k < j),
        forall|i: int|
            0 <= i < bms.bpm.bpm_changes@.len() && place(
                bms,
                (#[trigger] bms.bpm.bpm_changes@[i]).0,
            ) <= y ==> place(bms, bms.bpm.bpm_changes@[i].0) <= place(
                bms,
                bms.bpm.bpm_changes_u8@[j].0,
            ),
    ensures
        magnitude(chart_tempo(bms, init_bpm, y)@ as nat) == bms.bpm.bpm_changes_u8@[j].1 * pow2(
            UNIT_SCALE as nat,
        ),
{
    broadcast use group_patterns;

    let s = bms.bpm.bpm_changes_u8@;
    let defined = bms.bpm.bpm_changes@;
    let changes = tempo_changes(bms, layout_of(bms).unspaced());
    let n = defined.len() as int;
    let rank = nonzero(s.take(j)).len() as int;
    lemma_nonzero_kept(s, j);
    let at = n + rank;
    assert(changes[at] == (YCoordinate::of(place(bms, s[j].0)), bpm_of_u8(s[j].1)));
    assert forall|k: int|
        0 <= k < changes.len() && k != at && (#[trigger] changes[k]).0@ <= y implies changes[k].0@
        < changes[at].0@ || (changes[k].0@ == changes[at].0@ && k < at) by {
        if k < n {
            assert(changes[k].0@ == place(bms, defined[k].0));
        } else {
            let m = lemma_nonzero_from(s, k - n);
            assert(changes[k].0@ == place(bms, s[m].0));
            if m < j {
                lemma_nonzero_order(s, m, j);
            } else {
                lemma_nonzero_order(s, j, m);
            }
            assert(m != j);
            assert(s[m].1 != 0);
        }
    }
    lemma_tempo_of_change(init_bpm, changes, YCoordinate::of(y), at);
    lemma_small_whole(s[j].1 as u64);
}

/// The tempo is the defined one of the last change up to a position: the last by position,
/// then by time, unless a tempo other than zero is given in place from there on.
pub proof fn lemma_tempo_defined(bms: Bms, init_bpm: PositiveF64, y: u64, j: int)
    requires
        0 <= j < bms.bpm.bpm_changes@.len(),
        place(bms, bms.bpm.bpm_changes@[j].0) <= y,
        forall|i: int|
            0 <= i < bms.bpm.bpm_changes@.len() && i != j && place(
                bms,
                (#[trigger] bms.bpm.bpm_changes@[i]).0,
            ) <= y ==> place(bms, bms.bpm.bpm_changes@[i].0) < place(
                bms,
                bms.bpm.bpm_changes@[j].0,
            ) || (place(bms, bms.bpm.bpm_changes@[i].0) == place(bms, bms.bpm.bpm_changes@[j].0)
                && i < j),
        forall|k: int|
            0 <= k < bms.bpm.bpm_changes_u8@.len() && (
            #[trigger] bms.bpm.bpm_changes_u8@[k]).1 != 0 && place(
                bms,
                bms.bpm.bpm_changes_u8@[k].0,
            ) <= y ==> place(bms, bms.bpm.bpm_changes_u8@[k].0) < place(
                bms,
                bms.bpm.bpm_changes@[j].0,
            ),
    ensures
        chart_tempo(bms, init_bpm, y) == bms.bpm.bpm_changes@[j].1.bpm,
{
    broadcast use group_patterns;

    let s = bms.bpm.bpm_changes_u8@;
    let defined = bms.bpm.bpm_changes@;
    let changes = tempo_changes(bms, layout_of(bms).unspaced());
    let n = defined.len() as int;
    assert(changes[j] == (YCoordinate::of(place(bms, defined[j].0)), defined[j].1.bpm));
    assert forall|k: int|
        0 <= k < changes.len() && k != j && (#[trigger] changes[k]).0@ <= y implies changes[k].0@
        < changes[j].0@ || (changes[k].0@ == changes[j].0@ && k < j) by {
        if k < n {
            assert(changes[k].0@ == place(bms, defined[k].0));
        } else {
            let m = lemma_nonzero_from(s, k - n);
            assert(changes[k].0@ == place(bms, s[m].0));
            assert(s[m].1 != 0);
        }
    }
    lemma_tempo_of_change(init_bpm, changes, YCoordinate::of(y), j);
}

/// The tempo is the one at the start up to the first change.
pub proof fn lemma_tempo_initial(bms: Bms, init_bpm: PositiveF64, y: u64)
    requires
        forall|i: int|
            0 <= i < bms.bpm.bpm_changes@.len() ==> place(
                bms,
                (#[trigger] bms.bpm.bpm_changes@[i]).0,
            ) > y,
        forall|k: int|
            0 <= k < bms.bpm.bpm_changes_u8@.len() && (
            #[trigger] bms.bpm.bpm_changes_u8@[k]).1 != 0 ==> place(
                bms,
                bms.bpm.bpm_changes_u8@[k].0,
            ) > y,
    ensures
        chart_tempo(bms, init_bpm, y) == init_bpm,
{
    broadcast use group_patterns;

    let s = bms.bpm.bpm_changes_u8@;
    let defined = bms.bpm.bpm_changes@;
    let changes = tempo_changes(bms, layout_of(bms).unspaced());
    let n = defined.len() as int;
    assert forall|k: int| 0 <= k < changes.len() implies (#[trigger] changes[k]).0@ > y by {
        if k < n {
            assert(changes[k].0@ == place(bms, defined[k].0));
        } else {
            let m = lemma_nonzero_from(s, k - n);
            assert(changes[k].0@ == place(bms, s[m].0));
            assert(s[m].1 != 0);
        }
    }
    lemma_tempo_of_start(init_bpm, changes, YCoordinate::of(y));
}

/// The question whether a stop lies between two positions.
spec fn lies_between(from: u64, to: u64) -> spec_fn((YCoordinate, NonNegativeF64)) -> bool {
    |stop: (YCoordinate, NonNegativeF64)| from <= stop.0@ < to
}

/// The only stop between two positions, or none, is what is waited for.
proof fn lemma_one_stop(
    tempo: Seq<(YCoordinate, PositiveF64)>,
    s: Seq<(YCoordinate, NonNegativeF64)>,
    from: u64,
    to: u64,
    time: Option<u64>,
    stop: (YCoordinate, NonNegativeF64),
)
    requires
        count(s, lies_between(from, to)) <= 1,
        forall|k: int| 0 <= k < s.len() && from <= (#[trigger] s[k]).0@ < to ==> s[k] == stop,
    ensures
        after_stops(tempo, s, from, to, time) == if count(s, lies_between(from, to)) == 0 {
            time
        } else {
            later_by(time, lasting(stop.1@, PER_MINUTE_BITS, tempo_at(tempo, stop.0)@))
        },
    decreases s.len(),
{
    if s.len() > 0 {
        let front = s.drop_last();
        assert forall|k: int|
            0 <= k < front.len() && from <= (#[trigger] front[k]).0@ < to implies front[k]
            == stop by {
            assert(s[k] == front[k]);
        }
        if from <= s.last().0@ < to {
            assert(s[s.len() - 1] == stop);
        }
        lemma_one_stop(tempo, front, from, to, time, stop);
    }
}

/// Whether no change of the tempo lies between two positions.
pub open spec fn keeps_tempo(bms: Bms, from: u64, to: u64) -> bool {
    &&& forall|i: int|
        0 <= i < bms.bpm.bpm_changes@.len() ==> !(from < place(
            bms,
            (#[trigger] bms.bpm.bpm_changes@[i]).0,
        ) < to)
    &&& forall|k: int|
        0 <= k < bms.bpm.bpm_changes_u8@.len() && (#[trigger] bms.bpm.bpm_changes_u8@[k]).1 != 0
            ==> !(from < place(bms, bms.bpm.bpm_changes_u8@[k].0) < to)
}

/// The time after another one and a number of seconds, infinite where either is or where
/// the sum is too large.
pub open spec fn delayed_by(time: Seconds, seconds: Option<u64>) -> Seconds {
    match (time, seconds) {
        (Seconds::Finite(x), Some(s)) => match sum_of(x@, s) {
            Some(bits) => Seconds::Finite(NonNegativeF64::of(bits)),
            None => Seconds::Infinite,
        },
        _ => Seconds::Infinite,
    }
}

/// Whether the tempo changes at a position.
pub open spec fn changes_tempo(bms: Bms, y: u64) -> bool {
    ||| exists|i: int|
        0 <= i < bms.bpm.bpm_changes@.len() && place(bms, (#[trigger] bms.bpm.bpm_changes@[i]).0)
            == y
    ||| exists|k: int|
        0 <= k < bms.bpm.bpm_changes_u8@.len() && (#[trigger] bms.bpm.bpm_changes_u8@[k]).1 != 0
            && place(bms, bms.bpm.bpm_changes_u8@[k].0) == y
}

/// A position at which the tempo changes is that of one of the changes.
proof fn lemma_changes_tempo(bms: Bms, y: u64)
    requires
        changes_tempo(bms, y),
    ensures
        keys_of(tempo_changes(bms, layout_of(bms).unspaced())).contains(y),
{
    broadcast use group_patterns;

    let changes = tempo_changes(bms, layout_of(bms).unspaced());
    let defined = bms.bpm.bpm_changes@;
    let s = bms.bpm.bpm_changes_u8@;
    if exists|i: int| 0 <= i < defined.len() && place(bms, (#[trigger] defined[i]).0) == y {
        let i = choose|i: int| 0 <= i < defined.len() && place(bms, (#[trigger] defined[i]).0) == y;
        assert(changes[i].0@ == y);
    } else {
        let k = choose|k: int|
            0 <= k < s.len() && (#[trigger] s[k]).1 != 0 && place(bms, s[k].0) == y;
        lemma_nonzero_kept(s, k);
        let at = defined.len() + nonzero(s.take(k)).len();
        assert(changes[at as int].0@ == y);
    }
}

/// The points of a chart up to a position.
proof fn lemma_from_point(
    bms: Bms,
    points: Set<u64>,
    from: u64,
    to: u64,
)
    requires
        points.contains(from) || from == 0 || changes_tempo(bms, from),
        from < to,
        forall|p: u64| #[trigger] points.contains(p) ==> !(from < p < to),
        keeps_tempo(bms, from, to),
    ensures
        ({
            let changes = tempo_changes(bms, layout_of(bms).unspaced());
            forall|p: u64|
                is_previous(timeline_points(points, changes), p, to) <==> p == from
        }),
{
    broadcast use group_patterns;

    let changes = tempo_changes(bms, layout_of(bms).unspaced());
    let all = timeline_points(points, changes);
    let defined = bms.bpm.bpm_changes@;
    let s = bms.bpm.bpm_changes_u8@;
    if changes_tempo(bms, from) {
        lemma_changes_tempo(bms, from);
    }
    assert(all.contains(from));
    assert forall|p: u64| #[trigger] all.contains(p) && p < to implies p <= from by {
        if !points.contains(p) && p != 0 {
            let k = choose|k: int| 0 <= k < changes.len() && (#[trigger] changes[k]).0@ == p;
            if k < defined.len() {
                assert(p == place(bms, defined[k].0));
            } else {
                let m = lemma_nonzero_from(s, k - defined.len());
                assert(p == place(bms, s[m].0));
                assert(s[m].1 != 0);
            }
        }
    }
    assert(is_previous(all, from, to));
}

/// The playhead starts at the start: what stands there is reached at zero.
pub proof fn lemma_reached_at_start<T: KeyLayoutMapper>(
    chart: Chart,
    bms: Bms,
    init_bpm: PositiveF64,
    k: int,
)
    requires
        is_chart_at::<T>(chart, bms, init_bpm),
        indexes(chart.events.spec_events(), chart.events.spec_by_y(), chart.events@),
        0 <= k < chart.events.spec_events().len(),
        chart.events.spec_events()[k].unspaced@ == 0,
    ensures
        chart.events.spec_events()[k].activate_time == Seconds::Finite(NonNegativeF64::of(0)),
{
    lemma_event_time::<T>(chart, bms, init_bpm, k);
}

/// From one event to the next the playhead travels at the tempo in force at the first: the
/// way between their positions without spacing lasts 240 seconds a measure at one beat per
/// minute. Where a stop lies on the way, at the first or behind it but before the second,
/// its beats are waited for, 60 seconds a beat at one beat per minute, at the tempo in
/// force at the stop.
#[verifier::rlimit(40)]
pub proof fn lemma_to_next_event<T: KeyLayoutMapper>(
    chart: Chart,
    bms: Bms,
    init_bpm: PositiveF64,
    i: int,
    j: int,
    stop: Option<int>,
)
    requires
        is_chart_at::<T>(chart, bms, init_bpm),
        indexes(chart.events.spec_events(), chart.events.spec_by_y(), chart.events@),
        0 <= i < chart.events.spec_events().len(),
        0 <= j < chart.events.spec_events().len(),
        chart.events.spec_events()[i].unspaced@ < chart.events.spec_events()[j].unspaced@,
        chart.events.spec_points().contains(chart.events.spec_events()[i].unspaced@),
        forall|p: u64| #[trigger]
            chart.events.spec_points().contains(p) ==> !(
            chart.events.spec_events()[i].unspaced@ < p
                < chart.events.spec_events()[j].unspaced@),
        keeps_tempo(
            bms,
            chart.events.spec_events()[i].unspaced@,
            chart.events.spec_events()[j].unspaced@,
        ),
        stop matches Some(m) ==> 0 <= m < bms.stop.stops@.len(),
        forall|m: int|
            0 <= m < bms.stop.stops@.len() ==> (stop == Some(m) <==> chart.events.spec_events()[i].unspaced@
                <= place(bms, (#[trigger] bms.stop.stops@[m]).1.time)
                < chart.events.spec_events()[j].unspaced@),
    ensures
        ({
            let from = chart.events.spec_events()[i];
            let to = chart.events.spec_events()[j];
            let arrived = delayed_by(
                from.activate_time,
                lasting(
                    difference_or_zero(to.unspaced@, from.unspaced@),
                    PER_MEASURE_BITS,
                    chart_tempo(bms, init_bpm, from.unspaced@)@,
                ),
            );
            to.activate_time == match stop {
                Some(m) => delayed_by(
                    arrived,
                    lasting(
                        stop_beats(bms.stop.stops@[m].1.duration)@,
                        PER_MINUTE_BITS,
                        chart_tempo(
                            bms,
                            init_bpm,
                            place(bms, bms.stop.stops@[m].1.time),
                        )@,
                    ),
                ),
                None => arrived,
            }
        }),
{
    broadcast use group_patterns;

    let layout = layout_of(bms);
    let from = chart.events.spec_events()[i].unspaced@;
    let to = chart.events.spec_events()[j].unspaced@;
    let points = chart.events.spec_points();
    let changes = tempo_changes(bms, layout.unspaced());
    let tempo = tempo_map(init_bpm, changes);
    let all = timeline_points(points, changes);
    let s = stops_of(layout.unspaced(), bms.stop.stops@);
    lemma_event_time::<T>(chart, bms, init_bpm, i);
    lemma_event_time::<T>(chart, bms, init_bpm, j);
    lemma_from_point(bms, points, from, to);
    assert(is_previous(all, from, to));
    let travel = lasting(
        difference_or_zero(to, from),
        PER_MEASURE_BITS,
        tempo_at(tempo, YCoordinate::of(from))@,
    );
    let time = later_by(arrival(all, tempo, sorted(s), from), travel);
    let q = lies_between(from, to);
    let the_stop = match stop {
        Some(m) => s[m],
        None => (YCoordinate::of(0), NonNegativeF64::of(0)),
    };
    assert forall|m: int| 0 <= m < s.len() implies q(#[trigger] s[m]) == (stop == Some(m)) by {
        assert(s[m].0@ == place(bms, bms.stop.stops@[m].1.time));
    }
    lemma_count_single(s, q, stop);
    lemma_count_sorted(s, q);
    assert forall|k: int|
        0 <= k < sorted(s).len() && from <= (#[trigger] sorted(s)[k]).0@ < to implies sorted(s)[k]
        == the_stop by {
        lemma_sorted_entry(s, k);
        let m = choose|m: int| 0 <= m < s.len() && s[m] == sorted(s)[k];
        assert(q(s[m]));
    }
    lemma_one_stop(tempo, sorted(s), from, to, time, the_stop);
    assert(arrival(all, tempo, sorted(s), to) == after_stops(tempo, sorted(s), from, to, time));
}

/// Whatever points a chart is timed from, a new tempo holds from its own position on: where
/// no stop lies on the way, the way from a point, or from a change of the tempo, to a
/// position up to the next one lasts 240 seconds a measure at one beat per minute, at the
/// tempo there.
pub proof fn lemma_travel(
    bms: Bms,
    init_bpm: PositiveF64,
    points: Set<u64>,
    from: u64,
    to: u64,
)
    requires
        points.contains(from) || from == 0 || changes_tempo(bms, from),
        from < to,
        forall|p: u64| #[trigger] points.contains(p) ==> !(from < p < to),
        keeps_tempo(bms, from, to),
        forall|m: int|
            0 <= m < bms.stop.stops@.len() ==> !(from <= place(
                bms,
                (#[trigger] bms.stop.stops@[m]).1.time,
            ) < to),
    ensures
        time_at(bms, layout_of(bms), init_bpm, points, to) == delayed_by(
            time_at(bms, layout_of(bms), init_bpm, points, from),
            lasting(
                difference_or_zero(to, from),
                PER_MEASURE_BITS,
                chart_tempo(bms, init_bpm, from)@,
            ),
        ),
{
    broadcast use group_patterns;

    let layout = layout_of(bms);
    let changes = tempo_changes(bms, layout.unspaced());
    let tempo = tempo_map(init_bpm, changes);
    let all = timeline_points(points, changes);
    let s = stops_of(layout.unspaced(), bms.stop.stops@);
    lemma_from_point(bms, points, from, to);
    assert(is_previous(all, from, to));
    let travel = lasting(
        difference_or_zero(to, from),
        PER_MEASURE_BITS,
        tempo_at(tempo, YCoordinate::of(from))@,
    );
    let time = later_by(arrival(all, tempo, sorted(s), from), travel);
    let q = lies_between(from, to);
    assert forall|k: int| 0 <= k < sorted(s).len() implies !(from <= (
    #[trigger] sorted(s)[k]).0@ < to) by {
        lemma_sorted_entry(s, k);
        let m = choose|m: int| 0 <= m < s.len() && s[m] == sorted(s)[k];
        assert(s[m].0@ == place(bms, bms.stop.stops@[m].1.time));
    }
    lemma_count_none(sorted(s), q);
    lemma_one_stop(tempo, sorted(s), from, to, time, (YCoordinate::of(0), NonNegativeF64::of(0)));
    assert(arrival(all, tempo, sorted(s), to) == after_stops(tempo, sorted(s), from, to, time));
}

/// What only one place answers is counted once.
proof fn lemma_count_single<A>(s: Seq<A>, q: spec_fn(A) -> bool, only: Option<int>)
    requires
        only matches Some(m) ==> 0 <= m < s.len(),
        forall|m: int| 0 <= m < s.len() ==> q(#[trigger] s[m]) == (only == Some(m)),
    ensures
        count(s, q) == if only is Some {
            1nat
        } else {
            0nat
        },
    decreases s.len(),
{
    if s.len() > 0 {
        let n = s.len() - 1;
        let front = s.drop_last();
        assert(q(s[n]) == (only == Some(n)));
        let rest = if only == Some(n) {
            None
        } else {
            only
        };
        assert forall|m: int| 0 <= m < front.len() implies q(#[trigger] front[m]) == (rest == Some(
            m,
        )) by {
            assert(front[m] == s[m]);
        }
        lemma_count_single(front, q, rest);
    }
}

/// In a chart without changes of the spacing, the events are timed from the positions that
/// have events.
#[verifier::rlimit(40)]
pub proof fn lemma_timed_from_events<T: KeyLayoutMapper>(
    chart: Chart,
    bms: Bms,
    init_bpm: PositiveF64,
)
    requires
        is_chart_at::<T>(chart, bms, init_bpm),
        bms.speed.speed_factor_changes@.len() == 0,
    ensures
        chart.events.spec_points() == chart.events@.dom(),
{
    let layout = layout_of(bms);
    assert(bms.speed.speed_factor_changes@ =~= Seq::empty());
    assert(layout == layout.unspaced());
    assert(unspaced_events::<T>(bms, layout) == all_events::<T>(bms, layout));
    assert(chart.events.spec_points() =~= chart.events@.dom());
}

/// A way of `way` measures lasts `240 * way / bpm` seconds: exactly so where neither of
/// the two steps, times 240 and over the tempo, needs rounding.
pub proof fn lemma_travel_seconds(way: u64, bpm: PositiveF64, product: u64, seconds: u64)
    requires
        product < INFINITE,
        seconds < INFINITE,
        magnitude(bpm@ as nat) > 0,
        magnitude(product as nat) == 240 * magnitude(way as nat),
        magnitude(seconds as nat) * magnitude(bpm@ as nat) == magnitude(product as nat) * pow2(
            UNIT_SCALE as nat,
        ),
    ensures
        lasting(way, PER_MEASURE_BITS, bpm@) == Some(seconds),
        magnitude(seconds as nat) * magnitude(bpm@ as nat) == 240 * magnitude(way as nat) * pow2(
            UNIT_SCALE as nat,
        ),
{
    let unit = pow2(UNIT_SCALE as nat);
    let w = magnitude(way as nat);
    lemma_pow2_pos(UNIT_SCALE as nat);
    lemma_durations();
    lemma_exact(product as nat, unit);
    assert((240 * w) * unit == w * (240 * unit)) by (nonlinear_arith);
    lemma_exact(seconds as nat, magnitude(bpm@ as nat));
}

/// The beats that a stop lasts are the number nearest to the 48th part of its value, which
/// counts 192nd notes, four beats being a whole note.
pub proof fn lemma_stop_beats(duration: NonNegativeF64, other: nat)
    requires
        duration@ < INFINITE,
    ensures
        distance(
            (48 * magnitude(stop_beats(duration)@ as nat)) as int,
            magnitude(duration@ as nat) as int,
        ) <= distance((48 * magnitude(other)) as int, magnitude(duration@ as nat) as int),
{
    broadcast use group_patterns;

    let unit = pow2(UNIT_SCALE as nat);
    let v = magnitude(duration@ as nat);
    let d = 48 * unit;
    lemma_pow2_pos(UNIT_SCALE as nat);
    lemma_durations();
    lemma_nearest(v * unit, d, other);
    assert(v * unit <= v * d) by (nonlinear_arith)
        requires
            d == 48 * unit,
            unit > 0,
    ;
    lemma_rounded_below(v * unit, d, duration@);
    let r = magnitude(nearest(v * unit, d));
    let o = magnitude(other);
    assert(r * d == (48 * r) * unit && o * d == (48 * o) * unit) by (nonlinear_arith)
        requires
            d == 48 * unit,
    ;
    lemma_distance_scaled((48 * r) as int, v as int, unit as int);
    lemma_distance_scaled((48 * o) as int, v as int, unit as int);
    let (a, b) = (
        distance((48 * r) as int, v as int),
        distance((48 * o) as int, v as int),
    );
    assert(a <= b) by (nonlinear_arith)
        requires
            a * unit <= b * unit,
            unit > 0,
    ;
}

/// Distances scale.
proof fn lemma_distance_scaled(a: int, b: int, c: int)
    requires
        c > 0,
    ensures
        distance(a * c, b * c) == distance(a, b) * c,
{
    assert((b - a) * c == b * c - a * c && (a - b) * c == a * c - b * c) by (nonlinear_arith);
    if a <= b {
        assert(a * c <= b * c) by (nonlinear_arith)
            requires
                a <= b,
                c > 0,
        ;
    } else {
        assert(a * c > b * c) by (nonlinear_arith)
            requires
                a > b,
                c > 0,
        ;
    }
}

} // verus!
