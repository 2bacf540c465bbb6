//! When the events of a chart are reached.

use crate::bms::Bms;
#[allow(unused_imports)]
use crate::bms::{BpmChangeObj, StopObj};
#[allow(unused_imports)]
use crate::chart::timed_lists;
use crate::chart::AllEventsIndex;
#[allow(unused_imports)]
use crate::error::{init_bpm_fault, init_bpm_of};
use crate::error::{init_bpm, PlayingError};
use crate::event::{Seconds, YCoordinate};
#[allow(unused_imports)]
use crate::event::{timed, PlayheadEvent};
use crate::events::convert_stop_duration_to_beats;
#[allow(unused_imports)]
use crate::events::{stop_beats, PER_BEAT_BITS};
use crate::num::{NonNegativeF64, PositiveF64};
#[allow(unused_imports)]
use crate::num::{difference_or_zero, group_patterns, option_of};
use crate::ordered::OrderedMap;
#[allow(unused_imports)]
use crate::ordered::{ascending, last_up_to, lemma_placed_ascending, placed, OrderKey};
#[allow(unused_imports)]
use crate::rounding::{
    lemma_exact, lemma_order, lemma_rounding_monotone, lemma_sum_not_less, lemma_whole_value,
    lemma_zero_magnitude, magnitude, product_of, quotient_of, scale,
    significand, sum_of, INFINITE, UNIT_SCALE,
};
#[allow(unused_imports)]
use crate::position::{keys_of, lemma_placed_keys, lemma_pushed_keys};
use crate::sorting::sort_by_position;
#[allow(unused_imports)]
use crate::sorting::{in_order, lemma_sorted, sorted};
use crate::time::ObjTime;
use crate::y_memo::{bpm_from_u8, default_bpm, nonzero_bpms, YMemo};
#[allow(unused_imports)]
use crate::y_memo::{bpm_of_u8, nonzero, Layout, DEFAULT_BPM_BITS};
#[allow(unused_imports)]
use vstd::arithmetic::power2::{lemma2_to64_rest, lemma_pow2_pos, pow2};
use vstd::prelude::*;

verus! {

/// The pattern of 240, the seconds that a measure lasts at one beat per minute.
pub const PER_MEASURE_BITS: u64 = 0x406e_0000_0000_0000;

/// The pattern of 60, the seconds that a beat lasts at one beat per minute.
pub const PER_MINUTE_BITS: u64 = 0x404e_0000_0000_0000;

/// The sum of two times; none is infinite.
pub open spec fn later_by(a: Option<u64>, b: Option<u64>) -> Option<u64> {
    match (a, b) {
        (Some(x), Some(y)) => sum_of(x, y),
        _ => None,
    }
}

/// How long an amount lasts that takes a number of seconds per unit at one beat per
/// minute.
pub open spec fn lasting(amount: u64, seconds: u64, bpm: u64) -> Option<u64> {
    match product_of(amount, seconds) {
        Some(product) => quotient_of(product, bpm),
        None => None,
    }
}

/// The tempo from each position on: the first one from the start, and then each change,
/// of which the later one holds where two are at the same position.
pub open spec fn tempo_map(init_bpm: PositiveF64, changes: Seq<(YCoordinate, PositiveF64)>) -> Seq<
    (YCoordinate, PositiveF64),
>
    decreases changes.len(),
{
    if changes.len() == 0 {
        placed(Seq::empty(), YCoordinate::of(0), init_bpm)
    } else {
        placed(tempo_map(init_bpm, changes.drop_last()), changes.last().0, changes.last().1)
    }
}

/// The tempo at a position.
pub open spec fn tempo_at(tempo: Seq<(YCoordinate, PositiveF64)>, y: YCoordinate) -> PositiveF64 {
    match last_up_to(tempo, y) {
        Some(bpm) => bpm,
        None => PositiveF64::of(DEFAULT_BPM_BITS),
    }
}

/// A time after the stops from one position to before another.
pub open spec fn after_stops(
    tempo: Seq<(YCoordinate, PositiveF64)>,
    stops: Seq<(YCoordinate, NonNegativeF64)>,
    from: u64,
    to: u64,
    time: Option<u64>,
) -> Option<u64>
    decreases stops.len(),
{
    if stops.len() == 0 {
        time
    } else {
        let earlier = after_stops(tempo, stops.drop_last(), from, to, time);
        let (y, beats) = stops.last();
        if from <= y@ < to {
            later_by(earlier, lasting(beats@, PER_MINUTE_BITS, tempo_at(tempo, y)@))
        } else {
            earlier
        }
    }
}

/// Whether a point is the last one before a position.
pub open spec fn is_previous(points: Set<u64>, point: u64, y: u64) -> bool {
    &&& points.contains(point)
    &&& point < y
    &&& forall|other: u64| #[trigger] points.contains(other) && other < y ==> other <= point
}

/// When a position is reached, travelling from point to point: from the last point
/// before it at the tempo there, and after the stops on the way. A stop at the position
/// itself comes after.
pub open spec fn arrival(
    points: Set<u64>,
    tempo: Seq<(YCoordinate, PositiveF64)>,
    stops: Seq<(YCoordinate, NonNegativeF64)>,
    y: u64,
) -> Option<u64>
    decreases y,
{
    if exists|point: u64| is_previous(points, point, y) {
        let from = choose|point: u64| is_previous(points, point, y);
        let travel = lasting(
            difference_or_zero(y, from),
            PER_MEASURE_BITS,
            tempo_at(tempo, YCoordinate::of(from))@,
        );
        after_stops(
            tempo,
            stops,
            from,
            y,
            later_by(arrival(points, tempo, stops, from), travel),
        )
    } else {
        Some(0)
    }
}

/// The last one before a point is the point in front of it.
proof fn lemma_previous<V>(s: Seq<(YCoordinate, V)>, k: int)
    requires
        ascending(s),
        0 <= k < s.len(),
    ensures
        k == 0 ==> !exists|point: u64| is_previous(keys_of(s), point, s[k].0@),
        k > 0 ==> forall|point: u64|
            is_previous(keys_of(s), point, s[k].0@) <==> point == s[k - 1].0@,
{
    let points = keys_of(s);
    let y = s[k].0@;
    assert forall|i: int| 0 <= i < s.len() implies points.contains((#[trigger] s[i]).0@) by {}
    assert forall|point: u64| points.contains(point) && point < y implies k > 0 && point
        <= s[k - 1].0@ by {
        let i = choose|i: int| 0 <= i < s.len() && (#[trigger] s[i]).0@ == point;
        if i >= k {
            if i > k {
                assert(s[k].0.below(s[i].0));
            }
        } else if i < k - 1 {
            assert(s[i].0.below(s[k - 1].0));
        }
    }
    if k > 0 {
        assert(s[k - 1].0.below(s[k].0));
        assert(is_previous(points, s[k - 1].0@, y));
    }
}

/// How long an amount lasts that takes a number of seconds per unit at one beat per
/// minute.
fn duration(amount: NonNegativeF64, seconds: PositiveF64, bpm: PositiveF64) -> (r: Option<
    NonNegativeF64,
>)
    ensures
        r == option_of(lasting(amount@, seconds@, bpm@)),
{
    broadcast use group_patterns;

    match amount.times(seconds.non_negative()) {
        Some(product) => product.over(bpm),
        None => None,
    }
}

/// The sum of two times.
fn later(a: Option<NonNegativeF64>, b: Option<NonNegativeF64>) -> (r: Option<NonNegativeF64>)
    ensures
        forall|x: Option<u64>, y: Option<u64>|
            a == option_of(x) && b == option_of(y) ==> r == option_of(#[trigger] later_by(x, y)),
{
    broadcast use group_patterns;

    match (a, b) {
        (Some(x), Some(y)) => x.plus(y),
        _ => None,
    }
}

/// The tempo at a position.
fn bpm_at(tempo: &OrderedMap<YCoordinate, PositiveF64>, y: YCoordinate) -> (r: PositiveF64)
    ensures
        r == tempo_at(tempo@, y),
{
    match tempo.last_up_to(y) {
        Some(bpm) => *bpm,
        None => default_bpm(),
    }
}

/// The tempo from each position on.
fn tempo_changes_map(
    init_bpm: PositiveF64,
    changes: &Vec<(YCoordinate, PositiveF64)>,
) -> (r: OrderedMap<YCoordinate, PositiveF64>)
    ensures
        r@ == tempo_map(init_bpm, changes@),
{
    let mut tempo: OrderedMap<YCoordinate, PositiveF64> = OrderedMap::new();
    tempo.insert(YCoordinate(NonNegativeF64::zero()), init_bpm);
    let mut i: usize = 0;
    while i < changes.len()
        invariant
            i <= changes@.len(),
            tempo@ == tempo_map(init_bpm, changes@.take(i as int)),
        decreases changes@.len() - i,
    {
        proof {
            assert(changes@.take(i + 1).drop_last() =~= changes@.take(i as int));
        }
        tempo.insert(changes[i].0, changes[i].1);
        i = i + 1;
    }
    assert(changes@.take(i as int) =~= changes@);
    tempo
}

/// Stops that lie outside make no difference.
proof fn lemma_no_stops(
    tempo: Seq<(YCoordinate, PositiveF64)>,
    stops: Seq<(YCoordinate, NonNegativeF64)>,
    from: u64,
    to: u64,
    time: Option<u64>,
    k: int,
)
    requires
        0 <= k <= stops.len(),
        forall|i: int| k <= i < stops.len() ==> !(from <= (#[trigger] stops[i]).0@ < to),
    ensures
        after_stops(tempo, stops, from, to, time) == after_stops(
            tempo,
            stops.take(k),
            from,
            to,
            time,
        ),
    decreases stops.len(),
{
    if k < stops.len() {
        let front = stops.drop_last();
        assert(!(from <= stops[stops.len() - 1].0@ < to));
        assert forall|i: int| k <= i < front.len() implies !(from <= (#[trigger] front[i]).0@ < to) by {
            assert(!(from <= stops[i].0@ < to));
        }
        lemma_no_stops(tempo, front, from, to, time, k);
        assert(front.take(k) =~= stops.take(k));
    } else {
        assert(stops.take(k) =~= stops);
    }
}

/// When each point is reached.
///
/// # Arguments
/// - `points`: the points, in ascending order
/// - `init_bpm`: the tempo at the start
/// - `bpm_changes`: the changes of the tempo
/// - `stop_list`: the stops, in ascending order, each with the beats that it lasts
pub fn calculate_cumulative_times(
    points: &OrderedMap<YCoordinate, ()>,
    init_bpm: PositiveF64,
    bpm_changes: &Vec<(YCoordinate, PositiveF64)>,
    stop_list: &Vec<(YCoordinate, NonNegativeF64)>,
) -> (r: Vec<(YCoordinate, Seconds)>)
    requires
        in_order(stop_list@),
    ensures
        r@.len() == points@.len(),
        ascending(r@),
        forall|i: int|
            0 <= i < r@.len() ==> #[trigger] r@[i] == (
                points@[i].0,
                seconds_of(
                    arrival(
                        keys_of(points@),
                        tempo_map(init_bpm, bpm_changes@),
                        stop_list@,
                        points@[i].0@,
                    ),
                ),
            ),
{
    broadcast use group_patterns;

    let per_measure = PositiveF64::from_bits(PER_MEASURE_BITS).unwrap();
    let per_minute = PositiveF64::from_bits(PER_MINUTE_BITS).unwrap();
    let tempo = tempo_changes_map(init_bpm, bpm_changes);
    let entries = points.entries();
    let ghost set = keys_of(points@);
    let ghost stops = stop_list@;
    let mut r: Vec<(YCoordinate, Seconds)> = Vec::new();
    let mut total = Some(NonNegativeF64::zero());
    let mut next: usize = 0;
    let mut i: usize = 0;
    while i < entries.len()
        invariant
            entries@ == points@,
            ascending(points@),
            set == keys_of(points@),
            tempo@ == tempo_map(init_bpm, bpm_changes@),
            stops == stop_list@,
            in_order(stops),
            per_measure@ == PER_MEASURE_BITS,
            per_minute@ == PER_MINUTE_BITS,
            i <= entries@.len(),
            next <= stops.len(),
            i == 0 ==> next == 0 && total == Some(NonNegativeF64::of(0)),
            i > 0 ==> total == option_of(arrival(set, tempo@, stops, points@[i - 1].0@)),
            i > 0 ==> forall|j: int|
                0 <= j < next ==> (#[trigger] stops[j]).0@ < points@[i - 1].0@,
            r@.len() == i,
            forall|k: int|
                0 <= k < i ==> #[trigger] r@[k] == (
                    points@[k].0,
                    seconds_of(arrival(set, tempo@, stops, points@[k].0@)),
                ),
        decreases entries@.len() - i,
    {
        broadcast use group_patterns;

        let y = entries[i].0;
        proof {
            lemma_previous(points@, i as int);
        }
        if i > 0 {
            let from = entries[i - 1].0;
            let ghost start = arrival(set, tempo@, stops, from@);
            let bpm = bpm_at(&tempo, from);
            let ghost travel = lasting(difference_or_zero(y@, from@), PER_MEASURE_BITS, bpm@);
            total = later(total, duration(y.0.minus_or_zero(from.0), per_measure, bpm));
            let ghost time = later_by(start, travel);
            proof {
                assert(points@[i - 1].0.below(points@[i as int].0));
                assert(is_previous(set, from@, y@));
                assert(YCoordinate::of(from@) == from);
                assert(arrival(set, tempo@, stops, y@) == after_stops(
                    tempo@,
                    stops,
                    from@,
                    y@,
                    time,
                ));
                lemma_no_stops(tempo@, stops.take(next as int), from@, y@, time, 0);
                assert(stops.take(next as int).take(0) =~= Seq::empty());
            }
            while next < stop_list.len() && stop_list[next].0.is_below(&y)
                invariant
                    stops == stop_list@,
                    in_order(stops),
                    next <= stops.len(),
                    per_minute@ == PER_MINUTE_BITS,
                    from@ < y@,
                    forall|j: int| 0 <= j < next ==> (#[trigger] stops[j]).0@ < y@,
                    total == option_of(
                        after_stops(tempo@, stops.take(next as int), from@, y@, time),
                    ),
                decreases stops.len() - next,
            {
                broadcast use group_patterns;

                let (stop_y, beats) = stop_list[next];
                proof {
                    assert(stops.take(next + 1).drop_last() =~= stops.take(next as int));
                    assert(stops.take(next + 1).last() == stops[next as int]);
                }
                if !stop_y.is_below(&from) {
                    total = later(total, duration(beats, per_minute, bpm_at(&tempo, stop_y)));
                }
                next = next + 1;
            }
            proof {
                assert forall|j: int| next <= j < stops.len() implies !(from@ <= (
                #[trigger] stops[j]).0@ < y@) by {
                    if j > next {
                        assert(stops[next as int].0@ <= stops[j].0@);
                    }
                }
                lemma_no_stops(tempo@, stops, from@, y@, time, next as int);
            }
        }
        let at = match total {
            Some(seconds) => Seconds::Finite(seconds),
            None => Seconds::Infinite,
        };
        r.push((y, at));
        i = i + 1;
    }
    assert forall|a: int, b: int| 0 <= a < b < r@.len() implies (#[trigger] r@[a]).0.below(
        (#[trigger] r@[b]).0,
    ) by {
        assert(points@[a].0.below(points@[b].0));
    }
    r
}

/// A number of seconds; none is infinite.
pub open spec fn seconds_of(time: Option<u64>) -> Seconds {
    match time {
        Some(bits) => Seconds::Finite(NonNegativeF64::of(bits)),
        None => Seconds::Infinite,
    }
}

/// The changes to a defined tempo, each with its position.
pub open spec fn defined_tempo_changes(layout: Layout, s: Seq<(ObjTime, BpmChangeObj)>) -> Seq<
    (YCoordinate, PositiveF64),
> {
    s.map_values(|e: (ObjTime, BpmChangeObj)| (YCoordinate::of(layout.y(e.0)), e.1.bpm))
}

/// The changes to a tempo given in place, each with its position; zero is no change.
pub open spec fn u8_tempo_changes(layout: Layout, s: Seq<(ObjTime, u8)>) -> Seq<
    (YCoordinate, PositiveF64),
> {
    nonzero(s).map_values(
        |e: (ObjTime, u8)| (YCoordinate::of(layout.y(e.0)), bpm_of_u8(e.1)),
    )
}

/// The changes of the tempo of a chart.
pub open spec fn tempo_changes(bms: Bms, layout: Layout) -> Seq<(YCoordinate, PositiveF64)> {
    defined_tempo_changes(layout, bms.bpm.bpm_changes@) + u8_tempo_changes(
        layout,
        bms.bpm.bpm_changes_u8@,
    )
}

/// The stops of a chart, each with its position and the beats that it lasts.
pub open spec fn stops_of(layout: Layout, s: Seq<(ObjTime, StopObj)>) -> Seq<
    (YCoordinate, NonNegativeF64),
> {
    s.map_values(
        |e: (ObjTime, StopObj)| (YCoordinate::of(layout.y(e.1.time)), stop_beats(e.1.duration)),
    )
}

/// The points between which the tempo is taken as constant: the start, given points and
/// the positions of the changes of the tempo.
pub open spec fn timeline_points(
    points: Set<u64>,
    changes: Seq<(YCoordinate, PositiveF64)>,
) -> Set<u64> {
    points.union(keys_of(changes)).insert(0)
}

/// When a position without spacing is reached. The whole timeline is that of the chart
/// without spacing.
pub open spec fn time_at(
    bms: Bms,
    layout: Layout,
    init_bpm: PositiveF64,
    points: Set<u64>,
    unspaced: u64,
) -> Seconds {
    let changes = tempo_changes(bms, layout.unspaced());
    seconds_of(
        arrival(
            timeline_points(points, changes),
            tempo_map(init_bpm, changes),
            sorted(stops_of(layout.unspaced(), bms.stop.stops@)),
            unspaced,
        ),
    )
}

/// The events of a chart, each with the time at which its position without spacing is
/// reached.
pub open spec fn timed_events(
    bms: Bms,
    layout: Layout,
    init_bpm: PositiveF64,
    points: Set<u64>,
    lists: Map<u64, Seq<PlayheadEvent>>,
) -> Map<u64, Seq<PlayheadEvent>> {
    timed_lists(lists, |unspaced: u64| time_at(bms, layout, init_bpm, points, unspaced))
}

/// The patterns of the numbers that durations rest on.
pub proof fn lemma_durations()
    ensures
        magnitude(PER_BEAT_BITS as nat) == 48 * pow2(UNIT_SCALE as nat),
        magnitude(PER_MINUTE_BITS as nat) == 60 * pow2(UNIT_SCALE as nat),
        magnitude(PER_MEASURE_BITS as nat) == 240 * pow2(UNIT_SCALE as nat),
        magnitude(DEFAULT_BPM_BITS as nat) == 120 * pow2(UNIT_SCALE as nat),
{
    lemma2_to64_rest();
    assert(significand(PER_BEAT_BITS as nat) == 48 * 0x8000_0000_0000);
    assert(scale(PER_BEAT_BITS as nat) == 1027);
    lemma_whole_value(PER_BEAT_BITS as nat, 48, 47);
    assert(significand(PER_MINUTE_BITS as nat) == 60 * 0x8000_0000_0000);
    assert(scale(PER_MINUTE_BITS as nat) == 1027);
    lemma_whole_value(PER_MINUTE_BITS as nat, 60, 47);
    assert(significand(PER_MEASURE_BITS as nat) == 240 * 0x2000_0000_0000);
    assert(scale(PER_MEASURE_BITS as nat) == 1029);
    lemma_whole_value(PER_MEASURE_BITS as nat, 240, 45);
    assert(significand(DEFAULT_BPM_BITS as nat) == 120 * 0x4000_0000_0000);
    assert(scale(DEFAULT_BPM_BITS as nat) == 1028);
    lemma_whole_value(DEFAULT_BPM_BITS as nat, 120, 46);
}

/// A stop of `value` lasts `1250 * value / bpm` milliseconds: exactly so where none of
/// the three steps, a 48th in beats, times 60, and over the tempo, needs rounding.
pub proof fn lemma_stop_milliseconds(
    value: NonNegativeF64,
    bpm: PositiveF64,
    beats: u64,
    product: u64,
    seconds: u64,
)
    requires
        beats < INFINITE,
        product < INFINITE,
        seconds < INFINITE,
        magnitude(bpm@ as nat) > 0,
        48 * magnitude(beats as nat) == magnitude(value@ as nat),
        magnitude(product as nat) == 60 * magnitude(beats as nat),
        magnitude(seconds as nat) * magnitude(bpm@ as nat) == magnitude(product as nat) * pow2(
            UNIT_SCALE as nat,
        ),
    ensures
        stop_beats(value)@ == beats,
        lasting(beats, PER_MINUTE_BITS, bpm@) == Some(seconds),
        1000 * (magnitude(seconds as nat) * magnitude(bpm@ as nat)) == 1250 * (magnitude(
            value@ as nat,
        ) * pow2(UNIT_SCALE as nat)),
{
    broadcast use group_patterns;

    let unit = pow2(UNIT_SCALE as nat);
    let b = magnitude(beats as nat);
    let v = magnitude(value@ as nat);
    lemma_pow2_pos(UNIT_SCALE as nat);
    lemma_durations();
    lemma_exact(beats as nat, 48 * unit);
    assert(b * (48 * unit) == v * unit) by (nonlinear_arith)
        requires
            48 * b == v,
    ;
    lemma_exact(product as nat, unit);
    assert((60 * b) * unit == b * (60 * unit)) by (nonlinear_arith);
    lemma_exact(seconds as nat, magnitude(bpm@ as nat));
    assert(1000 * ((60 * b) * unit) == 1250 * (v * unit)) by (nonlinear_arith)
        requires
            48 * b == v,
    ;
}

/// Time does not run backwards: no position is reached before an earlier one. None stands
/// for an infinite time.
pub proof fn lemma_arrival_ordered(
    points: Set<u64>,
    tempo: Seq<(YCoordinate, PositiveF64)>,
    stops: Seq<(YCoordinate, NonNegativeF64)>,
    earlier: u64,
    later: u64,
)
    requires
        earlier <= later,
    ensures
        not_after(
            arrival(points, tempo, stops, earlier),
            arrival(points, tempo, stops, later),
        ),
    decreases later,
{
    if earlier < later {
        if exists|point: u64| is_previous(points, point, earlier) {
            let point = choose|point: u64| is_previous(points, point, earlier);
            lemma_some_previous(points, point, later);
        }
        if exists|point: u64| is_previous(points, point, later) {
            let from = choose|point: u64| is_previous(points, point, later);
            let start = arrival(points, tempo, stops, from);
            let bpm = tempo_at(tempo, YCoordinate::of(from))@;
            let travel = lasting(difference_or_zero(later, from), PER_MEASURE_BITS, bpm);
            if earlier <= from {
                lemma_arrival_ordered(points, tempo, stops, earlier, from);
                lemma_later_by(start, travel);
                lemma_after_stops(tempo, stops, from, later, later_by(start, travel));
            } else {
                assert(is_previous(points, from, earlier));
                assert forall|point: u64| is_previous(points, point, earlier) implies point
                    == from by {}
                let part = lasting(difference_or_zero(earlier, from), PER_MEASURE_BITS, bpm);
                lemma_lasting_ordered(earlier, later, from, bpm);
                lemma_later_by_ordered(start, part, start, travel);
                lemma_after_stops_ordered(
                    tempo,
                    stops,
                    from,
                    earlier,
                    later,
                    later_by(start, part),
                    later_by(start, travel),
                );
            }
        }
    }
}

/// A longer way lasts no less.
proof fn lemma_lasting_ordered(earlier: u64, later: u64, from: u64, bpm: u64)
    requires
        from <= earlier <= later,
    ensures
        not_after(
            lasting(difference_or_zero(earlier, from), PER_MEASURE_BITS, bpm),
            lasting(difference_or_zero(later, from), PER_MEASURE_BITS, bpm),
        ),
{
    let unit = pow2(UNIT_SCALE as nat);
    lemma_pow2_pos(UNIT_SCALE as nat);
    lemma_order(earlier as nat, later as nat);
    lemma_order(from as nat, earlier as nat);
    let near = (magnitude(earlier as nat) - magnitude(from as nat)) as nat;
    let far = (magnitude(later as nat) - magnitude(from as nat)) as nat;
    lemma_rounding_monotone(near, 1, far, 1);
    let a = difference_or_zero(earlier, from);
    let b = difference_or_zero(later, from);
    lemma_exact(0, 1);
    lemma_zero_magnitude();
    assert(a <= b);
    lemma_order(a as nat, b as nat);
    let m = magnitude(PER_MEASURE_BITS as nat);
    let x = magnitude(a as nat) * m;
    let y = magnitude(b as nat) * m;
    assert(x * unit <= y * unit) by (nonlinear_arith)
        requires
            x == magnitude(a as nat) * m,
            y == magnitude(b as nat) * m,
            magnitude(a as nat) <= magnitude(b as nat),
    ;
    lemma_rounding_monotone(x, unit, y, unit);
    let p = product_of(a, PER_MEASURE_BITS);
    let q = product_of(b, PER_MEASURE_BITS);
    if let (Some(p), Some(q)) = (p, q) {
        lemma_order(p as nat, q as nat);
        let d = magnitude(bpm as nat);
        assert((magnitude(p as nat) * unit) * d <= (magnitude(q as nat) * unit) * d)
            by (nonlinear_arith)
            requires
                magnitude(p as nat) <= magnitude(q as nat),
        ;
        if d > 0 {
            lemma_rounding_monotone(magnitude(p as nat) * unit, d, magnitude(q as nat) * unit, d);
        }
    }
}

/// Sums keep the order of their parts.
proof fn lemma_later_by_ordered(
    a: Option<u64>,
    b: Option<u64>,
    c: Option<u64>,
    d: Option<u64>,
)
    requires
        not_after(a, c),
        not_after(b, d),
    ensures
        not_after(later_by(a, b), later_by(c, d)),
{
    if let (Some(w), Some(x)) = (a, b) {
        if let (Some(y), Some(z)) = (c, d) {
            lemma_order(w as nat, y as nat);
            lemma_order(x as nat, z as nat);
            lemma_rounding_monotone(
                magnitude(w as nat) + magnitude(x as nat),
                1,
                magnitude(y as nat) + magnitude(z as nat),
                1,
            );
        }
    }
}

/// From a later time on, and over a longer way, the stops end no earlier.
proof fn lemma_after_stops_ordered(
    tempo: Seq<(YCoordinate, PositiveF64)>,
    stops: Seq<(YCoordinate, NonNegativeF64)>,
    from: u64,
    near: u64,
    far: u64,
    a: Option<u64>,
    b: Option<u64>,
)
    requires
        near <= far,
        not_after(a, b),
    ensures
        not_after(
            after_stops(tempo, stops, from, near, a),
            after_stops(tempo, stops, from, far, b),
        ),
    decreases stops.len(),
{
    if stops.len() > 0 {
        let front = stops.drop_last();
        lemma_after_stops_ordered(tempo, front, from, near, far, a, b);
        let x = after_stops(tempo, front, from, near, a);
        let y = after_stops(tempo, front, from, far, b);
        let stop = lasting(
            stops.last().1@,
            PER_MINUTE_BITS,
            tempo_at(tempo, stops.last().0)@,
        );
        lemma_later_by_ordered(x, stop, y, stop);
        lemma_later_by(y, stop);
    }
}

/// Whether a time is not after another; none is infinite.
pub open spec fn not_after(a: Option<u64>, b: Option<u64>) -> bool {
    match (a, b) {
        (Some(x), Some(y)) => x <= y,
        (None, Some(_)) => false,
        (_, None) => true,
    }
}

/// A sum is not before its parts.
proof fn lemma_later_by(a: Option<u64>, b: Option<u64>)
    ensures
        not_after(a, later_by(a, b)),
{
    if let (Some(x), Some(y)) = (a, b) {
        lemma_sum_not_less(x, y);
    }
}

/// Stops only add to a time.
proof fn lemma_after_stops(
    tempo: Seq<(YCoordinate, PositiveF64)>,
    stops: Seq<(YCoordinate, NonNegativeF64)>,
    from: u64,
    to: u64,
    time: Option<u64>,
)
    ensures
        not_after(time, after_stops(tempo, stops, from, to, time)),
    decreases stops.len(),
{
    if stops.len() > 0 {
        let earlier = after_stops(tempo, stops.drop_last(), from, to, time);
        let (y, beats) = stops.last();
        lemma_after_stops(tempo, stops.drop_last(), from, to, time);
        lemma_later_by(earlier, lasting(beats@, PER_MINUTE_BITS, tempo_at(tempo, y)@));
    }
}

/// Where there is a point before a position, there is a last one.
pub proof fn lemma_some_previous(points: Set<u64>, earlier: u64, y: u64)
    requires
        points.contains(earlier),
        earlier < y,
    ensures
        exists|point: u64| is_previous(points, point, y),
    decreases y - earlier,
{
    if !is_previous(points, earlier, y) {
        let next = choose|other: u64| #[trigger] points.contains(other) && other < y && other
            > earlier;
        lemma_some_previous(points, next, y);
    }
}

/// There is a tempo at every position: that of the start, or one that was changed to.
pub proof fn lemma_tempo_everywhere(
    init_bpm: PositiveF64,
    changes: Seq<(YCoordinate, PositiveF64)>,
    y: YCoordinate,
)
    ensures
        last_up_to(tempo_map(init_bpm, changes), y) matches Some(bpm) && (bpm == init_bpm
            || exists|i: int|
            0 <= i < changes.len() && (#[trigger] changes[i]).1 == bpm && changes[i].0@ <= y@),
    decreases changes.len(),
{
    broadcast use group_patterns;

    if changes.len() == 0 {
        let start = YCoordinate::of(0);
        assert(placed(Seq::<(YCoordinate, PositiveF64)>::empty(), start, init_bpm) =~= seq![
            (start, init_bpm),
        ]);
        assert(tempo_map(init_bpm, changes).last() == (start, init_bpm));
    } else {
        let front = changes.drop_last();
        let (key, bpm) = changes.last();
        lemma_tempo_everywhere(init_bpm, front, y);
        lemma_placed_up_to(tempo_map(init_bpm, front), key, bpm, y);
        assert(changes[changes.len() - 1].1 == bpm);
        let before = last_up_to(tempo_map(init_bpm, front), y)->0;
        if before != init_bpm {
            let i = choose|i: int|
                0 <= i < front.len() && (#[trigger] front[i]).1 == before && front[i].0@ <= y@;
            assert(changes[i] == front[i]);
        }
    }
}

/// A new entry is either the last one up to a key, then it does not lie behind the key,
/// or makes no difference.
proof fn lemma_placed_up_to(
    s: Seq<(YCoordinate, PositiveF64)>,
    key: YCoordinate,
    value: PositiveF64,
    y: YCoordinate,
)
    ensures
        last_up_to(placed(s, key, value), y) == last_up_to(s, y) || (last_up_to(
            placed(s, key, value),
            y,
        ) == Some(value) && key@ <= y@),
    decreases s.len(),
{
    let r = placed(s, key, value);
    if s.len() == 0 || s.last().0.below(key) {
        assert(r.drop_last() =~= s);
    } else if key.below(s.last().0) {
        lemma_placed_up_to(s.drop_last(), key, value, y);
        assert(r.drop_last() =~= placed(s.drop_last(), key, value));
    } else {
        assert(r.drop_last() =~= s.drop_last());
    }
}

/// Where an entry is placed, it is the last one up to every key from its own to before the
/// next one, and makes no difference elsewhere.
proof fn lemma_placed_reach(
    s: Seq<(YCoordinate, PositiveF64)>,
    key: YCoordinate,
    value: PositiveF64,
    y: YCoordinate,
)
    requires
        ascending(s),
    ensures
        key@ <= y@ && (forall|j: int|
            0 <= j < s.len() && (#[trigger] s[j]).0@ <= y@ ==> s[j].0@ <= key@) ==> last_up_to(
            placed(s, key, value),
            y,
        ) == Some(value),
        key@ > y@ || (exists|j: int| 0 <= j < s.len() && key@ < (#[trigger] s[j]).0@ <= y@)
            ==> last_up_to(placed(s, key, value), y) == last_up_to(s, y),
    decreases s.len(),
{
    let r = placed(s, key, value);
    if s.len() == 0 || s.last().0.below(key) {
        assert(r.drop_last() =~= s);
        if exists|j: int| 0 <= j < s.len() && key@ < (#[trigger] s[j]).0@ <= y@ {
            let j = choose|j: int| 0 <= j < s.len() && key@ < (#[trigger] s[j]).0@ <= y@;
            if j < s.len() - 1 {
                assert(s[j].0.below(s[s.len() - 1].0));
            }
        }
    } else if key.below(s.last().0) {
        let front = s.drop_last();
        let last = s[s.len() - 1];
        lemma_placed_reach(front, key, value, y);
        assert(r.drop_last() =~= placed(front, key, value));
        if key@ <= y@ && (forall|j: int|
            0 <= j < s.len() && (#[trigger] s[j]).0@ <= y@ ==> s[j].0@ <= key@) {
            assert(last.0@ > y@);
            assert forall|j: int|
                0 <= j < front.len() && (#[trigger] front[j]).0@ <= y@ implies front[j].0@
                <= key@ by {
                assert(s[j] == front[j]);
            }
        }
        if exists|j: int| 0 <= j < s.len() && key@ < (#[trigger] s[j]).0@ <= y@ {
            let j = choose|j: int| 0 <= j < s.len() && key@ < (#[trigger] s[j]).0@ <= y@;
            if last.0@ > y@ {
                assert(front[j].0@ <= y@);
            }
        }
    } else {
        assert(r.drop_last() =~= s.drop_last());
        if exists|j: int| 0 <= j < s.len() && key@ < (#[trigger] s[j]).0@ <= y@ {
            let j = choose|j: int| 0 <= j < s.len() && key@ < (#[trigger] s[j]).0@ <= y@;
            if j < s.len() - 1 {
                assert(s[j].0.below(s[s.len() - 1].0));
            }
        }
    }
}

/// The tempo is known from the start and from each change on.
proof fn lemma_tempo_keys(init_bpm: PositiveF64, changes: Seq<(YCoordinate, PositiveF64)>)
    ensures
        ascending(tempo_map(init_bpm, changes)),
        keys_of(tempo_map(init_bpm, changes)) == keys_of(changes).insert(0),
    decreases changes.len(),
{
    broadcast use group_patterns;

    if changes.len() == 0 {
        let none = Seq::<(YCoordinate, PositiveF64)>::empty();
        lemma_placed_keys(none, YCoordinate::of(0), init_bpm);
        assert(keys_of(none) =~= keys_of(changes));
    } else {
        let front = changes.drop_last();
        let (key, bpm) = changes.last();
        lemma_tempo_keys(init_bpm, front);
        lemma_placed_ascending(tempo_map(init_bpm, front), key, bpm);
        lemma_placed_keys(tempo_map(init_bpm, front), key, bpm);
        lemma_pushed_keys(front, changes.last());
        assert(changes =~= front.push(changes.last()));
        assert(keys_of(front).insert(0).insert(key@) =~= keys_of(changes).insert(0));
    }
}

/// The tempo at a position is that of the last change up to it: the last by position, and
/// of several at one position the one that was found last. No change is left out for what
/// it changes to.
pub proof fn lemma_tempo_of_change(
    init_bpm: PositiveF64,
    changes: Seq<(YCoordinate, PositiveF64)>,
    y: YCoordinate,
    i: int,
)
    requires
        0 <= i < changes.len(),
        changes[i].0@ <= y@,
        forall|j: int|
            0 <= j < changes.len() && j != i && (#[trigger] changes[j]).0@ <= y@ ==> changes[j].0@
                < changes[i].0@ || (changes[j].0@ == changes[i].0@ && j < i),
    ensures
        tempo_at(tempo_map(init_bpm, changes), y) == changes[i].1,
        last_up_to(tempo_map(init_bpm, changes), y) == Some(changes[i].1),
    decreases changes.len(),
{
    let front = changes.drop_last();
    let before = tempo_map(init_bpm, front);
    let n = changes.len() - 1;
    let (key, bpm) = changes.last();
    lemma_tempo_keys(init_bpm, front);
    lemma_placed_reach(before, key, bpm, y);
    if i == n {
        assert forall|j: int| 0 <= j < before.len() && (#[trigger] before[j]).0@ <= y@ implies
            before[j].0@ <= key@ by {
            let at = before[j].0@;
            assert(keys_of(before).contains(at));
            if at != 0 {
                let k = choose|k: int| 0 <= k < front.len() && (#[trigger] front[k]).0@ == at;
                assert(changes[k].0@ == at);
            }
        }
    } else {
        assert forall|j: int|
            0 <= j < front.len() && j != i && (#[trigger] front[j]).0@ <= y@ implies front[j].0@
            < front[i].0@ || (front[j].0@ == front[i].0@ && j < i) by {
            assert(changes[j] == front[j]);
        }
        lemma_tempo_of_change(init_bpm, front, y, i);
        if changes[n].0@ <= y@ {
            assert(front[i].0@ == changes[i].0@);
            assert(keys_of(before).contains(changes[i].0@));
            let k = choose|k: int|
                0 <= k < before.len() && (#[trigger] before[k]).0@ == changes[i].0@;
            assert(key@ < before[k].0@ <= y@);
        }
    }
}

/// Where no change is up to a position, the tempo is the one at the start.
pub proof fn lemma_tempo_of_start(
    init_bpm: PositiveF64,
    changes: Seq<(YCoordinate, PositiveF64)>,
    y: YCoordinate,
)
    requires
        forall|j: int| 0 <= j < changes.len() ==> (#[trigger] changes[j]).0@ > y@,
    ensures
        tempo_at(tempo_map(init_bpm, changes), y) == init_bpm,
{
    lemma_tempo_everywhere(init_bpm, changes, y);
    let bpm = last_up_to(tempo_map(init_bpm, changes), y)->0;
    if bpm != init_bpm {
        let i = choose|i: int|
            0 <= i < changes.len() && (#[trigger] changes[i]).1 == bpm && changes[i].0@ <= y@;
        assert(changes[i].0@ > y@);
    }
}

/// Without changes the tempo at the start holds everywhere.
pub proof fn lemma_constant_tempo(init_bpm: PositiveF64, y: YCoordinate)
    ensures
        tempo_at(tempo_map(init_bpm, Seq::empty()), y) == init_bpm,
{
    lemma_tempo_everywhere(init_bpm, Seq::empty(), y);
}

/// Timing leaves the events as they are, and gives each the time at which its position
/// without spacing is reached.
pub proof fn lemma_timed_events(
    bms: Bms,
    layout: Layout,
    init_bpm: PositiveF64,
    points: Set<u64>,
    lists: Map<u64, Seq<PlayheadEvent>>,
    y: u64,
    i: int,
)
    requires
        lists.dom().contains(y),
        0 <= i < lists[y].len(),
    ensures
        ({
            let after = timed_events(bms, layout, init_bpm, points, lists);
            &&& after.dom() == lists.dom()
            &&& after[y].len() == lists[y].len()
            &&& after[y][i] == timed(
                lists[y][i],
                time_at(bms, layout, init_bpm, points, lists[y][i].unspaced@),
            )
        }),
{
    assert(timed_events(bms, layout, init_bpm, points, lists).dom() =~= lists.dom());
}

/// The changes of the tempo of a chart, by their positions without spacing.
fn collect_tempo_changes(bms: &Bms, y_memo: &YMemo) -> (r: Vec<(YCoordinate, PositiveF64)>)
    ensures
        r@ == tempo_changes(*bms, y_memo.layout().unspaced()),
{
    broadcast use group_patterns;

    let ghost layout = y_memo.layout().unspaced();
    let mut r: Vec<(YCoordinate, PositiveF64)> = Vec::new();
    let defined = bms.bpm.bpm_changes.entries();
    let mut i: usize = 0;
    while i < defined.len()
        invariant
            layout == y_memo.layout().unspaced(),
            i <= defined@.len(),
            r@ == defined_tempo_changes(layout, defined@.take(i as int)),
        decreases defined@.len() - i,
    {
        broadcast use group_patterns;

        let y = y_memo.get_unspaced_y(defined[i].0);
        r.push((y, defined[i].1.bpm));
        assert(r@ =~= defined_tempo_changes(layout, defined@.take(i + 1)));
        i = i + 1;
    }
    assert(defined@.take(i as int) =~= defined@);
    let ghost before = r@;
    let u8_changes = nonzero_bpms(&bms.bpm.bpm_changes_u8);
    let given = u8_changes.entries();
    let ghost expected = u8_tempo_changes(layout, bms.bpm.bpm_changes_u8@);
    let mut j: usize = 0;
    assert(before + expected.take(0) =~= before);
    while j < given.len()
        invariant
            layout == y_memo.layout().unspaced(),
            given@ == nonzero(bms.bpm.bpm_changes_u8@),
            expected == u8_tempo_changes(layout, bms.bpm.bpm_changes_u8@),
            j <= given@.len(),
            r@ == before + expected.take(j as int),
        decreases given@.len() - j,
    {
        broadcast use group_patterns;

        let (time, bpm_u8) = given[j];
        let y = y_memo.get_unspaced_y(time);
        r.push((y, bpm_from_u8(bpm_u8)));
        assert(r@ =~= before + expected.take(j + 1));
        j = j + 1;
    }
    assert(expected.take(j as int) =~= expected);
    r
}

/// The stops of a chart, in ascending order of their positions without spacing.
fn collect_stops(bms: &Bms, y_memo: &YMemo) -> (r: Vec<(YCoordinate, NonNegativeF64)>)
    ensures
        r@ == sorted(stops_of(y_memo.layout().unspaced(), bms.stop.stops@)),
{
    let ghost layout = y_memo.layout().unspaced();
    let mut r: Vec<(YCoordinate, NonNegativeF64)> = Vec::new();
    let stops = bms.stop.stops.entries();
    let mut i: usize = 0;
    while i < stops.len()
        invariant
            layout == y_memo.layout().unspaced(),
            i <= stops@.len(),
            r@ == stops_of(layout, stops@.take(i as int)),
        decreases stops@.len() - i,
    {
        broadcast use group_patterns;

        let y = y_memo.get_unspaced_y(stops[i].1.time);
        r.push((y, convert_stop_duration_to_beats(stops[i].1.duration)));
        assert(r@ =~= stops_of(layout, stops@.take(i + 1)));
        i = i + 1;
    }
    assert(stops@.take(i as int) =~= stops@);
    sort_by_position(r)
}

/// The points of the timeline, in ascending order.
fn collect_points(
    given: &OrderedMap<YCoordinate, ()>,
    changes: &Vec<(YCoordinate, PositiveF64)>,
) -> (r: OrderedMap<YCoordinate, ()>)
    ensures
        keys_of(r@) == timeline_points(keys_of(given@), changes@),
{
    broadcast use group_patterns;

    let mut points = given.duplicate();
    proof {
        lemma_placed_keys(points@, YCoordinate::of(0), ());
    }
    points.insert(YCoordinate(NonNegativeF64::zero()), ());
    let ghost start = keys_of(points@);
    let mut j: usize = 0;
    assert(keys_of(changes@.take(0)) =~= Set::empty());
    assert(start.union(keys_of(changes@.take(0))) =~= start);
    while j < changes.len()
        invariant
            j <= changes@.len(),
            keys_of(points@) == start.union(keys_of(changes@.take(j as int))),
        decreases changes@.len() - j,
    {
        proof {
            lemma_placed_keys(points@, changes@[j as int].0, ());
            lemma_pushed_keys(changes@.take(j as int), changes@[j as int]);
            assert(changes@.take(j + 1) =~= changes@.take(j as int).push(changes@[j as int]));
        }
        points.insert(changes[j].0, ());
        assert(keys_of(points@) =~= start.union(keys_of(changes@.take(j + 1))));
        j = j + 1;
    }
    proof {
        assert(changes@.take(j as int) =~= changes@);
        assert(keys_of(points@) =~= timeline_points(keys_of(given@), changes@));
    }
    points
}

/// The number of entries before a position.
fn count_before(times: &Vec<(YCoordinate, Seconds)>, y: YCoordinate) -> (r: usize)
    requires
        ascending(times@),
    ensures
        r <= times@.len(),
        forall|i: int| 0 <= i < r ==> (#[trigger] times@[i]).0@ < y@,
        forall|i: int| r <= i < times@.len() ==> (#[trigger] times@[i]).0@ >= y@,
{
    let mut low: usize = 0;
    let mut high: usize = times.len();
    while low < high
        invariant
            ascending(times@),
            low <= high <= times@.len(),
            forall|i: int| 0 <= i < low ==> (#[trigger] times@[i]).0@ < y@,
            forall|i: int| high <= i < times@.len() ==> (#[trigger] times@[i]).0@ >= y@,
        decreases high - low,
    {
        let middle = low + (high - low) / 2;
        if times[middle].0.is_below(&y) {
            assert forall|i: int| 0 <= i < middle + 1 implies (#[trigger] times@[i]).0@ < y@ by {
                if i < middle {
                    assert(times@[i].0.below(times@[middle as int].0));
                }
            }
            low = middle + 1;
        } else {
            assert forall|i: int| middle <= i < times@.len() implies (#[trigger] times@[i]).0@
                >= y@ by {
                if i > middle {
                    assert(times@[middle as int].0.below(times@[i].0));
                }
            }
            high = middle;
        }
    }
    low
}

/// A time as an optional number; none is infinite.
fn to_option(time: Seconds) -> (r: Option<NonNegativeF64>)
    ensures
        forall|x: Option<u64>| time == #[trigger] seconds_of(x) ==> r == option_of(x),
{
    match time {
        Seconds::Finite(seconds) => Some(seconds),
        Seconds::Infinite => None,
    }
}

/// The time after the stops from one position to before another.
fn wait_at_stops(
    tempo: &OrderedMap<YCoordinate, PositiveF64>,
    stops: &Vec<(YCoordinate, NonNegativeF64)>,
    from: YCoordinate,
    to: YCoordinate,
    time: Option<NonNegativeF64>,
    Ghost(x): Ghost<Option<u64>>,
) -> (r: Option<NonNegativeF64>)
    requires
        time == option_of(x),
    ensures
        r == option_of(after_stops(tempo@, stops@, from@, to@, x)),
{
    broadcast use group_patterns;

    let per_minute = PositiveF64::from_bits(PER_MINUTE_BITS).unwrap();
    let ghost s = stops@;
    let mut total = time;
    let mut i: usize = 0;
    while i < stops.len()
        invariant
            s == stops@,
            i <= s.len(),
            per_minute@ == PER_MINUTE_BITS,
            total == option_of(after_stops(tempo@, s.take(i as int), from@, to@, x)),
        decreases s.len() - i,
    {
        broadcast use group_patterns;

        let (y, beats) = stops[i];
        proof {
            assert(s.take(i + 1).drop_last() =~= s.take(i as int));
            assert(s.take(i + 1).last() == s[i as int]);
        }
        if !y.is_below(&from) && y.is_below(&to) {
            total = later(total, duration(beats, per_minute, bpm_at(tempo, y)));
        }
        i = i + 1;
    }
    assert(s.take(i as int) =~= s);
    total
}

/// When a position is reached, given when the points are.
fn time_of(
    times: &Vec<(YCoordinate, Seconds)>,
    tempo: &OrderedMap<YCoordinate, PositiveF64>,
    stops: &Vec<(YCoordinate, NonNegativeF64)>,
    y: YCoordinate,
) -> (r: Seconds)
    requires
        ascending(times@),
        forall|i: int|
            0 <= i < times@.len() ==> (#[trigger] times@[i]).1 == seconds_of(
                arrival(keys_of(times@), tempo@, stops@, times@[i].0@),
            ),
    ensures
        r == seconds_of(arrival(keys_of(times@), tempo@, stops@, y@)),
{
    broadcast use group_patterns;

    let ghost set = keys_of(times@);
    let k = count_before(times, y);
    if k < times.len() && !y.is_below(&times[k].0) {
        return times[k].1;
    }
    if k == 0 {
        assert forall|point: u64| !is_previous(set, point, y@) by {
            if set.contains(point) {
                let i = choose|i: int| 0 <= i < times@.len() && (#[trigger] times@[i]).0@ == point;
                assert(times@[i].0@ >= y@);
            }
        }
        return Seconds::Finite(NonNegativeF64::zero());
    }
    let from = times[k - 1].0;
    proof {
        assert(times@[k - 1].0@ < y@);
        assert(set.contains(from@));
        assert forall|other: u64| #[trigger] set.contains(other) && other < y@ implies other
            <= from@ by {
            let i = choose|i: int| 0 <= i < times@.len() && (#[trigger] times@[i]).0@ == other;
            if i < k - 1 {
                assert(times@[i].0.below(times@[k - 1].0));
            }
        }
        assert(is_previous(set, from@, y@));
        assert forall|point: u64| is_previous(set, point, y@) implies point == from@ by {}
        assert(YCoordinate::of(from@) == from);
    }
    let bpm = bpm_at(tempo, from);
    let per_measure = PositiveF64::from_bits(PER_MEASURE_BITS).unwrap();
    let ghost start = arrival(set, tempo@, stops@, from@);
    let ghost travel = lasting(difference_or_zero(y@, from@), PER_MEASURE_BITS, bpm@);
    let arrived = later(
        to_option(times[k - 1].1),
        duration(y.0.minus_or_zero(from.0), per_measure, bpm),
    );
    assert(arrived == option_of(later_by(start, travel)));
    match wait_at_stops(tempo, stops, from, y, arrived, Ghost(later_by(start, travel))) {
        Some(seconds) => Seconds::Finite(seconds),
        None => Seconds::Infinite,
    }
}

/// The times of all events, given the tempo at the start.
pub fn activate_times_from(
    bms: &Bms,
    all_events: &AllEventsIndex,
    y_memo: &YMemo,
    init_bpm: PositiveF64,
) -> (r: AllEventsIndex)
    ensures
        r@ == timed_events(
            *bms,
            y_memo.layout(),
            init_bpm,
            all_events.spec_points(),
            all_events@,
        ),
        r.spec_points() == all_events.spec_points(),
{
    let bpm_changes = collect_tempo_changes(bms, y_memo);
    let points = collect_points(all_events.points(), &bpm_changes);
    let stop_list = collect_stops(bms, y_memo);
    proof {
        lemma_sorted(stops_of(y_memo.layout().unspaced(), bms.stop.stops@));
    }
    let times = calculate_cumulative_times(&points, init_bpm, &bpm_changes, &stop_list);
    let tempo = tempo_changes_map(init_bpm, &bpm_changes);
    let ghost layout = y_memo.layout();
    let ghost given = all_events.spec_points();
    proof {
        lemma_same_keys(times@, points@);
    }
    let events = all_events.as_events();
    let mut at: Vec<Seconds> = Vec::new();
    let mut i: usize = 0;
    while i < events.len()
        invariant
            events@ == all_events.spec_events(),
            i <= events@.len(),
            at@.len() == i,
            ascending(times@),
            keys_of(times@) == timeline_points(given, bpm_changes@),
            bpm_changes@ == tempo_changes(*bms, layout.unspaced()),
            tempo@ == tempo_map(init_bpm, bpm_changes@),
            stop_list@ == sorted(stops_of(layout.unspaced(), bms.stop.stops@)),
            forall|k: int|
                0 <= k < times@.len() ==> (#[trigger] times@[k]).1 == seconds_of(
                    arrival(keys_of(times@), tempo@, stop_list@, times@[k].0@),
                ),
            forall|k: int|
                0 <= k < i ==> #[trigger] at@[k] == time_at(
                    *bms,
                    layout,
                    init_bpm,
                    given,
                    events@[k].unspaced@,
                ),
        decreases events@.len() - i,
    {
        at.push(time_of(&times, &tempo, &stop_list, events[i].unspaced));
        i = i + 1;
    }
    all_events.with_times(
        &at,
        Ghost(|unspaced: u64| time_at(*bms, layout, init_bpm, given, unspaced)),
    )
}

/// Precompute absolute `activate_time` for all events based on BPM segmentation and
/// Stops.
///
/// # Errors
///
/// Returns [`PlayingError::InvalidBpm`] if the initial BPM value could not be parsed.
pub fn precompute_activate_times(
    bms: &Bms,
    all_events: &AllEventsIndex,
    y_memo: &YMemo,
) -> (r: Result<AllEventsIndex, PlayingError>)
    ensures
        match r {
            Ok(events) => {
                &&& init_bpm_fault(*bms) is None
                &&& events@ == timed_events(
                    *bms,
                    y_memo.layout(),
                    init_bpm_of(*bms),
                    all_events.spec_points(),
                    all_events@,
                )
                &&& events.spec_points() == all_events.spec_points()
            },
            Err(error) => {
                &&& init_bpm_fault(*bms) == Some(error@)
                &&& error@.text().error.len() > 0
            },
        },
{
    match init_bpm(bms) {
        Ok(bpm) => Ok(activate_times_from(bms, all_events, y_memo, bpm)),
        Err(error) => Err(error),
    }
}

/// Entries with the same positions.
proof fn lemma_same_keys<V, W>(a: Seq<(YCoordinate, V)>, b: Seq<(YCoordinate, W)>)
    requires
        a.len() == b.len(),
        forall|i: int| 0 <= i < a.len() ==> (#[trigger] a[i]).0 == b[i].0,
    ensures
        keys_of(a) == keys_of(b),
{
    assert forall|y: u64| keys_of(a).contains(y) == keys_of(b).contains(y) by {
        if keys_of(a).contains(y) {
            let i = choose|i: int| 0 <= i < a.len() && (#[trigger] a[i]).0@ == y;
            assert(b[i].0@ == y);
        }
        if keys_of(b).contains(y) {
            let i = choose|i: int| 0 <= i < b.len() && (#[trigger] b[i]).0@ == y;
            assert(a[i].0@ == y);
        }
    }
    assert(keys_of(a) =~= keys_of(b));
}

} // verus!
