//! What one more stop does to the times of a chart.

#[allow(unused_imports)]
use crate::bms::{Bms, StopObj};
#[allow(unused_imports)]
use crate::event::{PlayheadEvent, YCoordinate};
#[allow(unused_imports)]
use crate::events::stop_beats;
#[allow(unused_imports)]
use crate::num::{difference_or_zero, group_patterns, NonNegativeF64, PositiveF64};
#[allow(unused_imports)]
use crate::rounding::{
    distance, lemma_order, lemma_rounding_error, lemma_rounding_monotone, lemma_sum_not_less,
    magnitude,
};
#[allow(unused_imports)]
use crate::sorting::{in_order, inserted, lemma_sorted, sorted};
#[allow(unused_imports)]
use crate::time::ObjTime;
#[allow(unused_imports)]
use crate::timeline::{
    after_stops, arrival, is_previous, lasting, later_by, lemma_constant_tempo,
    lemma_some_previous, lemma_timed_events, stops_of, tempo_at, tempo_changes, tempo_map,
    timed_events, timeline_points, PER_MEASURE_BITS, PER_MINUTE_BITS,
};
#[allow(unused_imports)]
use crate::y_memo::Layout;
use vstd::prelude::*;

verus! {

/// The number of stops from one position to before another.
pub open spec fn count_stops(stops: Seq<(YCoordinate, NonNegativeF64)>, from: u64, to: u64) -> nat
    decreases stops.len(),
{
    if stops.len() == 0 {
        0
    } else {
        count_stops(stops.drop_last(), from, to) + if from <= stops.last().0@ < to {
            1nat
        } else {
            0nat
        }
    }
}

/// The number of sums that the time of a position is made of.
pub open spec fn count_sums(
    points: Set<u64>,
    stops: Seq<(YCoordinate, NonNegativeF64)>,
    y: u64,
) -> nat
    decreases y,
{
    if exists|point: u64| is_previous(points, point, y) {
        let from = choose|point: u64| is_previous(points, point, y);
        count_sums(points, stops, from) + 1 + count_stops(stops, from, y)
    } else {
        0
    }
}

/// Whether a time is later than another by a number of seconds, up to the rounding of a
/// number of sums: for each sum, the `2^52`nd part of the later time.
pub open spec fn is_delayed(a: Option<u64>, b: Option<u64>, by: u64, sums: nat) -> bool {
    match (a, b) {
        (Some(x), Some(y)) => {
            &&& x <= y
            &&& 0x0020_0000_0000_0000 * distance(
                magnitude(y as nat) - magnitude(x as nat),
                magnitude(by as nat) as int,
            ) <= (2 * sums) * magnitude(y as nat)
        },
        _ => false,
    }
}

/// More sums allow for more rounding.
proof fn lemma_more_sums(a: Option<u64>, b: Option<u64>, by: u64, sums: nat, more: nat)
    requires
        is_delayed(a, b, by, sums),
        sums <= more,
    ensures
        is_delayed(a, b, by, more),
{
    let y = magnitude(b->0 as nat);
    assert((2 * sums) * y <= (2 * more) * y) by (nonlinear_arith)
        requires
            sums <= more,
    ;
}

/// Adding the same to both times keeps the delay.
proof fn lemma_add_both(a: Option<u64>, b: Option<u64>, by: u64, sums: nat, more: Option<u64>)
    requires
        is_delayed(a, b, by, sums),
        later_by(b, more) is Some,
    ensures
        is_delayed(later_by(a, more), later_by(b, more), by, sums + 1),
{
    let x = a->0;
    let y = b->0;
    let v = magnitude(more->0 as nat);
    let p = magnitude(x as nat) + v;
    let q = magnitude(y as nat) + v;
    lemma_order(x as nat, y as nat);
    lemma_rounding_monotone(p, 1, q, 1);
    lemma_rounding_error(p);
    lemma_rounding_error(q);
    let x2 = later_by(a, more)->0;
    let y2 = later_by(b, more)->0;
    lemma_order(x2 as nat, y2 as nat);
    lemma_sum_not_less(y, more->0);
    lemma_order(y as nat, y2 as nat);
    let (before, after) = (magnitude(y as nat), magnitude(y2 as nat));
    assert((2 * sums) * before + 2 * after <= (2 * (sums + 1)) * after) by (nonlinear_arith)
        requires
            before <= after,
    ;
}

/// Adding a stop to a time delays it by the stop.
proof fn lemma_add_stop(a: Option<u64>, by: u64)
    requires
        later_by(a, Some(by)) is Some,
    ensures
        is_delayed(a, later_by(a, Some(by)), by, 1),
{
    lemma_sum_not_less(a->0, by);
    lemma_rounding_error(magnitude(a->0 as nat) + magnitude(by as nat));
    let y = magnitude(later_by(a, Some(by))->0 as nat);
    assert((2 * 1nat) * y >= y) by (nonlinear_arith);
}

/// After an infinite time, the stops end at an infinite time.
proof fn lemma_infinite_stops(
    tempo: Seq<(YCoordinate, PositiveF64)>,
    stops: Seq<(YCoordinate, NonNegativeF64)>,
    from: u64,
    to: u64,
)
    ensures
        after_stops(tempo, stops, from, to, None) is None,
    decreases stops.len(),
{
    if stops.len() > 0 {
        lemma_infinite_stops(tempo, stops.drop_last(), from, to);
    }
}

/// The same stops keep a delay.
proof fn lemma_same_stops(
    tempo: Seq<(YCoordinate, PositiveF64)>,
    stops: Seq<(YCoordinate, NonNegativeF64)>,
    from: u64,
    to: u64,
    a: Option<u64>,
    b: Option<u64>,
    by: u64,
    sums: nat,
)
    requires
        is_delayed(a, b, by, sums),
        after_stops(tempo, stops, from, to, b) is Some,
    ensures
        is_delayed(
            after_stops(tempo, stops, from, to, a),
            after_stops(tempo, stops, from, to, b),
            by,
            sums + count_stops(stops, from, to),
        ),
    decreases stops.len(),
{
    if stops.len() > 0 {
        let front = stops.drop_last();
        lemma_same_stops(tempo, front, from, to, a, b, by, sums);
        let (y, beats) = stops.last();
        if from <= y@ < to {
            lemma_add_both(
                after_stops(tempo, front, from, to, a),
                after_stops(tempo, front, from, to, b),
                by,
                sums + count_stops(front, from, to),
                lasting(beats@, PER_MINUTE_BITS, tempo_at(tempo, y)@),
            );
        }
    }
}

/// One more stop that lies outside makes no difference.
proof fn lemma_stop_outside(
    tempo: Seq<(YCoordinate, PositiveF64)>,
    stops: Seq<(YCoordinate, NonNegativeF64)>,
    k: int,
    stop: (YCoordinate, NonNegativeF64),
    from: u64,
    to: u64,
    time: Option<u64>,
)
    requires
        0 <= k <= stops.len(),
        !(from <= stop.0@ < to),
    ensures
        after_stops(tempo, stops.insert(k, stop), from, to, time) == after_stops(
            tempo,
            stops,
            from,
            to,
            time,
        ),
        count_stops(stops.insert(k, stop), from, to) == count_stops(stops, from, to),
    decreases stops.len(),
{
    let more = stops.insert(k, stop);
    if k == stops.len() {
        assert(more.drop_last() =~= stops);
    } else {
        assert(more.drop_last() =~= stops.drop_last().insert(k, stop));
        lemma_stop_outside(tempo, stops.drop_last(), k, stop, from, to, time);
    }
}

/// One more stop that lies inside delays what comes after it.
proof fn lemma_stop_inside(
    tempo: Seq<(YCoordinate, PositiveF64)>,
    stops: Seq<(YCoordinate, NonNegativeF64)>,
    k: int,
    stop: (YCoordinate, NonNegativeF64),
    from: u64,
    to: u64,
    time: Option<u64>,
    by: u64,
)
    requires
        0 <= k <= stops.len(),
        from <= stop.0@ < to,
        lasting(stop.1@, PER_MINUTE_BITS, tempo_at(tempo, stop.0)@) == Some(by),
        after_stops(tempo, stops.insert(k, stop), from, to, time) is Some,
    ensures
        is_delayed(
            after_stops(tempo, stops, from, to, time),
            after_stops(tempo, stops.insert(k, stop), from, to, time),
            by,
            count_stops(stops.insert(k, stop), from, to),
        ),
    decreases stops.len(),
{
    let more = stops.insert(k, stop);
    if k == stops.len() {
        assert(more.drop_last() =~= stops);
        let before = after_stops(tempo, stops, from, to, time);
        lemma_add_stop(before, by);
        lemma_more_sums(
            before,
            later_by(before, Some(by)),
            by,
            1,
            count_stops(more, from, to),
        );
    } else {
        let front = stops.drop_last();
        assert(more.drop_last() =~= front.insert(k, stop));
        lemma_stop_inside(tempo, front, k, stop, from, to, time, by);
        let (y, beats) = stops.last();
        if from <= y@ < to {
            lemma_add_both(
                after_stops(tempo, front, from, to, time),
                after_stops(tempo, front.insert(k, stop), from, to, time),
                by,
                count_stops(front.insert(k, stop), from, to),
                lasting(beats@, PER_MINUTE_BITS, tempo_at(tempo, y)@),
            );
        }
    }
}

/// Up to the position of one more stop, nothing changes.
proof fn lemma_before_stop(
    points: Set<u64>,
    tempo: Seq<(YCoordinate, PositiveF64)>,
    stops: Seq<(YCoordinate, NonNegativeF64)>,
    k: int,
    stop: (YCoordinate, NonNegativeF64),
    y: u64,
)
    requires
        0 <= k <= stops.len(),
        y <= stop.0@,
    ensures
        arrival(points, tempo, stops.insert(k, stop), y) == arrival(points, tempo, stops, y),
    decreases y,
{
    if exists|point: u64| is_previous(points, point, y) {
        let from = choose|point: u64| is_previous(points, point, y);
        lemma_before_stop(points, tempo, stops, k, stop, from);
        let travel = lasting(
            difference_or_zero(y, from),
            PER_MEASURE_BITS,
            tempo_at(tempo, YCoordinate::of(from))@,
        );
        lemma_stop_outside(
            tempo,
            stops,
            k,
            stop,
            from,
            y,
            later_by(arrival(points, tempo, stops, from), travel),
        );
    }
}

/// Behind the position of one more stop, everything is delayed by the stop.
proof fn lemma_behind_stop(
    points: Set<u64>,
    tempo: Seq<(YCoordinate, PositiveF64)>,
    stops: Seq<(YCoordinate, NonNegativeF64)>,
    k: int,
    stop: (YCoordinate, NonNegativeF64),
    y: u64,
    by: u64,
)
    requires
        0 <= k <= stops.len(),
        points.contains(0),
        stop.0@ < y,
        lasting(stop.1@, PER_MINUTE_BITS, tempo_at(tempo, stop.0)@) == Some(by),
        arrival(points, tempo, stops.insert(k, stop), y) is Some,
    ensures
        is_delayed(
            arrival(points, tempo, stops, y),
            arrival(points, tempo, stops.insert(k, stop), y),
            by,
            count_sums(points, stops.insert(k, stop), y),
        ),
    decreases y,
{
    let more = stops.insert(k, stop);
    lemma_some_previous(points, 0, y);
    let from = choose|point: u64| is_previous(points, point, y);
    let travel = lasting(
        difference_or_zero(y, from),
        PER_MEASURE_BITS,
        tempo_at(tempo, YCoordinate::of(from))@,
    );
    let a = arrival(points, tempo, stops, from);
    let b = arrival(points, tempo, more, from);
    let sums = count_sums(points, more, from);
    if later_by(b, travel) is None {
        lemma_infinite_stops(tempo, more, from, y);
    }
    if from <= stop.0@ {
        lemma_before_stop(points, tempo, stops, k, stop, from);
        lemma_stop_inside(tempo, stops, k, stop, from, y, later_by(b, travel), by);
        lemma_more_sums(
            arrival(points, tempo, stops, y),
            arrival(points, tempo, more, y),
            by,
            count_stops(more, from, y),
            count_sums(points, more, y),
        );
    } else {
        lemma_behind_stop(points, tempo, stops, k, stop, from, by);
        lemma_add_both(a, b, by, sums, travel);
        lemma_stop_outside(tempo, stops, k, stop, from, y, later_by(b, travel));
        lemma_same_stops(
            tempo,
            stops,
            from,
            y,
            later_by(a, travel),
            later_by(b, travel),
            by,
            sums + 1,
        );
    }
}

/// The index at which an entry is inserted.
spec fn place<V>(s: Seq<(YCoordinate, V)>, entry: (YCoordinate, V)) -> int
    decreases s.len(),
{
    if s.len() == 0 || s.last().0@ <= entry.0@ {
        s.len() as int
    } else {
        place(s.drop_last(), entry)
    }
}

/// The index at which an entry is inserted lies behind the last entry that is not at a
/// later position.
proof fn lemma_place<V>(s: Seq<(YCoordinate, V)>, entry: (YCoordinate, V))
    ensures
        0 <= place(s, entry) <= s.len(),
        inserted(s, entry) == s.insert(place(s, entry), entry),
        place(s, entry) > 0 ==> s[place(s, entry) - 1].0@ <= entry.0@,
        forall|i: int| place(s, entry) <= i < s.len() ==> (#[trigger] s[i]).0@ > entry.0@,
    decreases s.len(),
{
    if s.len() == 0 || s.last().0@ <= entry.0@ {
        assert(inserted(s, entry) =~= s.insert(s.len() as int, entry));
    } else {
        let front = s.drop_last();
        lemma_place(front, entry);
        assert forall|i: int| place(s, entry) <= i < s.len() implies (#[trigger] s[i]).0@
            > entry.0@ by {
            if i < front.len() {
                assert(front[i].0@ > entry.0@);
            }
        }
        assert(inserted(s, entry) =~= s.insert(place(s, entry), entry));
    }
}

/// Inserting an entry before or behind another one.
proof fn lemma_insert_both<V>(
    s: Seq<(YCoordinate, V)>,
    k: int,
    x: (YCoordinate, V),
    entry: (YCoordinate, V),
) -> (r: int)
    requires
        0 <= k <= s.len(),
        in_order(s.insert(k, x)),
    ensures
        0 <= r <= s.len() + 1,
        inserted(s.insert(k, x), entry) == inserted(s, entry).insert(r, x),
{
    let more = s.insert(k, x);
    let p = place(s, entry);
    let q = place(more, entry);
    lemma_place(s, entry);
    lemma_place(more, entry);
    if k < q {
        // The entry comes behind `x`.
        if k > p {
            assert(more[p] == s[p]);
            assert(more[p].0@ <= more[k].0@);
            assert(more[k].0@ <= more[q - 1].0@);
        }
        if q < p + 1 {
            assert(more[p] == s[p - 1]);
        }
        if q > p + 1 {
            assert(more[q - 1] == s[q - 2]);
        }
        assert(more.insert(q, entry) =~= s.insert(p, entry).insert(k, x));
        k
    } else {
        // The entry comes before `x`.
        if q < p {
            if p <= k {
                assert(more[p - 1] == s[p - 1]);
            } else {
                assert(more[p] == s[p - 1]);
            }
        }
        if q > p {
            assert(more[q - 1] == s[q - 1]);
        }
        assert(more.insert(q, entry) =~= s.insert(p, entry).insert(k + 1, x));
        k + 1
    }
}

/// Sorting one entry more: it comes in somewhere, and the others stay as they are.
pub proof fn lemma_sorted_insert<V>(s: Seq<(YCoordinate, V)>, j: int, x: (YCoordinate, V)) -> (k:
    int)
    requires
        0 <= j <= s.len(),
    ensures
        0 <= k <= s.len(),
        sorted(s.insert(j, x)) == sorted(s).insert(k, x),
    decreases s.len(),
{
    let more = s.insert(j, x);
    lemma_sorted(s);
    if j == s.len() {
        assert(more.drop_last() =~= s);
        lemma_place(sorted(s), x);
        place(sorted(s), x)
    } else {
        let front = s.drop_last();
        assert(more.drop_last() =~= front.insert(j, x));
        let k = lemma_sorted_insert(front, j, x);
        lemma_sorted(front);
        lemma_sorted(front.insert(j, x));
        lemma_insert_both(sorted(front), k, x, s.last())
    }
}

/// One more stop leaves the events up to its position as they are, and delays those
/// behind it by its length, up to the rounding of the sums that their times are made of.
/// The length of the stop is that of its beats at the tempo of its position, which is the
/// one at the start where the tempo does not change. Infinite times are left out.
pub proof fn lemma_one_more_stop(
    bms: Bms,
    more: Bms,
    layout: Layout,
    init_bpm: PositiveF64,
    points: Set<u64>,
    lists: Map<u64, Seq<PlayheadEvent>>,
    j: int,
    stop: (ObjTime, StopObj),
    y: u64,
    i: int,
)
    requires
        0 <= j <= bms.stop.stops@.len(),
        more.stop.stops@ == bms.stop.stops@.insert(j, stop),
        more.bpm.bpm_changes@ == bms.bpm.bpm_changes@,
        more.bpm.bpm_changes_u8@ == bms.bpm.bpm_changes_u8@,
        lists.dom().contains(y),
        0 <= i < lists[y].len(),
    ensures
        ({
            let before = timed_events(bms, layout, init_bpm, points, lists)[y][i].activate_time;
            let after = timed_events(more, layout, init_bpm, points, lists)[y][i].activate_time;
            let unspaced = lists[y][i].unspaced@;
            let changes = tempo_changes(bms, layout.unspaced());
            let at = YCoordinate::of(layout.unspaced().y(stop.1.time));
            let bpm = tempo_at(tempo_map(init_bpm, changes), at);
            let by = lasting(stop_beats(stop.1.duration)@, PER_MINUTE_BITS, bpm@);
            let stops = sorted(stops_of(layout.unspaced(), more.stop.stops@));
            &&& unspaced <= at@ ==> before == after
            &&& unspaced > at@ && by is Some && after is Finite ==> before is Finite && is_delayed(
                Some(before->Finite_0@),
                Some(after->Finite_0@),
                by->0,
                count_sums(timeline_points(points, changes), stops, unspaced),
            )
            &&& changes.len() == 0 ==> bpm == init_bpm
        }),
{
    broadcast use group_patterns;

    let plain = layout.unspaced();
    let changes = tempo_changes(bms, plain);
    let tempo = tempo_map(init_bpm, changes);
    let all = timeline_points(points, changes);
    let at = YCoordinate::of(plain.y(stop.1.time));
    let entry = (at, stop_beats(stop.1.duration));
    let few = stops_of(plain, bms.stop.stops@);
    let many = stops_of(plain, more.stop.stops@);
    let unspaced = lists[y][i].unspaced@;
    assert(many =~= few.insert(j, entry));
    let k = lemma_sorted_insert(few, j, entry);
    lemma_sorted(few);
    lemma_timed_events(bms, layout, init_bpm, points, lists, y, i);
    lemma_timed_events(more, layout, init_bpm, points, lists, y, i);
    assert(tempo_changes(more, plain) == changes);
    let by = lasting(entry.1@, PER_MINUTE_BITS, tempo_at(tempo, at)@);
    if unspaced <= at@ {
        lemma_before_stop(all, tempo, sorted(few), k, entry, unspaced);
    } else if by is Some && arrival(all, tempo, sorted(many), unspaced) is Some {
        lemma_behind_stop(all, tempo, sorted(few), k, entry, unspaced, by->0);
    }
    if changes.len() == 0 {
        assert(changes =~= Seq::empty());
        lemma_constant_tempo(init_bpm, at);
    }
}

} // verus!
