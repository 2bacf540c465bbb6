//! Where the measures of a chart start, and how positions grow with time.

#[allow(unused_imports)]
use crate::bms::SectionLenChangeObj;
#[allow(unused_imports)]
use crate::num::{
    group_patterns, signed_magnitude, signed_sum_of, FinF64, NonNegativeF64, LARGEST, ONE,
};
#[allow(unused_imports)]
use crate::ordered::{ascending, last_before, value_of, OrderKey};
#[allow(unused_imports)]
use crate::rounding::{
    distance, lemma_exact, lemma_first_tie, lemma_neutral, lemma_order, lemma_quotient_error,
    lemma_rounded_below, lemma_rounding_error, lemma_rounding_monotone, lemma_small_whole,
    lemma_sum_not_less, lemma_whole_finite, lemma_whole_value, lemma_zero_magnitude, magnitude,
    nearest, product_of, quotient_of, sum_of, whole_of, BINADE, INFINITE, UNIT_SCALE,
};
#[allow(unused_imports)]
use crate::time::{ObjTime, Track};
#[allow(unused_imports)]
use crate::y_memo::{
    excess, fraction_of, lengths_of, offsets_of, or_largest, position_of, total_excess, Layout,
};
#[allow(unused_imports)]
use vstd::arithmetic::power2::{
    lemma2_to64, lemma2_to64_rest, lemma_pow2_pos, lemma_pow2_strictly_increases,
    lemma_pow2_unfold, pow2,
};
use vstd::prelude::*;

verus! {

/// A track starts at its number plus the excess lengths of the tracks before it: the
/// length of the track itself does not count, and neither do those of later tracks.
pub proof fn lemma_section_start(
    changes: Seq<(Track, SectionLenChangeObj)>,
    layout: Layout,
    track: Track,
    k: int,
)
    requires
        layout.offsets == offsets_of(changes),
        are_before(changes, track, k),
    ensures
        layout.section_start(track) == or_largest(
            signed_sum_of(
                (false, whole_of(track.0)->0),
                or_largest(total_excess(changes.take(k)))@,
            ),
        )@,
{
    broadcast use group_patterns;

    let offsets = offsets_of(changes);
    lemma_last_before(offsets, track, k);
    if k > 0 {
        assert(offsets.take(k).last() == offsets[k - 1]);
        assert(changes[k - 1].0.0 < track.0);
    } else {
        assert(changes.take(0) =~= Seq::empty());
    }
}

/// Entries that do not come before a key make no difference to the last one before it.
proof fn lemma_last_before(s: Seq<(Track, FinF64)>, track: Track, k: int)
    requires
        0 <= k <= s.len(),
        forall|i: int| k <= i < s.len() ==> !(#[trigger] s[i]).0.below(track),
    ensures
        last_before(s, track) == last_before(s.take(k), track),
    decreases s.len(),
{
    if k == s.len() {
        assert(s.take(k) =~= s);
    } else {
        assert(!s[s.len() - 1].0.below(track));
        assert(s.drop_last().take(k) =~= s.take(k));
        lemma_last_before(s.drop_last(), track, k);
    }
}

/// Adding zero to a number with a sign changes nothing.
proof fn lemma_signed_neutral(x: (bool, u64))
    requires
        x.1 < INFINITE,
        x.0 ==> x.1 != 0,
    ensures
        signed_sum_of(x, (false, 0)) == Some(x),
{
    lemma_neutral(x.1);
    lemma_order(1, x.1 as nat);
    lemma_neutral(1);
    lemma_exact(1, 1);
    lemma_exact(0, 1);
    lemma_order(x.1 as nat, 0);
}

/// Where a track starts is a finite number.
proof fn lemma_section_start_finite(layout: Layout, track: Track)
    ensures
        layout.section_start(track).1 < INFINITE,
        layout.section_start(track).0 ==> layout.section_start(track).1 != 0,
{
    broadcast use group_patterns;

}

/// In a chart without lengths and spacings of its own, a track starts at its number.
pub proof fn lemma_default_start(layout: Layout, track: Track)
    requires
        layout.offsets.len() == 0,
        layout.speeds.len() == 0,
    ensures
        layout.start_y(track) == whole_of(track.0)->0,
{
    broadcast use group_patterns;

    lemma_whole_finite(track.0);
    lemma_signed_neutral((false, whole_of(track.0)->0));
    lemma_neutral(whole_of(track.0)->0);
}

/// An object at the start of a track stands where the track starts.
pub proof fn lemma_first_object(layout: Layout, track: Track)
    ensures
        layout.y(ObjTime::at(track, 0, 1)) == layout.start_y(track),
{
    broadcast use {ObjTime::lemma_at, group_patterns};

    let time = ObjTime::at(track, 0, 1);
    let length = layout.length(track);
    lemma_section_start_finite(layout, track);
    lemma_signed_neutral(layout.section_start(track));
    lemma_zero_products(length);
}

/// Zero times a number is zero, and so is zero divided by one.
proof fn lemma_zero_products(bits: u64)
    ensures
        whole_of(0) == Some(0u64),
        quotient_of(0, whole_of(1)->0) == Some(0u64),
        product_of(0, bits) == Some(0u64),
{
    let unit = pow2(UNIT_SCALE as nat);
    lemma_pow2_pos(UNIT_SCALE as nat);
    lemma_whole_finite(1);
    let one = magnitude(whole_of(1)->0 as nat);
    lemma_order(1, whole_of(1)->0 as nat);
    lemma_exact(0, 1);
    lemma_exact(0, unit);
    lemma_exact(1, 1);
    lemma_zero_magnitude();
    assert(magnitude(1) > 0) by {
        lemma_order(1, 0);
    }
    lemma_exact(0, one);
    assert(0 * unit == 0 && 0 * one == 0) by (nonlinear_arith);
    assert(0 * magnitude(bits as nat) == 0) by (nonlinear_arith);
}

/// The exact sum of the excess lengths of tracks, in units.
pub open spec fn exact_excess(s: Seq<(Track, SectionLenChangeObj)>) -> int
    decreases s.len(),
{
    if s.len() == 0 {
        0
    } else {
        exact_excess(s.drop_last()) + magnitude(s.last().1.length@ as nat) - magnitude(ONE as nat)
    }
}

/// Whether a number of units is the value of a finite number.
pub open spec fn representable(units: int) -> bool {
    exists|bits: u64|
        #![trigger magnitude(bits as nat)]
        bits < INFINITE && magnitude(bits as nat) == if units < 0 {
            -units
        } else {
            units
        }
}

/// A sum that is representable is not rounded.
proof fn lemma_signed_exact(x: (bool, u64), y: (bool, u64))
    requires
        representable(signed_magnitude(x) + signed_magnitude(y)),
    ensures
        signed_sum_of(x, y) is Some,
        signed_magnitude(signed_sum_of(x, y)->0) == signed_magnitude(x) + signed_magnitude(y),
{
    let units = signed_magnitude(x) + signed_magnitude(y);
    let bits = choose|bits: u64|
        #![trigger magnitude(bits as nat)]
        bits < INFINITE && magnitude(bits as nat) == if units < 0 {
            -units
        } else {
            units
        };
    lemma_exact(bits as nat, 1);
    lemma_zero_magnitude();
}

/// Where no step of the sum needs rounding, the excess length of tracks is exact.
proof fn lemma_exact_excess(s: Seq<(Track, SectionLenChangeObj)>)
    requires
        forall|i: int| 0 <= i <= s.len() ==> representable(exact_excess(#[trigger] s.take(i))),
        forall|i: int|
            0 <= i < s.len() ==> representable(
                magnitude((#[trigger] s[i]).1.length@ as nat) - magnitude(ONE as nat),
            ),
    ensures
        total_excess(s) is Some,
        signed_magnitude(total_excess(s)->0) == exact_excess(s),
    decreases s.len(),
{
    if s.len() == 0 {
        lemma_zero_magnitude();
    } else {
        let front = s.drop_last();
        assert forall|i: int| 0 <= i <= front.len() implies representable(
            exact_excess(#[trigger] front.take(i)),
        ) by {
            assert(front.take(i) =~= s.take(i));
        }
        lemma_exact_excess(front);
        let length = s.last().1.length;
        assert(s[s.len() - 1].1.length == length);
        lemma_signed_exact((false, length@), (true, ONE));
        assert(s.take(s.len() as int) =~= s);
        lemma_signed_exact(total_excess(front)->0, excess(length)->0);
    }
}

/// Whether no step of the sum of the first excess lengths, nor the start of a track
/// behind them, needs rounding.
pub open spec fn needs_no_rounding(
    changes: Seq<(Track, SectionLenChangeObj)>,
    track: Track,
    k: int,
) -> bool {
    &&& forall|i: int| 0 <= i <= k ==> representable(exact_excess(#[trigger] changes.take(i)))
    &&& forall|i: int|
        0 <= i < k ==> representable(
            magnitude((#[trigger] changes[i]).1.length@ as nat) - magnitude(ONE as nat),
        )
    &&& representable(track.0 * pow2(UNIT_SCALE as nat))
    &&& representable(track.0 * pow2(UNIT_SCALE as nat) + exact_excess(changes.take(k)))
}

/// Whether the first of the changes are those of the tracks before a track.
pub open spec fn are_before(
    changes: Seq<(Track, SectionLenChangeObj)>,
    track: Track,
    k: int,
) -> bool {
    &&& 0 <= k <= changes.len()
    &&& forall|i: int| 0 <= i < k ==> (#[trigger] changes[i]).0.0 < track.0
    &&& forall|i: int| k <= i < changes.len() ==> (#[trigger] changes[i]).0.0 >= track.0
}

/// Measure `n` starts at `n + Σ(len_i - 1)` over the measures `i` before it: exactly so
/// where no step of that sum needs rounding.
pub proof fn lemma_measure_start(
    changes: Seq<(Track, SectionLenChangeObj)>,
    layout: Layout,
    track: Track,
    k: int,
)
    requires
        layout.offsets == offsets_of(changes),
        are_before(changes, track, k),
        needs_no_rounding(changes, track, k),
    ensures
        signed_magnitude(layout.section_start(track)) == track.0 * pow2(UNIT_SCALE as nat)
            + exact_excess(changes.take(k)),
{
    broadcast use group_patterns;

    let before = changes.take(k);
    let units = track.0 as nat * pow2(UNIT_SCALE as nat);
    assert(units >= 0);
    let bits = choose|bits: u64|
        #![trigger magnitude(bits as nat)]
        bits < INFINITE && magnitude(bits as nat) == units;
    lemma_exact(bits as nat, 1);
    assert(magnitude(whole_of(track.0)->0 as nat) == units);
    lemma_section_start(changes, layout, track, k);
    assert forall|i: int| 0 <= i <= before.len() implies representable(
        exact_excess(#[trigger] before.take(i)),
    ) by {
        assert(before.take(i) =~= changes.take(i));
    }
    lemma_exact_excess(before);
    lemma_signed_exact((false, whole_of(track.0)->0), total_excess(before)->0);
}

/// A measure ends where the next one starts, so that one without length takes no room:
/// exactly so where no step needs rounding.
pub proof fn lemma_next_measure(
    changes: Seq<(Track, SectionLenChangeObj)>,
    layout: Layout,
    track: Track,
    k: int,
    next: Track,
    next_k: int,
)
    requires
        ascending(changes),
        layout.offsets == offsets_of(changes),
        layout.lengths == lengths_of(changes),
        next.0 == track.0 + 1,
        are_before(changes, track, k),
        needs_no_rounding(changes, track, k),
        are_before(changes, next, next_k),
        needs_no_rounding(changes, next, next_k),
    ensures
        signed_magnitude(layout.section_start(next)) == signed_magnitude(
            layout.section_start(track),
        ) + magnitude(layout.length(track) as nat),
{
    let unit = pow2(UNIT_SCALE as nat);
    lemma_measure_start(changes, layout, track, k);
    lemma_measure_start(changes, layout, next, next_k);
    lemma_one();
    assert(next.0 * unit == track.0 * unit + unit) by (nonlinear_arith)
        requires
            next.0 == track.0 + 1,
    ;
    if k < changes.len() && changes[k].0.0 == track.0 {
        if next_k <= k {
            assert(changes[k].0.0 >= next.0);
        }
        if next_k > k + 1 {
            assert(changes[k].0.below(changes[k + 1].0));
        }
        assert(changes.take(k + 1).drop_last() =~= changes.take(k));
        lemma_length_of(changes, track, k);
    } else {
        if next_k > k {
            assert(changes[k].0.0 < next.0);
        }
        if next_k < k {
            assert(changes[next_k].0.0 < track.0);
        }
        lemma_default_length(changes, track);
    }
}

/// The length of a track that has one of its own.
pub proof fn lemma_length_of(changes: Seq<(Track, SectionLenChangeObj)>, track: Track, k: int)
    requires
        ascending(changes),
        0 <= k < changes.len(),
        changes[k].0.0 == track.0,
    ensures
        value_of(lengths_of(changes), track) == Some(changes[k].1.length),
    decreases changes.len(),
{
    let front = changes.drop_last();
    if k < changes.len() - 1 {
        assert(changes[k].0.below(changes[changes.len() - 1].0));
        assert forall|i: int, j: int| 0 <= i < j < front.len() implies (#[trigger] front[i]).0.below(
            (#[trigger] front[j]).0,
        ) by {
            assert(changes[i].0.below(changes[j].0));
        }
        lemma_length_of(front, track, k);
    }
    assert(lengths_of(changes).drop_last() =~= lengths_of(front));
}

/// A track without a length of its own has none among the lengths.
pub proof fn lemma_default_length(changes: Seq<(Track, SectionLenChangeObj)>, track: Track)
    requires
        forall|i: int| 0 <= i < changes.len() ==> (#[trigger] changes[i]).0.0 != track.0,
    ensures
        value_of(lengths_of(changes), track) is None,
    decreases changes.len(),
{
    if changes.len() > 0 {
        let front = changes.drop_last();
        assert(changes[changes.len() - 1].0.0 != track.0);
        lemma_default_length(front, track);
        assert(lengths_of(changes).drop_last() =~= lengths_of(front));
    }
}

/// All objects of a track without length stand where it starts.
pub proof fn lemma_no_length(layout: Layout, time: ObjTime)
    requires
        layout.length(time.spec_track()) == 0,
    ensures
        layout.y(time) == layout.start_y(time.spec_track()),
{
}

/// Without spacing a track starts where its section does.
pub proof fn lemma_start_y(layout: Layout, track: Track)
    requires
        layout.speeds.len() == 0,
    ensures
        layout.start_y(track) == position_of(Some(layout.section_start(track))),
{
    lemma_section_start_finite(layout, track);
    lemma_neutral(layout.section_start(track).1);
}

/// The first track starts at zero.
pub proof fn lemma_first_track(changes: Seq<(Track, SectionLenChangeObj)>, layout: Layout)
    requires
        layout.offsets == offsets_of(changes),
    ensures
        layout.section_start(Track(0)) == (false, 0u64),
        layout.start_y(Track(0)) == 0,
{
    broadcast use group_patterns;

    lemma_section_start(changes, layout, Track(0), 0);
    lemma_zero_products(layout.factor(ObjTime::at(Track(0), 0, 1)));
    assert(changes.take(0) =~= Seq::empty());
    lemma_signed_neutral((false, 0u64));
}

/// Where a track starts does not depend on its own length or on those of later tracks.
pub proof fn lemma_later_lengths(
    changes: Seq<(Track, SectionLenChangeObj)>,
    layout: Layout,
    other: Seq<(Track, SectionLenChangeObj)>,
    other_layout: Layout,
    track: Track,
    k: int,
)
    requires
        layout.offsets == offsets_of(changes),
        other_layout.offsets == offsets_of(other),
        are_before(changes, track, k),
        are_before(other, track, k),
        changes.take(k) == other.take(k),
    ensures
        layout.section_start(track) == other_layout.section_start(track),
        layout.speeds == other_layout.speeds ==> layout.start_y(track) == other_layout.start_y(track),
{
    lemma_section_start(changes, layout, track, k);
    lemma_section_start(other, other_layout, track, k);
}

/// The size of a number of units.
pub open spec fn size(units: int) -> int {
    distance(units, 0)
}

/// Whether two numbers of units are apart by at most the `2^53`rd part of a bound.
pub open spec fn is_close(a: int, b: int, bound: int) -> bool {
    -bound <= 0x0020_0000_0000_0000 * (a - b) <= bound
}

/// A sum with signs is off by at most the `2^53`rd part of the rounded sum.
proof fn lemma_signed_error(x: (bool, u64), y: (bool, u64))
    requires
        signed_sum_of(x, y) is Some,
    ensures
        is_close(
            signed_magnitude(signed_sum_of(x, y)->0),
            signed_magnitude(x) + signed_magnitude(y),
            size(signed_magnitude(signed_sum_of(x, y)->0)),
        ),
{
    let units = signed_magnitude(x) + signed_magnitude(y);
    lemma_rounding_error(size(units) as nat);
    lemma_zero_magnitude();
}

/// A whole number is off by at most its own `2^53`rd part.
proof fn lemma_whole_error(n: u64)
    ensures
        is_close(
            magnitude(whole_of(n)->0 as nat) as int,
            n * pow2(UNIT_SCALE as nat),
            magnitude(whole_of(n)->0 as nat) as int,
        ),
{
    lemma_whole_finite(n);
    lemma_rounding_error(n as nat * pow2(UNIT_SCALE as nat));
}

/// A measure ends where the next one starts, up to rounding: the difference is at most
/// the `2^53`rd part of the numbers that the two starts are made of, the starts
/// themselves, the later sum of excess lengths, the excess length of the measure and the
/// two measure numbers. Infinite sums are left out.
pub proof fn lemma_next_measure_rounded(
    changes: Seq<(Track, SectionLenChangeObj)>,
    layout: Layout,
    track: Track,
    k: int,
    next: Track,
    next_k: int,
)
    requires
        ascending(changes),
        layout.offsets == offsets_of(changes),
        layout.lengths == lengths_of(changes),
        next.0 == track.0 + 1,
        are_before(changes, track, k),
        are_before(changes, next, next_k),
        total_excess(changes.take(k)) is Some,
        total_excess(changes.take(next_k)) is Some,
        signed_sum_of((false, whole_of(track.0)->0), total_excess(changes.take(k))->0) is Some,
        signed_sum_of((false, whole_of(next.0)->0), total_excess(changes.take(next_k))->0) is Some,
    ensures
        is_close(
            signed_magnitude(layout.section_start(next)),
            signed_magnitude(layout.section_start(track)) + magnitude(
                layout.length(track) as nat,
            ),
            size(signed_magnitude(layout.section_start(next))) + size(
                signed_magnitude(layout.section_start(track)),
            ) + size(signed_magnitude(total_excess(changes.take(next_k))->0)) + size(
                signed_magnitude(excess(NonNegativeF64::of(layout.length(track)))->0),
            ) + magnitude(whole_of(next.0)->0 as nat) + magnitude(whole_of(track.0)->0 as nat),
        ),
{
    let unit = pow2(UNIT_SCALE as nat);
    let before = total_excess(changes.take(k))->0;
    let after = total_excess(changes.take(next_k))->0;
    let length = NonNegativeF64::of(layout.length(track));
    assert(length@ == layout.length(track)) by {
        broadcast use group_patterns;

    }
    lemma_step(changes, layout, track, k, next, next_k);
    lemma_finite_start(changes, layout, track, k);
    lemma_finite_start(changes, layout, next, next_k);
    lemma_one();
    assert(next.0 * unit == track.0 * unit + unit) by (nonlinear_arith)
        requires
            next.0 == track.0 + 1,
    ;
    lemma_whole_error(track.0);
    lemma_whole_error(next.0);
    lemma_signed_error((false, whole_of(track.0)->0), before);
    lemma_signed_error((false, whole_of(next.0)->0), after);
    if next_k == k + 1 {
        lemma_signed_error((false, layout.length(track)), (true, ONE));
        lemma_signed_error(before, excess(length)->0);
    }
    lemma_errors_add(
        next_k == k + 1,
        signed_magnitude(layout.section_start(track)),
        signed_magnitude(layout.section_start(next)),
        magnitude(whole_of(track.0)->0 as nat) as int,
        magnitude(whole_of(next.0)->0 as nat) as int,
        signed_magnitude(before),
        signed_magnitude(after),
        signed_magnitude(excess(length)->0),
        magnitude(layout.length(track) as nat) as int,
        track.0 * unit,
        unit as int,
    );
}

/// The value of one.
pub proof fn lemma_one()
    ensures
        magnitude(ONE as nat) == pow2(UNIT_SCALE as nat),
{
    lemma2_to64_rest();
    lemma_whole_value(ONE as nat, 1, 52);
}

/// Where a track starts, where the sums are finite.
proof fn lemma_finite_start(
    changes: Seq<(Track, SectionLenChangeObj)>,
    layout: Layout,
    track: Track,
    k: int,
)
    requires
        layout.offsets == offsets_of(changes),
        are_before(changes, track, k),
        total_excess(changes.take(k)) is Some,
        signed_sum_of((false, whole_of(track.0)->0), total_excess(changes.take(k))->0) is Some,
    ensures
        layout.section_start(track) == signed_sum_of(
            (false, whole_of(track.0)->0),
            total_excess(changes.take(k))->0,
        )->0,
{
    broadcast use group_patterns;

    lemma_section_start(changes, layout, track, k);
}

/// What one more track adds to the sum of the excess lengths: its own one if it has a
/// length of its own, and nothing if not.
proof fn lemma_step(
    changes: Seq<(Track, SectionLenChangeObj)>,
    layout: Layout,
    track: Track,
    k: int,
    next: Track,
    next_k: int,
)
    requires
        ascending(changes),
        layout.lengths == lengths_of(changes),
        next.0 == track.0 + 1,
        are_before(changes, track, k),
        are_before(changes, next, next_k),
        total_excess(changes.take(next_k)) is Some,
    ensures
        next_k == k || next_k == k + 1,
        next_k == k ==> layout.length(track) == ONE,
        next_k == k + 1 ==> {
            let own = excess(NonNegativeF64::of(layout.length(track)));
            &&& own is Some
            &&& total_excess(changes.take(k)) is Some
            &&& total_excess(changes.take(next_k)) == signed_sum_of(
                total_excess(changes.take(k))->0,
                own->0,
            )
        },
{
    broadcast use group_patterns;

    if k < changes.len() && changes[k].0.0 == track.0 {
        if next_k <= k {
            assert(changes[k].0.0 >= next.0);
        }
        if next_k > k + 1 {
            assert(changes[k].0.below(changes[k + 1].0));
        }
        assert(changes.take(k + 1).drop_last() =~= changes.take(k));
        lemma_length_of(changes, track, k);
        assert(changes[k].1.length == NonNegativeF64::of(layout.length(track)));
    } else {
        if next_k > k {
            assert(changes[k].0.0 < next.0);
        }
        if next_k < k {
            assert(changes[next_k].0.0 < track.0);
        }
        lemma_default_length(changes, track);
    }
}

/// The errors of the sums that two starts are made of add up.
proof fn lemma_errors_add(
    own: bool,
    start: int,
    next: int,
    whole: int,
    next_whole: int,
    before: int,
    after: int,
    excess: int,
    length: int,
    number: int,
    unit: int,
)
    requires
        whole >= 0,
        next_whole >= 0,
        is_close(start, whole + before, size(start)),
        is_close(next, next_whole + after, size(next)),
        is_close(whole, number, whole),
        is_close(next_whole, number + unit, next_whole),
        own ==> is_close(excess, length - unit, size(excess)) && is_close(
            after,
            before + excess,
            size(after),
        ),
        !own ==> length == unit && after == before,
    ensures
        is_close(
            next,
            start + length,
            size(next) + size(start) + size(after) + size(excess) + next_whole + whole,
        ),
{
}

/// The number of changes of the tracks before a track.
pub open spec fn count_before(changes: Seq<(Track, SectionLenChangeObj)>, track: Track) -> int
    decreases changes.len(),
{
    if changes.len() == 0 {
        0
    } else if changes.last().0.0 < track.0 {
        changes.len() as int
    } else {
        count_before(changes.drop_last(), track)
    }
}

/// As many changes as are counted come before a track.
proof fn lemma_count_before(changes: Seq<(Track, SectionLenChangeObj)>, track: Track)
    requires
        ascending(changes),
    ensures
        are_before(changes, track, count_before(changes, track)),
    decreases changes.len(),
{
    if changes.len() > 0 {
        let last = changes[changes.len() - 1];
        let front = changes.drop_last();
        let k = count_before(changes, track);
        assert forall|i: int, j: int| 0 <= i < j < front.len() implies (#[trigger] front[i]).0.below(
            (#[trigger] front[j]).0,
        ) by {
            assert(changes[i].0.below(changes[j].0));
        }
        lemma_count_before(front, track);
        if last.0.0 < track.0 {
            assert forall|i: int| 0 <= i < k implies (#[trigger] changes[i]).0.0 < track.0 by {
                if i < changes.len() - 1 {
                    assert(changes[i].0.below(last.0));
                }
            }
        } else {
            assert forall|i: int| 0 <= i < k implies (#[trigger] changes[i]).0.0 < track.0 by {
                assert(front[i].0.0 < track.0);
            }
            assert forall|i: int| k <= i < changes.len() implies (#[trigger] changes[i]).0.0
                >= track.0 by {
                if i < front.len() {
                    assert(front[i].0.0 >= track.0);
                }
            }
        }
    }
}

/// No more changes come before a track than there are tracks before it.
proof fn lemma_few_before(changes: Seq<(Track, SectionLenChangeObj)>, track: Track, k: int)
    requires
        ascending(changes),
        are_before(changes, track, k),
    ensures
        k <= track.0,
{
    if k > 0 {
        lemma_track_at_least(changes, k - 1);
        assert(changes[k - 1].0.0 < track.0);
    }
}

/// A change comes behind no more others than there are tracks before its own.
proof fn lemma_track_at_least(changes: Seq<(Track, SectionLenChangeObj)>, i: int)
    requires
        ascending(changes),
        0 <= i < changes.len(),
    ensures
        i <= changes[i].0.0,
    decreases i,
{
    if i > 0 {
        lemma_track_at_least(changes, i - 1);
        assert(changes[i - 1].0.below(changes[i].0));
    }
}

/// What a number of changes can take away from a chart, in units: at most one default
/// length each, and rounding stops at `2^53` of them.
spec fn least_excess(count: int) -> int {
    if count < 0x0020_0000_0000_0000 {
        -(count * pow2(UNIT_SCALE as nat))
    } else {
        -(0x0020_0000_0000_0000 * pow2(UNIT_SCALE as nat))
    }
}

/// A sum of excess lengths takes no more away than its terms can.
proof fn lemma_least_excess(s: Seq<(Track, SectionLenChangeObj)>)
    ensures
        total_excess(s) matches Some(sum) ==> signed_magnitude(sum) >= least_excess(
            s.len() as int,
        ),
    decreases s.len(),
{
    let unit = pow2(UNIT_SCALE as nat);
    lemma_pow2_pos(UNIT_SCALE as nat);
    lemma_zero_magnitude();
    if s.len() > 0 {
        let count = s.len() - 1;
        lemma_least_excess(s.drop_last());
        if total_excess(s) is Some {
            let sum = total_excess(s.drop_last())->0;
            let own = excess(s.last().1.length)->0;
            lemma_least_step(s.last().1.length);
            let units = signed_magnitude(sum) + signed_magnitude(own);
            if units < 0 {
                let n = (-units) as nat;
                if count < 0x0020_0000_0000_0000 {
                    let next = (count + 1) as u64;
                    lemma_small_whole(next);
                    assert(next * unit == count * unit + unit) by (nonlinear_arith)
                        requires
                            next == count + 1,
                    ;
                    lemma_rounded_below(n, 1, whole_of(next)->0);
                    lemma_order(nearest(n, 1), whole_of(next)->0 as nat);
                } else {
                    let bound = 0x0020_0000_0000_0001 * unit;
                    lemma_first_tie();
                    lemma_rounding_monotone(n, 1, bound, 1);
                    lemma_order(nearest(n, 1), nearest(bound, 1));
                }
            }
        }
    }
}

/// A track is at most one default length too short.
proof fn lemma_least_step(length: NonNegativeF64)
    ensures
        excess(length) matches Some(own) ==> signed_magnitude(own) >= -pow2(UNIT_SCALE as nat),
{
    let unit = pow2(UNIT_SCALE as nat);
    let units = magnitude(length@ as nat) - unit;
    lemma_one();
    lemma_zero_magnitude();
    if units < 0 {
        lemma_rounded_below((-units) as nat, 1, ONE);
        lemma_order(nearest((-units) as nat, 1), ONE as nat);
    }
}

/// No track starts before zero.
pub proof fn lemma_start_not_negative(
    changes: Seq<(Track, SectionLenChangeObj)>,
    layout: Layout,
    track: Track,
)
    requires
        ascending(changes),
        layout.offsets == offsets_of(changes),
    ensures
        !layout.section_start(track).0,
{
    broadcast use group_patterns;

    let unit = pow2(UNIT_SCALE as nat);
    let k = count_before(changes, track);
    lemma_count_before(changes, track);
    lemma_few_before(changes, track, k);
    lemma_section_start(changes, layout, track, k);
    lemma_least_excess(changes.take(k));
    let few: u64 = if k < 0x0020_0000_0000_0000 {
        k as u64
    } else {
        0x0020_0000_0000_0000
    };
    lemma_small_whole(few);
    lemma_whole_finite(track.0);
    assert(few as nat * unit <= track.0 as nat * unit) by (nonlinear_arith)
        requires
            few <= track.0,
    ;
    lemma_rounding_monotone(few as nat * unit, 1, track.0 as nat * unit, 1);
    lemma_order(whole_of(few)->0 as nat, whole_of(track.0)->0 as nat);
}

/// The pattern of the greatest power of two.
const GREATEST_POWER: u64 = 0x7fe0_0000_0000_0000;

/// The values of the greatest power of two and of one and a half times it.
proof fn lemma_greatest_power()
    ensures
        magnitude(INFINITE as nat) == 2 * magnitude(GREATEST_POWER as nat),
        magnitude(0x7fe8_0000_0000_0000) >= magnitude(GREATEST_POWER as nat) + magnitude(
            ONE as nat,
        ),
{
    lemma2_to64_rest();
    lemma_one();
    lemma_pow2_strictly_increases(UNIT_SCALE as nat, 2045);
    lemma_pow2_unfold(2046);
    let power = pow2(2045);
    assert(magnitude(INFINITE as nat) == 0x0010_0000_0000_0000 * pow2(2046));
    assert(magnitude(GREATEST_POWER as nat) == 0x0010_0000_0000_0000 * power);
    assert(magnitude(0x7fe8_0000_0000_0000) == 0x0018_0000_0000_0000 * power);
}

/// The excess length of a track that is not shorter than the default.
proof fn lemma_excess_not_negative(length: NonNegativeF64)
    requires
        length@ >= ONE,
    ensures
        excess(length) matches Some(own) ==> !own.0 && (length@ >= 0x7fe8_0000_0000_0000
            ==> own.1 >= GREATEST_POWER),
{
    lemma_order(ONE as nat, length@ as nat);
    lemma_zero_magnitude();
    if length@ >= 0x7fe8_0000_0000_0000 {
        let n = (magnitude(length@ as nat) - magnitude(ONE as nat)) as nat;
        lemma_greatest_power();
        lemma_order(0x7fe8_0000_0000_0000, length@ as nat);
        lemma_exact(GREATEST_POWER as nat, 1);
        lemma_rounding_monotone(magnitude(GREATEST_POWER as nat), 1, n, 1);
    }
}

/// Where no track is shorter than the default, the sum of the excess lengths is not
/// negative. With one track of at least one and a half times the greatest power of two it
/// is at least that power, and with a second one it is infinite.
proof fn lemma_infinite_excess(s: Seq<(Track, SectionLenChangeObj)>, i: int, j: int)
    requires
        forall|m: int| 0 <= m < s.len() ==> (#[trigger] s[m]).1.length@ >= ONE,
    ensures
        total_excess(s) matches Some(sum) ==> !sum.0,
        0 <= i < s.len() && s[i].1.length@ >= 0x7fe8_0000_0000_0000 ==> (total_excess(
            s,
        ) matches Some(sum) ==> sum.1 >= GREATEST_POWER),
        0 <= i < j < s.len() && s[i].1.length@ >= 0x7fe8_0000_0000_0000 && s[j].1.length@
            >= 0x7fe8_0000_0000_0000 ==> total_excess(s) is None,
    decreases s.len(),
{
    lemma_zero_magnitude();
    if s.len() > 0 {
        let front = s.drop_last();
        let n = s.len() - 1;
        assert forall|m: int| 0 <= m < front.len() implies (#[trigger] front[m]).1.length@
            >= ONE by {
            assert(front[m] == s[m]);
        }
        lemma_infinite_excess(front, i, j);
        assert(s[n] == s.last());
        lemma_excess_not_negative(s.last().1.length);
        if total_excess(front) is Some && excess(s.last().1.length) is Some {
            let sum = total_excess(front)->0;
            let own = excess(s.last().1.length)->0;
            let units = magnitude(sum.1 as nat) + magnitude(own.1 as nat);
            let power = magnitude(GREATEST_POWER as nat);
            if 0 <= i < n {
                assert(front[i] == s[i]);
            }
            if 0 <= j < n {
                assert(front[j] == s[j]);
            }
            lemma_greatest_power();
            lemma_order(GREATEST_POWER as nat, sum.1 as nat);
            lemma_order(GREATEST_POWER as nat, own.1 as nat);
            lemma_exact(GREATEST_POWER as nat, 1);
            lemma_exact(INFINITE as nat, 1);
            if units >= power {
                lemma_rounding_monotone(power, 1, units, 1);
            }
            if units >= 2 * power {
                lemma_rounding_monotone(2 * power, 1, units, 1);
            }
        }
    }
}

/// A track behind two others that are together longer than any number starts at the largest
/// number, where no track before it is shorter than the default.
pub proof fn lemma_too_long(
    changes: Seq<(Track, SectionLenChangeObj)>,
    layout: Layout,
    track: Track,
    k: int,
    i: int,
    j: int,
)
    requires
        layout.offsets == offsets_of(changes),
        are_before(changes, track, k),
        forall|m: int| 0 <= m < k ==> (#[trigger] changes[m]).1.length@ >= ONE,
        0 <= i < j < k,
        changes[i].1.length@ >= 0x7fe8_0000_0000_0000,
        changes[j].1.length@ >= 0x7fe8_0000_0000_0000,
    ensures
        layout.section_start(track) == (false, LARGEST),
{
    broadcast use group_patterns;

    let s = changes.take(k);
    let number = magnitude(whole_of(track.0)->0 as nat);
    assert forall|m: int| 0 <= m < s.len() implies (#[trigger] s[m]).1.length@ >= ONE by {
        assert(s[m] == changes[m]);
    }
    lemma_infinite_excess(s, i, j);
    lemma_section_start(changes, layout, track, k);
    lemma_exact(LARGEST as nat, 1);
    lemma_rounding_monotone(
        magnitude(LARGEST as nat),
        1,
        number + magnitude(LARGEST as nat),
        1,
    );
}

/// Without spacing the position of the start of a track is the value of its start.
pub proof fn lemma_start_value(
    changes: Seq<(Track, SectionLenChangeObj)>,
    layout: Layout,
    track: Track,
)
    requires
        ascending(changes),
        layout.offsets == offsets_of(changes),
        layout.speeds.len() == 0,
    ensures
        layout.start_y(track) == layout.section_start(track).1,
        magnitude(layout.start_y(track) as nat) == signed_magnitude(layout.section_start(track)),
{
    lemma_start_not_negative(changes, layout, track);
    lemma_start_y(layout, track);
}

/// The excess length of the tracks before a track; none where it is infinite.
pub open spec fn excess_before(
    changes: Seq<(Track, SectionLenChangeObj)>,
    track: Track,
) -> Option<(bool, u64)> {
    total_excess(changes.take(count_before(changes, track)))
}

/// Whether the sums that the start of a track is made of are finite.
pub open spec fn has_finite_start(
    changes: Seq<(Track, SectionLenChangeObj)>,
    track: Track,
) -> bool {
    &&& excess_before(changes, track) is Some
    &&& signed_sum_of((false, whole_of(track.0)->0), excess_before(changes, track)->0) is Some
}

/// Each track starts where the one before it ends, up to rounding: without spacing, the
/// positions of the two starts are apart by the length of the track, but for at most the
/// `2^53`rd part of the numbers that they are made of, the starts themselves, the later
/// sum of excess lengths, the excess length of the track and the two track numbers.
/// Infinite sums are left out.
pub proof fn lemma_next_start(
    changes: Seq<(Track, SectionLenChangeObj)>,
    layout: Layout,
    track: Track,
    next: Track,
)
    requires
        ascending(changes),
        layout.offsets == offsets_of(changes),
        layout.lengths == lengths_of(changes),
        layout.speeds.len() == 0,
        next.0 == track.0 + 1,
        has_finite_start(changes, track),
        has_finite_start(changes, next),
    ensures
        is_close(
            magnitude(layout.start_y(next) as nat) as int,
            (magnitude(layout.start_y(track) as nat) + magnitude(
                layout.length(track) as nat,
            )) as int,
            magnitude(layout.start_y(next) as nat) + magnitude(layout.start_y(track) as nat) + size(
                signed_magnitude(excess_before(changes, next)->0),
            ) + size(
                signed_magnitude(excess(NonNegativeF64::of(layout.length(track)))->0),
            ) + magnitude(whole_of(next.0)->0 as nat) + magnitude(whole_of(track.0)->0 as nat),
        ),
{
    lemma_count_before(changes, track);
    lemma_count_before(changes, next);
    lemma_start_value(changes, layout, track);
    lemma_start_value(changes, layout, next);
    lemma_next_measure_rounded(
        changes,
        layout,
        track,
        count_before(changes, track),
        next,
        count_before(changes, next),
    );
}

/// Whether a layout without spacing is made of lengths of its tracks, and no start of a
/// track up to a last one needs rounding.
pub open spec fn is_exact_up_to(
    changes: Seq<(Track, SectionLenChangeObj)>,
    layout: Layout,
    last: u64,
) -> bool {
    &&& ascending(changes)
    &&& layout.offsets == offsets_of(changes)
    &&& layout.lengths == lengths_of(changes)
    &&& layout.speeds.len() == 0
    &&& forall|i: int| 0 <= i < changes.len() ==> (#[trigger] changes[i]).1.length@ < INFINITE
    &&& forall|track: u64|
        track <= last ==> #[trigger] needs_no_rounding(
            changes,
            Track(track),
            count_before(changes, Track(track)),
        )
}

/// Tracks start one after the other, none before zero.
pub proof fn lemma_starts_grow(
    changes: Seq<(Track, SectionLenChangeObj)>,
    layout: Layout,
    earlier: u64,
    later: u64,
)
    requires
        is_exact_up_to(changes, layout, later),
        earlier <= later,
    ensures
        !layout.section_start(Track(later)).0,
        layout.start_y(Track(later)) == layout.section_start(Track(later)).1,
        layout.start_y(Track(earlier)) <= layout.start_y(Track(later)),
        signed_magnitude(layout.section_start(Track(earlier))) <= signed_magnitude(
            layout.section_start(Track(later)),
        ),
    decreases later,
{
    lemma_start_y(layout, Track(later));
    lemma_section_start_finite(layout, Track(later));
    if later == 0 {
        lemma_first_track(changes, layout);
    } else {
        let before = (later - 1) as u64;
        let near = if earlier < later {
            earlier
        } else {
            before
        };
        lemma_starts_grow(changes, layout, near, before);
        lemma_count_before(changes, Track(before));
        lemma_count_before(changes, Track(later));
        assert(needs_no_rounding(
            changes,
            Track(before),
            count_before(changes, Track(before)),
        ));
        assert(needs_no_rounding(changes, Track(later), count_before(changes, Track(later))));
        lemma_next_measure(
            changes,
            layout,
            Track(before),
            count_before(changes, Track(before)),
            Track(later),
            count_before(changes, Track(later)),
        );
        let a = layout.section_start(Track(before));
        let b = layout.section_start(Track(later));
        lemma_zero_magnitude();
        lemma_order(b.1 as nat, 0);
        lemma_order(a.1 as nat, b.1 as nat);
    }
}

/// The length of a track is finite.
proof fn lemma_finite_length(
    changes: Seq<(Track, SectionLenChangeObj)>,
    layout: Layout,
    track: Track,
)
    requires
        ascending(changes),
        layout.lengths == lengths_of(changes),
        forall|i: int| 0 <= i < changes.len() ==> (#[trigger] changes[i]).1.length@ < INFINITE,
    ensures
        layout.length(track) < INFINITE,
{
    if exists|i: int| 0 <= i < changes.len() && (#[trigger] changes[i]).0.0 == track.0 {
        let i = choose|i: int| 0 <= i < changes.len() && (#[trigger] changes[i]).0.0 == track.0;
        lemma_length_of(changes, track, i);
    } else {
        lemma_default_length(changes, track);
    }
}

/// A fraction that is at most one is not rounded to more than one.
proof fn lemma_fraction_at_most_one(time: ObjTime)
    requires
        time.spec_numerator() <= time.spec_denominator(),
        time.spec_denominator() > 0,
    ensures
        quotient_of(
            whole_of(time.spec_numerator())->0,
            whole_of(time.spec_denominator())->0,
        ) is Some,
        fraction_of(time) <= ONE,
{
    let n = time.spec_numerator();
    let d = time.spec_denominator();
    let unit = pow2(UNIT_SCALE as nat);
    lemma_pow2_pos(UNIT_SCALE as nat);
    lemma_whole_finite(n);
    lemma_whole_finite(d);
    assert(n as nat * unit <= d as nat * unit) by (nonlinear_arith)
        requires
            n <= d,
    ;
    lemma_rounding_monotone(n as nat * unit, 1, d as nat * unit, 1);
    let a = magnitude(whole_of(n)->0 as nat);
    let b = magnitude(whole_of(d)->0 as nat);
    lemma_order(whole_of(n)->0 as nat, whole_of(d)->0 as nat);
    lemma_order(whole_of(d)->0 as nat, 0);
    lemma_zero_magnitude();
    lemma_one();
    assert(a * unit <= unit * b) by (nonlinear_arith)
        requires
            a <= b,
    ;
    lemma_rounded_below(a * unit, b, ONE);
}

/// What a time lies behind the start of its track is no more than the length of the
/// track, and its position without spacing is their sum.
proof fn lemma_place(
    changes: Seq<(Track, SectionLenChangeObj)>,
    layout: Layout,
    time: ObjTime,
)
    requires
        is_exact_up_to(changes, layout, (time.spec_track().0 + 1) as u64),
        time.spec_track().0 < u64::MAX,
        time.spec_numerator() <= time.spec_denominator(),
        time.spec_denominator() > 0,
        layout.length(time.spec_track()) != 0,
    ensures
        ({
            let start = layout.section_start(time.spec_track());
            let within = product_of(fraction_of(time), layout.length(time.spec_track()));
            &&& within is Some
            &&& within->0 <= layout.length(time.spec_track())
            &&& sum_of(start.1, within->0) == Some(layout.y(time))
            &&& start.1 <= layout.y(time) <= layout.start_y(
                Track((time.spec_track().0 + 1) as u64),
            )
        }),
{
    let track = time.spec_track();
    let next = Track((track.0 + 1) as u64);
    let length = layout.length(track);
    let unit = pow2(UNIT_SCALE as nat);
    lemma_pow2_pos(UNIT_SCALE as nat);
    lemma_fraction_at_most_one(time);
    lemma_finite_length(changes, layout, track);
    lemma_one();
    let f = fraction_of(time);
    lemma_order(f as nat, ONE as nat);
    let n = magnitude(f as nat) * magnitude(length as nat);
    assert(n <= magnitude(length as nat) * unit) by (nonlinear_arith)
        requires
            n == magnitude(f as nat) * magnitude(length as nat),
            magnitude(f as nat) <= unit,
    ;
    lemma_rounded_below(n, unit, length);
    let within = product_of(f, length)->0;
    lemma_order(within as nat, length as nat);
    assert(is_exact_up_to(changes, layout, track.0));
    lemma_starts_grow(changes, layout, track.0, track.0);
    lemma_starts_grow(changes, layout, track.0, next.0);
    lemma_count_before(changes, track);
    lemma_count_before(changes, next);
    assert(needs_no_rounding(changes, Track(track.0), count_before(changes, Track(track.0))));
    assert(needs_no_rounding(changes, Track(next.0), count_before(changes, Track(next.0))));
    lemma_next_measure(
        changes,
        layout,
        track,
        count_before(changes, track),
        next,
        count_before(changes, next),
    );
    let start = layout.section_start(track);
    let end = layout.section_start(next);
    lemma_section_start_finite(layout, next);
    lemma_rounded_below(magnitude(start.1 as nat) + magnitude(within as nat), 1, end.1);
    lemma_sum_not_less(start.1, within);
    lemma_neutral(sum_of(start.1, within)->0);
}

/// Every object stands between the start of its track and that of the next one.
pub proof fn lemma_within_track(
    changes: Seq<(Track, SectionLenChangeObj)>,
    layout: Layout,
    time: ObjTime,
)
    requires
        is_exact_up_to(changes, layout, (time.spec_track().0 + 1) as u64),
        time.spec_track().0 < u64::MAX,
        time.spec_numerator() <= time.spec_denominator(),
        time.spec_denominator() > 0,
    ensures
        layout.start_y(time.spec_track()) <= layout.y(time) <= layout.start_y(
            Track((time.spec_track().0 + 1) as u64),
        ),
{
    let track = time.spec_track();
    assert(is_exact_up_to(changes, layout, track.0));
    lemma_starts_grow(changes, layout, track.0, track.0);
    lemma_starts_grow(changes, layout, track.0, (track.0 + 1) as u64);
    if layout.length(track) != 0 {
        lemma_place(changes, layout, time);
    }
}

/// Whether the numerator and denominator of a time are numbers without rounding.
pub open spec fn is_plain(time: ObjTime) -> bool {
    &&& 0 < time.spec_denominator()
    &&& time.spec_numerator() <= time.spec_denominator()
    &&& representable(time.spec_numerator() * pow2(UNIT_SCALE as nat))
    &&& representable(time.spec_denominator() * pow2(UNIT_SCALE as nat))
}

/// A whole number that is representable is not rounded.
proof fn lemma_plain_whole(n: u64)
    requires
        representable(n * pow2(UNIT_SCALE as nat)),
    ensures
        magnitude(whole_of(n)->0 as nat) == n as nat * pow2(UNIT_SCALE as nat),
{
    let units = n as nat * pow2(UNIT_SCALE as nat);
    let bits = choose|bits: u64|
        #![trigger magnitude(bits as nat)]
        bits < INFINITE && magnitude(bits as nat) == units;
    lemma_exact(bits as nat, 1);
}

/// Fractions grow with time: a later fraction is not rounded to less, where numerators and
/// denominators need no rounding or the denominators are the same.
pub proof fn lemma_fractions_grow(a: ObjTime, b: ObjTime)
    requires
        0 < a.spec_denominator(),
        a.spec_numerator() <= a.spec_denominator(),
        0 < b.spec_denominator(),
        b.spec_numerator() <= b.spec_denominator(),
        a.spec_numerator() * b.spec_denominator() <= b.spec_numerator() * a.spec_denominator(),
        is_plain(a) && is_plain(b) || a.spec_denominator() == b.spec_denominator(),
    ensures
        fraction_of(a) <= fraction_of(b),
{
    let unit = pow2(UNIT_SCALE as nat);
    let (n1, d1) = (a.spec_numerator() as nat, a.spec_denominator() as nat);
    let (n2, d2) = (b.spec_numerator() as nat, b.spec_denominator() as nat);
    lemma_pow2_pos(UNIT_SCALE as nat);
    lemma_fraction_at_most_one(a);
    lemma_fraction_at_most_one(b);
    if d1 == d2 {
        let d = magnitude(whole_of(a.spec_denominator())->0 as nat);
        assert(n1 <= n2) by (nonlinear_arith)
            requires
                n1 * d2 <= n2 * d1,
                d1 == d2,
                d1 > 0,
        ;
        assert(n1 * unit <= n2 * unit) by (nonlinear_arith)
            requires
                n1 <= n2,
        ;
        lemma_rounding_monotone(n1 * unit, 1, n2 * unit, 1);
        lemma_whole_finite(a.spec_numerator());
        lemma_whole_finite(b.spec_numerator());
        lemma_whole_finite(a.spec_denominator());
        let m1 = magnitude(whole_of(a.spec_numerator())->0 as nat);
        let m2 = magnitude(whole_of(b.spec_numerator())->0 as nat);
        lemma_order(
            whole_of(a.spec_numerator())->0 as nat,
            whole_of(b.spec_numerator())->0 as nat,
        );
        lemma_order(whole_of(a.spec_denominator())->0 as nat, 0);
        lemma_zero_magnitude();
        assert((m1 * unit) * d <= (m2 * unit) * d) by (nonlinear_arith)
            requires
                m1 <= m2,
        ;
        lemma_rounding_monotone(m1 * unit, d, m2 * unit, d);
    } else {
        lemma_plain_whole(a.spec_numerator());
        lemma_plain_whole(a.spec_denominator());
        lemma_plain_whole(b.spec_numerator());
        lemma_plain_whole(b.spec_denominator());
        assert(d1 * unit > 0 && d2 * unit > 0) by (nonlinear_arith)
            requires
                d1 > 0,
                d2 > 0,
                unit > 0,
        ;
        assert((n1 * unit * unit) * (d2 * unit) <= (n2 * unit * unit) * (d1 * unit))
            by (nonlinear_arith)
            requires
                n1 * d2 <= n2 * d1,
        ;
        lemma_rounding_monotone(n1 * unit * unit, d1 * unit, n2 * unit * unit, d2 * unit);
    }
}

/// A time whose denominator is at most `2^53` has a numerator and a denominator that need
/// no rounding.
pub proof fn lemma_small_is_plain(time: ObjTime)
    requires
        0 < time.spec_denominator() <= 0x0020_0000_0000_0000,
        time.spec_numerator() <= time.spec_denominator(),
    ensures
        is_plain(time),
{
    lemma_small_whole(time.spec_numerator());
    lemma_small_whole(time.spec_denominator());
}

/// Positions grow with tracks and fractions: without spacing, and where no start of a track
/// needs rounding, no object stands before one of an earlier track, or before one of its
/// own track whose rounded fraction is not larger.
pub proof fn lemma_positions_grow(
    changes: Seq<(Track, SectionLenChangeObj)>,
    layout: Layout,
    earlier: ObjTime,
    later: ObjTime,
)
    requires
        is_exact_up_to(changes, layout, (later.spec_track().0 + 1) as u64),
        later.spec_track().0 < u64::MAX,
        0 < earlier.spec_denominator(),
        earlier.spec_numerator() <= earlier.spec_denominator(),
        0 < later.spec_denominator(),
        later.spec_numerator() <= later.spec_denominator(),
        earlier.spec_track().0 <= later.spec_track().0,
        earlier.spec_track() == later.spec_track() ==> fraction_of(earlier) <= fraction_of(later),
    ensures
        layout.y(earlier) <= layout.y(later),
{
    let a = earlier.spec_track();
    let b = later.spec_track();
    assert(is_exact_up_to(changes, layout, (a.0 + 1) as u64));
    assert(is_exact_up_to(changes, layout, b.0));
    lemma_within_track(changes, layout, earlier);
    lemma_within_track(changes, layout, later);
    if a.0 < b.0 {
        lemma_starts_grow(changes, layout, (a.0 + 1) as u64, b.0);
    } else if layout.length(a) != 0 {
        let unit = pow2(UNIT_SCALE as nat);
        let length = magnitude(layout.length(a) as nat);
        lemma_pow2_pos(UNIT_SCALE as nat);
        assert(a == b);
        lemma_place(changes, layout, earlier);
        lemma_place(changes, layout, later);
        let f = magnitude(fraction_of(earlier) as nat);
        let g = magnitude(fraction_of(later) as nat);
        lemma_order(fraction_of(earlier) as nat, fraction_of(later) as nat);
        assert((f * length) * unit <= (g * length) * unit) by (nonlinear_arith)
            requires
                f <= g,
        ;
        lemma_rounding_monotone(f * length, unit, g * length, unit);
        let p = product_of(fraction_of(earlier), layout.length(a))->0;
        let q = product_of(fraction_of(later), layout.length(a))->0;
        lemma_order(p as nat, q as nat);
        let start = magnitude(layout.section_start(a).1 as nat);
        lemma_rounding_monotone(
            start + magnitude(p as nat),
            1,
            start + magnitude(q as nat),
            1,
        );
    }
}

/// Positions grow with time: without spacing, and where no start of a track needs
/// rounding, no object stands before an earlier one. Of two objects of one track, the
/// numerators and denominators must need no rounding, or the denominators be the same.
pub proof fn lemma_positions_grow_with_time(
    changes: Seq<(Track, SectionLenChangeObj)>,
    layout: Layout,
    earlier: ObjTime,
    later: ObjTime,
)
    requires
        is_exact_up_to(changes, layout, (later.spec_track().0 + 1) as u64),
        later.spec_track().0 < u64::MAX,
        0 < earlier.spec_denominator(),
        earlier.spec_numerator() <= earlier.spec_denominator(),
        0 < later.spec_denominator(),
        later.spec_numerator() <= later.spec_denominator(),
        !later.below(earlier),
        earlier.spec_track() == later.spec_track() ==> is_plain(earlier) && is_plain(later)
            || earlier.spec_denominator() == later.spec_denominator(),
    ensures
        layout.y(earlier) <= layout.y(later),
{
    if earlier.spec_track() == later.spec_track() {
        lemma_fractions_grow(earlier, later);
    }
    lemma_positions_grow(changes, layout, earlier, later);
}

/// Whether neither the part of the length of its track at which a time lies nor its
/// position needs rounding.
pub open spec fn is_exact_at(layout: Layout, time: ObjTime) -> bool {
    let unit = pow2(UNIT_SCALE as nat);
    let fraction = magnitude(fraction_of(time) as nat);
    let length = layout.length(time.spec_track());
    product_of(fraction_of(time), length) matches Some(within) && {
        &&& magnitude(within as nat) * unit == fraction * magnitude(length as nat)
        &&& representable(
            signed_magnitude(layout.section_start(time.spec_track())) + magnitude(within as nat),
        )
    }
}

/// In a track that has a length, an object with a larger rounded fraction stands behind
/// one with a smaller, where neither their parts of the length nor their positions need
/// rounding.
pub proof fn lemma_positions_grow_strictly(
    changes: Seq<(Track, SectionLenChangeObj)>,
    layout: Layout,
    earlier: ObjTime,
    later: ObjTime,
)
    requires
        is_exact_up_to(changes, layout, (later.spec_track().0 + 1) as u64),
        later.spec_track().0 < u64::MAX,
        earlier.spec_track() == later.spec_track(),
        layout.length(later.spec_track()) != 0,
        0 < earlier.spec_denominator(),
        earlier.spec_numerator() <= earlier.spec_denominator(),
        0 < later.spec_denominator(),
        later.spec_numerator() <= later.spec_denominator(),
        fraction_of(earlier) < fraction_of(later),
        is_exact_at(layout, earlier),
        is_exact_at(layout, later),
    ensures
        layout.y(earlier) < layout.y(later),
{
    let track = later.spec_track();
    let unit = pow2(UNIT_SCALE as nat);
    let f = magnitude(fraction_of(earlier) as nat);
    let g = magnitude(fraction_of(later) as nat);
    let length = magnitude(layout.length(track) as nat);
    lemma_pow2_pos(UNIT_SCALE as nat);
    lemma_place(changes, layout, earlier);
    lemma_place(changes, layout, later);
    assert(is_exact_up_to(changes, layout, track.0));
    lemma_starts_grow(changes, layout, track.0, track.0);
    lemma_order(fraction_of(later) as nat, fraction_of(earlier) as nat);
    lemma_order(layout.length(track) as nat, 0);
    lemma_zero_magnitude();
    let p = product_of(fraction_of(earlier), layout.length(track))->0;
    let q = product_of(fraction_of(later), layout.length(track))->0;
    assert(magnitude(p as nat) < magnitude(q as nat)) by (nonlinear_arith)
        requires
            magnitude(p as nat) * unit == f * length,
            magnitude(q as nat) * unit == g * length,
            f < g,
            length > 0,
            unit > 0,
    ;
    let start = layout.section_start(track).1;
    lemma_exact_sum(start, p);
    lemma_exact_sum(start, q);
    lemma_order(layout.y(later) as nat, layout.y(earlier) as nat);
}

/// The rounded fraction of a time is off by at most `2^-52`.
proof fn lemma_fraction_error(time: ObjTime)
    requires
        0 < time.spec_denominator() <= 0x0020_0000_0000_0000,
        time.spec_numerator() <= time.spec_denominator(),
    ensures
        ({
            let unit = pow2(UNIT_SCALE as nat);
            let (n, d) = (time.spec_numerator(), time.spec_denominator());
            -(d * unit) <= BINADE * (magnitude(fraction_of(time) as nat) * d - n * unit) <= d * unit
        }),
{
    let unit = pow2(UNIT_SCALE as nat) as int;
    let (n, d) = (time.spec_numerator() as int, time.spec_denominator() as int);
    let f = magnitude(fraction_of(time) as nat) as int;
    lemma_pow2_pos(UNIT_SCALE as nat);
    lemma_fraction_at_most_one(time);
    lemma_small_whole(time.spec_numerator());
    lemma_small_whole(time.spec_denominator());
    assert(d * unit > 0) by (nonlinear_arith)
        requires
            d > 0,
            unit > 0,
    ;
    lemma_quotient_error(((n * unit) * unit) as nat, (d * unit) as nat);
    assert(unit >= BINADE) by {
        lemma2_to64_rest();
        lemma_pow2_strictly_increases(52, UNIT_SCALE as nat);
    }
    let e = BINADE * (f * d - n * unit);
    let error = f * (d * unit) - (n * unit) * unit;
    assert(BINADE * error == e * unit) by (nonlinear_arith)
        requires
            e == BINADE * (f * d - n * unit),
            error == f * (d * unit) - (n * unit) * unit,
    ;
    assert((n * unit) * unit <= (d * unit) * unit) by (nonlinear_arith)
        requires
            n <= d,
    ;
    assert(BINADE * (d * unit) <= (d * unit) * unit) by (nonlinear_arith)
        requires
            unit >= BINADE,
            d * unit > 0,
    ;
    assert(-(d * unit) <= e <= d * unit) by (nonlinear_arith)
        requires
            -((d * unit) * unit) <= e * unit <= (d * unit) * unit,
            unit > 0,
    ;
}

/// What a time lies behind the start of its track is off by at most the `2^52`nd part of
/// the length of the track, where that is not too small.
proof fn lemma_part_error(fraction: u64, length: u64)
    requires
        fraction <= ONE,
        BINADE <= length < INFINITE,
    ensures
        product_of(fraction, length) is Some,
        ({
            let unit = pow2(UNIT_SCALE as nat);
            let part = magnitude(product_of(fraction, length)->0 as nat);
            let whole = magnitude(length as nat);
            -(unit * whole) <= BINADE * (part * unit - magnitude(fraction as nat) * whole) <= unit
                * whole
        }),
{
    let unit = pow2(UNIT_SCALE as nat);
    let whole = magnitude(length as nat);
    let f = magnitude(fraction as nat);
    lemma_pow2_pos(UNIT_SCALE as nat);
    lemma_one();
    lemma_order(fraction as nat, ONE as nat);
    lemma_order(BINADE as nat, length as nat);
    assert(magnitude(BINADE as nat) == BINADE) by {
        lemma2_to64();
    }
    assert(f * whole <= unit * whole) by (nonlinear_arith)
        requires
            f <= unit,
    ;
    assert(whole * unit == unit * whole) by (nonlinear_arith);
    assert(BINADE * unit <= unit * whole) by (nonlinear_arith)
        requires
            BINADE <= whole,
    ;
    lemma_rounded_below(f * whole, unit, length);
    lemma_quotient_error(f * whole, unit);
}

/// The numbers that the position of an object is made of, in units.
struct Steps {
    numerator: int,
    denominator: int,
    fraction: int,
    part: int,
    y: int,
}

/// The numbers that the position of an object with a length of its track is made of.
spec fn steps_of(layout: Layout, time: ObjTime) -> Steps {
    Steps {
        numerator: time.spec_numerator() as int,
        denominator: time.spec_denominator() as int,
        fraction: magnitude(fraction_of(time) as nat) as int,
        part: magnitude(
            product_of(fraction_of(time), layout.length(time.spec_track()))->0 as nat,
        ) as int,
        y: magnitude(layout.y(time) as nat) as int,
    }
}

/// Whether none of the steps to the position of an object in a track is off by more than
/// rounding makes it.
spec fn is_rounded(unit: int, steps: Steps, start: int, length: int, end: int) -> bool {
    let (n, d) = (steps.numerator, steps.denominator);
    &&& d > 0
    &&& -(d * unit) <= BINADE * (steps.fraction * d - n * unit) <= d * unit
    &&& -(unit * length) <= BINADE * (steps.part * unit - steps.fraction * length) <= unit * length
    &&& is_close(steps.y, start + steps.part, end)
}

/// What is left of the distance of two objects after rounding.
proof fn lemma_distance_left(
    unit: int,
    earlier: Steps,
    later: Steps,
    start: int,
    length: int,
    end: int,
)
    requires
        unit > 0,
        0 < length <= end,
        is_rounded(unit, earlier, start, length, end),
        is_rounded(unit, later, start, length, end),
        earlier.numerator * later.denominator < later.numerator * earlier.denominator,
        8 * (earlier.denominator * later.denominator * end) <= BINADE * length,
    ensures
        earlier.y < later.y,
{
    let (n1, d1, f, p, y1) = (
        earlier.numerator,
        earlier.denominator,
        earlier.fraction,
        earlier.part,
        earlier.y,
    );
    let (n2, d2, g, q, y2) = (
        later.numerator,
        later.denominator,
        later.fraction,
        later.part,
        later.y,
    );
    let both = d1 * d2;
    let e1 = f * d1 - n1 * unit;
    let e2 = g * d2 - n2 * unit;
    assert(both > 0) by (nonlinear_arith)
        requires
            both == d1 * d2,
            d1 > 0,
            d2 > 0,
    ;
    assert((BINADE * e1) * d2 <= (d1 * unit) * d2) by (nonlinear_arith)
        requires
            BINADE * e1 <= d1 * unit,
            d2 > 0,
    ;
    assert((BINADE * e2) * d1 >= -(d2 * unit) * d1) by (nonlinear_arith)
        requires
            BINADE * e2 >= -(d2 * unit),
            d1 > 0,
    ;
    assert((BINADE * e1) * d2 == BINADE * (f * both) - BINADE * (n1 * d2 * unit))
        by (nonlinear_arith)
        requires
            e1 == f * d1 - n1 * unit,
            both == d1 * d2,
    ;
    assert((BINADE * e2) * d1 == BINADE * (g * both) - BINADE * (n2 * d1 * unit))
        by (nonlinear_arith)
        requires
            e2 == g * d2 - n2 * unit,
            both == d1 * d2,
    ;
    assert((d1 * unit) * d2 == both * unit && (d2 * unit) * d1 == both * unit)
        by (nonlinear_arith)
        requires
            both == d1 * d2,
    ;
    assert(-(d2 * unit) * d1 == -(both * unit)) by (nonlinear_arith)
        requires
            (d2 * unit) * d1 == both * unit,
    ;
    assert(n2 * d1 * unit >= n1 * d2 * unit + unit) by (nonlinear_arith)
        requires
            n2 * d1 >= n1 * d2 + 1,
            unit > 0,
    ;
    let rise = BINADE * (g * both - f * both);
    assert(rise >= BINADE * unit - 2 * (both * unit));
    let gap = BINADE * (q * unit - p * unit);
    let spread = BINADE * (g * length - f * length);
    assert(gap >= spread - 2 * (unit * length));
    assert(gap * both >= (spread - 2 * (unit * length)) * both) by (nonlinear_arith)
        requires
            gap >= spread - 2 * (unit * length),
            both > 0,
    ;
    assert((spread - 2 * (unit * length)) * both == rise * length - 2 * (unit * length * both))
        by (nonlinear_arith)
        requires
            spread == BINADE * (g * length - f * length),
            rise == BINADE * (g * both - f * both),
    ;
    assert(rise * length >= (BINADE * unit - 2 * (both * unit)) * length) by (nonlinear_arith)
        requires
            rise >= BINADE * unit - 2 * (both * unit),
            length > 0,
    ;
    let parts = BINADE * (q - p) * both;
    let rest = BINADE * length - 4 * (both * length);
    assert((BINADE * unit - 2 * (both * unit)) * length - 2 * (unit * length * both) == rest * unit)
        by (nonlinear_arith)
        requires
            rest == BINADE * length - 4 * (both * length),
    ;
    assert(gap * both == parts * unit) by (nonlinear_arith)
        requires
            gap == BINADE * (q * unit - p * unit),
            parts == BINADE * (q - p) * both,
    ;
    assert(parts >= rest) by (nonlinear_arith)
        requires
            parts * unit >= rest * unit,
            unit > 0,
    ;
    let left = BINADE * (y2 - y1);
    assert(left >= BINADE * (q - p) - end);
    assert(left * both >= (BINADE * (q - p) - end) * both) by (nonlinear_arith)
        requires
            left >= BINADE * (q - p) - end,
            both > 0,
    ;
    assert((BINADE * (q - p) - end) * both == parts - both * end) by (nonlinear_arith)
        requires
            parts == BINADE * (q - p) * both,
    ;
    assert(both * length <= both * end) by (nonlinear_arith)
        requires
            length <= end,
            both > 0,
    ;
    assert(both * end > 0) by (nonlinear_arith)
        requires
            both > 0,
            end > 0,
    ;
    assert(left > 0) by (nonlinear_arith)
        requires
            left * both > 0,
            both > 0,
    ;
}

/// In a track that has a length, a later object stands behind an earlier one, however
/// their fractions, their parts of the length and their positions are rounded: where the
/// product of the denominators, times the position of the end of the track, is at most
/// `2^49` times the length. A length so small that it has fewer than 53 bits is left out.
pub proof fn lemma_positions_apart(
    changes: Seq<(Track, SectionLenChangeObj)>,
    layout: Layout,
    earlier: ObjTime,
    later: ObjTime,
)
    requires
        is_exact_up_to(changes, layout, (later.spec_track().0 + 1) as u64),
        later.spec_track().0 < u64::MAX,
        earlier.spec_track() == later.spec_track(),
        layout.length(later.spec_track()) >= BINADE,
        0 < earlier.spec_denominator(),
        earlier.spec_numerator() <= earlier.spec_denominator(),
        0 < later.spec_denominator(),
        later.spec_numerator() <= later.spec_denominator(),
        earlier.below(later),
        earlier.spec_denominator() * later.spec_denominator() * magnitude(
            layout.start_y(Track((later.spec_track().0 + 1) as u64)) as nat,
        ) <= 0x0002_0000_0000_0000 * magnitude(layout.length(later.spec_track()) as nat),
    ensures
        layout.y(earlier) < layout.y(later),
{
    let track = later.spec_track();
    let next = Track((track.0 + 1) as u64);
    let unit = pow2(UNIT_SCALE as nat);
    let length = layout.length(track);
    let d1 = earlier.spec_denominator();
    let d2 = later.spec_denominator();
    let end = magnitude(layout.start_y(next) as nat);
    lemma_pow2_pos(UNIT_SCALE as nat);
    lemma_zero_magnitude();
    lemma_order(length as nat, 0);
    lemma_length_of_track(changes, layout, track);
    assert(d1 <= 0x0002_0000_0000_0000 && d2 <= 0x0002_0000_0000_0000) by (nonlinear_arith)
        requires
            d1 > 0,
            d2 > 0,
            0 < magnitude(length as nat) <= end,
            d1 * d2 * end <= 0x0002_0000_0000_0000 * magnitude(length as nat),
    {
        assert(d1 * d2 * end >= d1 * end);
        assert(d1 * d2 * end >= d2 * end);
    }
    lemma_steps(changes, layout, earlier);
    lemma_steps(changes, layout, later);
    lemma_distance_left(
        unit as int,
        steps_of(layout, earlier),
        steps_of(layout, later),
        magnitude(layout.section_start(track).1 as nat) as int,
        magnitude(length as nat) as int,
        end as int,
    );
    lemma_order(layout.y(later) as nat, layout.y(earlier) as nat);
}

/// The steps to a position are off by no more than rounding makes them.
proof fn lemma_steps(
    changes: Seq<(Track, SectionLenChangeObj)>,
    layout: Layout,
    time: ObjTime,
)
    requires
        is_exact_up_to(changes, layout, (time.spec_track().0 + 1) as u64),
        time.spec_track().0 < u64::MAX,
        layout.length(time.spec_track()) >= BINADE,
        0 < time.spec_denominator() <= 0x0020_0000_0000_0000,
        time.spec_numerator() <= time.spec_denominator(),
    ensures
        is_rounded(
            pow2(UNIT_SCALE as nat) as int,
            steps_of(layout, time),
            magnitude(layout.section_start(time.spec_track()).1 as nat) as int,
            magnitude(layout.length(time.spec_track()) as nat) as int,
            magnitude(layout.start_y(Track((time.spec_track().0 + 1) as u64)) as nat) as int,
        ),
{
    let track = time.spec_track();
    let next = Track((track.0 + 1) as u64);
    let length = layout.length(track);
    let start = layout.section_start(track).1;
    lemma_place(changes, layout, time);
    lemma_fraction_at_most_one(time);
    lemma_fraction_error(time);
    lemma_finite_length(changes, layout, track);
    lemma_part_error(fraction_of(time), length);
    let part = product_of(fraction_of(time), length)->0;
    lemma_rounding_error(magnitude(start as nat) + magnitude(part as nat));
    lemma_order(layout.y(time) as nat, layout.start_y(next) as nat);
}

/// A track is no longer than the position of its end.
proof fn lemma_length_of_track(
    changes: Seq<(Track, SectionLenChangeObj)>,
    layout: Layout,
    track: Track,
)
    requires
        is_exact_up_to(changes, layout, (track.0 + 1) as u64),
        track.0 < u64::MAX,
    ensures
        magnitude(layout.length(track) as nat) <= magnitude(
            layout.start_y(Track((track.0 + 1) as u64)) as nat,
        ),
{
    let next = Track((track.0 + 1) as u64);
    assert(is_exact_up_to(changes, layout, track.0));
    lemma_starts_grow(changes, layout, track.0, track.0);
    lemma_starts_grow(changes, layout, track.0, next.0);
    lemma_count_before(changes, track);
    lemma_count_before(changes, next);
    assert(needs_no_rounding(changes, Track(track.0), count_before(changes, Track(track.0))));
    assert(needs_no_rounding(changes, Track(next.0), count_before(changes, Track(next.0))));
    lemma_next_measure(
        changes,
        layout,
        track,
        count_before(changes, track),
        next,
        count_before(changes, next),
    );
}

/// A sum that is representable is not rounded.
proof fn lemma_exact_sum(a: u64, b: u64)
    requires
        representable((magnitude(a as nat) + magnitude(b as nat)) as int),
    ensures
        sum_of(a, b) is Some,
        magnitude(sum_of(a, b)->0 as nat) == magnitude(a as nat) + magnitude(b as nat),
{
    let units = magnitude(a as nat) + magnitude(b as nat);
    let bits = choose|bits: u64|
        #![trigger magnitude(bits as nat)]
        bits < INFINITE && magnitude(bits as nat) == units;
    lemma_exact(bits as nat, 1);
}

/// Without spacing an object stands `start + numerator / denominator * length` along the
/// chart, up to rounding: the difference is at most the `2^52`nd part of three times the
/// position of the end of the track. A length so small that it has fewer than 53 bits is
/// left out.
pub proof fn lemma_position_rounded(
    changes: Seq<(Track, SectionLenChangeObj)>,
    layout: Layout,
    time: ObjTime,
)
    requires
        is_exact_up_to(changes, layout, (time.spec_track().0 + 1) as u64),
        time.spec_track().0 < u64::MAX,
        layout.length(time.spec_track()) >= BINADE,
        0 < time.spec_denominator() <= 0x0020_0000_0000_0000,
        time.spec_numerator() <= time.spec_denominator(),
    ensures
        ({
            let d = time.spec_denominator() as int;
            let n = time.spec_numerator() as int;
            let start = magnitude(layout.start_y(time.spec_track()) as nat) as int;
            let length = magnitude(layout.length(time.spec_track()) as nat) as int;
            let end = magnitude(
                layout.start_y(Track((time.spec_track().0 + 1) as u64)) as nat,
            ) as int;
            let y = magnitude(layout.y(time) as nat) as int;
            &&& end == start + length
            &&& -(3 * (d * end)) <= BINADE * (y * d - (start * d + n * length)) <= 3 * (d * end)
        }),
{
    let track = time.spec_track();
    let next = Track((track.0 + 1) as u64);
    let unit = pow2(UNIT_SCALE as nat) as int;
    let start = magnitude(layout.section_start(track).1 as nat) as int;
    let length = magnitude(layout.length(track) as nat) as int;
    let end = magnitude(layout.start_y(next) as nat) as int;
    let steps = steps_of(layout, time);
    let (n, d, f, p, y) = (
        steps.numerator,
        steps.denominator,
        steps.fraction,
        steps.part,
        steps.y,
    );
    lemma_pow2_pos(UNIT_SCALE as nat);
    lemma_steps(changes, layout, time);
    lemma_length_of_track(changes, layout, track);
    assert(is_exact_up_to(changes, layout, track.0));
    lemma_starts_grow(changes, layout, track.0, track.0);
    lemma_starts_grow(changes, layout, track.0, next.0);
    lemma_count_before(changes, track);
    lemma_count_before(changes, next);
    assert(needs_no_rounding(changes, Track(track.0), count_before(changes, Track(track.0))));
    assert(needs_no_rounding(changes, Track(next.0), count_before(changes, Track(next.0))));
    lemma_next_measure(
        changes,
        layout,
        track,
        count_before(changes, track),
        next,
        count_before(changes, next),
    );
    let e = f * d - n * unit;
    let g = p * unit - f * length;
    assert(-((d * unit) * length) <= (BINADE * e) * length <= (d * unit) * length)
        by (nonlinear_arith)
        requires
            -(d * unit) <= BINADE * e <= d * unit,
            length >= 0,
    ;
    assert(-((unit * length) * d) <= (BINADE * g) * d <= (unit * length) * d) by (nonlinear_arith)
        requires
            -(unit * length) <= BINADE * g <= unit * length,
            d >= 0,
    ;
    assert((unit * length) * d == (d * length) * unit && (d * unit) * length == (d * length)
        * unit) by (nonlinear_arith);
    let off = p * d - n * length;
    assert(e * length == f * d * length - n * unit * length) by (nonlinear_arith)
        requires
            e == f * d - n * unit,
    ;
    assert(g * d == p * unit * d - f * length * d) by (nonlinear_arith)
        requires
            g == p * unit - f * length,
    ;
    assert(off * unit == p * d * unit - n * length * unit) by (nonlinear_arith)
        requires
            off == p * d - n * length,
    ;
    assert(f * d * length == f * length * d && p * unit * d == p * d * unit && n * unit * length
        == n * length * unit) by (nonlinear_arith);
    assert((BINADE * e) * length == BINADE * (e * length) && (BINADE * g) * d == BINADE * (g * d)
        && (BINADE * off) * unit == BINADE * (off * unit)) by (nonlinear_arith);
    assert(-(2 * (d * length)) <= BINADE * off <= 2 * (d * length)) by (nonlinear_arith)
        requires
            -(2 * ((d * length) * unit)) <= (BINADE * off) * unit <= 2 * ((d * length) * unit),
            unit > 0,
    ;
    let h = y - (start + p);
    assert(-(end * d) <= (0x0020_0000_0000_0000 * h) * d <= end * d) by (nonlinear_arith)
        requires
            -end <= 0x0020_0000_0000_0000 * h <= end,
            d >= 0,
    ;
    assert((0x0020_0000_0000_0000 * h) * d == 0x0020_0000_0000_0000 * (h * d)) by (nonlinear_arith);
    assert(h * d + off == y * d - (start * d + n * length)) by (nonlinear_arith)
        requires
            h == y - (start + p),
            off == p * d - n * length,
    ;
    assert(d * length <= d * end) by (nonlinear_arith)
        requires
            length <= end,
            d >= 0,
    ;
    assert(end * d == d * end) by (nonlinear_arith);
    assert(d * end >= 0) by (nonlinear_arith)
        requires
            d >= 0,
            end >= 0,
    ;
}

} // verus!
