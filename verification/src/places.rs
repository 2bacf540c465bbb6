//! What the position of an object is made of.

#[allow(unused_imports)]
use crate::bms::Bms;
#[allow(unused_imports)]
use crate::measure::{lemma_default_length, lemma_length_of, lemma_one};
#[allow(unused_imports)]
use crate::num::{signed_sum_of, LARGEST};
#[allow(unused_imports)]
use crate::ordered::{ascending, lemma_last_up_to, lemma_none_up_to, OrderKey};
#[allow(unused_imports)]
use crate::rounding::{
    lemma_exact, lemma_rounding_monotone, lemma_small_whole, lemma_zero_magnitude, magnitude,
    product_of, INFINITE, UNIT_SCALE,
};
#[allow(unused_imports)]
use crate::time::{ObjTime, Track};
#[allow(unused_imports)]
use crate::y_memo::{fraction_of, layout_of, Layout};
#[allow(unused_imports)]
use vstd::arithmetic::power2::{lemma_pow2_pos, pow2};
use vstd::prelude::*;

verus! {

/// The spacing at a time is that of the last change up to it.
pub proof fn lemma_spacing_of_change(bms: Bms, time: ObjTime, i: int)
    requires
        0 <= i < bms.speed.speed_factor_changes@.len(),
        !time.below(bms.speed.speed_factor_changes@[i].0),
        forall|j: int|
            i < j < bms.speed.speed_factor_changes@.len() ==> time.below(
                (#[trigger] bms.speed.speed_factor_changes@[j]).0,
            ),
    ensures
        layout_of(bms).factor(time) == bms.speed.speed_factor_changes@[i].1.factor@,
{
    lemma_last_up_to(bms.speed.speed_factor_changes@, time, i);
}

/// Up to the first change the spacing is one.
pub proof fn lemma_spacing_at_start(bms: Bms, time: ObjTime)
    requires
        forall|j: int|
            0 <= j < bms.speed.speed_factor_changes@.len() ==> time.below(
                (#[trigger] bms.speed.speed_factor_changes@[j]).0,
            ),
    ensures
        magnitude(layout_of(bms).factor(time) as nat) == pow2(UNIT_SCALE as nat),
{
    lemma_none_up_to(bms.speed.speed_factor_changes@, time);
    lemma_one();
}

/// Without spacing all factors are one, and the tracks are as long and start where they do
/// with it.
pub proof fn lemma_without_spacing(layout: Layout, time: ObjTime, track: Track)
    ensures
        magnitude(layout.unspaced().factor(time) as nat) == pow2(UNIT_SCALE as nat),
        layout.unspaced().length(track) == layout.length(track),
        layout.unspaced().section_start(track) == layout.section_start(track),
{
    lemma_one();
}

/// A track with a length of its own has that length.
pub proof fn lemma_own_length(bms: Bms, i: int)
    requires
        ascending(bms.section_len.section_len_changes@),
        0 <= i < bms.section_len.section_len_changes@.len(),
    ensures
        layout_of(bms).length(bms.section_len.section_len_changes@[i].0)
            == bms.section_len.section_len_changes@[i].1.length@,
{
    let changes = bms.section_len.section_len_changes@;
    lemma_length_of(changes, changes[i].0, i);
}

/// A track without a length of its own has the length one.
pub proof fn lemma_usual_length(bms: Bms, track: Track)
    requires
        forall|i: int|
            0 <= i < bms.section_len.section_len_changes@.len() ==> (
            #[trigger] bms.section_len.section_len_changes@[i]).0 != track,
    ensures
        magnitude(layout_of(bms).length(track) as nat) == pow2(UNIT_SCALE as nat),
{
    let changes = bms.section_len.section_len_changes@;
    assert forall|i: int| 0 <= i < changes.len() implies (#[trigger] changes[i]).0.0
        != track.0 by {
        if changes[i].0.0 == track.0 {
            assert(changes[i].0 == track);
        }
    }
    lemma_default_length(changes, track);
    lemma_one();
}

/// An object stands `(start + numerator / denominator * length) * spacing` along the chart,
/// in units: exactly so where none of the four steps, the fraction, its part of the length,
/// the sum and the product, needs rounding. The start, the length and the spacing are those
/// of its track and time. A change of the flow stands there also where its track has no
/// length.
pub proof fn lemma_position(
    layout: Layout,
    time: ObjTime,
    fraction: u64,
    part: u64,
    sum: u64,
    y: u64,
)
    requires
        !layout.section_start(time.spec_track()).0,
        0 < time.spec_denominator() <= 0x0020_0000_0000_0000,
        time.spec_numerator() <= 0x0020_0000_0000_0000,
        fraction < INFINITE,
        part < INFINITE,
        sum < INFINITE,
        y < INFINITE,
        magnitude(fraction as nat) * time.spec_denominator() == time.spec_numerator() * pow2(
            UNIT_SCALE as nat,
        ),
        magnitude(part as nat) * pow2(UNIT_SCALE as nat) == magnitude(fraction as nat) * magnitude(
            layout.length(time.spec_track()) as nat,
        ),
        magnitude(sum as nat) == magnitude(layout.section_start(time.spec_track()).1 as nat)
            + magnitude(part as nat),
        magnitude(y as nat) * pow2(UNIT_SCALE as nat) == magnitude(sum as nat) * magnitude(
            layout.factor(time) as nat,
        ),
    ensures
        layout.length(time.spec_track()) != 0 ==> layout.y(time) == y,
        layout.spread_y(time) == y,
        magnitude(y as nat) * pow2(UNIT_SCALE as nat) * time.spec_denominator() == (magnitude(
            layout.section_start(time.spec_track()).1 as nat,
        ) * time.spec_denominator() + time.spec_numerator() * magnitude(
            layout.length(time.spec_track()) as nat,
        )) * magnitude(layout.factor(time) as nat),
{
    let unit = pow2(UNIT_SCALE as nat);
    let n = time.spec_numerator() as nat;
    let d = time.spec_denominator() as nat;
    let f = magnitude(fraction as nat);
    let p = magnitude(part as nat);
    let length = magnitude(layout.length(time.spec_track()) as nat);
    let start = magnitude(layout.section_start(time.spec_track()).1 as nat);
    let factor = magnitude(layout.factor(time) as nat);
    lemma_pow2_pos(UNIT_SCALE as nat);
    lemma_zero_magnitude();
    lemma_small_whole(time.spec_numerator());
    lemma_small_whole(time.spec_denominator());
    assert(d * unit > 0) by (nonlinear_arith)
        requires
            d > 0,
            unit > 0,
    ;
    lemma_exact(fraction as nat, d * unit);
    assert(f * (d * unit) == (n * unit) * unit) by (nonlinear_arith)
        requires
            f * d == n * unit,
    ;
    assert(fraction_of(time) == fraction);
    lemma_exact(part as nat, unit);
    assert(product_of(fraction, layout.length(time.spec_track())) == Some(part));
    lemma_exact(sum as nat, 1);
    lemma_exact(y as nat, unit);
    assert(p * d == n * length) by (nonlinear_arith)
        requires
            p * unit == f * length,
            f * d == n * unit,
            unit > 0,
    ;
    let s = magnitude(sum as nat);
    assert(s * d == start * d + n * length) by (nonlinear_arith)
        requires
            s == start + p,
            p * d == n * length,
    ;
    assert((magnitude(y as nat) * unit) * d == (s * d) * factor) by (nonlinear_arith)
        requires
            magnitude(y as nat) * unit == s * factor,
    ;
}

/// A track starts at its start times the spacing there: exactly so where the product needs
/// no rounding. Objects of a track without length stand there too.
pub proof fn lemma_track_position(layout: Layout, track: Track, y: u64)
    requires
        !layout.section_start(track).0,
        y < INFINITE,
        magnitude(y as nat) * pow2(UNIT_SCALE as nat) == magnitude(
            layout.section_start(track).1 as nat,
        ) * magnitude(layout.factor(ObjTime::at(track, 0, 1)) as nat),
    ensures
        layout.start_y(track) == y,
        forall|time: ObjTime|
            time.spec_track() == track && layout.length(track) == 0 ==> #[trigger] layout.y(time)
                == y,
{
    lemma_pow2_pos(UNIT_SCALE as nat);
    lemma_exact(y as nat, pow2(UNIT_SCALE as nat));
}

/// A track that would start beyond the largest number starts at the largest number.
pub proof fn lemma_track_beyond(layout: Layout, track: Track)
    requires
        !layout.section_start(track).0,
        magnitude(layout.section_start(track).1 as nat) * magnitude(
            layout.factor(ObjTime::at(track, 0, 1)) as nat,
        ) >= magnitude(LARGEST as nat) * pow2(UNIT_SCALE as nat),
    ensures
        layout.start_y(track) == LARGEST,
{
    let unit = pow2(UNIT_SCALE as nat);
    let product = magnitude(layout.section_start(track).1 as nat) * magnitude(
        layout.factor(ObjTime::at(track, 0, 1)) as nat,
    );
    lemma_pow2_pos(UNIT_SCALE as nat);
    lemma_exact(LARGEST as nat, unit);
    let most = magnitude(LARGEST as nat) * unit;
    assert(most * unit <= product * unit) by (nonlinear_arith)
        requires
            most <= product,
    ;
    lemma_rounding_monotone(most, unit, product, unit);
}

/// What would stand beyond the largest number stands at the largest number.
pub proof fn lemma_position_beyond(layout: Layout, time: ObjTime)
    requires
        layout.length(time.spec_track()) != 0,
        ({
            let part = product_of(fraction_of(time), layout.length(time.spec_track()));
            ||| part is None
            ||| signed_sum_of(layout.section_start(time.spec_track()), (false, part->0)) is None
            ||| product_of(
                (signed_sum_of(layout.section_start(time.spec_track()), (false, part->0))->0).1,
                layout.factor(time),
            ) is None
        }),
    ensures
        layout.y(time) == LARGEST,
        layout.spread_y(time) == LARGEST,
        LARGEST + 1 == INFINITE,
{
}

} // verus!
