//! Where the objects of a chart stand along it.

#[allow(unused_imports)]
use crate::bms::{Bms, BpmChangeObj, ScrollingFactorObj, SectionLenChangeObj, SpeedObj};
use crate::event::{FlowEvent, YCoordinate};
use crate::num::{FinF64, NonNegativeF64, PositiveF64, LARGEST, ONE};
#[allow(unused_imports)]
use crate::num::{
    group_patterns, option_of_signed, signed_product_of, signed_sum_of,
};
use crate::ordered::OrderedMap;
#[allow(unused_imports)]
use crate::ordered::{
    ascending, last_before, last_up_to, lemma_placed_last, value_of, OrderKey,
};
use crate::position::ByPosition;
#[allow(unused_imports)]
use crate::position::{grouped, lemma_grouped_push};
#[allow(unused_imports)]
use crate::rounding::{product_of, quotient_of, whole_of};
use crate::time::{ObjTime, Track};
use vstd::prelude::*;

verus! {

/// The pattern of the tempo of a chart that gives none, 120.
pub const DEFAULT_BPM_BITS: u64 = 0x405e_0000_0000_0000;

/// The tempo of a chart that gives none.
pub fn default_bpm() -> (r: PositiveF64)
    ensures
        r == PositiveF64::of(DEFAULT_BPM_BITS),
{
    PositiveF64::from_bits(DEFAULT_BPM_BITS).unwrap()
}

/// The spacing of a chart that gives none, one.
pub fn default_speed() -> (r: PositiveF64)
    ensures
        r == PositiveF64::of(ONE),
{
    PositiveF64::from_bits(ONE).unwrap()
}

/// What the positions of a chart rest on.
pub struct Layout {
    /// For each track with a length of its own, by how much the tracks up to it, itself
    /// included, are longer than the default.
    pub offsets: Seq<(Track, FinF64)>,
    /// The lengths of these tracks.
    pub lengths: Seq<(Track, NonNegativeF64)>,
    /// The changes of the spacing.
    pub speeds: Seq<(ObjTime, SpeedObj)>,
}

/// The excess of a track length over the default length.
pub open spec fn excess(length: NonNegativeF64) -> Option<(bool, u64)> {
    signed_sum_of((false, length@), (true, ONE))
}

/// The sum of the excess lengths of tracks; none where it is infinite.
pub open spec fn total_excess(s: Seq<(Track, SectionLenChangeObj)>) -> Option<(bool, u64)>
    decreases s.len(),
{
    if s.len() == 0 {
        Some((false, 0))
    } else {
        match (total_excess(s.drop_last()), excess(s.last().1.length)) {
            (Some(sum), Some(last)) => signed_sum_of(sum, last),
            _ => None,
        }
    }
}

/// A number, or the largest one in place of an infinite one.
pub open spec fn or_largest(x: Option<(bool, u64)>) -> FinF64 {
    match x {
        Some(v) => FinF64::of(v),
        None => FinF64::of((false, LARGEST)),
    }
}

/// For each track with a length of its own, the excess length of the tracks up to it.
pub open spec fn offsets_of(changes: Seq<(Track, SectionLenChangeObj)>) -> Seq<(Track, FinF64)> {
    Seq::new(
        changes.len(),
        |i: int| (changes[i].0, or_largest(total_excess(changes.take(i + 1)))),
    )
}

/// The lengths of the tracks that have one of their own.
pub open spec fn lengths_of(changes: Seq<(Track, SectionLenChangeObj)>) -> Seq<
    (Track, NonNegativeF64),
> {
    changes.map_values(|e: (Track, SectionLenChangeObj)| (e.0, e.1.length))
}

/// The layout of a chart.
pub open spec fn layout_of(bms: Bms) -> Layout {
    let changes = bms.section_len.section_len_changes@;
    Layout {
        offsets: offsets_of(changes),
        lengths: lengths_of(changes),
        speeds: bms.speed.speed_factor_changes@,
    }
}

/// The position that a signed number stands for: the largest one where the number is
/// negative or infinite.
pub open spec fn position_of(x: Option<(bool, u64)>) -> u64 {
    match x {
        Some((negative, bits)) => if negative {
            LARGEST
        } else {
            bits
        },
        None => LARGEST,
    }
}

impl Layout {
    /// The same layout without spacing.
    pub open spec fn unspaced(self) -> Layout {
        Layout { offsets: self.offsets, lengths: self.lengths, speeds: Seq::empty() }
    }

    /// Where a track starts, before spacing: its number and the excess length of the
    /// tracks before it.
    pub open spec fn section_start(self, track: Track) -> (bool, u64) {
        let offset = match last_before(self.offsets, track) {
            Some(offset) => offset@,
            None => (false, 0u64),
        };
        or_largest(signed_sum_of((false, whole_of(track.0)->0), offset))@
    }

    /// The length of a track.
    pub open spec fn length(self, track: Track) -> u64 {
        match value_of(self.lengths, track) {
            Some(length) => length@,
            None => ONE,
        }
    }

    /// The spacing in effect at a time.
    pub open spec fn factor(self, time: ObjTime) -> u64 {
        match last_up_to(self.speeds, time) {
            Some(speed) => speed.factor@,
            None => ONE,
        }
    }

    /// The position of a time at a given spacing, the objects of a track being spread
    /// evenly over its length.
    pub open spec fn spread_by(self, time: ObjTime, factor: u64) -> u64 {
        position_of(
            match product_of(fraction_of(time), self.length(time.spec_track())) {
                Some(within) => match signed_sum_of(
                    self.section_start(time.spec_track()),
                    (false, within),
                ) {
                    Some(sum) => signed_product_of(sum, factor),
                    None => None,
                },
                None => None,
            },
        )
    }

    /// The position of a time, the objects of a track being spread evenly over its
    /// length.
    pub open spec fn spread_y(self, time: ObjTime) -> u64 {
        self.spread_by(time, self.factor(time))
    }

    /// The position of the start of a track.
    pub open spec fn start_y(self, track: Track) -> u64 {
        position_of(
            signed_product_of(self.section_start(track), self.factor(ObjTime::at(track, 0, 1))),
        )
    }

    /// Whether a track has no length.
    pub open spec fn has_no_length(self, track: Track) -> bool {
        self.length(track) == 0
    }

    /// The position of a time. All objects of a track without length stand at its start.
    pub open spec fn y(self, time: ObjTime) -> u64 {
        if self.has_no_length(time.spec_track()) {
            self.start_y(time.spec_track())
        } else {
            self.spread_y(time)
        }
    }
}

/// The fraction of its track at which a time lies.
pub open spec fn fraction_of(time: ObjTime) -> u64 {
    match quotient_of(whole_of(time.spec_numerator())->0, whole_of(time.spec_denominator())->0) {
        Some(bits) => bits,
        None => 0,
    }
}

/// The tempo that a byte stands for; zero stands for the default tempo.
pub open spec fn bpm_of_u8(n: u8) -> PositiveF64 {
    if n == 0 {
        PositiveF64::of(DEFAULT_BPM_BITS)
    } else {
        PositiveF64::of(whole_of(n as u64)->0)
    }
}

/// The tempo that a byte stands for; zero stands for the default tempo.
pub fn bpm_from_u8(n: u8) -> (r: PositiveF64)
    ensures
        r == bpm_of_u8(n),
{
    match PositiveF64::from_int(n as u64) {
        Some(bpm) => bpm,
        None => default_bpm(),
    }
}

/// A change of the playback speed or scroll at a time.
pub type TimedFlow = (ObjTime, FlowEvent);

/// A change to a defined tempo.
pub open spec fn bpm_flow(e: (ObjTime, BpmChangeObj)) -> TimedFlow {
    (e.1.time, FlowEvent::Bpm(e.1.bpm))
}

/// A change to a tempo given in place.
pub open spec fn bpm_u8_flow(e: (ObjTime, u8)) -> TimedFlow {
    (e.0, FlowEvent::Bpm(bpm_of_u8(e.1)))
}

/// A change of the scroll speed.
pub open spec fn scroll_flow(e: (ObjTime, ScrollingFactorObj)) -> TimedFlow {
    (e.1.time, FlowEvent::Scroll(e.1.factor))
}

/// A change of the spacing.
pub open spec fn speed_flow(e: (ObjTime, SpeedObj)) -> TimedFlow {
    (e.1.time, FlowEvent::Speed(e.1.factor))
}

/// The tempos given in place that are a change: a value of zero is none.
pub open spec fn nonzero(s: Seq<(ObjTime, u8)>) -> Seq<(ObjTime, u8)> {
    s.filter(|e: (ObjTime, u8)| e.1 != 0)
}

/// A value of zero is no change of the tempo: one more makes no difference.
pub proof fn lemma_zero_is_no_change(s: Seq<(ObjTime, u8)>, i: int, time: ObjTime)
    requires
        0 <= i <= s.len(),
    ensures
        nonzero(s.insert(i, (time, 0u8))) == nonzero(s),
    decreases s.len(),
{
    reveal(Seq::filter);
    let t = s.insert(i, (time, 0u8));
    if i == s.len() {
        assert(t.drop_last() =~= s);
    } else {
        assert(t.drop_last() =~= s.drop_last().insert(i, (time, 0u8)));
        lemma_zero_is_no_change(s.drop_last(), i, time);
    }
}

/// Changes, each with its position.
pub open spec fn flow_of<V>(
    layout: Layout,
    s: Seq<(ObjTime, V)>,
    change_of: spec_fn((ObjTime, V)) -> TimedFlow,
) -> Seq<(u64, FlowEvent)> {
    s.map_values(|e: (ObjTime, V)| (layout.spread_y(change_of(e).0), change_of(e).1))
}

/// The changes of the playback speed and scroll, in the order in which they are found.
pub open spec fn flow_items(bms: Bms) -> Seq<(u64, FlowEvent)> {
    let layout = layout_of(bms);
    flow_of(layout, bms.bpm.bpm_changes@, |e| bpm_flow(e)) + flow_of(
        layout,
        nonzero(bms.bpm.bpm_changes_u8@),
        |e| bpm_u8_flow(e),
    ) + flow_of(layout, bms.scroll.scrolling_factor_changes@, |e| scroll_flow(e)) + flow_of(
        layout,
        bms.speed.speed_factor_changes@,
        |e| speed_flow(e),
    )
}

/// A change to a defined tempo.
fn make_bpm_flow(e: &(ObjTime, BpmChangeObj)) -> (r: TimedFlow)
    ensures
        r == bpm_flow(*e),
{
    (e.1.time, FlowEvent::Bpm(e.1.bpm))
}

/// A change to a tempo given in place.
fn make_bpm_u8_flow(e: &(ObjTime, u8)) -> (r: TimedFlow)
    ensures
        r == bpm_u8_flow(*e),
{
    (e.0, FlowEvent::Bpm(bpm_from_u8(e.1)))
}

/// A change of the scroll speed.
fn make_scroll_flow(e: &(ObjTime, ScrollingFactorObj)) -> (r: TimedFlow)
    ensures
        r == scroll_flow(*e),
{
    (e.1.time, FlowEvent::Scroll(e.1.factor))
}

/// A change of the spacing.
fn make_speed_flow(e: &(ObjTime, SpeedObj)) -> (r: TimedFlow)
    ensures
        r == speed_flow(*e),
{
    (e.1.time, FlowEvent::Speed(e.1.factor))
}

/// The tempos given in place that are a change: a value of zero is none.
pub fn nonzero_bpms(changes: &OrderedMap<ObjTime, u8>) -> (r: OrderedMap<ObjTime, u8>)
    ensures
        r@ == nonzero(changes@),
{
    let entries = changes.entries();
    let ghost s = changes@;
    let mut r: OrderedMap<ObjTime, u8> = OrderedMap::new();
    let mut i: usize = 0;
    proof {
        reveal(Seq::filter);
        assert(nonzero(s.take(0)) =~= Seq::empty());
    }
    while i < entries.len()
        invariant
            entries@ == s,
            ascending(s),
            i <= s.len(),
            r@ == nonzero(s.take(i as int)),
            forall|j: int|
                i <= j < s.len() && r@.len() > 0 ==> r@.last().0.below((#[trigger] s[j]).0),
        decreases s.len() - i,
    {
        let (time, bpm_u8) = entries[i];
        proof {
            reveal(Seq::filter);
            assert(s.take(i + 1).drop_last() =~= s.take(i as int));
            assert(s.take(i + 1).last() == s[i as int]);
            lemma_placed_last(r@, time, bpm_u8);
        }
        if bpm_u8 != 0 {
            r.insert(time, bpm_u8);
        }
        i = i + 1;
    }
    assert(s.take(i as int) =~= s);
    r
}

/// Y coordinates by time, accounting for the lengths of the tracks and the changes of the
/// spacing.
pub struct YMemo {
    y_by_track: OrderedMap<Track, FinF64>,
    section_lengths: OrderedMap<Track, NonNegativeF64>,
    speed_changes: OrderedMap<ObjTime, SpeedObj>,
    flow_events: ByPosition<FlowEvent>,
}

impl YMemo {
    /// What the positions rest on.
    pub closed spec fn layout(self) -> Layout {
        Layout {
            offsets: self.y_by_track@,
            lengths: self.section_lengths@,
            speeds: self.speed_changes@,
        }
    }

    /// The changes of the playback speed and scroll.
    pub closed spec fn spec_flow_events(self) -> ByPosition<FlowEvent> {
        self.flow_events
    }

    /// The offsets and lengths of the tracks.
    fn tracks(changes: &OrderedMap<Track, SectionLenChangeObj>) -> (r: (
        OrderedMap<Track, FinF64>,
        OrderedMap<Track, NonNegativeF64>,
    ))
        ensures
            r.0@ == offsets_of(changes@),
            r.1@ == lengths_of(changes@),
    {
        broadcast use group_patterns;

        let entries = changes.entries();
        let mut y_by_track: OrderedMap<Track, FinF64> = OrderedMap::new();
        let mut section_lengths: OrderedMap<Track, NonNegativeF64> = OrderedMap::new();
        let mut offset = Some(FinF64::from_non_negative(NonNegativeF64::zero()));
        let mut i: usize = 0;
        assert(y_by_track@ =~= offsets_of(changes@).take(0));
        assert(section_lengths@ =~= lengths_of(changes@).take(0));
        while i < entries.len()
            invariant
                entries@ == changes@,
                ascending(changes@),
                i <= entries@.len(),
                offset == option_of_signed(total_excess(changes@.take(i as int))),
                y_by_track@ == offsets_of(changes@).take(i as int),
                section_lengths@ == lengths_of(changes@).take(i as int),
            decreases entries@.len() - i,
        {
            broadcast use group_patterns;

            let track = entries[i].0;
            let length = entries[i].1.length;
            proof {
                let s = changes@;
                assert(s.take(i + 1).drop_last() =~= s.take(i as int));
                assert(s.take(i + 1).last() == s[i as int]);
                lemma_placed_last(offsets_of(s).take(i as int), track, or_largest(
                    total_excess(s.take(i + 1)),
                ));
                lemma_placed_last(lengths_of(s).take(i as int), track, length);
                assert(offsets_of(s).take(i + 1) =~= offsets_of(s).take(i as int).push(
                    (track, or_largest(total_excess(s.take(i + 1)))),
                ));
                assert(lengths_of(s).take(i + 1) =~= lengths_of(s).take(i as int).push(
                    (track, length),
                ));
            }
            let excess = FinF64::from_non_negative(length).plus(FinF64::minus_one());
            offset = match (offset, excess) {
                (Some(sum), Some(last)) => sum.plus(last),
                _ => None,
            };
            let rounded = match offset {
                Some(value) => value,
                None => FinF64::largest(),
            };
            y_by_track.insert(track, rounded);
            section_lengths.insert(track, length);
            i = i + 1;
        }
        assert(offsets_of(changes@).take(i as int) =~= offsets_of(changes@));
        assert(lengths_of(changes@).take(i as int) =~= lengths_of(changes@));
        (y_by_track, section_lengths)
    }

    /// Where a track starts, before spacing.
    fn section_start(&self, track: Track) -> (r: FinF64)
        ensures
            r@ == self.layout().section_start(track),
    {
        broadcast use group_patterns;

        let number = FinF64::from_non_negative(NonNegativeF64::from_int(track.0));
        let offset = match self.y_by_track.last_before(track) {
            Some(offset) => *offset,
            None => FinF64::from_non_negative(NonNegativeF64::zero()),
        };
        match number.plus(offset) {
            Some(start) => start,
            None => FinF64::largest(),
        }
    }

    /// The length of a track.
    fn length(&self, track: Track) -> (r: NonNegativeF64)
        ensures
            r@ == self.layout().length(track),
    {
        broadcast use group_patterns;

        match self.section_lengths.get(track) {
            Some(length) => *length,
            None => default_speed().non_negative(),
        }
    }

    /// The spacing in effect at a time.
    fn factor(&self, time: ObjTime) -> (r: PositiveF64)
        ensures
            r@ == self.layout().factor(time),
    {
        broadcast use group_patterns;

        match self.speed_changes.last_up_to(time) {
            Some(speed) => speed.factor,
            None => default_speed(),
        }
    }

    /// Applies the spacing to a place.
    fn spaced(place: FinF64, factor: PositiveF64) -> (r: YCoordinate)
        ensures
            r@ == position_of(signed_product_of(place@, factor@)),
    {
        broadcast use group_patterns;

        let y = match place.times(factor.non_negative()) {
            Some(product) => match product.to_non_negative() {
                Some(y) => y,
                None => NonNegativeF64::largest(),
            },
            None => NonNegativeF64::largest(),
        };
        YCoordinate(y)
    }

    /// The position of a time at a given spacing, the objects of a track being spread
    /// evenly over its length.
    fn spread_by(&self, time: ObjTime, factor: PositiveF64) -> (r: YCoordinate)
        ensures
            r@ == self.layout().spread_by(time, factor@),
    {
        broadcast use group_patterns;

        let numerator = NonNegativeF64::from_int(time.numerator());
        let fraction = match PositiveF64::from_int(time.denominator()) {
            Some(denominator) => match numerator.over(denominator) {
                Some(fraction) => fraction,
                None => NonNegativeF64::zero(),
            },
            None => NonNegativeF64::zero(),
        };
        let start = self.section_start(time.track());
        match fraction.times(self.length(time.track())) {
            Some(within) => match start.plus(FinF64::from_non_negative(within)) {
                Some(place) => Self::spaced(place, factor),
                None => YCoordinate(NonNegativeF64::largest()),
            },
            None => YCoordinate(NonNegativeF64::largest()),
        }
    }

    /// The position of a time, the objects of a track being spread evenly over its
    /// length.
    pub fn get_spread_y(&self, time: ObjTime) -> (r: YCoordinate)
        ensures
            r@ == self.layout().spread_y(time),
    {
        self.spread_by(time, self.factor(time))
    }

    /// The position of the start of a track without spacing.
    pub fn get_unspaced_start_y(&self, track: Track) -> (r: YCoordinate)
        ensures
            r@ == self.layout().unspaced().start_y(track),
    {
        broadcast use group_patterns;

        Self::spaced(self.section_start(track), default_speed())
    }

    /// The position of a time without spacing.
    pub fn get_unspaced_y(&self, time: ObjTime) -> (r: YCoordinate)
        ensures
            r@ == self.layout().unspaced().y(time),
    {
        broadcast use group_patterns;

        if self.is_zero_length(time.track()) {
            return self.get_unspaced_start_y(time.track());
        }
        self.spread_by(time, default_speed())
    }

    /// The position of the start of a track.
    pub fn get_section_start_y(&self, track: Track) -> (r: YCoordinate)
        ensures
            r@ == self.layout().start_y(track),
    {
        let start = self.section_start(track);
        let factor = self.factor(ObjTime::start_of(track));
        Self::spaced(start, factor)
    }

    /// Whether a track has no length.
    pub fn is_zero_length(&self, track: Track) -> (r: bool)
        ensures
            r == self.layout().has_no_length(track),
    {
        self.length(track).is_zero()
    }

    /// The position of a time. All objects of a track without length stand at its start.
    pub fn get_y(&self, time: ObjTime) -> (r: YCoordinate)
        ensures
            r@ == self.layout().y(time),
    {
        if self.is_zero_length(time.track()) {
            return self.get_section_start_y(time.track());
        }
        self.get_spread_y(time)
    }

    /// The positions of a chart.
    pub fn new(bms: &Bms) -> (r: Self)
        ensures
            r.layout() == layout_of(*bms),
            r.spec_flow_events()@ == grouped(flow_items(*bms)),
    {
        let (y_by_track, section_lengths) = Self::tracks(&bms.section_len.section_len_changes);
        let speed_changes = bms.speed.speed_factor_changes.duplicate();
        let mut memo = YMemo {
            y_by_track,
            section_lengths,
            speed_changes,
            flow_events: ByPosition::new(),
        };
        let ghost layout = layout_of(*bms);
        let ghost mut items: Seq<(u64, FlowEvent)> = Seq::empty();
        let mut flow: ByPosition<FlowEvent> = ByPosition::new();
        let u8_changes = nonzero_bpms(&bms.bpm.bpm_changes_u8);
        memo.add_flow(
            &bms.bpm.bpm_changes,
            make_bpm_flow,
            Ghost(|e| bpm_flow(e)),
            &mut flow,
            Ghost(items),
        );
        proof {
            items = items + flow_of(layout, bms.bpm.bpm_changes@, |e| bpm_flow(e));
        }
        memo.add_flow(
            &u8_changes,
            make_bpm_u8_flow,
            Ghost(|e| bpm_u8_flow(e)),
            &mut flow,
            Ghost(items),
        );
        proof {
            items = items + flow_of(layout, u8_changes@, |e| bpm_u8_flow(e));
        }
        memo.add_flow(
            &bms.scroll.scrolling_factor_changes,
            make_scroll_flow,
            Ghost(|e| scroll_flow(e)),
            &mut flow,
            Ghost(items),
        );
        proof {
            items = items + flow_of(
                layout,
                bms.scroll.scrolling_factor_changes@,
                |e| scroll_flow(e),
            );
        }
        memo.add_flow(
            &bms.speed.speed_factor_changes,
            make_speed_flow,
            Ghost(|e| speed_flow(e)),
            &mut flow,
            Ghost(items),
        );
        proof {
            items = items + flow_of(layout, bms.speed.speed_factor_changes@, |e| speed_flow(e));
            assert(items =~= flow_items(*bms));
        }
        memo.flow_events = flow;
        memo
    }

    /// Adds changes of the playback speed or scroll.
    fn add_flow<V, F: Fn(&(ObjTime, V)) -> TimedFlow>(
        &self,
        changes: &OrderedMap<ObjTime, V>,
        make: F,
        Ghost(change_of): Ghost<spec_fn((ObjTime, V)) -> TimedFlow>,
        flow: &mut ByPosition<FlowEvent>,
        Ghost(items): Ghost<Seq<(u64, FlowEvent)>>,
    )
        requires
            old(flow)@ == grouped(items),
            forall|e: &(ObjTime, V)| #[trigger] call_requires(make, (e,)),
            forall|e: &(ObjTime, V), r: TimedFlow| #[trigger]
                call_ensures(make, (e,), r) ==> r == change_of(*e),
        ensures
            final(flow)@ == grouped(items + flow_of(self.layout(), changes@, change_of)),
    {
        let entries = changes.entries();
        let ghost layout = self.layout();
        let ghost s = changes@;
        let mut i: usize = 0;
        assert(items + flow_of(layout, s.take(0), change_of) =~= items);
        while i < entries.len()
            invariant
                entries@ == s,
                layout == self.layout(),
                i <= entries@.len(),
                flow@ == grouped(items + flow_of(layout, s.take(i as int), change_of)),
                forall|e: &(ObjTime, V)| #[trigger] call_requires(make, (e,)),
                forall|e: &(ObjTime, V), r: TimedFlow| #[trigger]
                    call_ensures(make, (e,), r) ==> r == change_of(*e),
            decreases entries@.len() - i,
        {
            let (time, change) = make(&entries[i]);
            let y = self.get_spread_y(time);
            proof {
                let before = items + flow_of(layout, s.take(i as int), change_of);
                lemma_grouped_push(before, y@, change);
                assert(items + flow_of(layout, s.take(i + 1), change_of) =~= before.push(
                    (y@, change),
                ));
            }
            flow.push(y, change);
            i = i + 1;
        }
        assert(s.take(i as int) =~= s);
    }

    /// The same positions without spacing.
    pub fn unspaced(&self) -> (r: Self)
        ensures
            r.layout() == self.layout().unspaced(),
            r.spec_flow_events()@ == self.spec_flow_events()@,
    {
        YMemo {
            y_by_track: self.y_by_track.duplicate(),
            section_lengths: self.section_lengths.duplicate(),
            speed_changes: OrderedMap::new(),
            flow_events: self.flow_events.duplicate(),
        }
    }

    /// Get flow events organized by Y coordinate.
    pub fn flow_events(&self) -> (r: &ByPosition<FlowEvent>)
        ensures
            *r == self.spec_flow_events(),
    {
        &self.flow_events
    }
}

} // verus!
