//! A chart with all its events computed.

#[allow(unused_imports)]
use crate::event::timed_list;
use crate::event::{BmpId, FlowEvent, PlayheadEvent, Seconds, WavId, YCoordinate};
use crate::num::PositiveF64;
use crate::ordered::OrderedMap;
use crate::position::ByPosition;
#[allow(unused_imports)]
use crate::position::{are_positions, keys_of};
use vstd::prelude::*;

verus! {

/// A position with the first and the end index of its events.
#[derive(Clone, Copy, PartialEq, Eq, Structural, Debug)]
pub struct PositionRange {
    /// The position.
    pub position: YCoordinate,
    /// The index of the first event.
    pub start: usize,
    /// One more than the index of the last event.
    pub end: usize,
}

/// Whether ranges that follow one another without a gap, in ascending order of their
/// positions, cut the events into the given lists.
pub open spec fn indexes(
    events: Seq<PlayheadEvent>,
    by_y: Seq<PositionRange>,
    lists: Map<u64, Seq<PlayheadEvent>>,
) -> bool {
    &&& events.len() == if by_y.len() == 0 {
        0
    } else {
        by_y.last().end as nat
    }
    &&& forall|i: int|
        0 <= i < by_y.len() ==> (#[trigger] by_y[i]).start <= by_y[i].end <= events.len()
    &&& by_y.len() > 0 ==> by_y[0].start == 0
    &&& forall|i: int, j: int|
        0 <= i < j < by_y.len() && j == i + 1 ==> (#[trigger] by_y[i]).end == (
        #[trigger] by_y[j]).start
    &&& forall|i: int, j: int|
        0 <= i < j < by_y.len() ==> (#[trigger] by_y[i]).position@ < (#[trigger] by_y[j]).position@
    &&& forall|i: int|
        0 <= i < by_y.len() ==> lists.dom().contains((#[trigger] by_y[i]).position@)
            && lists[by_y[i].position@] == events.subrange(by_y[i].start as int, by_y[i].end as int)
    &&& forall|y: u64| #[trigger]
        lists.dom().contains(y) ==> exists|i: int|
            0 <= i < by_y.len() && (#[trigger] by_y[i]).position@ == y
}

/// All events, in ascending order of their positions.
pub struct AllEventsIndex {
    events: Vec<PlayheadEvent>,
    by_y: Vec<PositionRange>,
    points: OrderedMap<YCoordinate, ()>,
    lists: Ghost<Map<u64, Seq<PlayheadEvent>>>,
}

impl View for AllEventsIndex {
    type V = Map<u64, Seq<PlayheadEvent>>;

    closed spec fn view(&self) -> Map<u64, Seq<PlayheadEvent>> {
        self.lists@
    }
}

impl AllEventsIndex {
    #[verifier::type_invariant]
    spec fn inv(self) -> bool {
        indexes(self.events@, self.by_y@, self.lists@)
    }

    /// All events.
    pub closed spec fn spec_events(self) -> Seq<PlayheadEvent> {
        self.events@
    }

    /// The ranges of the positions.
    pub closed spec fn spec_by_y(self) -> Seq<PositionRange> {
        self.by_y@
    }

    /// The points from which the events are timed: positions without spacing.
    pub closed spec fn spec_points(self) -> Set<u64> {
        keys_of(self.points@)
    }

    /// Indexes the events at each position.
    pub fn new(map: &ByPosition<PlayheadEvent>, points: OrderedMap<YCoordinate, ()>) -> (r: Self)
        ensures
            r@ == map@,
            r.spec_points() == keys_of(points@),
    {
        let mut events: Vec<PlayheadEvent> = Vec::new();
        let mut by_y: Vec<PositionRange> = Vec::new();
        let ghost mut seen: Map<u64, Seq<PlayheadEvent>> = Map::empty();
        let mut i: usize = 0;
        let n = map.len();
        while i < n
            invariant
                n == map.positions().len(),
                are_positions(map.positions(), map@),
                i <= n,
                by_y@.len() == i,
                indexes(events@, by_y@, seen),
                forall|j: int| 0 <= j < i ==> (#[trigger] by_y@[j]).position == map.positions()[j],
                forall|y: u64| #[trigger] seen.dom().contains(y) ==> seen[y] == map@[y],
            decreases n - i,
        {
            let position = map.position(i);
            let list = map.list(i);
            let start = events.len();
            let ghost before = events@;
            let mut j: usize = 0;
            while j < list.len()
                invariant
                    j <= list@.len(),
                    events@ == before + list@.take(j as int),
                decreases list@.len() - j,
            {
                events.push(list[j].clone());
                assert(events@ =~= before + list@.take(j + 1));
                j = j + 1;
            }
            let end = events.len();
            let ghost ranges = by_y@;
            by_y.push(PositionRange { position, start, end });
            proof {
                assert(list@.take(j as int) =~= list@);
                assert forall|k: int| 0 <= k < ranges.len() implies (#[trigger] ranges[k]).position@
                    < position@ by {
                    assert(map.positions()[k]@ < map.positions()[i as int]@);
                }
                lemma_next_range(before, ranges, seen, position, list@);
                assert(by_y@ =~= ranges.push(
                    PositionRange { position, start: before.len() as usize, end },
                ));
                seen = seen.insert(position@, list@);
            }
            i = i + 1;
        }
        proof {
            assert forall|y: u64| map@.dom().contains(y) implies seen.dom().contains(y) by {
                let k = choose|k: int|
                    0 <= k < map.positions().len() && (#[trigger] map.positions()[k])@ == y;
                assert(by_y@[k].position@ == y);
            }
            assert forall|y: u64| seen.dom().contains(y) implies map@.dom().contains(y) by {
                let k = choose|k: int| 0 <= k < by_y@.len() && (#[trigger] by_y@[k]).position@ == y;
                assert(map.positions()[k]@ == y);
            }
            assert(seen =~= map@);
        }
        AllEventsIndex { events, by_y, points, lists: Ghost(seen) }
    }

    /// All events, in ascending order of their positions.
    pub fn as_events(&self) -> (r: &Vec<PlayheadEvent>)
        ensures
            r@ == self.spec_events(),
            indexes(self.spec_events(), self.spec_by_y(), self@),
    {
        proof {
            use_type_invariant(self);
        }
        &self.events
    }

    /// The range of the events at each position, in ascending order of the positions.
    pub fn as_by_y(&self) -> (r: &Vec<PositionRange>)
        ensures
            r@ == self.spec_by_y(),
            indexes(self.spec_events(), self.spec_by_y(), self@),
    {
        proof {
            use_type_invariant(self);
        }
        &self.by_y
    }

    /// The points from which the events are timed, in ascending order.
    pub fn points(&self) -> (r: &OrderedMap<YCoordinate, ()>)
        ensures
            keys_of(r@) == self.spec_points(),
    {
        &self.points
    }

    /// The same events with the times at which they are reached.
    pub(crate) fn with_times(
        &self,
        times: &Vec<Seconds>,
        Ghost(time_of): Ghost<spec_fn(u64) -> Seconds>,
    ) -> (r: Self)
        requires
            times@.len() == self.spec_events().len(),
            forall|i: int|
                0 <= i < times@.len() ==> #[trigger] times@[i] == time_of(
                    self.spec_events()[i].unspaced@,
                ),
        ensures
            r@ == timed_lists(self@, time_of),
            r.spec_points() == self.spec_points(),
    {
        proof {
            use_type_invariant(self);
        }
        let ghost expected = timed_list(self.events@, time_of);
        let mut events: Vec<PlayheadEvent> = Vec::new();
        let mut by_y: Vec<PositionRange> = Vec::new();
        let mut i: usize = 0;
        while i < self.events.len()
            invariant
                times@.len() == self.events@.len(),
                expected == timed_list(self.events@, time_of),
                forall|i: int|
                    0 <= i < times@.len() ==> #[trigger] times@[i] == time_of(
                        self.events@[i].unspaced@,
                    ),
                i <= self.events@.len(),
                events@ == expected.take(i as int),
            decreases self.events@.len() - i,
        {
            let mut event = self.events[i].clone();
            event.activate_time = times[i];
            events.push(event);
            assert(events@ =~= expected.take(i + 1));
            i = i + 1;
        }
        let mut j: usize = 0;
        while j < self.by_y.len()
            invariant
                j <= self.by_y@.len(),
                by_y@ == self.by_y@.take(j as int),
            decreases self.by_y@.len() - j,
        {
            by_y.push(self.by_y[j]);
            assert(by_y@ =~= self.by_y@.take(j + 1));
            j = j + 1;
        }
        let ghost lists = timed_lists(self.lists@, time_of);
        proof {
            assert(events@ =~= expected);
            assert(by_y@ =~= self.by_y@);
            lemma_timed_index(self.events@, self.by_y@, self.lists@, time_of);
        }
        AllEventsIndex { events, by_y, points: self.points.duplicate(), lists: Ghost(lists) }
    }
}

/// Lists of events with the times at which they are reached.
pub open spec fn timed_lists(
    lists: Map<u64, Seq<PlayheadEvent>>,
    time_of: spec_fn(u64) -> Seconds,
) -> Map<u64, Seq<PlayheadEvent>> {
    Map::new(|y: u64| lists.dom().contains(y), |y: u64| timed_list(lists[y], time_of))
}

/// Timing the events does not move them.
proof fn lemma_timed_index(
    events: Seq<PlayheadEvent>,
    by_y: Seq<PositionRange>,
    lists: Map<u64, Seq<PlayheadEvent>>,
    time_of: spec_fn(u64) -> Seconds,
)
    requires
        indexes(events, by_y, lists),
    ensures
        indexes(timed_list(events, time_of), by_y, timed_lists(lists, time_of)),
{
    let after = timed_list(events, time_of);
    let timed = timed_lists(lists, time_of);
    assert forall|i: int| 0 <= i < by_y.len() implies timed.dom().contains(
        (#[trigger] by_y[i]).position@,
    ) && timed[by_y[i].position@] == after.subrange(by_y[i].start as int, by_y[i].end as int) by {
        assert(lists[by_y[i].position@] == events.subrange(
            by_y[i].start as int,
            by_y[i].end as int,
        ));
        assert(timed[by_y[i].position@] =~= after.subrange(
            by_y[i].start as int,
            by_y[i].end as int,
        ));
    }
}

/// Adding the events of one more position.
proof fn lemma_next_range(
    events: Seq<PlayheadEvent>,
    by_y: Seq<PositionRange>,
    lists: Map<u64, Seq<PlayheadEvent>>,
    position: YCoordinate,
    list: Seq<PlayheadEvent>,
)
    requires
        indexes(events, by_y, lists),
        events.len() + list.len() <= usize::MAX,
        forall|k: int| 0 <= k < by_y.len() ==> (#[trigger] by_y[k]).position@ < position@,
    ensures
        indexes(
            events + list,
            by_y.push(
                PositionRange {
                    position,
                    start: events.len() as usize,
                    end: (events.len() + list.len()) as usize,
                },
            ),
            lists.insert(position@, list),
        ),
{
    let range = PositionRange {
        position,
        start: events.len() as usize,
        end: (events.len() + list.len()) as usize,
    };
    let e = events + list;
    let b = by_y.push(range);
    let l = lists.insert(position@, list);
    assert forall|i: int| 0 <= i < b.len() implies l.dom().contains((#[trigger] b[i]).position@)
        && l[b[i].position@] == e.subrange(b[i].start as int, b[i].end as int) by {
        if i < by_y.len() {
            assert(b[i] == by_y[i]);
            assert(e.subrange(b[i].start as int, b[i].end as int) =~= events.subrange(
                b[i].start as int,
                b[i].end as int,
            ));
        } else {
            assert(e.subrange(b[i].start as int, b[i].end as int) =~= list);
        }
    }
    assert forall|y: u64| #[trigger] l.dom().contains(y) implies exists|i: int|
        0 <= i < b.len() && (#[trigger] b[i]).position@ == y by {
        if y == position@ {
            assert(b[by_y.len() as int].position@ == y);
        } else {
            let i = choose|i: int| 0 <= i < by_y.len() && (#[trigger] by_y[i]).position@ == y;
            assert(b[i].position@ == y);
        }
    }
}

/// The files of a chart.
#[derive(Debug)]
pub struct ChartResources {
    /// The paths of the sound files.
    pub wav_files: OrderedMap<WavId, String>,
    /// The paths of the image files.
    pub bmp_files: OrderedMap<BmpId, String>,
}

/// A chart with all its events computed.
pub struct Chart {
    /// The files.
    pub resources: ChartResources,
    /// The events.
    pub events: AllEventsIndex,
    /// The changes of the playback speed and scroll.
    pub flow_events: ByPosition<FlowEvent>,
    /// The tempo at the start.
    pub init_bpm: PositiveF64,
    /// The spacing at the start.
    pub init_speed: PositiveF64,
}

} // verus!
