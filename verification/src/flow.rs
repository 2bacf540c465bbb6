//! That the changes of the playback speed and scroll are those of the objects.

#[allow(unused_imports)]
use crate::bms::{Bms, BpmChangeObj, ScrollingFactorObj, SpeedObj};
#[allow(unused_imports)]
use crate::census::{
    count, lemma_bpm_of_u8, lemma_count_add, lemma_count_none, lemma_count_push, lemma_count_same,
};
#[allow(unused_imports)]
use crate::channel::KeyLayoutMapper;
#[allow(unused_imports)]
use crate::chart::Chart;
#[allow(unused_imports)]
use crate::event::FlowEvent;
#[allow(unused_imports)]
use crate::num::PositiveF64;
#[allow(unused_imports)]
use crate::position::{items_at, lemma_grouped, list_at};
#[allow(unused_imports)]
use crate::process::is_chart_at;
#[allow(unused_imports)]
use crate::rounding::{magnitude, UNIT_SCALE};
#[allow(unused_imports)]
use crate::time::ObjTime;
#[allow(unused_imports)]
use crate::y_memo::{
    bpm_flow, bpm_of_u8, bpm_u8_flow, flow_items, flow_of, layout_of, nonzero, scroll_flow,
    speed_flow, Layout, TimedFlow,
};
#[allow(unused_imports)]
use vstd::arithmetic::power2::pow2;
use vstd::prelude::*;

verus! {

/// The items at a position, in two parts.
proof fn lemma_items_add<E>(a: Seq<(u64, E)>, b: Seq<(u64, E)>, y: u64)
    ensures
        items_at(a + b, y) == items_at(a, y) + items_at(b, y),
    decreases b.len(),
{
    if b.len() == 0 {
        assert(a + b =~= a);
        assert(items_at(a, y) + items_at(b, y) =~= items_at(a, y));
    } else {
        assert((a + b).drop_last() =~= a + b.drop_last());
        lemma_items_add(a, b.drop_last(), y);
        assert((items_at(a, y) + items_at(b.drop_last(), y)).push(b.last().1) =~= items_at(a, y)
            + items_at(b.drop_last(), y).push(b.last().1));
    }
}

/// The changes of one sort at a position.
proof fn lemma_flow_at<V>(
    layout: Layout,
    s: Seq<(ObjTime, V)>,
    change_of: spec_fn((ObjTime, V)) -> TimedFlow,
    y: u64,
    here: spec_fn((ObjTime, V)) -> bool,
    change: spec_fn((ObjTime, V)) -> FlowEvent,
)
    requires
        forall|e: (ObjTime, V)| #[trigger]
            here(e) == (layout.spread_y(change_of(e).0) == y),
        forall|e: (ObjTime, V)| #[trigger] change(e) == change_of(e).1,
    ensures
        items_at(flow_of(layout, s, change_of), y) == s.filter(here).map_values(change),
    decreases s.len(),
{
    reveal(Seq::filter);
    let items = flow_of(layout, s, change_of);
    if s.len() == 0 {
        assert(s.filter(here).map_values(change) =~= Seq::empty());
        assert(items_at(items, y) =~= Seq::empty());
    } else {
        let front = s.drop_last();
        lemma_flow_at(layout, front, change_of, y, here, change);
        assert(items.drop_last() =~= flow_of(layout, front, change_of));
        assert(items.last() == (
            layout.spread_y(change_of(s.last()).0),
            change_of(s.last()).1,
        ));
        if here(s.last()) {
            assert(s.filter(here) == front.filter(here).push(s.last()));
            assert(front.filter(here).push(s.last()).map_values(change) =~= front.filter(
                here,
            ).map_values(change).push(change(s.last())));
        }
    }
}

/// Filtering twice.
proof fn lemma_nonzero_filter(s: Seq<(ObjTime, u8)>, p: spec_fn((ObjTime, u8)) -> bool)
    ensures
        nonzero(s).filter(p) == s.filter(|e: (ObjTime, u8)| e.1 != 0 && p(e)),
    decreases s.len(),
{
    reveal(Seq::filter);
    if s.len() > 0 {
        let front = s.drop_last();
        lemma_nonzero_filter(front, p);
        if s.last().1 != 0 {
            assert(nonzero(s) == nonzero(front).push(s.last()));
            assert(nonzero(s).drop_last() =~= nonzero(front));
        }
    }
}

/// At each position a chart has the changes of the objects there, in the order of their
/// times: those to a defined tempo, those to a tempo given in place other than zero, those
/// of the scroll speed, and those of the spacing.
pub proof fn lemma_flow_listed<T: KeyLayoutMapper>(
    chart: Chart,
    bms: Bms,
    init_bpm: PositiveF64,
    y: u64,
)
    requires
        is_chart_at::<T>(chart, bms, init_bpm),
    ensures
        list_at(chart.flow_events@, y) == bms.bpm.bpm_changes@.filter(
            |e: (ObjTime, BpmChangeObj)| layout_of(bms).spread_y(e.1.time) == y,
        ).map_values(|e: (ObjTime, BpmChangeObj)| FlowEvent::Bpm(e.1.bpm))
            + bms.bpm.bpm_changes_u8@.filter(
            |e: (ObjTime, u8)| e.1 != 0 && layout_of(bms).spread_y(e.0) == y,
        ).map_values(|e: (ObjTime, u8)| FlowEvent::Bpm(bpm_of_u8(e.1)))
            + bms.scroll.scrolling_factor_changes@.filter(
            |e: (ObjTime, ScrollingFactorObj)| layout_of(bms).spread_y(e.1.time) == y,
        ).map_values(|e: (ObjTime, ScrollingFactorObj)| FlowEvent::Scroll(e.1.factor))
            + bms.speed.speed_factor_changes@.filter(
            |e: (ObjTime, SpeedObj)| layout_of(bms).spread_y(e.1.time) == y,
        ).map_values(|e: (ObjTime, SpeedObj)| FlowEvent::Speed(e.1.factor)),
        chart.flow_events@.dom().contains(y) <==> list_at(chart.flow_events@, y).len() > 0,
{
    let layout = layout_of(bms);
    let a = flow_of(layout, bms.bpm.bpm_changes@, |e| bpm_flow(e));
    let b = flow_of(layout, nonzero(bms.bpm.bpm_changes_u8@), |e| bpm_u8_flow(e));
    let c = flow_of(layout, bms.scroll.scrolling_factor_changes@, |e| scroll_flow(e));
    let d = flow_of(layout, bms.speed.speed_factor_changes@, |e| speed_flow(e));
    lemma_items_add(a, b, y);
    lemma_items_add(a + b, c, y);
    lemma_items_add(a + b + c, d, y);
    assert(flow_items(bms) == a + b + c + d);
    lemma_grouped(flow_items(bms), y);
    lemma_flow_at(
        layout,
        bms.bpm.bpm_changes@,
        |e| bpm_flow(e),
        y,
        |e: (ObjTime, BpmChangeObj)| layout_of(bms).spread_y(e.1.time) == y,
        |e: (ObjTime, BpmChangeObj)| FlowEvent::Bpm(e.1.bpm),
    );
    let here = |e: (ObjTime, u8)| layout_of(bms).spread_y(e.0) == y;
    lemma_flow_at(
        layout,
        nonzero(bms.bpm.bpm_changes_u8@),
        |e| bpm_u8_flow(e),
        y,
        here,
        |e: (ObjTime, u8)| FlowEvent::Bpm(bpm_of_u8(e.1)),
    );
    lemma_nonzero_filter(bms.bpm.bpm_changes_u8@, here);
    assert((|e: (ObjTime, u8)| e.1 != 0 && here(e)) =~= (|e: (ObjTime, u8)|
        e.1 != 0 && layout_of(bms).spread_y(e.0) == y));
    lemma_flow_at(
        layout,
        bms.scroll.scrolling_factor_changes@,
        |e| scroll_flow(e),
        y,
        |e: (ObjTime, ScrollingFactorObj)| layout_of(bms).spread_y(e.1.time) == y,
        |e: (ObjTime, ScrollingFactorObj)| FlowEvent::Scroll(e.1.factor),
    );
    lemma_flow_at(
        layout,
        bms.speed.speed_factor_changes@,
        |e| speed_flow(e),
        y,
        |e: (ObjTime, SpeedObj)| layout_of(bms).spread_y(e.1.time) == y,
        |e: (ObjTime, SpeedObj)| FlowEvent::Speed(e.1.factor),
    );
    lemma_listed_somewhere(flow_items(bms), y);
}

/// There are items at a position if and only if one was added there.
proof fn lemma_listed_somewhere<E>(items: Seq<(u64, E)>, y: u64)
    ensures
        items_at(items, y).len() > 0 <==> exists|i: int|
            0 <= i < items.len() && (#[trigger] items[i]).0 == y,
    decreases items.len(),
{
    if items.len() > 0 {
        let front = items.drop_last();
        lemma_listed_somewhere(front, y);
        if items.last().0 == y {
            assert(items[items.len() - 1].0 == y);
        } else {
            if exists|i: int| 0 <= i < items.len() && (#[trigger] items[i]).0 == y {
                let i = choose|i: int| 0 <= i < items.len() && (#[trigger] items[i]).0 == y;
                assert(front[i].0 == y);
            }
            if exists|i: int| 0 <= i < front.len() && (#[trigger] front[i]).0 == y {
                let i = choose|i: int| 0 <= i < front.len() && (#[trigger] front[i]).0 == y;
                assert(items[i].0 == y);
            }
        }
    }
}

/// Counting the changes that are at a position.
proof fn lemma_count_filtered<V>(
    s: Seq<(ObjTime, V)>,
    here: spec_fn((ObjTime, V)) -> bool,
    change: spec_fn((ObjTime, V)) -> FlowEvent,
    event: FlowEvent,
    q: spec_fn((ObjTime, V)) -> bool,
)
    requires
        forall|e: (ObjTime, V)| #[trigger] q(e) == (here(e) && change(e) == event),
    ensures
        count(s.filter(here).map_values(change), |x: FlowEvent| x == event) == count(s, q),
    decreases s.len(),
{
    reveal(Seq::filter);
    let p = |x: FlowEvent| x == event;
    if s.len() == 0 {
        assert(s.filter(here).map_values(change) =~= Seq::empty());
    } else {
        let front = s.drop_last();
        lemma_count_filtered(front, here, change, event, q);
        let before = front.filter(here).map_values(change);
        assert(q(s.last()) == (here(s.last()) && change(s.last()) == event));
        if here(s.last()) {
            assert(s.filter(here).map_values(change) =~= before.push(change(s.last())));
            lemma_count_push(before, change(s.last()), p);
        }
    }
}

/// The tempo changes among the flow events of a chart are those of its objects, the
/// defined ones and the ones given in place other than zero, the changes of the spacing
/// are those of the spacing alone, and those of the scroll speed are those of the scroll
/// speed: each happens at a position as often as there are such objects.
#[verifier::rlimit(40)]
pub proof fn lemma_flow_of_objects<T: KeyLayoutMapper>(
    chart: Chart,
    bms: Bms,
    init_bpm: PositiveF64,
    y: u64,
    event: FlowEvent,
)
    requires
        is_chart_at::<T>(chart, bms, init_bpm),
    ensures
        count(list_at(chart.flow_events@, y), |x: FlowEvent| x == event) == match event {
            FlowEvent::Bpm(bpm) => count(
                bms.bpm.bpm_changes@,
                |e: (ObjTime, BpmChangeObj)|
                    layout_of(bms).spread_y(e.1.time) == y && e.1.bpm == bpm,
            ) + count(
                bms.bpm.bpm_changes_u8@,
                |e: (ObjTime, u8)|
                    e.1 != 0 && layout_of(bms).spread_y(e.0) == y && magnitude(bpm@ as nat) == e.1
                        * pow2(UNIT_SCALE as nat),
            ),
            FlowEvent::Scroll(factor) => count(
                bms.scroll.scrolling_factor_changes@,
                |e: (ObjTime, ScrollingFactorObj)|
                    layout_of(bms).spread_y(e.1.time) == y && e.1.factor == factor,
            ),
            FlowEvent::Speed(factor) => count(
                bms.speed.speed_factor_changes@,
                |e: (ObjTime, SpeedObj)|
                    layout_of(bms).spread_y(e.1.time) == y && e.1.factor == factor,
            ),
        },
{
    let p = |x: FlowEvent| x == event;
    lemma_flow_listed::<T>(chart, bms, init_bpm, y);
    let a = bms.bpm.bpm_changes@.filter(
        |e: (ObjTime, BpmChangeObj)| layout_of(bms).spread_y(e.1.time) == y,
    ).map_values(|e: (ObjTime, BpmChangeObj)| FlowEvent::Bpm(e.1.bpm));
    let b = bms.bpm.bpm_changes_u8@.filter(
        |e: (ObjTime, u8)| e.1 != 0 && layout_of(bms).spread_y(e.0) == y,
    ).map_values(|e: (ObjTime, u8)| FlowEvent::Bpm(bpm_of_u8(e.1)));
    let c = bms.scroll.scrolling_factor_changes@.filter(
        |e: (ObjTime, ScrollingFactorObj)| layout_of(bms).spread_y(e.1.time) == y,
    ).map_values(|e: (ObjTime, ScrollingFactorObj)| FlowEvent::Scroll(e.1.factor));
    let d = bms.speed.speed_factor_changes@.filter(
        |e: (ObjTime, SpeedObj)| layout_of(bms).spread_y(e.1.time) == y,
    ).map_values(|e: (ObjTime, SpeedObj)| FlowEvent::Speed(e.1.factor));
    lemma_count_add(a, b, p);
    lemma_count_add(a + b, c, p);
    lemma_count_add(a + b + c, d, p);
    let tempo = |e: (ObjTime, BpmChangeObj)|
        layout_of(bms).spread_y(e.1.time) == y && event == FlowEvent::Bpm(e.1.bpm);
    let given = |e: (ObjTime, u8)|
        e.1 != 0 && layout_of(bms).spread_y(e.0) == y && event == FlowEvent::Bpm(bpm_of_u8(e.1));
    let scroll = |e: (ObjTime, ScrollingFactorObj)|
        layout_of(bms).spread_y(e.1.time) == y && event == FlowEvent::Scroll(e.1.factor);
    let speed = |e: (ObjTime, SpeedObj)|
        layout_of(bms).spread_y(e.1.time) == y && event == FlowEvent::Speed(e.1.factor);
    lemma_count_filtered(
        bms.bpm.bpm_changes@,
        |e: (ObjTime, BpmChangeObj)| layout_of(bms).spread_y(e.1.time) == y,
        |e: (ObjTime, BpmChangeObj)| FlowEvent::Bpm(e.1.bpm),
        event,
        tempo,
    );
    lemma_count_filtered(
        bms.bpm.bpm_changes_u8@,
        |e: (ObjTime, u8)| e.1 != 0 && layout_of(bms).spread_y(e.0) == y,
        |e: (ObjTime, u8)| FlowEvent::Bpm(bpm_of_u8(e.1)),
        event,
        given,
    );
    lemma_count_filtered(
        bms.scroll.scrolling_factor_changes@,
        |e: (ObjTime, ScrollingFactorObj)| layout_of(bms).spread_y(e.1.time) == y,
        |e: (ObjTime, ScrollingFactorObj)| FlowEvent::Scroll(e.1.factor),
        event,
        scroll,
    );
    lemma_count_filtered(
        bms.speed.speed_factor_changes@,
        |e: (ObjTime, SpeedObj)| layout_of(bms).spread_y(e.1.time) == y,
        |e: (ObjTime, SpeedObj)| FlowEvent::Speed(e.1.factor),
        event,
        speed,
    );
    if !(event is Bpm) {
        lemma_count_none(bms.bpm.bpm_changes@, tempo);
        lemma_count_none(bms.bpm.bpm_changes_u8@, given);
    }
    if !(event is Scroll) {
        lemma_count_none(bms.scroll.scrolling_factor_changes@, scroll);
    }
    if !(event is Speed) {
        lemma_count_none(bms.speed.speed_factor_changes@, speed);
    }
    match event {
        FlowEvent::Bpm(bpm) => {
            lemma_count_same(
                bms.bpm.bpm_changes@,
                tempo,
                bms.bpm.bpm_changes@,
                |e: (ObjTime, BpmChangeObj)|
                    layout_of(bms).spread_y(e.1.time) == y && e.1.bpm == bpm,
            );
            let s = bms.bpm.bpm_changes_u8@;
            assert forall|i: int| 0 <= i < s.len() implies given(#[trigger] s[i]) == (s[i].1 != 0
                && layout_of(bms).spread_y(s[i].0) == y && magnitude(bpm@ as nat) == s[i].1 * pow2(
                UNIT_SCALE as nat,
            )) by {
                if s[i].1 != 0 {
                    lemma_bpm_of_u8(s[i].1, bpm);
                }
            }
            lemma_count_same(
                s,
                given,
                s,
                |e: (ObjTime, u8)|
                    e.1 != 0 && layout_of(bms).spread_y(e.0) == y && magnitude(bpm@ as nat) == e.1
                        * pow2(UNIT_SCALE as nat),
            );
        },
        FlowEvent::Scroll(factor) => lemma_count_same(
            bms.scroll.scrolling_factor_changes@,
            scroll,
            bms.scroll.scrolling_factor_changes@,
            |e: (ObjTime, ScrollingFactorObj)|
                layout_of(bms).spread_y(e.1.time) == y && e.1.factor == factor,
        ),
        FlowEvent::Speed(factor) => lemma_count_same(
            bms.speed.speed_factor_changes@,
            speed,
            bms.speed.speed_factor_changes@,
            |e: (ObjTime, SpeedObj)|
                layout_of(bms).spread_y(e.1.time) == y && e.1.factor == factor,
        ),
    }
}

} // verus!
