//! The tempo that scroll speeds are measured against.

use crate::bms::Bms;
#[allow(unused_imports)]
use crate::bms::BpmChangeObj;
use crate::num::PositiveF64;
#[allow(unused_imports)]
use crate::rounding::{lemma_order, magnitude};
#[allow(unused_imports)]
use crate::text::FromText;
#[allow(unused_imports)]
use crate::time::ObjTime;
use vstd::prelude::*;

verus! {

/// A tempo that scroll speeds are measured against.
#[derive(Clone, Copy, PartialEq, Eq, Structural, Debug)]
pub struct BaseBpm(pub PositiveF64);

/// A way to choose the base tempo of a chart.
pub trait BaseBpmGenerator<S> {
    /// The base tempo of a chart.
    spec fn base_bpm(&self, chart: S) -> Option<BaseBpm>;

    /// The base tempo of a chart.
    fn generate(&self, chart: &S) -> (r: Option<BaseBpm>)
        ensures
            r == self.base_bpm(*chart),
    ;
}

/// Takes the tempo at the start.
#[derive(Clone, Copy, PartialEq, Eq, Structural, Debug)]
pub struct StartBpmGenerator;

/// Takes the lowest tempo.
#[derive(Clone, Copy, PartialEq, Eq, Structural, Debug)]
pub struct MinBpmGenerator;

/// Takes the highest tempo.
#[derive(Clone, Copy, PartialEq, Eq, Structural, Debug)]
pub struct MaxBpmGenerator;

/// Takes a given tempo.
#[derive(Clone, Copy, PartialEq, Eq, Structural, Debug)]
pub struct ManualBpmGenerator(pub BaseBpm);

/// The tempo that a chart gives for its start.
pub open spec fn start_bpm(bms: Bms) -> Option<PositiveF64> {
    match bms.bpm.bpm {
        Some(bpm) => match PositiveF64::of_text(bpm.spec_raw()) {
            Ok(value) => Some(value),
            Err(_) => None,
        },
        None => None,
    }
}

/// The tempos of a chart: the one that it gives for its start, and the defined ones that
/// it changes to.
pub open spec fn tempos(bms: Bms) -> Seq<PositiveF64> {
    tempos_of(start_bpm(bms), bms.bpm.bpm_changes@)
}

/// A first tempo, if there is one, and those of changes.
pub open spec fn tempos_of(
    start: Option<PositiveF64>,
    changes: Seq<(ObjTime, BpmChangeObj)>,
) -> Seq<PositiveF64> {
    let first = match start {
        Some(bpm) => seq![bpm],
        None => Seq::empty(),
    };
    first + changes.map_values(|e: (ObjTime, BpmChangeObj)| e.1.bpm)
}

/// The lowest of several tempos, or else the highest.
pub open spec fn extreme_of(bpms: Seq<PositiveF64>, lowest: bool) -> Option<PositiveF64>
    decreases bpms.len(),
{
    if bpms.len() == 0 {
        None
    } else {
        match extreme_of(bpms.drop_last(), lowest) {
            Some(bpm) => if (bpms.last()@ < bpm@) == lowest {
                Some(bpms.last())
            } else {
                Some(bpm)
            },
            None => Some(bpms.last()),
        }
    }
}

/// The lowest of several tempos.
pub open spec fn lowest_of(bpms: Seq<PositiveF64>) -> Option<PositiveF64> {
    extreme_of(bpms, true)
}

/// The highest of several tempos.
pub open spec fn highest_of(bpms: Seq<PositiveF64>) -> Option<PositiveF64> {
    extreme_of(bpms, false)
}

/// The lowest and the highest of several tempos are among them, none of them is lower or
/// higher, and they are missing only where there are no tempos.
pub proof fn lemma_extremes(bpms: Seq<PositiveF64>)
    ensures
        bpms.len() == 0 ==> lowest_of(bpms) is None && highest_of(bpms) is None,
        bpms.len() > 0 ==> {
            &&& lowest_of(bpms) is Some
            &&& highest_of(bpms) is Some
            &&& bpms.contains(lowest_of(bpms)->0)
            &&& bpms.contains(highest_of(bpms)->0)
        },
        forall|i: int|
            0 <= i < bpms.len() ==> magnitude(lowest_of(bpms)->0@ as nat) <= magnitude(
                (#[trigger] bpms[i])@ as nat,
            ) <= magnitude(highest_of(bpms)->0@ as nat),
    decreases bpms.len(),
{
    if bpms.len() > 0 {
        let front = bpms.drop_last();
        let last = bpms.last();
        lemma_extremes(front);
        assert(bpms[bpms.len() - 1] == last);
        if front.len() > 0 {
            let low = lowest_of(front)->0;
            let high = highest_of(front)->0;
            let i = choose|i: int| 0 <= i < front.len() && front[i] == low;
            assert(bpms[i] == low);
            let j = choose|j: int| 0 <= j < front.len() && front[j] == high;
            assert(bpms[j] == high);
            lemma_order(last@ as nat, low@ as nat);
            lemma_order(last@ as nat, high@ as nat);
            lemma_order(low@ as nat, last@ as nat);
            lemma_order(high@ as nat, last@ as nat);
        }
        assert forall|i: int| 0 <= i < bpms.len() implies magnitude(lowest_of(bpms)->0@ as nat)
            <= magnitude((#[trigger] bpms[i])@ as nat) <= magnitude(
            highest_of(bpms)->0@ as nat,
        ) by {
            if i < front.len() {
                assert(front[i] == bpms[i]);
            }
        }
    }
}

/// The tempos of a chart are the one that can be read for its start and those of its
/// defined changes.
proof fn lemma_tempos(bms: Bms)
    ensures
        start_bpm(bms) matches Some(bpm) ==> tempos(bms).contains(bpm),
        forall|i: int|
            0 <= i < bms.bpm.bpm_changes@.len() ==> tempos(bms).contains(
                (#[trigger] bms.bpm.bpm_changes@[i]).1.bpm,
            ),
        forall|bpm: PositiveF64| #[trigger]
            tempos(bms).contains(bpm) ==> start_bpm(bms) == Some(bpm) || exists|i: int|
                0 <= i < bms.bpm.bpm_changes@.len() && (
                #[trigger] bms.bpm.bpm_changes@[i]).1.bpm == bpm,
        tempos(bms).len() == 0 <==> start_bpm(bms) is None && bms.bpm.bpm_changes@.len() == 0,
{
    let all = tempos(bms);
    let changes = bms.bpm.bpm_changes@;
    let first: int = if start_bpm(bms) is Some {
        1
    } else {
        0
    };
    if first == 1 {
        assert(all[0] == start_bpm(bms)->0);
    }
    assert forall|i: int| 0 <= i < changes.len() implies all.contains(
        (#[trigger] changes[i]).1.bpm,
    ) by {
        assert(all[first + i] == changes[i].1.bpm);
    }
    assert forall|bpm: PositiveF64| #[trigger] all.contains(bpm) implies start_bpm(bms) == Some(bpm)
        || exists|i: int| 0 <= i < changes.len() && (#[trigger] changes[i]).1.bpm == bpm by {
        let k = choose|k: int| 0 <= k < all.len() && all[k] == bpm;
        if k >= first {
            assert(changes[k - first].1.bpm == bpm);
        }
    }
}

/// The lowest and the highest tempo of a chart bound all of its tempos, and are among them.
proof fn lemma_extreme_tempos(bms: Bms)
    ensures
        forall|bpm: PositiveF64| #[trigger]
            tempos(bms).contains(bpm) ==> magnitude(lowest_of(tempos(bms))->0@ as nat)
                <= magnitude(bpm@ as nat) <= magnitude(highest_of(tempos(bms))->0@ as nat),
        lowest_of(tempos(bms)) matches Some(bpm) ==> tempos(bms).contains(bpm),
        highest_of(tempos(bms)) matches Some(bpm) ==> tempos(bms).contains(bpm),
        lowest_of(tempos(bms)) is None <==> tempos(bms).len() == 0,
        highest_of(tempos(bms)) is None <==> tempos(bms).len() == 0,
{
    let all = tempos(bms);
    lemma_extremes(all);
    assert forall|bpm: PositiveF64| #[trigger] all.contains(bpm) implies magnitude(
        lowest_of(all)->0@ as nat,
    ) <= magnitude(bpm@ as nat) <= magnitude(highest_of(all)->0@ as nat) by {
        let k = choose|k: int| 0 <= k < all.len() && all[k] == bpm;
        assert(magnitude(all[k]@ as nat) <= magnitude(highest_of(all)->0@ as nat));
    }
}

/// The base tempo that one of several tempos makes.
pub open spec fn base_of(bpm: Option<PositiveF64>) -> Option<BaseBpm> {
    match bpm {
        Some(bpm) => Some(BaseBpm(bpm)),
        None => None,
    }
}

/// The tempo that a chart gives for its start.
fn get_start_bpm(bms: &Bms) -> (r: Option<PositiveF64>)
    ensures
        r == start_bpm(*bms),
{
    match &bms.bpm.bpm {
        Some(bpm) => match bpm.value() {
            Ok(value) => Some(*value),
            Err(_) => None,
        },
        None => None,
    }
}

/// The lowest of the tempos of a chart, or else the highest.
fn extreme_bpm(bms: &Bms, lowest: bool) -> (r: Option<PositiveF64>)
    ensures
        r == extreme_of(tempos(*bms), lowest),
{
    let entries = bms.bpm.bpm_changes.entries();
    let start = get_start_bpm(bms);
    let ghost s = bms.bpm.bpm_changes@;
    let mut best = start;
    let mut i: usize = 0;
    proof {
        let bpms = tempos_of(start, s.take(0));
        if start is Some {
            assert(bpms =~= seq![start->0]);
            assert(bpms.drop_last() =~= Seq::empty());
            reveal_with_fuel(extreme_of, 2);
        } else {
            assert(bpms =~= Seq::empty());
        }
    }
    while i < entries.len()
        invariant
            entries@ == s,
            i <= entries@.len(),
            best == extreme_of(tempos_of(start, s.take(i as int)), lowest),
        decreases entries@.len() - i,
    {
        let bpm = entries[i].1.bpm;
        proof {
            let before = tempos_of(start, s.take(i as int));
            let after = tempos_of(start, s.take(i + 1));
            assert(after =~= before.push(bpm));
            assert(after.drop_last() =~= before);
        }
        best = match best {
            Some(other) => if bpm.less(&other) == lowest {
                Some(bpm)
            } else {
                Some(other)
            },
            None => Some(bpm),
        };
        i = i + 1;
    }
    assert(s.take(i as int) =~= s);
    best
}

impl BaseBpmGenerator<Bms> for StartBpmGenerator {
    open spec fn base_bpm(&self, chart: Bms) -> Option<BaseBpm> {
        base_of(start_bpm(chart))
    }

    fn generate(&self, chart: &Bms) -> (r: Option<BaseBpm>)
        ensures
            match r {
                Some(base) => chart.bpm.bpm matches Some(text) && PositiveF64::of_text(
                    text.spec_raw(),
                ) == Ok::<PositiveF64, Seq<char>>(base.0),
                None => chart.bpm.bpm matches Some(text) ==> PositiveF64::of_text(
                    text.spec_raw(),
                ) is Err,
            },
    {
        match get_start_bpm(chart) {
            Some(bpm) => Some(BaseBpm(bpm)),
            None => None,
        }
    }
}

impl BaseBpmGenerator<Bms> for MinBpmGenerator {
    open spec fn base_bpm(&self, chart: Bms) -> Option<BaseBpm> {
        base_of(lowest_of(tempos(chart)))
    }

    fn generate(&self, chart: &Bms) -> (r: Option<BaseBpm>)
        ensures
            match r {
                Some(base) => {
                    &&& chart.bpm.bpm matches Some(text) ==> (PositiveF64::of_text(
                        text.spec_raw(),
                    ) matches Ok(bpm) ==> magnitude(base.0@ as nat) <= magnitude(bpm@ as nat))
                    &&& forall|i: int|
                        0 <= i < chart.bpm.bpm_changes@.len() ==> magnitude(
                            base.0@ as nat,
                        ) <= magnitude((#[trigger] chart.bpm.bpm_changes@[i]).1.bpm@ as nat)
                    &&& (chart.bpm.bpm matches Some(text) && PositiveF64::of_text(text.spec_raw())
                        == Ok::<PositiveF64, Seq<char>>(base.0)) || exists|i: int|
                        0 <= i < chart.bpm.bpm_changes@.len() && (
                        #[trigger] chart.bpm.bpm_changes@[i]).1.bpm == base.0
                },
                None => {
                    &&& chart.bpm.bpm_changes@.len() == 0
                    &&& chart.bpm.bpm matches Some(text) ==> PositiveF64::of_text(
                        text.spec_raw(),
                    ) is Err
                },
            },
    {
        proof {
            lemma_tempos(*chart);
            lemma_extreme_tempos(*chart);
        }
        match extreme_bpm(chart, true) {
            Some(bpm) => Some(BaseBpm(bpm)),
            None => None,
        }
    }
}

impl BaseBpmGenerator<Bms> for MaxBpmGenerator {
    open spec fn base_bpm(&self, chart: Bms) -> Option<BaseBpm> {
        base_of(highest_of(tempos(chart)))
    }

    fn generate(&self, chart: &Bms) -> (r: Option<BaseBpm>)
        ensures
            match r {
                Some(base) => {
                    &&& chart.bpm.bpm matches Some(text) ==> (PositiveF64::of_text(
                        text.spec_raw(),
                    ) matches Ok(bpm) ==> magnitude(bpm@ as nat) <= magnitude(base.0@ as nat))
                    &&& forall|i: int|
                        0 <= i < chart.bpm.bpm_changes@.len() ==> magnitude(
                            (#[trigger] chart.bpm.bpm_changes@[i]).1.bpm@ as nat,
                        ) <= magnitude(base.0@ as nat)
                    &&& (chart.bpm.bpm matches Some(text) && PositiveF64::of_text(text.spec_raw())
                        == Ok::<PositiveF64, Seq<char>>(base.0)) || exists|i: int|
                        0 <= i < chart.bpm.bpm_changes@.len() && (
                        #[trigger] chart.bpm.bpm_changes@[i]).1.bpm == base.0
                },
                None => {
                    &&& chart.bpm.bpm_changes@.len() == 0
                    &&& chart.bpm.bpm matches Some(text) ==> PositiveF64::of_text(
                        text.spec_raw(),
                    ) is Err
                },
            },
    {
        proof {
            lemma_tempos(*chart);
            lemma_extreme_tempos(*chart);
        }
        match extreme_bpm(chart, false) {
            Some(bpm) => Some(BaseBpm(bpm)),
            None => None,
        }
    }
}

impl BaseBpmGenerator<Bms> for ManualBpmGenerator {
    open spec fn base_bpm(&self, chart: Bms) -> Option<BaseBpm> {
        Some(self.0)
    }

    fn generate(&self, chart: &Bms) -> (r: Option<BaseBpm>)
        ensures
            r == Some(self.0),
    {
        Some(self.0)
    }
}

} // verus!
