//! What makes a chart unplayable.

use crate::bms::{Bms, ObjId};
#[allow(unused_imports)]
use crate::num::group_patterns;
use crate::num::PositiveF64;
use crate::ordered::OrderedMap;
#[allow(unused_imports)]
use crate::rounding::{magnitude, UNIT_SCALE};
use crate::text::{FromText, StringValue};
#[allow(unused_imports)]
use crate::timeline::lemma_durations;
use crate::y_memo::default_bpm;
#[allow(unused_imports)]
use crate::y_memo::DEFAULT_BPM_BITS;
#[allow(unused_imports)]
use vstd::arithmetic::power2::pow2;
use vstd::prelude::*;

verus! {

/// Why a chart cannot be played.
#[derive(Debug, PartialEq, Eq)]
pub enum PlayingError {
    /// A tempo is no positive number.
    InvalidBpm {
        /// What the chart says.
        raw: String,
        /// What is wrong with it.
        error: String,
    },
    /// The length of a stop is no number, or negative.
    InvalidStop {
        /// The number of the definition.
        obj_id: ObjId,
        /// What the chart says.
        raw: String,
        /// What is wrong with it.
        error: String,
    },
    /// A spacing is no positive number.
    InvalidSpeed {
        /// The number of the definition.
        obj_id: ObjId,
        /// What the chart says.
        raw: String,
        /// What is wrong with it.
        error: String,
    },
    /// A scroll speed is no number.
    InvalidScroll {
        /// The number of the definition.
        obj_id: ObjId,
        /// What the chart says.
        raw: String,
        /// What is wrong with it.
        error: String,
    },
    /// A seek time is no number.
    InvalidSeek {
        /// The number of the definition.
        obj_id: ObjId,
        /// What the chart says.
        raw: String,
        /// What is wrong with it.
        error: String,
    },
}

/// A text that stands for nothing, and why.
pub struct BadText {
    /// The text.
    pub raw: Seq<char>,
    /// What is wrong with it.
    pub error: Seq<char>,
}

/// Which value of a chart is wrong.
pub enum Fault {
    /// A tempo.
    Bpm(BadText),
    /// The length of a stop.
    Stop(ObjId, BadText),
    /// A spacing.
    Speed(ObjId, BadText),
    /// A scroll speed.
    Scroll(ObjId, BadText),
    /// A seek time.
    Seek(ObjId, BadText),
}

impl View for PlayingError {
    type V = Fault;

    open spec fn view(&self) -> Fault {
        match *self {
            PlayingError::InvalidBpm { raw, error } => Fault::Bpm(
                BadText { raw: raw@, error: error@ },
            ),
            PlayingError::InvalidStop { obj_id, raw, error } => Fault::Stop(
                obj_id,
                BadText { raw: raw@, error: error@ },
            ),
            PlayingError::InvalidSpeed { obj_id, raw, error } => Fault::Speed(
                obj_id,
                BadText { raw: raw@, error: error@ },
            ),
            PlayingError::InvalidScroll { obj_id, raw, error } => Fault::Scroll(
                obj_id,
                BadText { raw: raw@, error: error@ },
            ),
            PlayingError::InvalidSeek { obj_id, raw, error } => Fault::Seek(
                obj_id,
                BadText { raw: raw@, error: error@ },
            ),
        }
    }
}

/// What is wrong with a value.
pub open spec fn bad_text<T: FromText>(value: StringValue<T>) -> Option<BadText> {
    match T::of_text(value.spec_raw()) {
        Ok(_) => None,
        Err(error) => Some(BadText { raw: value.spec_raw(), error }),
    }
}

/// The first definition that stands for nothing.
pub open spec fn first_bad<T: FromText>(defs: Seq<(ObjId, StringValue<T>)>) -> Option<
    (ObjId, BadText),
>
    decreases defs.len(),
{
    if defs.len() == 0 {
        None
    } else {
        match first_bad(defs.drop_last()) {
            Some(bad) => Some(bad),
            None => match bad_text(defs.last().1) {
                Some(bad) => Some((defs.last().0, bad)),
                None => None,
            },
        }
    }
}

/// The first definition of a chart that stands for nothing: of the tempos, then of the
/// stops, the spacings, the scroll speeds and the seek times.
pub open spec fn definition_fault(bms: Bms) -> Option<Fault> {
    match first_bad(bms.bpm.bpm_defs@) {
        Some((_, bad)) => Some(Fault::Bpm(bad)),
        None => match first_bad(bms.stop.stop_defs@) {
            Some((id, bad)) => Some(Fault::Stop(id, bad)),
            None => match first_bad(bms.speed.speed_defs@) {
                Some((id, bad)) => Some(Fault::Speed(id, bad)),
                None => match first_bad(bms.scroll.scroll_defs@) {
                    Some((id, bad)) => Some(Fault::Scroll(id, bad)),
                    None => match first_bad(bms.video.seek_defs@) {
                        Some((id, bad)) => Some(Fault::Seek(id, bad)),
                        None => None,
                    },
                },
            },
        },
    }
}

/// What is wrong with the tempo at the start of a chart.
pub open spec fn init_bpm_fault(bms: Bms) -> Option<Fault> {
    match bms.bpm.bpm {
        Some(bpm) => match bad_text(bpm) {
            Some(bad) => Some(Fault::Bpm(bad)),
            None => None,
        },
        None => None,
    }
}

/// The tempo at the start of a chart: the default one where the chart gives none.
pub open spec fn init_bpm_of(bms: Bms) -> PositiveF64 {
    match bms.bpm.bpm {
        Some(bpm) => PositiveF64::of_text(bpm.spec_raw())->Ok_0,
        None => PositiveF64::of(DEFAULT_BPM_BITS),
    }
}

/// What is wrong with a chart.
pub open spec fn fault_of(bms: Bms) -> Option<Fault> {
    match definition_fault(bms) {
        Some(fault) => Some(fault),
        None => init_bpm_fault(bms),
    }
}

impl Fault {
    /// The text that is wrong.
    pub open spec fn text(self) -> BadText {
        match self {
            Fault::Bpm(bad) => bad,
            Fault::Stop(_, bad) => bad,
            Fault::Speed(_, bad) => bad,
            Fault::Scroll(_, bad) => bad,
            Fault::Seek(_, bad) => bad,
        }
    }
}

/// What is wrong with a text, given what it was read as: the text, and the error.
pub fn bad_text_from<T>(raw: &str, value: &Result<T, String>) -> (r: Option<(String, String)>)
    ensures
        match *value {
            Ok(_) => r is None,
            Err(e) => r matches Some((text, error)) && text@ == raw@ && error@ == e@,
        },
{
    match value {
        Ok(_) => None,
        Err(error) => Some((raw.to_owned(), error.clone())),
    }
}

/// The tempo at the start of a chart, given what its text was read as.
pub fn init_bpm_from(raw: &str, value: &Result<PositiveF64, String>) -> (r: Result<
    PositiveF64,
    PlayingError,
>)
    ensures
        match *value {
            Ok(v) => r == Ok::<PositiveF64, PlayingError>(v),
            Err(e) => r is Err && r->Err_0@ == Fault::Bpm(BadText { raw: raw@, error: e@ }),
        },
{
    match value {
        Ok(bpm) => Ok(*bpm),
        Err(error) => Err(
            PlayingError::InvalidBpm { raw: raw.to_owned(), error: error.clone() },
        ),
    }
}

/// What is wrong with a value: the text, and the error.
fn check_value<T: FromText>(value: &StringValue<T>) -> (r: Option<(String, String)>)
    ensures
        match r {
            Some((raw, error)) => {
                &&& bad_text(*value) == Some(BadText { raw: raw@, error: error@ })
                &&& error@.len() > 0
            },
            None => bad_text(*value) is None,
        },
{
    bad_text_from(value.raw(), value.value())
}

/// The first definition that stands for nothing: its number, the text, and the error.
fn check_definitions<T: FromText>(defs: &OrderedMap<ObjId, StringValue<T>>) -> (r: Option<
    (ObjId, String, String),
>)
    ensures
        match r {
            Some((obj_id, raw, error)) => {
                &&& first_bad(defs@) == Some((obj_id, BadText { raw: raw@, error: error@ }))
                &&& error@.len() > 0
            },
            None => first_bad(defs@) is None,
        },
{
    let entries = defs.entries();
    let mut i: usize = 0;
    while i < entries.len()
        invariant
            entries@ == defs@,
            i <= entries@.len(),
            first_bad(defs@.take(i as int)) is None,
        decreases entries@.len() - i,
    {
        proof {
            assert(defs@.take(i + 1).drop_last() =~= defs@.take(i as int));
            assert(defs@.take(i + 1).last() == defs@[i as int]);
        }
        if let Some((raw, error)) = check_value(&entries[i].1) {
            proof {
                lemma_first_bad(defs@, i + 1);
            }
            return Some((entries[i].0, raw, error));
        }
        i = i + 1;
    }
    assert(defs@.take(i as int) =~= defs@);
    None
}

/// What comes behind the first definition that stands for nothing makes no difference.
proof fn lemma_first_bad<T: FromText>(defs: Seq<(ObjId, StringValue<T>)>, n: int)
    requires
        0 <= n <= defs.len(),
        first_bad(defs.take(n)) is Some,
    ensures
        first_bad(defs) == first_bad(defs.take(n)),
    decreases defs.len(),
{
    if n == defs.len() {
        assert(defs.take(n) =~= defs);
    } else {
        assert(defs.drop_last().take(n) =~= defs.take(n));
        lemma_first_bad(defs.drop_last(), n);
    }
}

/// The first definition of a chart that stands for nothing.
pub fn check_all_definitions(bms: &Bms) -> (r: Result<(), PlayingError>)
    ensures
        match r {
            Ok(_) => definition_fault(*bms) is None,
            Err(error) => {
                &&& definition_fault(*bms) == Some(error@)
                &&& error@.text().error.len() > 0
            },
        },
{
    if let Some((_, raw, error)) = check_definitions(&bms.bpm.bpm_defs) {
        return Err(PlayingError::InvalidBpm { raw, error });
    }
    if let Some((obj_id, raw, error)) = check_definitions(&bms.stop.stop_defs) {
        return Err(PlayingError::InvalidStop { obj_id, raw, error });
    }
    if let Some((obj_id, raw, error)) = check_definitions(&bms.speed.speed_defs) {
        return Err(PlayingError::InvalidSpeed { obj_id, raw, error });
    }
    if let Some((obj_id, raw, error)) = check_definitions(&bms.scroll.scroll_defs) {
        return Err(PlayingError::InvalidScroll { obj_id, raw, error });
    }
    if let Some((obj_id, raw, error)) = check_definitions(&bms.video.seek_defs) {
        return Err(PlayingError::InvalidSeek { obj_id, raw, error });
    }
    Ok(())
}

/// The tempo at the start of a chart: the default one where the chart gives none.
pub fn init_bpm(bms: &Bms) -> (r: Result<PositiveF64, PlayingError>)
    ensures
        match r {
            Ok(bpm) => init_bpm_fault(*bms) is None && bpm == init_bpm_of(*bms),
            Err(error) => {
                &&& init_bpm_fault(*bms) == Some(error@)
                &&& error@.text().error.len() > 0
            },
        },
{
    match &bms.bpm.bpm {
        Some(text) => init_bpm_from(text.raw(), text.value()),
        None => Ok(default_bpm()),
    }
}

/// Whether all definitions of a sort can be read.
pub open spec fn all_read<T: FromText>(defs: Seq<(ObjId, StringValue<T>)>) -> bool {
    forall|i: int| 0 <= i < defs.len() ==> T::of_text((#[trigger] defs[i]).1.spec_raw()) is Ok
}

/// Whether a definition is the first of its sort that cannot be read, with its text and
/// the error.
pub open spec fn fails_first<T: FromText>(
    defs: Seq<(ObjId, StringValue<T>)>,
    i: int,
    bad: BadText,
) -> bool {
    &&& 0 <= i < defs.len()
    &&& defs[i].1.spec_raw() == bad.raw
    &&& T::of_text(bad.raw) == Err::<T, Seq<char>>(bad.error)
    &&& forall|j: int| 0 <= j < i ==> T::of_text((#[trigger] defs[j]).1.spec_raw()) is Ok
}

/// The first bad definition of a sort, if there is one.
proof fn lemma_bad_sort<T: FromText>(defs: Seq<(ObjId, StringValue<T>)>)
    ensures
        match first_bad(defs) {
            Some((id, bad)) => exists|i: int| #[trigger]
                fails_first(defs, i, bad) && defs[i].0 == id,
            None => all_read(defs),
        },
        !all_read(defs) ==> first_bad(defs) is Some,
    decreases defs.len(),
{
    if defs.len() > 0 {
        let front = defs.drop_last();
        let n = defs.len() - 1;
        lemma_bad_sort(front);
        match first_bad(front) {
            Some((id, bad)) => {
                let i = choose|i: int| #[trigger] fails_first(front, i, bad) && front[i].0 == id;
                assert forall|j: int| 0 <= j < i implies T::of_text(
                    (#[trigger] defs[j]).1.spec_raw(),
                ) is Ok by {
                    assert(front[j] == defs[j]);
                }
                assert(fails_first(defs, i, bad));
            },
            None => {
                assert forall|j: int| 0 <= j < n implies T::of_text(
                    (#[trigger] defs[j]).1.spec_raw(),
                ) is Ok by {
                    assert(front[j] == defs[j]);
                }
                if first_bad(defs) is Some {
                    assert(fails_first(defs, n, (first_bad(defs)->0).1));
                } else {
                    assert(T::of_text(defs[n].1.spec_raw()) is Ok);
                }
            },
        }
    }
}

/// What a chart is refused for: the first definition that cannot be read, of the tempos,
/// then of the stops, the spacings, the scroll speeds and the seek times, each sort in the
/// order of its numbers, and else the tempo at the start. The fault names its sort, the
/// definition, the text and the error. A chart is accepted if and only if all of these can
/// be read.
pub proof fn lemma_fault(bms: Bms)
    ensures
        fault_of(bms) is None <==> {
            &&& all_read(bms.bpm.bpm_defs@)
            &&& all_read(bms.stop.stop_defs@)
            &&& all_read(bms.speed.speed_defs@)
            &&& all_read(bms.scroll.scroll_defs@)
            &&& all_read(bms.video.seek_defs@)
            &&& bms.bpm.bpm is Some ==> PositiveF64::of_text(bms.bpm.bpm->0.spec_raw()) is Ok
        },
        fault_of(bms) matches Some(Fault::Bpm(bad)) ==> (exists|i: int|
            fails_first(bms.bpm.bpm_defs@, i, bad)) || {
            &&& all_read(bms.bpm.bpm_defs@)
            &&& all_read(bms.stop.stop_defs@)
            &&& all_read(bms.speed.speed_defs@)
            &&& all_read(bms.scroll.scroll_defs@)
            &&& all_read(bms.video.seek_defs@)
            &&& bms.bpm.bpm is Some
            &&& bms.bpm.bpm->0.spec_raw() == bad.raw
            &&& PositiveF64::of_text(bad.raw) == Err::<PositiveF64, Seq<char>>(bad.error)
        },
        fault_of(bms) matches Some(Fault::Stop(id, bad)) ==> {
            &&& all_read(bms.bpm.bpm_defs@)
            &&& exists|i: int| #[trigger]
                fails_first(bms.stop.stop_defs@, i, bad) && bms.stop.stop_defs@[i].0 == id
        },
        fault_of(bms) matches Some(Fault::Speed(id, bad)) ==> {
            &&& all_read(bms.bpm.bpm_defs@)
            &&& all_read(bms.stop.stop_defs@)
            &&& exists|i: int| #[trigger]
                fails_first(bms.speed.speed_defs@, i, bad) && bms.speed.speed_defs@[i].0 == id
        },
        fault_of(bms) matches Some(Fault::Scroll(id, bad)) ==> {
            &&& all_read(bms.bpm.bpm_defs@)
            &&& all_read(bms.stop.stop_defs@)
            &&& all_read(bms.speed.speed_defs@)
            &&& exists|i: int| #[trigger]
                fails_first(bms.scroll.scroll_defs@, i, bad) && bms.scroll.scroll_defs@[i].0 == id
        },
        fault_of(bms) matches Some(Fault::Seek(id, bad)) ==> {
            &&& all_read(bms.bpm.bpm_defs@)
            &&& all_read(bms.stop.stop_defs@)
            &&& all_read(bms.speed.speed_defs@)
            &&& all_read(bms.scroll.scroll_defs@)
            &&& exists|i: int| #[trigger]
                fails_first(bms.video.seek_defs@, i, bad) && bms.video.seek_defs@[i].0 == id
        },
{
    lemma_bad_sort(bms.bpm.bpm_defs@);
    lemma_bad_sort(bms.stop.stop_defs@);
    lemma_bad_sort(bms.speed.speed_defs@);
    lemma_bad_sort(bms.scroll.scroll_defs@);
    lemma_bad_sort(bms.video.seek_defs@);
    match fault_of(bms) {
        Some(Fault::Bpm(bad)) => {
            if let Some((id, text)) = first_bad(bms.bpm.bpm_defs@) {
                assert(text == bad);
                let i = choose|i: int| #[trigger]
                    fails_first(bms.bpm.bpm_defs@, i, bad) && bms.bpm.bpm_defs@[i].0 == id;
                assert(fails_first(bms.bpm.bpm_defs@, i, bad));
            }
        },
        Some(Fault::Stop(id, bad)) => {
            assert(first_bad(bms.stop.stop_defs@) == Some((id, bad)));
            let i = choose|i: int| #[trigger]
                fails_first(bms.stop.stop_defs@, i, bad) && bms.stop.stop_defs@[i].0 == id;
            assert(fails_first(bms.stop.stop_defs@, i, bad));
        },
        Some(Fault::Speed(id, bad)) => {
            assert(first_bad(bms.speed.speed_defs@) == Some((id, bad)));
            let i = choose|i: int| #[trigger]
                fails_first(bms.speed.speed_defs@, i, bad) && bms.speed.speed_defs@[i].0 == id;
            assert(fails_first(bms.speed.speed_defs@, i, bad));
        },
        Some(Fault::Scroll(id, bad)) => {
            assert(first_bad(bms.scroll.scroll_defs@) == Some((id, bad)));
            let i = choose|i: int| #[trigger]
                fails_first(bms.scroll.scroll_defs@, i, bad) && bms.scroll.scroll_defs@[i].0 == id;
            assert(fails_first(bms.scroll.scroll_defs@, i, bad));
        },
        Some(Fault::Seek(id, bad)) => {
            assert(first_bad(bms.video.seek_defs@) == Some((id, bad)));
            let i = choose|i: int| #[trigger]
                fails_first(bms.video.seek_defs@, i, bad) && bms.video.seek_defs@[i].0 == id;
            assert(fails_first(bms.video.seek_defs@, i, bad));
        },
        None => {},
    }
}

/// A chart without a tempo of its own starts at 120 beats per minute, and one with a tempo
/// that can be read starts at that.
pub proof fn lemma_init_bpm(bms: Bms)
    ensures
        bms.bpm.bpm is None ==> magnitude(init_bpm_of(bms)@ as nat) == 120 * pow2(
            UNIT_SCALE as nat,
        ),
        bms.bpm.bpm matches Some(text) ==> (PositiveF64::of_text(text.spec_raw()) matches Ok(bpm)
            ==> init_bpm_of(bms) == bpm),
{
    broadcast use group_patterns;

    lemma_durations();
}

/// An error tells what its fault is: the sort, the definition, the text and what is wrong.
pub proof fn lemma_error_tells(error: PlayingError)
    ensures
        error matches PlayingError::InvalidBpm { raw, error: why } ==> error@ == Fault::Bpm(
            BadText { raw: raw@, error: why@ },
        ),
        error matches PlayingError::InvalidStop { obj_id, raw, error: why } ==> error@
            == Fault::Stop(obj_id, BadText { raw: raw@, error: why@ }),
        error matches PlayingError::InvalidSpeed { obj_id, raw, error: why } ==> error@
            == Fault::Speed(obj_id, BadText { raw: raw@, error: why@ }),
        error matches PlayingError::InvalidScroll { obj_id, raw, error: why } ==> error@
            == Fault::Scroll(obj_id, BadText { raw: raw@, error: why@ }),
        error matches PlayingError::InvalidSeek { obj_id, raw, error: why } ==> error@
            == Fault::Seek(obj_id, BadText { raw: raw@, error: why@ }),
        error@.text().raw == match error {
            PlayingError::InvalidBpm { raw, .. } => raw@,
            PlayingError::InvalidStop { raw, .. } => raw@,
            PlayingError::InvalidSpeed { raw, .. } => raw@,
            PlayingError::InvalidScroll { raw, .. } => raw@,
            PlayingError::InvalidSeek { raw, .. } => raw@,
        },
{
}

} // verus!
