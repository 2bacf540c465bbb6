//! The events of the notes.

use crate::bms::{Bms, WavObj};
use crate::channel::{Key, KeyLayoutMapper, NoteKind, PlayerSide};
#[allow(unused_imports)]
use crate::channel::lane_of;
use crate::event::{ChartEvent, WavId};
use crate::num::NonNegativeF64;
#[allow(unused_imports)]
use crate::bms::next_on_channel;
#[allow(unused_imports)]
use crate::num::{difference_or_zero, group_patterns};
use crate::process::BmsProcessor;
#[allow(unused_imports)]
use crate::y_memo::Layout;
use crate::y_memo::YMemo;
use vstd::prelude::*;

verus! {

/// The length of a long note: the distance to the next note on its channel.
pub open spec fn long_note_length(bms: Bms, layout: Layout, obj: WavObj) -> Option<NonNegativeF64> {
    match next_on_channel(bms.wav.notes@, obj.channel_id, obj.offset) {
        Some(next) => Some(
            NonNegativeF64::of(difference_or_zero(layout.y(next.offset), layout.y(obj.offset))),
        ),
        None => None,
    }
}

/// The event of a note: a note of its lane, or a sound of the background where its
/// channel is no lane.
pub open spec fn note_event<T: KeyLayoutMapper>(
    bms: Bms,
    layout: Layout,
    obj: WavObj,
) -> ChartEvent {
    let wav_id = Some(WavId(obj.wav_id.0 as usize));
    match lane_of::<T>(obj.channel_id) {
        Some((side, key, kind)) => ChartEvent::Note {
            side,
            key,
            kind,
            wav_id,
            length: if kind == NoteKind::Long {
                long_note_length(bms, layout, obj)
            } else {
                None
            },
            continue_play: None,
        },
        None => ChartEvent::Bgm { wav_id },
    }
}

/// Generate a static chart event for a BMS note object.
///
/// This function converts a BMS `WavObj` into a `ChartEvent` with all necessary
/// information, including note type, lane assignment, and long note duration.
///
/// # Type Parameters
/// - `T`: Key layout mapper
///
/// # Parameters
/// - `bms`: The parsed BMS chart data
/// - `y_memo`: Y coordinate memoization for position calculation
/// - `obj`: The note object to convert
///
/// # Returns
/// - `ChartEvent::Note` for playable notes
/// - `ChartEvent::Bgm` for BGM/background audio
#[must_use]
pub fn event_for_note_static<T: KeyLayoutMapper>(
    bms: &Bms,
    y_memo: &YMemo,
    obj: &WavObj,
) -> (r: ChartEvent)
    ensures
        r == note_event::<T>(*bms, y_memo.layout(), *obj),
{
    broadcast use group_patterns;

    let y = y_memo.get_y(obj.offset);
    let lane = BmsProcessor::lane_of_channel_id::<T>(obj.channel_id);
    let wav_id = Some(WavId(obj.wav_id.0 as usize));
    let (side, key, kind) = match lane {
        Some(lane) => lane,
        None => return ChartEvent::Bgm { wav_id },
    };
    let length = if kind == NoteKind::Long {
        match bms.notes().next_obj_by_key(obj.channel_id, obj.offset) {
            Some(next_obj) => {
                let next_y = y_memo.get_y(next_obj.offset);
                Some(next_y.0.minus_or_zero(y.0))
            },
            None => None,
        }
    } else {
        None
    };
    ChartEvent::Note { side, key, kind, wav_id, length, continue_play: None }
}

/// Lanes, each at most once.
pub struct Lanes {
    lanes: Vec<(PlayerSide, Key)>,
}

impl View for Lanes {
    type V = Set<(PlayerSide, Key)>;

    closed spec fn view(&self) -> Set<(PlayerSide, Key)> {
        self.lanes@.to_set()
    }
}

impl Lanes {
    #[verifier::type_invariant]
    spec fn inv(self) -> bool {
        self.lanes@.no_duplicates()
    }

    /// No lanes.
    pub fn new() -> (r: Self)
        ensures
            r@ == Set::<(PlayerSide, Key)>::empty(),
    {
        let lanes: Vec<(PlayerSide, Key)> = Vec::new();
        assert(lanes@.to_set() =~= Set::empty());
        Lanes { lanes }
    }

    /// Adds a lane.
    pub fn insert(&mut self, side: PlayerSide, key: Key)
        ensures
            final(self)@ == old(self)@.insert((side, key)),
    {
        self.remove(side, key);
        proof {
            use_type_invariant(&*self);
            assert(old(self)@.remove((side, key)).insert((side, key)) =~= old(self)@.insert(
                (side, key),
            ));
            assert(!self.lanes@.to_set().contains((side, key)));
        }
        let ghost before = self.lanes@;
        let mut taken: Vec<(PlayerSide, Key)> = Vec::new();
        std::mem::swap(&mut self.lanes, &mut taken);
        taken.push((side, key));
        self.lanes = taken;
        proof {
            let lane = (side, key);
            assert(self.lanes@ == before.push(lane));
            assert forall|other: (PlayerSide, Key)| before.push(lane).to_set().contains(other)
                == before.to_set().insert(lane).contains(other) by {
                if before.contains(other) {
                    let i = choose|i: int| 0 <= i < before.len() && before[i] == other;
                    assert(before.push(lane)[i] == other);
                }
                if other == lane {
                    assert(before.push(lane)[before.len() as int] == other);
                }
            }
            assert(before.push(lane).to_set() =~= before.to_set().insert(lane));
        }
    }

    /// Takes a lane out, and tells whether it was there.
    pub fn remove(&mut self, side: PlayerSide, key: Key) -> (r: bool)
        ensures
            r == old(self)@.contains((side, key)),
            final(self)@ == old(self)@.remove((side, key)),
    {
        proof {
            use_type_invariant(&*self);
        }
        let ghost before = self.lanes@;
        let mut i: usize = 0;
        while i < self.lanes.len()
            invariant
                before == self.lanes@,
                before.no_duplicates(),
                i <= before.len(),
                *self == *old(self),
                forall|j: int| 0 <= j < i ==> #[trigger] before[j] != (side, key),
            decreases before.len() - i,
        {
            let lane = self.lanes[i];
            if lane.0 == side && lane.1 == key {
                let mut taken: Vec<(PlayerSide, Key)> = Vec::new();
                std::mem::swap(&mut self.lanes, &mut taken);
                taken.remove(i);
                proof {
                    lemma_removed(before, i as int);
                }
                self.lanes = taken;
                return true;
            }
            i = i + 1;
        }
        assert(before.to_set().remove((side, key)) =~= before.to_set());
        false
    }
}

/// Taking out one of several lanes.
proof fn lemma_removed(s: Seq<(PlayerSide, Key)>, i: int)
    requires
        s.no_duplicates(),
        0 <= i < s.len(),
    ensures
        s.remove(i).no_duplicates(),
        s.remove(i).to_set() == s.to_set().remove(s[i]),
        s.to_set().contains(s[i]),
{
    let r = s.remove(i);
    assert forall|other: (PlayerSide, Key)| r.to_set().contains(other) == s.to_set().remove(
        s[i],
    ).contains(other) by {
        if r.contains(other) {
            let j = choose|j: int| 0 <= j < r.len() && r[j] == other;
            let k = if j < i {
                j
            } else {
                j + 1
            };
            assert(s[k] == other);
        }
        if s.contains(other) && other != s[i] {
            let j = choose|j: int| 0 <= j < s.len() && s[j] == other;
            let k = if j < i {
                j
            } else {
                j - 1
            };
            assert(r[k] == other);
        }
    }
    assert(r.to_set() =~= s.to_set().remove(s[i]));
}

} // verus!
