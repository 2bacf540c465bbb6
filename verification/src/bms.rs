//! The objects of a parsed chart file.

use crate::channel::NoteChannelId;
use crate::event::{Argb, BgaLayer, JudgeLevel, SwBgaEvent};
use crate::num::{FinF64, NonNegativeF64, PositiveF64};
use crate::ordered::{OrderKey, OrderedMap};
#[allow(unused_imports)]
use crate::ordered::{ascending, last_key_of};
use crate::text::StringValue;
use crate::time::{ObjTime, Track};
#[allow(unused_imports)]
use crate::time::lemma_time_order;
use vstd::prelude::*;

verus! {

/// The name of a definition.
#[derive(Clone, Copy, PartialEq, Eq, Structural, PartialOrd, Ord, Debug, Hash)]
pub struct ObjId(pub u16);

impl OrderKey for ObjId {
    open spec fn below(self, other: Self) -> bool {
        self.0 < other.0
    }

    proof fn lemma_irreflexive(a: Self) {
    }

    proof fn lemma_transitive(a: Self, b: Self, c: Self) {
    }

    proof fn lemma_not_below_transitive(a: Self, b: Self, c: Self) {
    }

    fn is_below(&self, other: &Self) -> (r: bool) {
        self.0 < other.0
    }
}

/// A change of the tempo.
#[derive(Clone, Copy, Debug)]
pub struct BpmChangeObj {
    /// When it happens.
    pub time: ObjTime,
    /// The beats per minute.
    pub bpm: PositiveF64,
}

/// A stop.
#[derive(Clone, Copy, Debug)]
pub struct StopObj {
    /// When it happens.
    pub time: ObjTime,
    /// For how many 192nd notes.
    pub duration: NonNegativeF64,
}

/// A change of the spacing.
#[derive(Clone, Copy, Debug)]
pub struct SpeedObj {
    /// When it happens.
    pub time: ObjTime,
    /// The factor.
    pub factor: PositiveF64,
}

/// A change of the scroll speed.
#[derive(Clone, Copy, Debug)]
pub struct ScrollingFactorObj {
    /// When it happens.
    pub time: ObjTime,
    /// The factor.
    pub factor: FinF64,
}

/// The length of a track that does not have the default length.
#[derive(Clone, Copy, Debug)]
pub struct SectionLenChangeObj {
    /// The track.
    pub track: Track,
    /// The length.
    pub length: NonNegativeF64,
}

/// A change of the background animation.
#[derive(Clone, Copy, Debug)]
pub struct BgaObj {
    /// When it happens.
    pub time: ObjTime,
    /// The image.
    pub id: ObjId,
    /// The layer.
    pub layer: BgaLayer,
}

/// A change of the opacity of a layer.
#[derive(Clone, Copy, Debug)]
pub struct BgaOpacityObj {
    /// When it happens.
    pub time: ObjTime,
    /// The opacity.
    pub opacity: u8,
}

/// A change of the colour of a layer.
#[derive(Clone, Copy, Debug)]
pub struct BgaArgbObj {
    /// When it happens.
    pub time: ObjTime,
    /// The colour.
    pub argb: Argb,
}

/// A change of a volume.
#[derive(Clone, Copy, Debug)]
pub struct VolumeObj {
    /// When it happens.
    pub time: ObjTime,
    /// The volume.
    pub volume: u8,
}

/// A text to show.
#[derive(Debug)]
pub struct TextObj {
    /// When it happens.
    pub time: ObjTime,
    /// The text.
    pub text: String,
}

/// A change of the judge level.
#[derive(Clone, Copy, Debug)]
pub struct JudgeObj {
    /// When it happens.
    pub time: ObjTime,
    /// The level.
    pub judge_level: JudgeLevel,
}

/// A move of the video.
#[derive(Clone, Copy, Debug)]
pub struct SeekObj {
    /// When it happens.
    pub time: ObjTime,
    /// The place in the video.
    pub position: FinF64,
}

/// An animation bound to keys.
#[derive(Debug)]
pub struct BgaKeyboundObj {
    /// When it happens.
    pub time: ObjTime,
    /// The animation.
    pub event: SwBgaEvent,
}

/// A change of an option.
#[derive(Debug)]
pub struct OptionObj {
    /// When it happens.
    pub time: ObjTime,
    /// The option.
    pub option: String,
}

/// A note or a background sound.
#[derive(Clone, Copy, PartialEq, Eq, Structural, Debug)]
pub struct WavObj {
    /// When it sounds.
    pub offset: ObjTime,
    /// The channel.
    pub channel_id: NoteChannelId,
    /// The sound.
    pub wav_id: ObjId,
}

/// Whether a note is listed before another: by time, then by sound.
pub open spec fn listed_before(a: WavObj, b: WavObj) -> bool {
    a.offset.below(b.offset) || (!b.offset.below(a.offset) && a.wav_id.below(b.wav_id))
}

/// The notes after one more has been added.
pub open spec fn with_note(s: Seq<WavObj>, note: WavObj) -> Seq<WavObj>
    decreases s.len(),
{
    if s.len() == 0 || !listed_before(note, s.last()) {
        s.push(note)
    } else {
        with_note(s.drop_last(), note).push(s.last())
    }
}

/// The first of the earliest notes on a channel that come after a time.
pub open spec fn next_on_channel(s: Seq<WavObj>, channel_id: NoteChannelId, time: ObjTime) -> Option<
    WavObj,
>
    decreases s.len(),
{
    if s.len() == 0 {
        None
    } else {
        let earlier = next_on_channel(s.drop_last(), channel_id, time);
        let last = s.last();
        if last.channel_id == channel_id && time.below(last.offset) && (earlier is None
            || last.offset.below(earlier->0.offset)) {
            Some(last)
        } else {
            earlier
        }
    }
}

/// The later of two times that may be missing.
pub open spec fn later_of(a: Option<ObjTime>, b: Option<ObjTime>) -> Option<ObjTime> {
    match (a, b) {
        (Some(x), Some(y)) => if x.below(y) {
            b
        } else {
            a
        },
        (Some(_), None) => a,
        (None, _) => b,
    }
}

/// The later of two times that may be missing.
fn later(a: Option<ObjTime>, b: Option<ObjTime>) -> (r: Option<ObjTime>)
    ensures
        r == later_of(a, b),
{
    match (a, b) {
        (Some(x), Some(y)) => if x.is_below(&y) {
            b
        } else {
            a
        },
        (Some(_), None) => a,
        (None, _) => b,
    }
}

/// The time of the last note.
pub open spec fn last_note_time(s: Seq<WavObj>) -> Option<ObjTime>
    decreases s.len(),
{
    if s.len() == 0 {
        None
    } else {
        later_of(last_note_time(s.drop_last()), Some(s.last().offset))
    }
}

/// Whether no note is listed behind one that comes after it.
pub open spec fn are_listed(s: Seq<WavObj>) -> bool {
    forall|i: int, j: int|
        0 <= i < j < s.len() ==> !listed_before(#[trigger] s[j], #[trigger] s[i])
}

/// Not being listed before is transitive.
proof fn lemma_listed_transitive(a: WavObj, b: WavObj, c: WavObj)
    requires
        !listed_before(a, b),
        !listed_before(b, c),
    ensures
        !listed_before(a, c),
{
    ObjTime::lemma_not_below_transitive(a.offset, b.offset, c.offset);
    if !c.offset.below(a.offset) {
        ObjTime::lemma_not_below_transitive(c.offset, a.offset, b.offset);
        ObjTime::lemma_not_below_transitive(b.offset, c.offset, a.offset);
    }
}

/// Adding a note keeps the others, and the list by time and then by sound.
pub proof fn lemma_with_note(s: Seq<WavObj>, note: WavObj)
    ensures
        with_note(s, note).to_multiset() == s.to_multiset().insert(note),
        with_note(s, note).len() == s.len() + 1,
        are_listed(s) ==> are_listed(with_note(s, note)),
    decreases s.len(),
{
    broadcast use vstd::seq_lib::group_to_multiset_ensures;

    let r = with_note(s, note);
    if s.len() == 0 || !listed_before(note, s.last()) {
        if are_listed(s) {
            assert forall|i: int, j: int| 0 <= i < j < r.len() implies !listed_before(
                #[trigger] r[j],
                #[trigger] r[i],
            ) by {
                if j == s.len() && i < s.len() - 1 {
                    assert(!listed_before(s[s.len() - 1], s[i]));
                    lemma_listed_transitive(note, s[s.len() - 1], s[i]);
                }
            }
        }
    } else {
        let front = s.drop_last();
        let last = s.last();
        let p = with_note(front, note);
        lemma_with_note(front, note);
        assert(s =~= front.push(last));
        assert(front.to_multiset().insert(note).insert(last) =~= front.to_multiset().insert(
            last,
        ).insert(note));
        if are_listed(s) {
            assert forall|i: int, j: int| 0 <= i < j < front.len() implies !listed_before(
                #[trigger] front[j],
                #[trigger] front[i],
            ) by {
                assert(!listed_before(s[j], s[i]));
            }
            assert forall|i: int, j: int| 0 <= i < j < r.len() implies !listed_before(
                #[trigger] r[j],
                #[trigger] r[i],
            ) by {
                if j == p.len() {
                    assert(p.to_multiset().count(p[i]) > 0);
                    if p[i] != note {
                        assert(front.to_multiset().count(p[i]) > 0);
                        let k = choose|k: int| 0 <= k < front.len() && front[k] == p[i];
                        assert(!listed_before(s[s.len() - 1], s[k]));
                    } else {
                        if listed_before(last, note) {
                            ObjTime::lemma_irreflexive(note.offset);
                            if last.offset.below(note.offset) && note.offset.below(last.offset) {
                                ObjTime::lemma_transitive(
                                    note.offset,
                                    last.offset,
                                    note.offset,
                                );
                            }
                        }
                    }
                }
            }
        }
    }
}

/// A note is listed before another one of a later track, of a later place in the same
/// track, or of the same place and a sound with a greater number.
pub proof fn lemma_listing_order(a: WavObj, b: WavObj)
    ensures
        a.offset.spec_track().0 < b.offset.spec_track().0 ==> listed_before(a, b)
            && !listed_before(b, a),
        a.offset.spec_track() == b.offset.spec_track() ==> {
            let (x, y) = (
                a.offset.spec_numerator() * b.offset.spec_denominator(),
                b.offset.spec_numerator() * a.offset.spec_denominator(),
            );
            &&& x < y ==> listed_before(a, b) && !listed_before(b, a)
            &&& x == y ==> (listed_before(a, b) <==> a.wav_id.0 < b.wav_id.0)
        },
        a.wav_id.below(b.wav_id) <==> a.wav_id.0 < b.wav_id.0,
{
    lemma_time_order(a.offset, b.offset);
    lemma_time_order(b.offset, a.offset);
}

/// The next note on a channel is one of the notes on it that come after the time, none of
/// those comes before it, and of several at its time it is the first. It is missing only
/// where no note on the channel comes after the time.
pub proof fn lemma_next_on_channel(s: Seq<WavObj>, channel_id: NoteChannelId, time: ObjTime)
    ensures
        match next_on_channel(s, channel_id, time) {
            Some(next) => exists|i: int| #![trigger s[i]]
                0 <= i < s.len() && s[i] == next && next.channel_id == channel_id && time.below(
                    next.offset,
                ) && forall|j: int| #![trigger s[j]]
                    0 <= j < s.len() && s[j].channel_id == channel_id && time.below(s[j].offset)
                        ==> !s[j].offset.below(next.offset) && (j < i ==> next.offset.below(
                        s[j].offset,
                    )),
            None => forall|j: int|
                0 <= j < s.len() && (#[trigger] s[j]).channel_id == channel_id ==> !time.below(
                    s[j].offset,
                ),
        },
    decreases s.len(),
{
    if s.len() > 0 {
        let front = s.drop_last();
        let last = s.last();
        let n = s.len() - 1;
        lemma_next_on_channel(front, channel_id, time);
        let earlier = next_on_channel(front, channel_id, time);
        ObjTime::lemma_irreflexive(last.offset);
        if let Some(next) = next_on_channel(s, channel_id, time) {
            if earlier is Some {
                let k = choose|i: int| #![trigger front[i]]
                    0 <= i < front.len() && front[i] == earlier->0 && earlier->0.channel_id
                        == channel_id && time.below(earlier->0.offset) && forall|j: int|
                        #![trigger front[j]]
                        0 <= j < front.len() && front[j].channel_id == channel_id && time.below(
                            front[j].offset,
                        ) ==> !front[j].offset.below(earlier->0.offset) && (j < i
                            ==> earlier->0.offset.below(front[j].offset));
                if next == last && last.offset.below(earlier->0.offset) {
                    assert forall|j: int| #![trigger s[j]]
                        0 <= j < s.len() && s[j].channel_id == channel_id && time.below(
                            s[j].offset,
                        ) implies !s[j].offset.below(next.offset) && (j < n ==> next.offset.below(
                        s[j].offset,
                    )) by {
                        if j < n {
                            assert(front[j] == s[j]);
                            if !next.offset.below(s[j].offset) {
                                ObjTime::lemma_not_below_transitive(
                                    next.offset,
                                    s[j].offset,
                                    earlier->0.offset,
                                );
                            }
                            if s[j].offset.below(next.offset) {
                                ObjTime::lemma_transitive(
                                    s[j].offset,
                                    next.offset,
                                    s[j].offset,
                                );
                                ObjTime::lemma_irreflexive(s[j].offset);
                            }
                        }
                    }
                    assert(s[n] == next);
                } else {
                    assert(next == earlier->0);
                    assert forall|j: int| #![trigger s[j]]
                        0 <= j < s.len() && s[j].channel_id == channel_id && time.below(
                            s[j].offset,
                        ) implies !s[j].offset.below(next.offset) && (j < k ==> next.offset.below(
                        s[j].offset,
                    )) by {
                        if j < n {
                            assert(front[j] == s[j]);
                        }
                    }
                    assert(s[k] == next);
                }
            } else {
                assert forall|j: int| #![trigger s[j]]
                    0 <= j < s.len() && s[j].channel_id == channel_id && time.below(
                        s[j].offset,
                    ) implies !s[j].offset.below(next.offset) && (j < n ==> next.offset.below(
                    s[j].offset,
                )) by {
                    if j < n {
                        assert(front[j] == s[j]);
                    }
                }
                assert(s[n] == next);
            }
        } else {
            assert forall|j: int|
                0 <= j < s.len() && (#[trigger] s[j]).channel_id == channel_id implies !time.below(
                s[j].offset,
            ) by {
                if j < n {
                    assert(front[j] == s[j]);
                }
            }
        }
    }
}

/// The time of the last note is that of one of the notes, and no note comes after it.
pub proof fn lemma_last_note_time(s: Seq<WavObj>)
    ensures
        match last_note_time(s) {
            Some(time) => {
                &&& exists|i: int| 0 <= i < s.len() && (#[trigger] s[i]).offset == time
                &&& forall|i: int| 0 <= i < s.len() ==> !time.below((#[trigger] s[i]).offset)
            },
            None => s.len() == 0,
        },
    decreases s.len(),
{
    if s.len() > 0 {
        let front = s.drop_last();
        let last = s[s.len() - 1].offset;
        lemma_last_note_time(front);
        let time = last_note_time(s)->0;
        if last_note_time(front) is Some {
            let before = last_note_time(front)->0;
            let i = choose|i: int| 0 <= i < front.len() && (#[trigger] front[i]).offset == before;
            assert(s[i].offset == before);
        }
        ObjTime::lemma_irreflexive(last);
        assert forall|i: int| 0 <= i < s.len() implies !time.below((#[trigger] s[i]).offset) by {
            if i < front.len() {
                let before = last_note_time(front)->0;
                assert(!before.below(front[i].offset));
                if before.below(last) && last.below(s[i].offset) {
                    ObjTime::lemma_transitive(before, last, s[i].offset);
                }
            }
        }
    }
}

/// The notes of a chart, listed by time, then by sound, then as they were added.
#[derive(Debug)]
pub struct Notes {
    notes: Vec<WavObj>,
}

impl View for Notes {
    type V = Seq<WavObj>;

    closed spec fn view(&self) -> Seq<WavObj> {
        self.notes@
    }
}

impl Notes {
    /// No notes.
    pub fn new() -> (r: Self)
        ensures
            r@ == Seq::<WavObj>::empty(),
    {
        Notes { notes: Vec::new() }
    }

    /// Adds a note.
    pub fn push_note(&mut self, note: WavObj)
        ensures
            final(self)@ == with_note(old(self)@, note),
    {
        let ghost s = self.notes@;
        let mut i: usize = self.notes.len();
        assert(s.take(i as int) =~= s);
        while i > 0 && (note.offset.is_below(&self.notes[i - 1].offset) || (
        !self.notes[i - 1].offset.is_below(&note.offset) && note.wav_id.is_below(
            &self.notes[i - 1].wav_id,
        )))
            invariant
                i <= self.notes@.len(),
                self.notes@ == s,
                with_note(s, note) == with_note(s.take(i as int), note) + s.skip(i as int),
            decreases i,
        {
            proof {
                assert(s.take(i as int).drop_last() =~= s.take(i - 1));
                assert(s.take(i as int).last() == s[i - 1]);
                assert(with_note(s, note) =~= with_note(s.take(i - 1), note) + s.skip(i - 1));
            }
            i = i - 1;
        }
        self.notes.insert(i, note);
        assert(self.notes@ =~= with_note(s, note));
    }

    /// All notes.
    pub fn all_notes(&self) -> (r: &Vec<WavObj>)
        ensures
            r@ == self@,
    {
        &self.notes
    }

    /// The first of the earliest notes on a channel that come after a time.
    pub fn next_obj_by_key(&self, channel_id: NoteChannelId, time: ObjTime) -> (r: Option<WavObj>)
        ensures
            r == next_on_channel(self@, channel_id, time),
    {
        let mut best: Option<WavObj> = None;
        let mut i: usize = 0;
        while i < self.notes.len()
            invariant
                i <= self.notes@.len(),
                best == next_on_channel(self.notes@.take(i as int), channel_id, time),
            decreases self.notes@.len() - i,
        {
            let note = self.notes[i];
            proof {
                assert(self.notes@.take(i + 1).drop_last() =~= self.notes@.take(i as int));
            }
            if note.channel_id == channel_id && time.is_below(&note.offset) {
                let nearer = match best {
                    Some(b) => note.offset.is_below(&b.offset),
                    None => true,
                };
                if nearer {
                    best = Some(note);
                }
            }
            i = i + 1;
        }
        assert(self.notes@.take(i as int) =~= self.notes@);
        best
    }

    /// The time of the last note.
    pub fn last_obj_time(&self) -> (r: Option<ObjTime>)
        ensures
            r == last_note_time(self@),
    {
        let mut last: Option<ObjTime> = None;
        let mut i: usize = 0;
        while i < self.notes.len()
            invariant
                i <= self.notes@.len(),
                last == last_note_time(self.notes@.take(i as int)),
            decreases self.notes@.len() - i,
        {
            proof {
                assert(self.notes@.take(i + 1).drop_last() =~= self.notes@.take(i as int));
            }
            last = later(last, Some(self.notes[i].offset));
            i = i + 1;
        }
        assert(self.notes@.take(i as int) =~= self.notes@);
        last
    }
}

impl Default for Notes {
    fn default() -> (r: Self)
        ensures
            r@ == Seq::<WavObj>::empty(),
    {
        Notes::new()
    }
}

/// An image file.
#[derive(Debug)]
pub struct Bmp {
    /// Its path.
    pub file: String,
    /// The colour that is transparent.
    pub transparent_color: Argb,
}

/// Changes of each layer of the background animation.
#[derive(Debug)]
pub struct LayerChanges<V> {
    /// The changes of the lowest layer.
    pub base: OrderedMap<ObjTime, V>,
    /// The changes of the layer for missed notes.
    pub poor: OrderedMap<ObjTime, V>,
    /// The changes of the layer above the lowest.
    pub overlay: OrderedMap<ObjTime, V>,
    /// The changes of the layer above that.
    pub overlay2: OrderedMap<ObjTime, V>,
}

impl<V> LayerChanges<V> {
    /// Whether there is no change.
    pub open spec fn blank(self) -> bool {
        self.base@.len() == 0 && self.poor@.len() == 0 && self.overlay@.len() == 0
            && self.overlay2@.len() == 0
    }
}

/// Tempo.
#[derive(Debug)]
pub struct BpmObjects {
    /// The tempo at the start.
    pub bpm: Option<StringValue<PositiveF64>>,
    /// Defined tempos.
    pub bpm_defs: OrderedMap<ObjId, StringValue<PositiveF64>>,
    /// Changes to a defined tempo.
    pub bpm_changes: OrderedMap<ObjTime, BpmChangeObj>,
    /// Changes to a tempo given in place.
    pub bpm_changes_u8: OrderedMap<ObjTime, u8>,
}

/// Stops.
#[derive(Debug)]
pub struct StopObjects {
    /// Defined durations.
    pub stop_defs: OrderedMap<ObjId, StringValue<NonNegativeF64>>,
    /// The stops.
    pub stops: OrderedMap<ObjTime, StopObj>,
}

/// Spacing.
#[derive(Debug)]
pub struct SpeedObjects {
    /// Defined factors.
    pub speed_defs: OrderedMap<ObjId, StringValue<PositiveF64>>,
    /// The changes.
    pub speed_factor_changes: OrderedMap<ObjTime, SpeedObj>,
}

/// Scroll speed.
#[derive(Debug)]
pub struct ScrollObjects {
    /// Defined factors.
    pub scroll_defs: OrderedMap<ObjId, StringValue<FinF64>>,
    /// The changes.
    pub scrolling_factor_changes: OrderedMap<ObjTime, ScrollingFactorObj>,
}

/// Track lengths.
#[derive(Debug)]
pub struct SectionLenObjects {
    /// The tracks that do not have the default length.
    pub section_len_changes: OrderedMap<Track, SectionLenChangeObj>,
}

/// Sounds.
#[derive(Debug)]
pub struct WavObjects {
    /// The paths of the sound files.
    pub wav_files: OrderedMap<ObjId, String>,
    /// The notes.
    pub notes: Notes,
}

/// Images.
#[derive(Debug)]
pub struct BmpObjects {
    /// The image files.
    pub bmp_files: OrderedMap<ObjId, Bmp>,
    /// Changes of the image.
    pub bga_changes: OrderedMap<ObjTime, BgaObj>,
    /// Changes of the opacity.
    pub bga_opacity_changes: LayerChanges<BgaOpacityObj>,
    /// Changes of the colour.
    pub bga_argb_changes: LayerChanges<BgaArgbObj>,
    /// Animations bound to keys.
    pub bga_keybound_events: OrderedMap<ObjTime, BgaKeyboundObj>,
}

/// Volumes.
#[derive(Debug)]
pub struct VolumeObjects {
    /// Changes of the background music.
    pub bgm_volume_changes: OrderedMap<ObjTime, VolumeObj>,
    /// Changes of the key sounds.
    pub key_volume_changes: OrderedMap<ObjTime, VolumeObj>,
}

/// Texts.
#[derive(Debug)]
pub struct TextObjects {
    /// The texts to show.
    pub text_events: OrderedMap<ObjTime, TextObj>,
}

/// Judge levels.
#[derive(Debug)]
pub struct JudgeObjects {
    /// The changes.
    pub judge_events: OrderedMap<ObjTime, JudgeObj>,
}

/// Video.
#[derive(Debug)]
pub struct VideoObjects {
    /// Defined places.
    pub seek_defs: OrderedMap<ObjId, StringValue<FinF64>>,
    /// The moves.
    pub seek_events: OrderedMap<ObjTime, SeekObj>,
}

/// Options.
#[derive(Debug)]
pub struct OptionObjects {
    /// The changes.
    pub option_events: OrderedMap<ObjTime, OptionObj>,
}

/// A parsed chart file.
#[derive(Debug)]
pub struct Bms {
    /// Tempo.
    pub bpm: BpmObjects,
    /// Stops.
    pub stop: StopObjects,
    /// Spacing.
    pub speed: SpeedObjects,
    /// Scroll speed.
    pub scroll: ScrollObjects,
    /// Track lengths.
    pub section_len: SectionLenObjects,
    /// Sounds.
    pub wav: WavObjects,
    /// Images.
    pub bmp: BmpObjects,
    /// Volumes.
    pub volume: VolumeObjects,
    /// Texts.
    pub text: TextObjects,
    /// Judge levels.
    pub judge: JudgeObjects,
    /// Video.
    pub video: VideoObjects,
    /// Options.
    pub option: OptionObjects,
}

/// No changes.
fn no_layer_changes<V>() -> (r: LayerChanges<V>)
    ensures
        r.blank(),
{
    LayerChanges {
        base: OrderedMap::new(),
        poor: OrderedMap::new(),
        overlay: OrderedMap::new(),
        overlay2: OrderedMap::new(),
    }
}

impl Default for Bms {
    fn default() -> (r: Self)
        ensures
            r.blank(),
    {
        Bms {
            bpm: BpmObjects {
                bpm: None,
                bpm_defs: OrderedMap::new(),
                bpm_changes: OrderedMap::new(),
                bpm_changes_u8: OrderedMap::new(),
            },
            stop: StopObjects { stop_defs: OrderedMap::new(), stops: OrderedMap::new() },
            speed: SpeedObjects {
                speed_defs: OrderedMap::new(),
                speed_factor_changes: OrderedMap::new(),
            },
            scroll: ScrollObjects {
                scroll_defs: OrderedMap::new(),
                scrolling_factor_changes: OrderedMap::new(),
            },
            section_len: SectionLenObjects { section_len_changes: OrderedMap::new() },
            wav: WavObjects { wav_files: OrderedMap::new(), notes: Notes::new() },
            bmp: BmpObjects {
                bmp_files: OrderedMap::new(),
                bga_changes: OrderedMap::new(),
                bga_opacity_changes: no_layer_changes(),
                bga_argb_changes: no_layer_changes(),
                bga_keybound_events: OrderedMap::new(),
            },
            volume: VolumeObjects {
                bgm_volume_changes: OrderedMap::new(),
                key_volume_changes: OrderedMap::new(),
            },
            text: TextObjects { text_events: OrderedMap::new() },
            judge: JudgeObjects { judge_events: OrderedMap::new() },
            video: VideoObjects { seek_defs: OrderedMap::new(), seek_events: OrderedMap::new() },
            option: OptionObjects { option_events: OrderedMap::new() },
        }
    }
}

/// The later of a time and the last key of a list of timed objects.
pub open spec fn later_key<V>(time: Option<ObjTime>, s: Seq<(ObjTime, V)>) -> Option<ObjTime> {
    later_of(time, last_key_of(s))
}

/// The later of a time and the last change of any layer.
pub open spec fn later_layer_key<V>(time: Option<ObjTime>, changes: LayerChanges<V>) -> Option<
    ObjTime,
> {
    later_key(
        later_key(later_key(later_key(time, changes.base@), changes.poor@), changes.overlay@),
        changes.overlay2@,
    )
}

/// The later of a time and the last key of a list of timed objects.
fn later_than<V>(time: Option<ObjTime>, map: &OrderedMap<ObjTime, V>) -> (r: Option<ObjTime>)
    ensures
        r == later_key(time, map@),
{
    later(time, map.last_key())
}

/// The later of a time and the last change of any layer.
fn later_than_layers<V>(time: Option<ObjTime>, changes: &LayerChanges<V>) -> (r: Option<ObjTime>)
    ensures
        r == later_layer_key(time, *changes),
{
    let base = later_than(time, &changes.base);
    let poor = later_than(base, &changes.poor);
    let overlay = later_than(poor, &changes.overlay);
    later_than(overlay, &changes.overlay2)
}

impl Bms {
    /// Whether the chart has no objects.
    pub open spec fn blank(self) -> bool {
        &&& self.bpm.bpm is None
        &&& self.bpm.bpm_defs@.len() == 0
        &&& self.bpm.bpm_changes@.len() == 0
        &&& self.bpm.bpm_changes_u8@.len() == 0
        &&& self.stop.stop_defs@.len() == 0
        &&& self.stop.stops@.len() == 0
        &&& self.speed.speed_defs@.len() == 0
        &&& self.speed.speed_factor_changes@.len() == 0
        &&& self.scroll.scroll_defs@.len() == 0
        &&& self.scroll.scrolling_factor_changes@.len() == 0
        &&& self.section_len.section_len_changes@.len() == 0
        &&& self.wav.wav_files@.len() == 0
        &&& self.wav.notes@.len() == 0
        &&& self.bmp.bmp_files@.len() == 0
        &&& self.bmp.bga_changes@.len() == 0
        &&& self.bmp.bga_opacity_changes.blank()
        &&& self.bmp.bga_argb_changes.blank()
        &&& self.bmp.bga_keybound_events@.len() == 0
        &&& self.volume.bgm_volume_changes@.len() == 0
        &&& self.volume.key_volume_changes@.len() == 0
        &&& self.text.text_events@.len() == 0
        &&& self.judge.judge_events@.len() == 0
        &&& self.video.seek_defs@.len() == 0
        &&& self.video.seek_events@.len() == 0
        &&& self.option.option_events@.len() == 0
    }

    /// The time of the last object of any sort; a track with a length of its own counts
    /// from its start.
    pub open spec fn spec_last_obj_time(self) -> Option<ObjTime> {
        later_key(self.spec_last_unspaced_time(), self.speed.speed_factor_changes@)
    }

    /// The time of the last object other than the changes of the spacing.
    pub open spec fn spec_last_unspaced_time(self) -> Option<ObjTime> {
        let t = last_note_time(self.wav.notes@);
        let t = later_key(t, self.bpm.bpm_changes@);
        let t = later_key(t, self.bpm.bpm_changes_u8@);
        let t = match last_key_of(self.section_len.section_len_changes@) {
            Some(track) => later_of(t, Some(ObjTime::at(track, 0, 1))),
            None => t,
        };
        let t = later_key(t, self.stop.stops@);
        let t = later_key(t, self.scroll.scrolling_factor_changes@);
        let t = later_key(t, self.bmp.bga_changes@);
        let t = later_layer_key(t, self.bmp.bga_opacity_changes);
        let t = later_layer_key(t, self.bmp.bga_argb_changes);
        let t = later_key(t, self.bmp.bga_keybound_events@);
        let t = later_key(t, self.volume.bgm_volume_changes@);
        let t = later_key(t, self.volume.key_volume_changes@);
        let t = later_key(t, self.text.text_events@);
        let t = later_key(t, self.judge.judge_events@);
        let t = later_key(t, self.video.seek_events@);
        later_key(t, self.option.option_events@)
    }

    /// The notes.
    pub fn notes(&self) -> (r: &Notes)
        ensures
            *r == self.wav.notes,
    {
        &self.wav.notes
    }

    /// The time of the last object of any sort; a track with a length of its own counts
    /// from its start.
    pub fn last_obj_time(&self) -> (r: Option<ObjTime>)
        ensures
            r == self.spec_last_obj_time(),
    {
        later_than(self.last_unspaced_time(), &self.speed.speed_factor_changes)
    }

    /// The time of the last object other than the changes of the spacing.
    pub fn last_unspaced_time(&self) -> (r: Option<ObjTime>)
        ensures
            r == self.spec_last_unspaced_time(),
    {
        let t = self.wav.notes.last_obj_time();
        let t = later_than(t, &self.bpm.bpm_changes);
        let t = later_than(t, &self.bpm.bpm_changes_u8);
        let t = match self.section_len.section_len_changes.last_key() {
            Some(track) => later(t, Some(ObjTime::start_of(track))),
            None => t,
        };
        let t = later_than(t, &self.stop.stops);
        let t = later_than(t, &self.scroll.scrolling_factor_changes);
        let t = later_than(t, &self.bmp.bga_changes);
        let t = later_than_layers(t, &self.bmp.bga_opacity_changes);
        let t = later_than_layers(t, &self.bmp.bga_argb_changes);
        let t = later_than(t, &self.bmp.bga_keybound_events);
        let t = later_than(t, &self.volume.bgm_volume_changes);
        let t = later_than(t, &self.volume.key_volume_changes);
        let t = later_than(t, &self.text.text_events);
        let t = later_than(t, &self.judge.judge_events);
        let t = later_than(t, &self.video.seek_events);
        later_than(t, &self.option.option_events)
    }
}

/// Whether a time is that of one of several objects.
pub open spec fn is_time_of<V>(s: Seq<(ObjTime, V)>, time: ObjTime) -> bool {
    exists|i: int| 0 <= i < s.len() && (#[trigger] s[i]).0 == time
}

/// Whether no object comes after a time.
pub open spec fn none_after<V>(s: Seq<(ObjTime, V)>, time: ObjTime) -> bool {
    forall|i: int| 0 <= i < s.len() ==> !time.below((#[trigger] s[i]).0)
}

/// Whether a time that may be missing is there and not before another.
spec fn reaches(a: Option<ObjTime>, b: ObjTime) -> bool {
    a is Some && !a->0.below(b)
}

/// The later of two times is one of them and not before either.
proof fn lemma_later_of(a: Option<ObjTime>, b: Option<ObjTime>)
    ensures
        later_of(a, b) == a || later_of(a, b) == b,
        later_of(a, b) is None <==> a is None && b is None,
        forall|t: ObjTime| #[trigger] reaches(a, t) ==> reaches(later_of(a, b), t),
        forall|t: ObjTime| #[trigger] reaches(b, t) ==> reaches(later_of(a, b), t),
{
    if let (Some(x), Some(y)) = (a, b) {
        assert forall|t: ObjTime| #[trigger] reaches(a, t) implies reaches(later_of(a, b), t) by {
            if x.below(y) && y.below(t) {
                ObjTime::lemma_transitive(x, y, t);
            }
        }
        assert forall|t: ObjTime| #[trigger] reaches(b, t) implies reaches(later_of(a, b), t) by {
            if !x.below(y) {
                ObjTime::lemma_not_below_transitive(x, y, t);
            }
        }
    }
}

/// The later of a time and the last key of objects is the time or a key of one of them,
/// and not before the time or any key.
proof fn lemma_later_key<V>(a: Option<ObjTime>, s: Seq<(ObjTime, V)>)
    requires
        ascending(s),
    ensures
        later_key(a, s) == a || (later_key(a, s) is Some && is_time_of(s, later_key(a, s)->0)),
        later_key(a, s) is None <==> a is None && s.len() == 0,
        forall|t: ObjTime| #[trigger] reaches(a, t) ==> reaches(later_key(a, s), t),
        forall|i: int| 0 <= i < s.len() ==> reaches(later_key(a, s), (#[trigger] s[i]).0),
{
    lemma_later_of(a, last_key_of(s));
    if s.len() > 0 {
        let last = s[s.len() - 1].0;
        assert(last_key_of(s) == Some(last));
        assert forall|i: int| 0 <= i < s.len() implies reaches(
            later_key(a, s),
            (#[trigger] s[i]).0,
        ) by {
            ObjTime::lemma_irreflexive(last);
            if i < s.len() - 1 {
                assert(s[i].0.below(last));
                if last.below(s[i].0) {
                    ObjTime::lemma_transitive(last, s[i].0, last);
                }
            }
            assert(reaches(last_key_of(s), s[i].0));
        }
    }
}

/// The later of a time and the last change of any layer.
proof fn lemma_later_layer_key<V>(a: Option<ObjTime>, changes: LayerChanges<V>)
    requires
        ascending(changes.base@),
        ascending(changes.poor@),
        ascending(changes.overlay@),
        ascending(changes.overlay2@),
    ensures
        ({
            let r = later_layer_key(a, changes);
            &&& r == a || (r is Some && (is_time_of(changes.base@, r->0) || is_time_of(
                changes.poor@,
                r->0,
            ) || is_time_of(changes.overlay@, r->0) || is_time_of(changes.overlay2@, r->0)))
            &&& r is None <==> a is None && changes.blank()
            &&& forall|t: ObjTime| #[trigger] reaches(a, t) ==> reaches(r, t)
            &&& forall|i: int|
                0 <= i < changes.base@.len() ==> reaches(r, (#[trigger] changes.base@[i]).0)
            &&& forall|i: int|
                0 <= i < changes.poor@.len() ==> reaches(r, (#[trigger] changes.poor@[i]).0)
            &&& forall|i: int|
                0 <= i < changes.overlay@.len() ==> reaches(r, (#[trigger] changes.overlay@[i]).0)
            &&& forall|i: int|
                0 <= i < changes.overlay2@.len() ==> reaches(r, (#[trigger] changes.overlay2@[i]).0)
        }),
{
    let t = later_key(a, changes.base@);
    lemma_later_key(a, changes.base@);
    lemma_later_key(t, changes.poor@);
    let t = later_key(t, changes.poor@);
    lemma_later_key(t, changes.overlay@);
    let t = later_key(t, changes.overlay@);
    lemma_later_key(t, changes.overlay2@);
}

impl Bms {
    /// Whether the objects of each sort are listed in ascending order, as maps keep them.
    pub open spec fn is_ordered(self) -> bool {
        &&& ascending(self.section_len.section_len_changes@)
        &&& ascending(self.speed.speed_factor_changes@)
        &&& ascending(self.bpm.bpm_changes@)
        &&& ascending(self.bpm.bpm_changes_u8@)
        &&& ascending(self.stop.stops@)
        &&& ascending(self.scroll.scrolling_factor_changes@)
        &&& ascending(self.bmp.bga_changes@)
        &&& ascending(self.bmp.bga_opacity_changes.base@)
        &&& ascending(self.bmp.bga_opacity_changes.poor@)
        &&& ascending(self.bmp.bga_opacity_changes.overlay@)
        &&& ascending(self.bmp.bga_opacity_changes.overlay2@)
        &&& ascending(self.bmp.bga_argb_changes.base@)
        &&& ascending(self.bmp.bga_argb_changes.poor@)
        &&& ascending(self.bmp.bga_argb_changes.overlay@)
        &&& ascending(self.bmp.bga_argb_changes.overlay2@)
        &&& ascending(self.bmp.bga_keybound_events@)
        &&& ascending(self.volume.bgm_volume_changes@)
        &&& ascending(self.volume.key_volume_changes@)
        &&& ascending(self.text.text_events@)
        &&& ascending(self.judge.judge_events@)
        &&& ascending(self.video.seek_events@)
        &&& ascending(self.option.option_events@)
    }
}

/// The time of the last object is that of some object, a track with a length of its own
/// counting from its start, and no object of any sort comes after it. It is missing only
/// where there are no objects.
#[verifier::rlimit(40)]
pub proof fn lemma_last_obj_time(bms: Bms)
    requires
        bms.is_ordered(),
    ensures
        match bms.spec_last_unspaced_time() {
            Some(time) => {
                &&& forall|i: int|
                    0 <= i < bms.wav.notes@.len() ==> !time.below(
                        (#[trigger] bms.wav.notes@[i]).offset,
                    )
                &&& forall|i: int|
                    0 <= i < bms.section_len.section_len_changes@.len() ==> !time.below(
                        ObjTime::at((#[trigger] bms.section_len.section_len_changes@[i]).0, 0, 1),
                    )
                &&& none_after(bms.bpm.bpm_changes@, time)
                &&& none_after(bms.bpm.bpm_changes_u8@, time)
                &&& none_after(bms.stop.stops@, time)
                &&& none_after(bms.scroll.scrolling_factor_changes@, time)
                &&& none_after(bms.bmp.bga_changes@, time)
                &&& none_after(bms.bmp.bga_opacity_changes.base@, time)
                &&& none_after(bms.bmp.bga_opacity_changes.poor@, time)
                &&& none_after(bms.bmp.bga_opacity_changes.overlay@, time)
                &&& none_after(bms.bmp.bga_opacity_changes.overlay2@, time)
                &&& none_after(bms.bmp.bga_argb_changes.base@, time)
                &&& none_after(bms.bmp.bga_argb_changes.poor@, time)
                &&& none_after(bms.bmp.bga_argb_changes.overlay@, time)
                &&& none_after(bms.bmp.bga_argb_changes.overlay2@, time)
                &&& none_after(bms.bmp.bga_keybound_events@, time)
                &&& none_after(bms.volume.bgm_volume_changes@, time)
                &&& none_after(bms.volume.key_volume_changes@, time)
                &&& none_after(bms.text.text_events@, time)
                &&& none_after(bms.judge.judge_events@, time)
                &&& none_after(bms.video.seek_events@, time)
                &&& none_after(bms.option.option_events@, time)
                &&& {
                    ||| exists|i: int|
                        0 <= i < bms.wav.notes@.len() && (#[trigger] bms.wav.notes@[i]).offset
                            == time
                    ||| exists|i: int|
                        0 <= i < bms.section_len.section_len_changes@.len() && ObjTime::at(
                            (#[trigger] bms.section_len.section_len_changes@[i]).0,
                            0,
                            1,
                        ) == time
                    ||| is_time_of(bms.bpm.bpm_changes@, time)
                    ||| is_time_of(bms.bpm.bpm_changes_u8@, time)
                    ||| is_time_of(bms.stop.stops@, time)
                    ||| is_time_of(bms.scroll.scrolling_factor_changes@, time)
                    ||| is_time_of(bms.bmp.bga_changes@, time)
                    ||| is_time_of(bms.bmp.bga_opacity_changes.base@, time)
                    ||| is_time_of(bms.bmp.bga_opacity_changes.poor@, time)
                    ||| is_time_of(bms.bmp.bga_opacity_changes.overlay@, time)
                    ||| is_time_of(bms.bmp.bga_opacity_changes.overlay2@, time)
                    ||| is_time_of(bms.bmp.bga_argb_changes.base@, time)
                    ||| is_time_of(bms.bmp.bga_argb_changes.poor@, time)
                    ||| is_time_of(bms.bmp.bga_argb_changes.overlay@, time)
                    ||| is_time_of(bms.bmp.bga_argb_changes.overlay2@, time)
                    ||| is_time_of(bms.bmp.bga_keybound_events@, time)
                    ||| is_time_of(bms.volume.bgm_volume_changes@, time)
                    ||| is_time_of(bms.volume.key_volume_changes@, time)
                    ||| is_time_of(bms.text.text_events@, time)
                    ||| is_time_of(bms.judge.judge_events@, time)
                    ||| is_time_of(bms.video.seek_events@, time)
                    ||| is_time_of(bms.option.option_events@, time)
                }
            },
            None => {
                &&& bms.wav.notes@.len() == 0
                &&& bms.section_len.section_len_changes@.len() == 0
                &&& bms.bpm.bpm_changes@.len() == 0
                &&& bms.bpm.bpm_changes_u8@.len() == 0
                &&& bms.stop.stops@.len() == 0
                &&& bms.scroll.scrolling_factor_changes@.len() == 0
                &&& bms.bmp.bga_changes@.len() == 0
                &&& bms.bmp.bga_opacity_changes.base@.len() == 0
                &&& bms.bmp.bga_opacity_changes.poor@.len() == 0
                &&& bms.bmp.bga_opacity_changes.overlay@.len() == 0
                &&& bms.bmp.bga_opacity_changes.overlay2@.len() == 0
                &&& bms.bmp.bga_argb_changes.base@.len() == 0
                &&& bms.bmp.bga_argb_changes.poor@.len() == 0
                &&& bms.bmp.bga_argb_changes.overlay@.len() == 0
                &&& bms.bmp.bga_argb_changes.overlay2@.len() == 0
                &&& bms.bmp.bga_keybound_events@.len() == 0
                &&& bms.volume.bgm_volume_changes@.len() == 0
                &&& bms.volume.key_volume_changes@.len() == 0
                &&& bms.text.text_events@.len() == 0
                &&& bms.judge.judge_events@.len() == 0
                &&& bms.video.seek_events@.len() == 0
                &&& bms.option.option_events@.len() == 0
            },
        },
        match bms.spec_last_obj_time() {
            Some(time) => {
                &&& none_after(bms.speed.speed_factor_changes@, time)
                &&& bms.spec_last_unspaced_time() matches Some(other) ==> !time.below(other)
                &&& bms.spec_last_unspaced_time() == Some(time) || is_time_of(
                    bms.speed.speed_factor_changes@,
                    time,
                )
            },
            None => bms.spec_last_unspaced_time() is None
                && bms.speed.speed_factor_changes@.len() == 0,
        },
{
    let tracks = bms.section_len.section_len_changes@;
    let t = last_note_time(bms.wav.notes@);
    lemma_last_note_time(bms.wav.notes@);
    assert forall|i: int| 0 <= i < bms.wav.notes@.len() implies reaches(
        t,
        (#[trigger] bms.wav.notes@[i]).offset,
    ) by {}
    lemma_later_key(t, bms.bpm.bpm_changes@);
    let t = later_key(t, bms.bpm.bpm_changes@);
    lemma_later_key(t, bms.bpm.bpm_changes_u8@);
    let t = later_key(t, bms.bpm.bpm_changes_u8@);
    let start = match last_key_of(tracks) {
        Some(track) => Some(ObjTime::at(track, 0, 1)),
        None => None,
    };
    lemma_later_of(t, start);
    assert forall|i: int| 0 <= i < tracks.len() implies reaches(
        start,
        ObjTime::at((#[trigger] tracks[i]).0, 0, 1),
    ) by {
        broadcast use ObjTime::lemma_at;

        if i < tracks.len() - 1 {
            assert(tracks[i].0.below(tracks[tracks.len() - 1].0));
        }
    }
    if tracks.len() > 0 {
        assert(start->0 == ObjTime::at(tracks[tracks.len() - 1].0, 0, 1));
    }
    let t = match last_key_of(tracks) {
        Some(track) => later_of(t, Some(ObjTime::at(track, 0, 1))),
        None => t,
    };
    lemma_later_key(t, bms.stop.stops@);
    let t = later_key(t, bms.stop.stops@);
    lemma_later_key(t, bms.scroll.scrolling_factor_changes@);
    let t = later_key(t, bms.scroll.scrolling_factor_changes@);
    lemma_later_key(t, bms.bmp.bga_changes@);
    let t = later_key(t, bms.bmp.bga_changes@);
    lemma_later_layer_key(t, bms.bmp.bga_opacity_changes);
    let t = later_layer_key(t, bms.bmp.bga_opacity_changes);
    lemma_later_layer_key(t, bms.bmp.bga_argb_changes);
    let t = later_layer_key(t, bms.bmp.bga_argb_changes);
    lemma_later_key(t, bms.bmp.bga_keybound_events@);
    let t = later_key(t, bms.bmp.bga_keybound_events@);
    lemma_later_key(t, bms.volume.bgm_volume_changes@);
    let t = later_key(t, bms.volume.bgm_volume_changes@);
    lemma_later_key(t, bms.volume.key_volume_changes@);
    let t = later_key(t, bms.volume.key_volume_changes@);
    lemma_later_key(t, bms.text.text_events@);
    let t = later_key(t, bms.text.text_events@);
    lemma_later_key(t, bms.judge.judge_events@);
    let t = later_key(t, bms.judge.judge_events@);
    lemma_later_key(t, bms.video.seek_events@);
    let t = later_key(t, bms.video.seek_events@);
    lemma_later_key(t, bms.option.option_events@);
    let t = later_key(t, bms.option.option_events@);
    assert(t == bms.spec_last_unspaced_time());
    lemma_later_key(t, bms.speed.speed_factor_changes@);
    if t is Some {
        ObjTime::lemma_irreflexive(t->0);
        assert(reaches(t, t->0));
    }
}

} // verus!
