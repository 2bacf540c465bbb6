//! The events of a chart.

use crate::channel::{Key, NoteKind, PlayerSide};
use crate::num::{FinF64, NonNegativeF64, PositiveF64};
use crate::ordered::OrderKey;
#[allow(unused_imports)]
use crate::rounding::{lemma_order, magnitude};
use vstd::prelude::*;

verus! {

/// A position along the chart: one for each measure of the default length.
#[derive(Clone, Copy, PartialEq, Eq, Structural, PartialOrd, Ord, Debug, Hash)]
pub struct YCoordinate(pub NonNegativeF64);

impl View for YCoordinate {
    type V = u64;

    open spec fn view(&self) -> u64 {
        self.0@
    }
}

impl YCoordinate {
    /// The position with the given bit pattern.
    pub open spec fn of(bits: u64) -> Self {
        YCoordinate(NonNegativeF64::of(bits))
    }
}

impl OrderKey for YCoordinate {
    open spec fn below(self, other: Self) -> bool {
        self@ < other@
    }

    proof fn lemma_irreflexive(a: Self) {
    }

    proof fn lemma_transitive(a: Self, b: Self, c: Self) {
    }

    proof fn lemma_not_below_transitive(a: Self, b: Self, c: Self) {
    }

    fn is_below(&self, other: &Self) -> (r: bool) {
        self.0.to_bits() < other.0.to_bits()
    }
}

/// A time since the start of the chart, in seconds.
#[derive(Clone, Copy, PartialEq, Eq, Structural, Debug, Hash)]
pub enum Seconds {
    /// A number of seconds.
    Finite(NonNegativeF64),
    /// Later than every number of seconds.
    Infinite,
}

/// The number of a sound file.
#[derive(Clone, Copy, PartialEq, Eq, Structural, PartialOrd, Ord, Debug, Hash)]
pub struct WavId(pub usize);

impl OrderKey for WavId {
    open spec fn below(self, other: Self) -> bool {
        self.0 < other.0
    }

    proof fn lemma_irreflexive(a: Self) {
    }

    proof fn lemma_transitive(a: Self, b: Self, c: Self) {
    }

    proof fn lemma_not_below_transitive(a: Self, b: Self, c: Self) {
    }

    fn is_below(&self, other: &Self) -> (r: bool) {
        self.0 < other.0
    }
}

/// The number of an image file.
#[derive(Clone, Copy, PartialEq, Eq, Structural, PartialOrd, Ord, Debug, Hash)]
pub struct BmpId(pub usize);

impl OrderKey for BmpId {
    open spec fn below(self, other: Self) -> bool {
        self.0 < other.0
    }

    proof fn lemma_irreflexive(a: Self) {
    }

    proof fn lemma_transitive(a: Self, b: Self, c: Self) {
    }

    proof fn lemma_not_below_transitive(a: Self, b: Self, c: Self) {
    }

    fn is_below(&self, other: &Self) -> (r: bool) {
        self.0 < other.0
    }
}

/// The number of an event, in the order in which the events were made. It is wider
/// than any count of objects, so that no chart runs out of numbers.
#[derive(Clone, Copy, PartialEq, Eq, Structural, PartialOrd, Ord, Debug, Hash)]
pub struct ChartEventId(pub u128);

/// A layer of the background animation.
#[derive(Clone, Copy, PartialEq, Eq, Structural, PartialOrd, Ord, Debug, Hash)]
pub enum BgaLayer {
    /// The lowest layer.
    Base,
    /// The layer for missed notes.
    Poor,
    /// The layer above the lowest.
    Overlay,
    /// The layer above that.
    Overlay2,
}

/// A colour with its opacity.
#[derive(Clone, Copy, PartialEq, Eq, Structural, PartialOrd, Ord, Debug, Hash)]
pub struct Argb {
    /// The opacity.
    pub alpha: u8,
    /// The red part.
    pub red: u8,
    /// The green part.
    pub green: u8,
    /// The blue part.
    pub blue: u8,
}

/// How strictly the timing is judged.
#[derive(Clone, Copy, PartialEq, Eq, Structural, PartialOrd, Ord, Debug, Hash)]
pub enum JudgeLevel {
    /// Very strictly.
    VeryHard,
    /// Strictly.
    Hard,
    /// As usual.
    Normal,
    /// Loosely.
    Easy,
    /// By some other level.
    OtherInt(i64),
}

/// An animation bound to keys.
#[derive(Debug, PartialEq, Eq)]
pub struct SwBgaEvent {
    /// The time for each frame.
    pub frame_rate: u32,
    /// The whole time.
    pub total_time: u32,
    /// The line of keys.
    pub line: u8,
    /// Whether the animation repeats.
    pub loop_mode: bool,
    /// The transparent colour.
    pub argb: Argb,
    /// The pattern of the frames.
    pub pattern: String,
}

impl Clone for SwBgaEvent {
    fn clone(&self) -> (r: Self)
        ensures
            r == *self,
    {
        SwBgaEvent {
            frame_rate: self.frame_rate,
            total_time: self.total_time,
            line: self.line,
            loop_mode: self.loop_mode,
            argb: self.argb,
            pattern: self.pattern.clone(),
        }
    }
}

/// An event that only this format knows.
#[derive(Debug, PartialEq, Eq)]
pub enum BmsEvent {
    /// The opacity of a layer changes.
    BgaOpacityChange {
        /// The layer.
        layer: BgaLayer,
        /// The opacity.
        opacity: u8,
    },
    /// The colour of a layer changes.
    BgaArgbChange {
        /// The layer.
        layer: BgaLayer,
        /// The colour.
        argb: Argb,
    },
    /// The volume of the background music changes.
    BgmVolumeChange {
        /// The volume.
        volume: u8,
    },
    /// The volume of the key sounds changes.
    KeyVolumeChange {
        /// The volume.
        volume: u8,
    },
    /// A text is shown.
    TextDisplay {
        /// The text.
        text: String,
    },
    /// The judge level changes.
    JudgeLevelChange {
        /// The level.
        level: JudgeLevel,
    },
    /// The video moves to a place.
    VideoSeek {
        /// The place, in seconds.
        seek_time: FinF64,
    },
    /// An animation is bound to keys.
    BgaKeybound {
        /// The animation.
        event: SwBgaEvent,
    },
    /// An option changes.
    OptionChange {
        /// The option.
        option: String,
    },
}

impl Clone for BmsEvent {
    fn clone(&self) -> (r: Self)
        ensures
            r == *self,
    {
        match self {
            BmsEvent::BgaOpacityChange { layer, opacity } => BmsEvent::BgaOpacityChange {
                layer: *layer,
                opacity: *opacity,
            },
            BmsEvent::BgaArgbChange { layer, argb } => BmsEvent::BgaArgbChange {
                layer: *layer,
                argb: *argb,
            },
            BmsEvent::BgmVolumeChange { volume } => BmsEvent::BgmVolumeChange { volume: *volume },
            BmsEvent::KeyVolumeChange { volume } => BmsEvent::KeyVolumeChange { volume: *volume },
            BmsEvent::TextDisplay { text } => BmsEvent::TextDisplay { text: text.clone() },
            BmsEvent::JudgeLevelChange { level } => BmsEvent::JudgeLevelChange { level: *level },
            BmsEvent::VideoSeek { seek_time } => BmsEvent::VideoSeek { seek_time: *seek_time },
            BmsEvent::BgaKeybound { event } => BmsEvent::BgaKeybound { event: event.clone() },
            BmsEvent::OptionChange { option } => BmsEvent::OptionChange { option: option.clone() },
        }
    }
}

/// Something that happens at a position of the chart.
#[allow(inconsistent_fields)]
#[derive(Debug, PartialEq, Eq)]
pub enum ChartEvent {
    /// A note of a lane.
    Note {
        /// The side of the lane.
        side: PlayerSide,
        /// The key of the lane.
        key: Key,
        /// The kind of the note.
        kind: NoteKind,
        /// The sound.
        wav_id: Option<WavId>,
        /// The length of a long note.
        length: Option<NonNegativeF64>,
        /// Where the sound goes on from, if it does.
        continue_play: Option<Seconds>,
    },
    /// A sound of the background.
    Bgm {
        /// The sound.
        wav_id: Option<WavId>,
    },
    /// The tempo changes.
    BpmChange {
        /// The beats per minute.
        bpm: PositiveF64,
    },
    /// The scroll speed changes.
    ScrollChange {
        /// The factor.
        factor: FinF64,
    },
    /// The spacing of the notes changes.
    SpeedChange {
        /// The factor.
        factor: PositiveF64,
    },
    /// The chart stops.
    Stop {
        /// For how many beats.
        duration: NonNegativeF64,
    },
    /// The background animation changes.
    BgaChange {
        /// The layer.
        layer: BgaLayer,
        /// The image.
        bmp_id: Option<BmpId>,
    },
    /// A measure line.
    BarLine,
    /// An event that only this format knows.
    Bms(BmsEvent),
}

impl Clone for ChartEvent {
    fn clone(&self) -> (r: Self)
        ensures
            r == *self,
    {
        match self {
            ChartEvent::Note { side, key, kind, wav_id, length, continue_play } => ChartEvent::Note {
                side: *side,
                key: *key,
                kind: *kind,
                wav_id: *wav_id,
                length: *length,
                continue_play: *continue_play,
            },
            ChartEvent::Bgm { wav_id } => ChartEvent::Bgm { wav_id: *wav_id },
            ChartEvent::BpmChange { bpm } => ChartEvent::BpmChange { bpm: *bpm },
            ChartEvent::ScrollChange { factor } => ChartEvent::ScrollChange { factor: *factor },
            ChartEvent::SpeedChange { factor } => ChartEvent::SpeedChange { factor: *factor },
            ChartEvent::Stop { duration } => ChartEvent::Stop { duration: *duration },
            ChartEvent::BgaChange { layer, bmp_id } => ChartEvent::BgaChange {
                layer: *layer,
                bmp_id: *bmp_id,
            },
            ChartEvent::BarLine => ChartEvent::BarLine,
            ChartEvent::Bms(event) => ChartEvent::Bms(event.clone()),
        }
    }
}

/// A change of the playback speed or scroll.
#[derive(Clone, Copy, PartialEq, Eq, Structural, Debug)]
pub enum FlowEvent {
    /// The tempo changes.
    Bpm(PositiveF64),
    /// The spacing of the notes changes.
    Speed(PositiveF64),
    /// The scroll speed changes.
    Scroll(FinF64),
}

/// An event with its place in the chart.
#[derive(Debug, PartialEq, Eq)]
pub struct PlayheadEvent {
    /// The number of the event.
    pub id: ChartEventId,
    /// The position.
    pub position: YCoordinate,
    /// The position without spacing, by which the event is timed.
    pub unspaced: YCoordinate,
    /// What happens.
    pub event: ChartEvent,
    /// When the playhead reaches the position.
    pub activate_time: Seconds,
}

impl Clone for PlayheadEvent {
    fn clone(&self) -> (r: Self)
        ensures
            r == *self,
    {
        PlayheadEvent {
            id: self.id,
            position: self.position,
            unspaced: self.unspaced,
            event: self.event.clone(),
            activate_time: self.activate_time,
        }
    }
}

/// An event with the time at which it is reached.
pub open spec fn timed(event: PlayheadEvent, time: Seconds) -> PlayheadEvent {
    PlayheadEvent {
        id: event.id,
        position: event.position,
        unspaced: event.unspaced,
        event: event.event,
        activate_time: time,
    }
}

/// Events with the times at which their positions without spacing are reached.
pub open spec fn timed_list(
    events: Seq<PlayheadEvent>,
    time_of: spec_fn(u64) -> Seconds,
) -> Seq<PlayheadEvent> {
    events.map_values(|event: PlayheadEvent| timed(event, time_of(event.unspaced@)))
}

/// Positions are ordered as the numbers that they are, and so are files as their numbers.
pub proof fn lemma_position_order(a: YCoordinate, b: YCoordinate, c: WavId, d: WavId)
    ensures
        a.below(b) <==> magnitude(a@ as nat) < magnitude(b@ as nat),
        c.below(d) <==> c.0 < d.0,
        BmpId(c.0).below(BmpId(d.0)) <==> c.0 < d.0,
{
    lemma_order(b@ as nat, a@ as nat);
}

} // verus!
