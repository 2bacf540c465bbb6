//! Note channels and the lanes that they stand for.

use vstd::prelude::*;

verus! {

/// The side of a player.
#[derive(Clone, Copy, PartialEq, Eq, Structural, PartialOrd, Ord, Debug, Hash)]
pub enum PlayerSide {
    /// The first player.
    Player1,
    /// The second player.
    Player2,
}

/// A key of the controller.
#[derive(Clone, Copy, PartialEq, Eq, Structural, PartialOrd, Ord, Debug, Hash)]
pub enum Key {
    /// A numbered key.
    Key(u8),
    /// A numbered scratch.
    Scratch(u8),
    /// The foot pedal.
    FootPedal,
    /// The free zone.
    FreeZone,
}

/// How a note is played.
#[derive(Clone, Copy, PartialEq, Eq, Structural, PartialOrd, Ord, Debug, Hash)]
pub enum NoteKind {
    /// A visible note.
    Visible,
    /// An invisible note.
    Invisible,
    /// One end of a long note.
    Long,
    /// A note to be avoided.
    Landmine,
}

/// A note channel, by the two characters that name it.
#[derive(Clone, Copy, PartialEq, Eq, Structural, PartialOrd, Ord, Debug, Hash)]
pub struct NoteChannelId(pub u8, pub u8);

/// A key layout: which channels are lanes, and which lanes they are.
pub trait KeyLayoutMapper: Sized {
    /// The lane of a channel.
    spec fn of_channel(channel_id: NoteChannelId) -> Option<Self>;

    /// The side of the lane.
    spec fn spec_side(&self) -> PlayerSide;

    /// The key of the lane.
    spec fn spec_key(&self) -> Key;

    /// The kind of the notes on the lane.
    spec fn spec_kind(&self) -> NoteKind;

    /// The lane of a channel.
    fn from_channel_id(channel_id: NoteChannelId) -> (r: Option<Self>)
        ensures
            r == Self::of_channel(channel_id),
    ;

    /// The side of the lane.
    fn side(&self) -> (r: PlayerSide)
        ensures
            r == self.spec_side(),
    ;

    /// The key of the lane.
    fn key(&self) -> (r: Key)
        ensures
            r == self.spec_key(),
    ;

    /// The kind of the notes on the lane.
    fn kind(&self) -> (r: NoteKind)
        ensures
            r == self.spec_kind(),
    ;
}

/// A lane of the layout with seven keys and a scratch on each side.
#[derive(Clone, Copy, PartialEq, Eq, Structural, PartialOrd, Ord, Debug, Hash)]
pub struct KeyLayoutBeat {
    /// The side of the lane.
    pub side: PlayerSide,
    /// The kind of the notes on the lane.
    pub kind: NoteKind,
    /// The key of the lane.
    pub key: Key,
}

/// The side and the kind that the first character of a channel stands for.
pub open spec fn side_and_kind(c: u8) -> Option<(PlayerSide, NoteKind)> {
    if c == 0x31 {
        Some((PlayerSide::Player1, NoteKind::Visible))
    } else if c == 0x32 {
        Some((PlayerSide::Player2, NoteKind::Visible))
    } else if c == 0x33 {
        Some((PlayerSide::Player1, NoteKind::Invisible))
    } else if c == 0x34 {
        Some((PlayerSide::Player2, NoteKind::Invisible))
    } else if c == 0x35 {
        Some((PlayerSide::Player1, NoteKind::Long))
    } else if c == 0x36 {
        Some((PlayerSide::Player2, NoteKind::Long))
    } else if c == 0x44 {
        Some((PlayerSide::Player1, NoteKind::Landmine))
    } else if c == 0x45 {
        Some((PlayerSide::Player2, NoteKind::Landmine))
    } else {
        None
    }
}

/// The key that the second character of a channel stands for: the digits one to five,
/// eight and nine are keys, six is the scratch and seven the free zone.
pub open spec fn beat_key(c: u8) -> Option<Key> {
    if 0x31 <= c <= 0x35 {
        Some(Key::Key((c - 0x30) as u8))
    } else if c == 0x36 {
        Some(Key::Scratch(1))
    } else if c == 0x37 {
        Some(Key::FreeZone)
    } else if 0x38 <= c <= 0x39 {
        Some(Key::Key((c - 0x32) as u8))
    } else {
        None
    }
}

impl KeyLayoutMapper for KeyLayoutBeat {
    open spec fn of_channel(channel_id: NoteChannelId) -> Option<Self> {
        match (side_and_kind(channel_id.0), beat_key(channel_id.1)) {
            (Some((side, kind)), Some(key)) => Some(KeyLayoutBeat { side, kind, key }),
            _ => None,
        }
    }

    open spec fn spec_side(&self) -> PlayerSide {
        self.side
    }

    open spec fn spec_key(&self) -> Key {
        self.key
    }

    open spec fn spec_kind(&self) -> NoteKind {
        self.kind
    }

    fn from_channel_id(channel_id: NoteChannelId) -> (r: Option<Self>) {
        let (side, kind) = match channel_id.0 {
            0x31 => (PlayerSide::Player1, NoteKind::Visible),
            0x32 => (PlayerSide::Player2, NoteKind::Visible),
            0x33 => (PlayerSide::Player1, NoteKind::Invisible),
            0x34 => (PlayerSide::Player2, NoteKind::Invisible),
            0x35 => (PlayerSide::Player1, NoteKind::Long),
            0x36 => (PlayerSide::Player2, NoteKind::Long),
            0x44 => (PlayerSide::Player1, NoteKind::Landmine),
            0x45 => (PlayerSide::Player2, NoteKind::Landmine),
            _ => return None,
        };
        let c: u8 = channel_id.1;
        let key = if 0x31 <= c && c <= 0x35 {
            Key::Key(c - 0x30)
        } else if c == 0x36 {
            Key::Scratch(1)
        } else if c == 0x37 {
            Key::FreeZone
        } else if c == 0x38 || c == 0x39 {
            Key::Key(c - 0x32)
        } else {
            return None;
        };
        Some(KeyLayoutBeat { side, kind, key })
    }

    fn side(&self) -> (r: PlayerSide) {
        self.side
    }

    fn key(&self) -> (r: Key) {
        self.key
    }

    fn kind(&self) -> (r: NoteKind) {
        self.kind
    }
}

/// The side, key and kind of the lane that a channel stands for in a layout.
pub open spec fn lane_of<T: KeyLayoutMapper>(channel_id: NoteChannelId) -> Option<
    (PlayerSide, Key, NoteKind),
> {
    match T::of_channel(channel_id) {
        Some(lane) => Some((lane.spec_side(), lane.spec_key(), lane.spec_kind())),
        None => None,
    }
}

/// Whether a character is a digit from one to nine.
pub open spec fn is_lane_digit(c: u8) -> bool {
    c == 0x31 || c == 0x32 || c == 0x33 || c == 0x34 || c == 0x35 || c == 0x36 || c == 0x37 || c
        == 0x38 || c == 0x39
}

/// Which channels are lanes, and which: those whose first character is a digit from one to
/// six or one of `D` and `E` and whose second is a digit from one to nine. Of the first
/// characters `1`, `3`, `5` and `D` are the first player's, and `2`, `4`, `6` and `E` the
/// second's; the pairs stand for visible, invisible and long notes and for landmines. Of
/// the second characters `6` is the scratch, `7` the free zone, `1` to `5` are the first
/// five keys and `8` and `9` the next two. Different channels are different lanes or kinds.
pub proof fn lemma_beat_lanes(channel: NoteChannelId, other: NoteChannelId)
    ensures
        KeyLayoutBeat::of_channel(channel) is Some <==> (channel.0 == 0x31 || channel.0 == 0x32
            || channel.0 == 0x33 || channel.0 == 0x34 || channel.0 == 0x35 || channel.0 == 0x36
            || channel.0 == 0x44 || channel.0 == 0x45) && is_lane_digit(channel.1),
        lane_of::<KeyLayoutBeat>(channel) matches Some((side, key, kind)) ==> {
            &&& side == PlayerSide::Player1 <==> channel.0 == 0x31 || channel.0 == 0x33
                || channel.0 == 0x35 || channel.0 == 0x44
            &&& kind == NoteKind::Visible <==> channel.0 == 0x31 || channel.0 == 0x32
            &&& kind == NoteKind::Invisible <==> channel.0 == 0x33 || channel.0 == 0x34
            &&& kind == NoteKind::Long <==> channel.0 == 0x35 || channel.0 == 0x36
            &&& kind == NoteKind::Landmine <==> channel.0 == 0x44 || channel.0 == 0x45
            &&& key == Key::Scratch(1) <==> channel.1 == 0x36
            &&& key == Key::FreeZone <==> channel.1 == 0x37
            &&& key == Key::Key(1) <==> channel.1 == 0x31
            &&& key == Key::Key(2) <==> channel.1 == 0x32
            &&& key == Key::Key(3) <==> channel.1 == 0x33
            &&& key == Key::Key(4) <==> channel.1 == 0x34
            &&& key == Key::Key(5) <==> channel.1 == 0x35
            &&& key == Key::Key(6) <==> channel.1 == 0x38
            &&& key == Key::Key(7) <==> channel.1 == 0x39
        },
        KeyLayoutBeat::of_channel(channel) is Some && KeyLayoutBeat::of_channel(channel)
            == KeyLayoutBeat::of_channel(other) ==> channel == other,
{
}

} // verus!
