use bms_rs::channel::{Key, KeyLayoutBeat, NoteChannelId, NoteKind, PlayerSide};
use bms_rs::note::Lanes;
use bms_rs::process::BmsProcessor;

fn lane(channel: &[u8; 2]) -> Option<(PlayerSide, Key, NoteKind)> {
    BmsProcessor::lane_of_channel_id::<KeyLayoutBeat>(NoteChannelId(channel[0], channel[1]))
}

#[test]
fn channels_stand_for_lanes() {
    assert_eq!(lane(b"11"), Some((PlayerSide::Player1, Key::Key(1), NoteKind::Visible)));
    assert_eq!(lane(b"29"), Some((PlayerSide::Player2, Key::Key(7), NoteKind::Visible)));
    assert_eq!(lane(b"36"), Some((PlayerSide::Player1, Key::Scratch(1), NoteKind::Invisible)));
    assert_eq!(lane(b"68"), Some((PlayerSide::Player2, Key::Key(6), NoteKind::Long)));
    assert_eq!(lane(b"D7"), Some((PlayerSide::Player1, Key::FreeZone, NoteKind::Landmine)));
    assert_eq!(lane(b"01"), None);
    assert_eq!(lane(b"1A"), None);
}

#[test]
fn lanes_open_and_close() {
    let mut lanes = Lanes::new();
    assert!(!lanes.remove(PlayerSide::Player1, Key::Key(1)));
    lanes.insert(PlayerSide::Player1, Key::Key(1));
    lanes.insert(PlayerSide::Player2, Key::Key(1));
    assert!(lanes.remove(PlayerSide::Player1, Key::Key(1)));
    assert!(!lanes.remove(PlayerSide::Player1, Key::Key(1)));
    assert!(lanes.remove(PlayerSide::Player2, Key::Key(1)));
}

#[test]
fn a_lane_that_is_open_stays_open_once() {
    let mut lanes = Lanes::new();
    lanes.insert(PlayerSide::Player1, Key::Key(2));
    lanes.insert(PlayerSide::Player1, Key::Key(3));
    lanes.insert(PlayerSide::Player1, Key::Key(2));
    assert!(lanes.remove(PlayerSide::Player1, Key::Key(2)));
    assert!(!lanes.remove(PlayerSide::Player1, Key::Key(2)));
    assert!(lanes.remove(PlayerSide::Player1, Key::Key(3)));
}
