use bms_rs::bms::{
    BgaArgbObj, BgaKeyboundObj, BgaObj, BgaOpacityObj, Bmp, Bms, JudgeObj, ObjId, OptionObj,
    ScrollingFactorObj, SeekObj, SpeedObj, TextObj, VolumeObj, WavObj,
};
use bms_rs::channel::{KeyLayoutBeat, NoteChannelId};
use bms_rs::chart::AllEventsIndex;
use bms_rs::event::{
    Argb, BgaLayer, BmpId, BmsEvent, ChartEvent, FlowEvent, JudgeLevel, SwBgaEvent, WavId,
};
use bms_rs::events::convert_stop_duration_to_beats;
use bms_rs::note::event_for_note_static;
use bms_rs::num::{FinF64, NonNegativeF64, PositiveF64};
use bms_rs::time::{ObjTime, Track};
use bms_rs::y_memo::YMemo;

fn non_negative(x: f64) -> NonNegativeF64 {
    NonNegativeF64::from_bits(x.to_bits()).unwrap()
}

fn positive(x: f64) -> PositiveF64 {
    PositiveF64::from_bits(x.to_bits()).unwrap()
}

fn finite(x: f64) -> FinF64 {
    FinF64::from_bits(x.to_bits()).unwrap()
}

fn argb(alpha: u8) -> Argb {
    Argb { alpha, red: 1, green: 2, blue: 3 }
}

#[test]
fn every_kind_of_object_has_its_event() {
    let mut bms = Bms::default();
    let time = ObjTime::start_of(Track(2));
    bms.scroll
        .scrolling_factor_changes
        .insert(time, ScrollingFactorObj { time, factor: finite(-1.5) });
    bms.bmp.bga_changes.insert(time, BgaObj { time, id: ObjId(6), layer: BgaLayer::Poor });
    bms.bmp.bga_opacity_changes.overlay.insert(time, BgaOpacityObj { time, opacity: 9 });
    bms.bmp.bga_opacity_changes.base.insert(time, BgaOpacityObj { time, opacity: 8 });
    bms.bmp.bga_opacity_changes.poor.insert(time, BgaOpacityObj { time, opacity: 7 });
    bms.bmp.bga_opacity_changes.overlay2.insert(time, BgaOpacityObj { time, opacity: 6 });
    bms.bmp.bga_argb_changes.overlay2.insert(time, BgaArgbObj { time, argb: argb(5) });
    bms.bmp.bga_argb_changes.base.insert(time, BgaArgbObj { time, argb: argb(2) });
    bms.bmp.bga_argb_changes.poor.insert(time, BgaArgbObj { time, argb: argb(3) });
    bms.bmp.bga_argb_changes.overlay.insert(time, BgaArgbObj { time, argb: argb(4) });
    bms.volume.bgm_volume_changes.insert(time, VolumeObj { time, volume: 10 });
    bms.volume.key_volume_changes.insert(time, VolumeObj { time, volume: 11 });
    bms.text.text_events.insert(time, TextObj { time, text: "hello".to_string() });
    bms.judge
        .judge_events
        .insert(time, JudgeObj { time, judge_level: JudgeLevel::Normal });
    bms.video.seek_events.insert(time, SeekObj { time, position: finite(12.5) });
    let animation = SwBgaEvent {
        frame_rate: 60,
        total_time: 100,
        line: 1,
        loop_mode: true,
        argb: argb(1),
        pattern: "01".to_string(),
    };
    bms.bmp
        .bga_keybound_events
        .insert(time, BgaKeyboundObj { time, event: animation.clone() });
    bms.option.option_events.insert(time, OptionObj { time, option: "HSP".to_string() });
    let memo = YMemo::new(&bms);
    let index = AllEventsIndex::precompute_all_events::<KeyLayoutBeat>(&bms, &memo);
    let opacity =
        |layer, opacity| ChartEvent::Bms(BmsEvent::BgaOpacityChange { layer, opacity });
    let colour = |layer, alpha| {
        ChartEvent::Bms(BmsEvent::BgaArgbChange { layer, argb: argb(alpha) })
    };
    let expected = vec![
        ChartEvent::BarLine,
        ChartEvent::BarLine,
        ChartEvent::ScrollChange { factor: finite(-1.5) },
        ChartEvent::BgaChange { layer: BgaLayer::Poor, bmp_id: Some(BmpId(6)) },
        opacity(BgaLayer::Base, 8),
        opacity(BgaLayer::Poor, 7),
        opacity(BgaLayer::Overlay, 9),
        opacity(BgaLayer::Overlay2, 6),
        colour(BgaLayer::Base, 2),
        colour(BgaLayer::Poor, 3),
        colour(BgaLayer::Overlay, 4),
        colour(BgaLayer::Overlay2, 5),
        ChartEvent::Bms(BmsEvent::BgmVolumeChange { volume: 10 }),
        ChartEvent::Bms(BmsEvent::KeyVolumeChange { volume: 11 }),
        ChartEvent::Bms(BmsEvent::TextDisplay { text: "hello".to_string() }),
        ChartEvent::Bms(BmsEvent::JudgeLevelChange { level: JudgeLevel::Normal }),
        ChartEvent::Bms(BmsEvent::VideoSeek { seek_time: finite(12.5) }),
        ChartEvent::Bms(BmsEvent::BgaKeybound { event: animation }),
        ChartEvent::Bms(BmsEvent::OptionChange { option: "HSP".to_string() }),
        ChartEvent::BarLine,
    ];
    let found: Vec<_> = index.as_events().iter().map(|event| event.event.clone()).collect();
    assert_eq!(found, expected);
}

#[test]
fn flow_events_are_kept_by_position() {
    let mut bms = Bms::default();
    let time = ObjTime::start_of(Track(1));
    bms.scroll
        .scrolling_factor_changes
        .insert(time, ScrollingFactorObj { time, factor: finite(0.5) });
    bms.bpm.bpm_changes_u8.insert(time, 90);
    let later = ObjTime::start_of(Track(3));
    bms.speed.speed_factor_changes.insert(later, SpeedObj { time: later, factor: positive(2.0) });
    let memo = YMemo::new(&bms);
    let flow = memo.flow_events();
    assert_eq!(flow.len(), 2);
    assert_eq!(flow.position(0).0, non_negative(1.0));
    assert_eq!(
        *flow.list(0),
        vec![FlowEvent::Bpm(positive(90.0)), FlowEvent::Scroll(finite(0.5))]
    );
    // The spacing already counts where it changes.
    assert_eq!(flow.position(1).0, non_negative(6.0));
    assert_eq!(*flow.list(1), vec![FlowEvent::Speed(positive(2.0))]);
}

#[test]
fn resources_keep_their_numbers() {
    let mut bms = Bms::default();
    bms.wav.wav_files.insert(ObjId(35), "z.wav".to_string());
    bms.wav.wav_files.insert(ObjId(1), "a.wav".to_string());
    bms.bmp
        .bmp_files
        .insert(ObjId(2), Bmp { file: "b.bmp".to_string(), transparent_color: argb(0) });
    let chart = bms.process::<KeyLayoutBeat>().expect("nothing is wrong");
    assert_eq!(chart.resources.wav_files.len(), 2);
    assert_eq!(chart.resources.wav_files.get(WavId(1)).unwrap(), "a.wav");
    assert_eq!(chart.resources.wav_files.get(WavId(35)).unwrap(), "z.wav");
    assert_eq!(chart.resources.bmp_files.get(BmpId(2)).unwrap(), "b.bmp");
    assert!(chart.resources.bmp_files.get(BmpId(1)).is_none());
}

#[test]
fn forty_eight_units_are_a_beat() {
    assert_eq!(convert_stop_duration_to_beats(non_negative(48.0)), non_negative(1.0));
    assert_eq!(convert_stop_duration_to_beats(non_negative(750.0)), non_negative(15.625));
    assert_eq!(convert_stop_duration_to_beats(non_negative(0.0)), non_negative(0.0));
    assert_eq!(
        convert_stop_duration_to_beats(non_negative(1.0)),
        non_negative(1.0 / 48.0)
    );
}

#[test]
fn notes_are_converted_one_by_one() {
    let mut bms = Bms::default();
    let start = WavObj {
        offset: ObjTime::start_of(Track(0)),
        channel_id: NoteChannelId(b'5', b'6'),
        wav_id: ObjId(4),
    };
    let end = WavObj { offset: ObjTime::new(Track(0), 3, 4).unwrap(), ..start };
    bms.wav.notes.push_note(end);
    bms.wav.notes.push_note(start);
    let memo = YMemo::new(&bms);
    match event_for_note_static::<KeyLayoutBeat>(&bms, &memo, &start) {
        ChartEvent::Note { wav_id, length, .. } => {
            assert_eq!(wav_id, Some(WavId(4)));
            assert_eq!(length, Some(non_negative(0.75)));
        }
        other => panic!("{other:?}"),
    }
    match event_for_note_static::<KeyLayoutBeat>(&bms, &memo, &end) {
        ChartEvent::Note { length, .. } => assert_eq!(length, None),
        other => panic!("{other:?}"),
    }
}
