use bms_rs::bms::{Bms, BpmChangeObj, ObjId, SectionLenChangeObj, SpeedObj, StopObj, WavObj};
use bms_rs::channel::{Key, KeyLayoutBeat, NoteChannelId, NoteKind, PlayerSide};
use bms_rs::chart::Chart;
use bms_rs::event::{ChartEvent, PlayheadEvent, Seconds, WavId, YCoordinate};
use bms_rs::num::{NonNegativeF64, PositiveF64};
use bms_rs::text::StringValue;
use bms_rs::time::{ObjTime, Track};

fn non_negative(x: f64) -> NonNegativeF64 {
    NonNegativeF64::from_bits(x.to_bits()).unwrap()
}

fn positive(x: f64) -> PositiveF64 {
    PositiveF64::from_bits(x.to_bits()).unwrap()
}

fn at(track: u64, numerator: u64, denominator: u64) -> ObjTime {
    ObjTime::new(Track(track), numerator, denominator).unwrap()
}

fn note(bms: &mut Bms, time: ObjTime, channel: &[u8; 2], wav: u16) {
    bms.wav.notes.push_note(WavObj {
        offset: time,
        channel_id: NoteChannelId(channel[0], channel[1]),
        wav_id: ObjId(wav),
    });
}

fn stop(bms: &mut Bms, time: ObjTime, duration: f64) {
    bms.stop.stops.insert(time, StopObj { time, duration: non_negative(duration) });
}

fn length(bms: &mut Bms, track: u64, length: f64) {
    let track = Track(track);
    bms.section_len
        .section_len_changes
        .insert(track, SectionLenChangeObj { track, length: non_negative(length) });
}

fn chart_of(bms: &Bms) -> Chart {
    bms.process::<KeyLayoutBeat>().expect("failed to parse chart")
}

fn y(event: &PlayheadEvent) -> f64 {
    f64::from_bits(event.position.0.to_bits())
}

fn seconds(event: &PlayheadEvent) -> f64 {
    match event.activate_time {
        Seconds::Finite(time) => f64::from_bits(time.to_bits()),
        Seconds::Infinite => f64::INFINITY,
    }
}

fn notes(chart: &Chart) -> Vec<&PlayheadEvent> {
    chart
        .events
        .as_events()
        .iter()
        .filter(|event| matches!(event.event, ChartEvent::Note { .. }))
        .collect()
}

fn bar_lines(chart: &Chart) -> Vec<f64> {
    chart
        .events
        .as_events()
        .iter()
        .filter(|event| matches!(event.event, ChartEvent::BarLine))
        .map(y)
        .collect()
}

fn tempo_changes(chart: &Chart) -> Vec<(f64, PositiveF64)> {
    chart
        .events
        .as_events()
        .iter()
        .filter_map(|event| match event.event {
            ChartEvent::BpmChange { bpm } => Some((y(event), bpm)),
            _ => None,
        })
        .collect()
}

#[test]
fn test_parsed_chart_tracks_have_correct_y_coordinates_and_wav_ids() {
    let mut bms = Bms::default();
    for (id, file) in [(1, "test1.wav"), (2, "test2.wav"), (3, "test3.wav"), (4, "test4.wav")] {
        bms.wav.wav_files.insert(ObjId(id), file.to_string());
    }
    length(&mut bms, 2, 0.0);
    note(&mut bms, at(2, 0, 1), b"11", 1);
    note(&mut bms, at(2, 0, 1), b"12", 2);
    note(&mut bms, at(2, 0, 2), b"13", 1);
    note(&mut bms, at(2, 1, 2), b"13", 3);
    note(&mut bms, at(3, 0, 1), b"14", 4);

    let chart = chart_of(&bms);

    let note_events: Vec<_> = chart
        .events
        .as_events()
        .iter()
        .filter_map(|ev| {
            if let ChartEvent::Note { key, wav_id, .. } = &ev.event {
                Some((ev.position, *key, *wav_id))
            } else {
                None
            }
        })
        .collect();

    // Track 2 has no length and takes no room, so track 3 still starts at 2.0, and all
    // events pile up there.
    let y2 = YCoordinate(non_negative(2.0));
    let expected_events = vec![
        (y2, Key::Key(1), Some(WavId(1))),
        (y2, Key::Key(3), Some(WavId(1))),
        (y2, Key::Key(2), Some(WavId(2))),
        (y2, Key::Key(3), Some(WavId(3))),
        (y2, Key::Key(4), Some(WavId(4))),
    ];

    assert_eq!(note_events, expected_events);
    assert_eq!(chart.resources.wav_files.len(), 4);
    assert_eq!(chart.resources.wav_files.get(WavId(3)).unwrap(), "test3.wav");
}

#[test]
fn test_track_with_short_section_length_starts_at_measure_position() {
    // Track 1 has length 0.125 and starts at 1.0; its stop at one half lands at
    // 1.0 + 1/2 * 0.125.
    let mut bms = Bms::default();
    bms.bpm.bpm = Some(StringValue::new("120"));
    bms.wav.wav_files.insert(ObjId(1), "test.wav".to_string());
    bms.stop.stop_defs.insert(ObjId(1), StringValue::new("750"));
    length(&mut bms, 1, 0.125);
    stop(&mut bms, at(1, 0, 2), 750.0);
    stop(&mut bms, at(1, 1, 2), 750.0);
    note(&mut bms, at(1, 0, 1), b"11", 1);
    note(&mut bms, at(0, 0, 1), b"11", 1);

    let chart = chart_of(&bms);
    let mut note_y = Vec::new();
    let mut stop_y = None;
    for e in chart.events.as_events() {
        match &e.event {
            ChartEvent::Note { .. } => note_y.push(y(e)),
            ChartEvent::Stop { .. } => stop_y = Some(y(e)),
            _ => {}
        }
    }
    note_y.sort_by(f64::total_cmp);
    assert!(
        (note_y[0] - 0.0).abs() < 1e-6,
        "track0 note should be at y=0, got {:?}",
        note_y
    );
    assert!(
        (note_y[1] - 1.0).abs() < 1e-6,
        "track1 note should start at y=1.0 (measure position), got {:?}",
        note_y
    );
    assert!(
        (stop_y.unwrap() - 1.0625).abs() < 1e-6,
        "track1 stop at position 1/2 of 0.125-length section should be y=1.0625, got {:?}",
        stop_y
    );
}

#[test]
fn a_note_is_reached_after_the_stop_before_it() {
    // 750 units are 15.625 beats, 7.8125 seconds at 120 beats per minute.
    let mut bms = Bms::default();
    bms.bpm.bpm = Some(StringValue::new("120"));
    stop(&mut bms, at(0, 1, 2), 750.0);
    note(&mut bms, at(1, 0, 1), b"11", 1);
    let chart = chart_of(&bms);
    let stops: Vec<_> = chart
        .events
        .as_events()
        .iter()
        .filter_map(|event| match event.event {
            ChartEvent::Stop { duration } => Some((y(event), seconds(event), duration)),
            _ => None,
        })
        .collect();
    assert_eq!(stops, vec![(0.5, 1.0, non_negative(15.625))]);
    assert_eq!(seconds(notes(&chart)[0]), 9.8125);
}

#[test]
fn dense_stops_add_up() {
    let mut bms = Bms::default();
    bms.bpm.bpm = Some(StringValue::new("120"));
    for i in 0..4 {
        stop(&mut bms, at(0, i, 4), 750.0);
    }
    note(&mut bms, at(1, 0, 1), b"11", 1);
    let chart = chart_of(&bms);
    let stops: Vec<_> = chart
        .events
        .as_events()
        .iter()
        .filter(|event| matches!(event.event, ChartEvent::Stop { .. }))
        .map(|event| (y(event), seconds(event)))
        .collect();
    assert_eq!(stops, vec![(0.0, 0.0), (0.25, 8.3125), (0.5, 16.625), (0.75, 24.9375)]);
    assert_eq!(seconds(notes(&chart)[0]), 33.25);
}

#[test]
fn a_note_in_the_second_measure_is_reached_after_two_seconds() {
    let mut bms = Bms::default();
    bms.bpm.bpm = Some(StringValue::new("120"));
    note(&mut bms, at(1, 0, 1), b"11", 1);
    let chart = chart_of(&bms);
    assert_eq!(seconds(notes(&chart)[0]), 2.0);
}

#[test]
fn tempo_changes_take_effect_from_their_position_on() {
    let mut bms = Bms::default();
    bms.bpm.bpm = Some(StringValue::new("120"));
    let time = at(1, 0, 1);
    bms.bpm.bpm_changes.insert(time, BpmChangeObj { time, bpm: positive(240.0) });
    bms.bpm.bpm_changes_u8.insert(at(2, 0, 1), 60);
    for track in 0..5 {
        note(&mut bms, at(track, 0, 1), b"11", 1);
    }
    let chart = chart_of(&bms);
    let times: Vec<f64> = notes(&chart).into_iter().map(seconds).collect();
    assert_eq!(times, vec![0.0, 2.0, 3.0, 7.0, 11.0]);
}

#[test]
fn a_stop_lasts_by_the_tempo_at_its_position() {
    let mut bms = Bms::default();
    bms.bpm.bpm = Some(StringValue::new("120"));
    bms.bpm.bpm_changes_u8.insert(at(1, 0, 1), 60);
    // Two beats at 60 beats per minute.
    stop(&mut bms, at(1, 0, 1), 96.0);
    note(&mut bms, at(2, 0, 1), b"11", 1);
    let chart = chart_of(&bms);
    assert_eq!(seconds(notes(&chart)[0]), 2.0 + 2.0 + 4.0);
}

#[test]
fn a_tempo_of_zero_is_no_change() {
    let mut bms = Bms::default();
    bms.bpm.bpm = Some(StringValue::new("60"));
    bms.bpm.bpm_changes_u8.insert(at(1, 0, 1), 0);
    note(&mut bms, at(2, 0, 1), b"11", 1);
    let chart = chart_of(&bms);
    assert_eq!(chart.flow_events.len(), 0);
    assert_eq!(seconds(notes(&chart)[0]), 8.0);
    assert_eq!(tempo_changes(&chart), Vec::new());
    bms.bpm.bpm_changes_u8.insert(at(2, 0, 1), 150);
    let chart = chart_of(&bms);
    assert_eq!(chart.flow_events.len(), 1);
    assert_eq!(tempo_changes(&chart), vec![(2.0, positive(150.0))]);
}

#[test]
fn of_two_tempos_at_one_position_the_later_found_holds() {
    let mut bms = Bms::default();
    bms.bpm.bpm = Some(StringValue::new("120"));
    let time = at(1, 0, 1);
    bms.bpm.bpm_changes.insert(time, BpmChangeObj { time, bpm: positive(240.0) });
    bms.bpm.bpm_changes_u8.insert(time, 60);
    note(&mut bms, at(2, 0, 1), b"11", 1);
    let chart = chart_of(&bms);
    assert_eq!(seconds(notes(&chart)[0]), 2.0 + 4.0);
}

#[test]
fn a_long_note_becomes_one_event() {
    let mut bms = Bms::default();
    note(&mut bms, at(1, 0, 1), b"51", 1);
    note(&mut bms, at(1, 1, 2), b"12", 3);
    note(&mut bms, at(3, 0, 1), b"51", 2);
    let chart = chart_of(&bms);
    let found: Vec<_> = notes(&chart).into_iter().map(|event| event.event.clone()).collect();
    assert_eq!(
        found,
        vec![
            ChartEvent::Note {
                side: PlayerSide::Player1,
                key: Key::Key(1),
                kind: NoteKind::Long,
                wav_id: Some(WavId(1)),
                length: Some(non_negative(2.0)),
                continue_play: None,
            },
            ChartEvent::Note {
                side: PlayerSide::Player1,
                key: Key::Key(2),
                kind: NoteKind::Visible,
                wav_id: Some(WavId(3)),
                length: None,
                continue_play: None,
            },
        ]
    );
}

#[test]
fn a_long_note_without_an_end_is_left_out() {
    let mut bms = Bms::default();
    note(&mut bms, at(1, 0, 1), b"51", 1);
    let chart = chart_of(&bms);
    assert!(chart.events.as_events().is_empty());
}

#[test]
fn spacing_moves_positions_but_not_times() {
    let mut bms = Bms::default();
    bms.bpm.bpm = Some(StringValue::new("120"));
    bms.bpm.bpm_changes_u8.insert(at(2, 0, 1), 60);
    stop(&mut bms, at(1, 1, 2), 48.0);
    for track in 0..5 {
        note(&mut bms, at(track, 1, 3), b"11", 1);
    }
    let plain = chart_of(&bms);
    for (time, factor) in [(at(0, 0, 1), 2.0), (at(2, 1, 4), 0.125), (at(3, 0, 1), 7.0)] {
        bms.speed.speed_factor_changes.insert(time, SpeedObj { time, factor: positive(factor) });
    }
    let spaced = chart_of(&bms);
    let mut plain_notes: Vec<(f64, f64)> = notes(&plain)
        .into_iter()
        .map(|event| (f64::from_bits(event.unspaced.0.to_bits()), seconds(event)))
        .collect();
    let mut spaced_notes: Vec<(f64, f64)> = notes(&spaced)
        .into_iter()
        .map(|event| (f64::from_bits(event.unspaced.0.to_bits()), seconds(event)))
        .collect();
    plain_notes.sort_by(|a, b| a.0.total_cmp(&b.0));
    spaced_notes.sort_by(|a, b| a.0.total_cmp(&b.0));
    assert_eq!(plain_notes, spaced_notes);
    assert_ne!(
        notes(&plain).into_iter().map(y).collect::<Vec<f64>>(),
        notes(&spaced).into_iter().map(y).collect::<Vec<f64>>()
    );
}

#[test]
fn a_factor_of_two_leaves_the_second_measure_at_two_seconds() {
    let mut bms = Bms::default();
    let time = at(0, 0, 1);
    bms.speed.speed_factor_changes.insert(time, SpeedObj { time, factor: positive(2.0) });
    note(&mut bms, at(1, 0, 1), b"11", 1);
    let chart = chart_of(&bms);
    assert_eq!(y(notes(&chart)[0]), 2.0);
    assert_eq!(seconds(notes(&chart)[0]), 2.0);
}

#[test]
fn one_more_stop_delays_what_comes_after_it() {
    let mut bms = Bms::default();
    for track in 0..4 {
        note(&mut bms, at(track, 0, 1), b"11", 1);
    }
    let before: Vec<f64> = notes(&chart_of(&bms)).into_iter().map(seconds).collect();
    stop(&mut bms, at(1, 1, 2), 96.0);
    let after: Vec<f64> = notes(&chart_of(&bms)).into_iter().map(seconds).collect();
    assert_eq!(before, vec![0.0, 2.0, 4.0, 6.0]);
    assert_eq!(after, vec![0.0, 2.0, 5.0, 7.0]);
}

#[test]
fn long_notes_of_different_lanes_do_not_end_each_other() {
    let mut bms = Bms::default();
    note(&mut bms, at(0, 0, 1), b"51", 1);
    note(&mut bms, at(0, 0, 1), b"61", 1);
    note(&mut bms, at(1, 0, 1), b"51", 2);
    note(&mut bms, at(2, 0, 1), b"61", 2);
    note(&mut bms, at(3, 0, 1), b"51", 3);
    let chart = chart_of(&bms);
    let found: Vec<_> = notes(&chart)
        .into_iter()
        .map(|event| match event.event {
            ChartEvent::Note { side, length, .. } => (side, y(event), length),
            _ => panic!("no note"),
        })
        .collect();
    // The last one has no other to end at and is left out.
    assert_eq!(
        found,
        vec![
            (PlayerSide::Player1, 0.0, Some(non_negative(1.0))),
            (PlayerSide::Player2, 0.0, Some(non_negative(2.0))),
        ]
    );
}

#[test]
fn channels_without_a_lane_are_background() {
    let mut bms = Bms::default();
    note(&mut bms, at(0, 1, 4), b"01", 7);
    let chart = chart_of(&bms);
    let events = chart.events.as_events();
    assert_eq!(events[0].event, ChartEvent::BarLine);
    assert_eq!(events[1].event, ChartEvent::Bgm { wav_id: Some(WavId(7)) });
    assert_eq!(y(&events[1]), 0.25);
}

#[test]
fn each_track_up_to_the_last_object_has_a_bar_line() {
    let mut bms = Bms::default();
    length(&mut bms, 1, 0.5);
    note(&mut bms, at(3, 1, 2), b"11", 1);
    let chart = chart_of(&bms);
    assert_eq!(bar_lines(&chart), vec![0.0, 1.0, 1.5, 2.5]);
    assert_eq!(y(notes(&chart)[0]), 3.0);
}

#[test]
fn no_bar_line_lies_beyond_the_last_event() {
    // The length of track 5 makes it the last track with an object, but no event stands
    // there.
    let mut bms = Bms::default();
    length(&mut bms, 5, 2.0);
    note(&mut bms, at(1, 1, 2), b"11", 1);
    let chart = chart_of(&bms);
    assert_eq!(bar_lines(&chart), vec![0.0, 1.0]);
}

#[test]
fn a_chart_at_the_start_has_no_bar_lines() {
    let mut bms = Bms::default();
    note(&mut bms, at(0, 0, 1), b"11", 1);
    assert_eq!(bar_lines(&chart_of(&bms)), Vec::<f64>::new());
    assert!(chart_of(&Bms::default()).events.as_events().is_empty());
}

#[test]
fn events_are_numbered_as_they_are_found() {
    let mut bms = Bms::default();
    bms.bpm.bpm_changes_u8.insert(at(0, 0, 1), 130);
    note(&mut bms, at(1, 0, 1), b"11", 1);
    note(&mut bms, at(0, 1, 2), b"12", 1);
    let chart = chart_of(&bms);
    let mut found: Vec<(u128, f64)> =
        chart.events.as_events().iter().map(|event| (event.id.0, y(event))).collect();
    found.sort_by_key(|event| event.0);
    assert_eq!(found, vec![(0, 0.5), (1, 1.0), (2, 0.0), (3, 0.0), (4, 1.0)]);
    let by_y: Vec<(f64, usize, usize)> = chart
        .events
        .as_by_y()
        .iter()
        .map(|range| (f64::from_bits(range.position.0.to_bits()), range.start, range.end))
        .collect();
    assert_eq!(by_y, vec![(0.0, 0, 2), (0.5, 2, 3), (1.0, 3, 5)]);
}

#[test]
fn times_beyond_all_numbers_are_infinite() {
    let mut bms = Bms::default();
    bms.bpm.bpm = Some(StringValue::new("1e-300"));
    length(&mut bms, 0, 1e300);
    note(&mut bms, at(1, 0, 1), b"11", 1);
    let chart = chart_of(&bms);
    assert_eq!(y(notes(&chart)[0]), 1e300);
    assert_eq!(notes(&chart)[0].activate_time, Seconds::Infinite);
}

#[test]
fn no_sound_is_lost_or_doubled() {
    let mut bms = Bms::default();
    length(&mut bms, 1, 0.0);
    let mut expected = Vec::new();
    for i in 0..6u16 {
        note(&mut bms, at(1, u64::from(i), 6), b"11", i);
        note(&mut bms, at(2, u64::from(i), 6), b"01", i);
        expected.push((1.0f64.to_bits(), i));
        expected.push(((1.0 + f64::from(i) / 6.0).to_bits(), i));
    }
    let chart = chart_of(&bms);
    let mut found: Vec<(u64, u16)> = chart
        .events
        .as_events()
        .iter()
        .filter_map(|event| match event.event {
            ChartEvent::Note { wav_id, .. } => Some((event.position.0.to_bits(), wav_id)),
            ChartEvent::Bgm { wav_id } => Some((event.position.0.to_bits(), wav_id)),
            _ => None,
        })
        .map(|(bits, wav_id)| (bits, wav_id.unwrap().0 as u16))
        .collect();
    found.sort_unstable();
    expected.sort_unstable();
    assert_eq!(found, expected);
}
