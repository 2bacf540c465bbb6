use bms_rs::bms::{Bms, ObjId};
use bms_rs::channel::KeyLayoutBeat;
use bms_rs::error::{bad_text_from, init_bpm_from, PlayingError};
use bms_rs::event::{ChartEvent, FlowEvent};
use bms_rs::num::PositiveF64;
use bms_rs::process::BmsProcessor;
use bms_rs::text::StringValue;
use bms_rs::time::{ObjTime, Track};
use bms_rs::y_memo::default_bpm;

fn positive(x: f64) -> PositiveF64 {
    PositiveF64::from_bits(x.to_bits()).unwrap()
}

/// Parsing fails when the tempo is no number.
#[test]
fn test_parse_invalid_bpm() {
    let mut bms = Bms::default();
    bms.bpm.bpm = Some(StringValue::new("invalid_bpm"));

    let result = BmsProcessor::parse::<KeyLayoutBeat>(&bms);

    assert!(result.is_err());
    match result {
        Err(PlayingError::InvalidBpm { raw, error }) => {
            assert_eq!(raw, "invalid_bpm");
            assert!(error.contains("invalid") || error.contains("digit") || !error.is_empty());
        }
        _ => panic!("Expected PlayingError::InvalidBpm"),
    }
}

/// Parsing fails when the tempo is an empty string.
#[test]
fn test_parse_empty_bpm() {
    let mut bms = Bms::default();
    bms.bpm.bpm = Some(StringValue::new(""));

    let result = BmsProcessor::parse::<KeyLayoutBeat>(&bms);

    assert!(result.is_err());
    match result {
        Err(PlayingError::InvalidBpm { raw, .. }) => {
            assert_eq!(raw, "");
        }
        _ => panic!("Expected PlayingError::InvalidBpm for empty BPM"),
    }
}

/// Parsing fails when the tempo is not a number.
#[test]
fn test_parse_nan_bpm() {
    let mut bms = Bms::default();
    bms.bpm.bpm = Some(StringValue::new("NaN"));

    let result = BmsProcessor::parse::<KeyLayoutBeat>(&bms);

    assert!(result.is_err());
    match result {
        Err(PlayingError::InvalidBpm { raw, .. }) => {
            assert_eq!(raw, "NaN");
        }
        _ => panic!("Expected PlayingError::InvalidBpm for NaN BPM"),
    }
}

/// Parsing succeeds with the default tempo when none is given.
#[test]
fn test_parse_missing_bpm_uses_default() {
    let bms = Bms::default();

    let result = BmsProcessor::parse::<KeyLayoutBeat>(&bms);

    assert!(result.is_ok(), "Parse should succeed with missing BPM");
    let chart = result.unwrap_or_else(|error| panic!("{error:?}"));
    assert_eq!(chart.init_bpm, default_bpm(), "Should use default BPM of 120");
    assert_eq!(chart.init_bpm, positive(120.0), "Should use default BPM of 120");
}

/// Parsing succeeds with a valid tempo.
#[test]
fn test_parse_valid_bpm() {
    let mut bms = Bms::default();
    bms.bpm.bpm = Some(StringValue::new("150.5"));

    let result = BmsProcessor::parse::<KeyLayoutBeat>(&bms);

    assert!(result.is_ok(), "Parse should succeed with valid BPM");
    let chart = result.unwrap_or_else(|error| panic!("{error:?}"));
    assert_eq!(chart.init_bpm, positive(150.5));
}

/// Parsing fails when the tempo holds special characters.
#[test]
fn test_parse_bpm_with_special_chars() {
    let mut bms = Bms::default();
    bms.bpm.bpm = Some(StringValue::new("abc123!@#"));

    let result = BmsProcessor::parse::<KeyLayoutBeat>(&bms);

    assert!(result.is_err());
    match result {
        Err(PlayingError::InvalidBpm { raw, .. }) => {
            assert_eq!(raw, "abc123!@#");
        }
        _ => panic!("Expected PlayingError::InvalidBpm for special characters"),
    }
}

/// The error holds what the chart says.
#[test]
fn test_error_contains_raw_value() {
    let invalid_value = "not_a_number";
    let mut bms = Bms::default();
    bms.bpm.bpm = Some(StringValue::new(invalid_value));

    let result = BmsProcessor::parse::<KeyLayoutBeat>(&bms);

    match result {
        Err(PlayingError::InvalidBpm { raw, .. }) => {
            assert_eq!(raw, invalid_value);
        }
        _ => panic!("Expected PlayingError::InvalidBpm"),
    }
}

/// Tempos given in place become both events and flow events.
#[test]
fn test_bpm_changes_u8_converted_to_chart_events() {
    let mut bms = Bms::default();
    bms.bpm.bpm_changes_u8.insert(ObjTime::start_of(Track(1)), 150);
    bms.bpm.bpm_changes_u8.insert(ObjTime::start_of(Track(2)), 200);

    let chart = BmsProcessor::parse::<KeyLayoutBeat>(&bms)
        .expect("Parse should succeed with valid u8 BPM changes");

    let bpm_values: Vec<PositiveF64> = chart
        .events
        .as_events()
        .iter()
        .filter_map(|evp| {
            if let ChartEvent::BpmChange { bpm } = &evp.event {
                Some(*bpm)
            } else {
                None
            }
        })
        .collect();

    assert!(
        bpm_values.contains(&positive(150.0)),
        "Should contain BPM 150 from channel 03, got: {bpm_values:?}"
    );
    assert!(
        bpm_values.contains(&positive(200.0)),
        "Should contain BPM 200 from channel 03, got: {bpm_values:?}"
    );

    let mut flow_bpm_values: Vec<PositiveF64> = Vec::new();
    for i in 0..chart.flow_events.len() {
        for event in chart.flow_events.list(i) {
            if let FlowEvent::Bpm(bpm) = event {
                flow_bpm_values.push(*bpm);
            }
        }
    }

    assert!(
        flow_bpm_values.contains(&positive(150.0)),
        "Should contain FlowEvent::Bpm 150 from channel 03, got: {flow_bpm_values:?}"
    );
    assert!(
        flow_bpm_values.contains(&positive(200.0)),
        "Should contain FlowEvent::Bpm 200 from channel 03, got: {flow_bpm_values:?}"
    );
}

fn error_of(bms: &Bms) -> PlayingError {
    match BmsProcessor::parse::<KeyLayoutBeat>(bms) {
        Ok(_) => panic!("expected an error"),
        Err(error) => error,
    }
}

#[test]
fn each_definition_has_its_error() {
    let mut bms = Bms::default();
    bms.bpm.bpm = Some(StringValue::new("x"));
    bms.video.seek_defs.insert(ObjId(5), StringValue::new("seek"));
    match error_of(&bms) {
        PlayingError::InvalidSeek { obj_id, raw, error } => {
            assert_eq!((obj_id, raw.as_str()), (ObjId(5), "seek"));
            assert!(!error.is_empty());
        }
        other => panic!("{other:?}"),
    }
    bms.scroll.scroll_defs.insert(ObjId(4), StringValue::new("inf"));
    match error_of(&bms) {
        PlayingError::InvalidScroll { obj_id, raw, .. } => {
            assert_eq!((obj_id, raw.as_str()), (ObjId(4), "inf"));
        }
        other => panic!("{other:?}"),
    }
    bms.speed.speed_defs.insert(ObjId(3), StringValue::new("0"));
    match error_of(&bms) {
        PlayingError::InvalidSpeed { obj_id, raw, .. } => {
            assert_eq!((obj_id, raw.as_str()), (ObjId(3), "0"));
        }
        other => panic!("{other:?}"),
    }
    bms.stop.stop_defs.insert(ObjId(2), StringValue::new("-1"));
    match error_of(&bms) {
        PlayingError::InvalidStop { obj_id, raw, .. } => {
            assert_eq!((obj_id, raw.as_str()), (ObjId(2), "-1"));
        }
        other => panic!("{other:?}"),
    }
    bms.bpm.bpm_defs.insert(ObjId(1), StringValue::new("-120"));
    match error_of(&bms) {
        PlayingError::InvalidBpm { raw, .. } => assert_eq!(raw, "-120"),
        other => panic!("{other:?}"),
    }
}

#[test]
fn the_first_bad_definition_is_reported() {
    let mut bms = Bms::default();
    bms.stop.stop_defs.insert(ObjId(9), StringValue::new("late"));
    bms.stop.stop_defs.insert(ObjId(1), StringValue::new("48"));
    bms.stop.stop_defs.insert(ObjId(7), StringValue::new("early"));
    match error_of(&bms) {
        PlayingError::InvalidStop { obj_id, raw, .. } => {
            assert_eq!((obj_id, raw.as_str()), (ObjId(7), "early"));
        }
        other => panic!("{other:?}"),
    }
}

#[test]
fn valid_definitions_are_accepted() {
    let mut bms = Bms::default();
    bms.bpm.bpm_defs.insert(ObjId(1), StringValue::new("180.25"));
    bms.stop.stop_defs.insert(ObjId(1), StringValue::new("0"));
    bms.speed.speed_defs.insert(ObjId(1), StringValue::new("0.5"));
    bms.scroll.scroll_defs.insert(ObjId(1), StringValue::new("-2"));
    bms.video.seek_defs.insert(ObjId(1), StringValue::new("-0.25"));
    let chart = bms.process::<KeyLayoutBeat>().expect("valid definitions");
    assert!(chart.events.as_events().is_empty());
    assert_eq!(chart.flow_events.len(), 0);
    assert_eq!(chart.init_speed, positive(1.0));
}

#[test]
fn a_tempo_that_was_read_is_taken_as_it_is() {
    let read: Result<PositiveF64, String> = Ok(positive(93.5));
    match init_bpm_from("93.5", &read) {
        Ok(bpm) => assert_eq!(bpm, positive(93.5)),
        Err(error) => panic!("{error:?}"),
    }
    let failed: Result<PositiveF64, String> = Err("why".to_string());
    match init_bpm_from("fast", &failed) {
        Err(PlayingError::InvalidBpm { raw, error }) => {
            assert_eq!((raw.as_str(), error.as_str()), ("fast", "why"));
        }
        other => panic!("{other:?}"),
    }
}

#[test]
fn a_text_is_bad_if_it_could_not_be_read() {
    assert_eq!(bad_text_from("1", &Ok::<u8, String>(1)), None);
    assert_eq!(
        bad_text_from("one", &Err::<u8, String>("why".to_string())),
        Some(("one".to_string(), "why".to_string())),
    );
}

#[test]
fn the_tempo_at_the_start_can_be_given() {
    let mut bms = Bms::default();
    bms.bpm.bpm = Some(StringValue::new("fast"));
    assert!(BmsProcessor::parse::<KeyLayoutBeat>(&bms).is_err());
    let chart = BmsProcessor::parse_from::<KeyLayoutBeat>(&bms, positive(60.0));
    assert_eq!(chart.init_bpm, positive(60.0));
    assert_eq!(chart.init_speed, positive(1.0));
    assert!(chart.events.as_events().is_empty());
}

#[test]
fn errors_have_a_text() {
    for text in ["", "x", "NaN", "inf", "-1"] {
        match StringValue::<PositiveF64>::new(text).value() {
            Ok(_) => panic!("{text}"),
            Err(error) => assert!(!error.is_empty()),
        }
    }
}
