use bms_rs::base_bpm::{
    BaseBpm, BaseBpmGenerator, ManualBpmGenerator, MaxBpmGenerator, MinBpmGenerator,
    StartBpmGenerator,
};
use bms_rs::bms::{Bms, BpmChangeObj};
use bms_rs::num::PositiveF64;
use bms_rs::text::StringValue;
use bms_rs::time::{ObjTime, Track};

fn positive(x: f64) -> PositiveF64 {
    PositiveF64::from_bits(x.to_bits()).unwrap()
}

fn base(x: f64) -> Option<BaseBpm> {
    Some(BaseBpm(positive(x)))
}

#[test]
fn base_tempos_of_a_chart() {
    let mut bms = Bms::default();
    assert_eq!(StartBpmGenerator.generate(&bms), None);
    assert_eq!(MinBpmGenerator.generate(&bms), None);
    assert_eq!(MaxBpmGenerator.generate(&bms), None);
    for (track, bpm) in [(1, 180.0), (2, 90.0), (3, 200.0)] {
        let time = ObjTime::start_of(Track(track));
        bms.bpm.bpm_changes.insert(time, BpmChangeObj { time, bpm: positive(bpm) });
    }
    assert_eq!(MinBpmGenerator.generate(&bms), base(90.0));
    assert_eq!(MaxBpmGenerator.generate(&bms), base(200.0));
    bms.bpm.bpm = Some(StringValue::new("60"));
    assert_eq!(StartBpmGenerator.generate(&bms), base(60.0));
    assert_eq!(MinBpmGenerator.generate(&bms), base(60.0));
    bms.bpm.bpm = Some(StringValue::new("260"));
    assert_eq!(MaxBpmGenerator.generate(&bms), base(260.0));
    assert_eq!(MinBpmGenerator.generate(&bms), base(90.0));
}

#[test]
fn a_bad_start_tempo_is_left_out() {
    let mut bms = Bms::default();
    bms.bpm.bpm = Some(StringValue::new("fast"));
    assert_eq!(StartBpmGenerator.generate(&bms), None);
    assert_eq!(MinBpmGenerator.generate(&bms), None);
    assert_eq!(ManualBpmGenerator(BaseBpm(positive(77.0))).generate(&bms), base(77.0));
}
