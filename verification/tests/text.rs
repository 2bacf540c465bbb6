use bms_rs::num::{FinF64, NonNegativeF64, PositiveF64};
use bms_rs::text::StringValue;

#[test]
fn positive_numbers_are_read() {
    let value: StringValue<PositiveF64> = StringValue::new("150.5");
    assert_eq!(value.raw(), "150.5");
    assert_eq!(value.value().as_ref().unwrap().to_bits(), 150.5f64.to_bits());
    for text in ["", "0", "-1", "NaN", "inf", "1e999", "abc"] {
        let value: StringValue<PositiveF64> = StringValue::new(text);
        assert_eq!(value.raw(), text);
        assert!(!value.value().as_ref().unwrap_err().is_empty(), "{text}");
    }
}

#[test]
fn non_negative_numbers_are_read() {
    let value: StringValue<NonNegativeF64> = StringValue::new("750");
    assert_eq!(value.value().as_ref().unwrap().to_bits(), 750f64.to_bits());
    let zero: StringValue<NonNegativeF64> = StringValue::new("0");
    assert_eq!(zero.value().as_ref().unwrap().to_bits(), 0);
    for text in ["", "-1", "NaN", "inf", "7x"] {
        let value: StringValue<NonNegativeF64> = StringValue::new(text);
        assert!(value.value().is_err(), "{text}");
    }
}

#[test]
fn finite_numbers_are_read() {
    let value: StringValue<FinF64> = StringValue::new("-0.75");
    assert_eq!(value.value().as_ref().unwrap().to_bits(), (-0.75f64).to_bits());
    for text in ["", "NaN", "-inf", "0x1"] {
        let value: StringValue<FinF64> = StringValue::new(text);
        assert!(value.value().is_err(), "{text}");
    }
}
