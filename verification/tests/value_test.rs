use ardupilot_binlog::{FieldValue, FloatValue};

#[test]
fn as_i64() {
    assert_eq!(FieldValue::Int(-5).as_i64(), Some(-5));
    assert_eq!(FieldValue::Uint(5).as_i64(), None);
    assert_eq!(FieldValue::Float(FloatValue::Double(5.0f64.to_bits())).as_i64(), None);
}

#[test]
fn as_u64() {
    assert_eq!(FieldValue::Uint(123).as_u64(), Some(123));
    assert_eq!(FieldValue::Int(123).as_u64(), None);
}

#[test]
fn as_str() {
    assert_eq!(FieldValue::String("test".into()).as_str(), Some("test"));
    assert_eq!(FieldValue::Int(0).as_str(), None);
}

#[test]
fn accessors_on_other_variants() {
    let arr = FieldValue::Array(vec![1, 2, 3]);
    assert_eq!(arr.as_i64(), None);
    assert_eq!(arr.as_u64(), None);
    assert_eq!(arr.as_str(), None);
    let scaled = FieldValue::Float(FloatValue::Hundredths(4500));
    assert_eq!(scaled.as_i64(), None);
    assert_eq!(FieldValue::Uint(u64::MAX).as_u64(), Some(u64::MAX));
    assert_eq!(FieldValue::Int(i64::MIN).as_i64(), Some(i64::MIN));
    assert_eq!(FieldValue::String(String::new()).as_str(), Some(""));
}
