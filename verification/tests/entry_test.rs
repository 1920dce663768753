use ardupilot_binlog::{Entry, FieldValue, FloatValue};

fn sample() -> Entry {
    Entry::from_pairs(
        "ATT".into(),
        0x81,
        Some(1000),
        vec![
            ("TimeUS".into(), FieldValue::Uint(1000)),
            ("Roll".into(), FieldValue::Float(FloatValue::Hundredths(4500))),
            ("Mode".into(), FieldValue::String("AUTO".into())),
            ("Roll".into(), FieldValue::Int(7)),
            ("Count".into(), FieldValue::Int(-3)),
        ],
    )
}

#[test]
fn entry_lookup_by_label() {
    let e = sample();
    assert_eq!(e.get("TimeUS"), Some(&FieldValue::Uint(1000)));
    // The first field with a label wins.
    assert_eq!(e.get("Roll"), Some(&FieldValue::Float(FloatValue::Hundredths(4500))));
    assert_eq!(e.get("Missing"), None);
    assert_eq!(e.get_u64("TimeUS"), Some(1000));
    assert_eq!(e.get_u64("Count"), None);
    assert_eq!(e.get_i64("Count"), Some(-3));
    assert_eq!(e.get_i64("Mode"), None);
    assert_eq!(e.get_str("Mode"), Some("AUTO"));
    assert_eq!(e.get_str("Missing"), None);
}

#[test]
fn entry_fields_in_order() {
    let e = sample();
    assert_eq!(e.len(), 5);
    assert!(!e.is_empty());
    let fields = e.fields();
    let labels: Vec<&str> = fields.iter().map(|(l, _)| *l).collect();
    assert_eq!(labels, vec!["TimeUS", "Roll", "Mode", "Roll", "Count"]);
    assert_eq!(fields[4].1, &FieldValue::Int(-3));
    assert_eq!(e.labels().len(), 5);
    assert_eq!(e.values()[2], FieldValue::String("AUTO".into()));
    assert_eq!(e.timestamp_usec, Some(1000));
}

#[test]
fn entry_pairs_round_trip() {
    let e = sample();
    let pairs = e.to_pairs();
    assert_eq!(pairs.len(), 5);
    let back = Entry::from_pairs(e.name.clone(), e.msg_type, e.timestamp_usec, pairs);
    assert_eq!(back.name, e.name);
    assert_eq!(back.msg_type, e.msg_type);
    assert_eq!(back.timestamp_usec, e.timestamp_usec);
    assert_eq!(back.labels(), e.labels());
    assert_eq!(back.values(), e.values());
}

#[test]
fn empty_entry() {
    let e = Entry::from_pairs("X".into(), 1, None, Vec::new());
    assert!(e.is_empty());
    assert_eq!(e.len(), 0);
    assert!(e.fields().is_empty());
    assert_eq!(e.get(""), None);
}
