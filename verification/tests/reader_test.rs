use ardupilot_binlog::{Entry, FieldValue, Reader, FMT_TYPE, HEADER_MAGIC_0, HEADER_MAGIC_1};

/// Build a valid FMT message (89 bytes) that defines the FMT type itself.
fn build_fmt_bootstrap() -> Vec<u8> {
    let mut msg = Vec::new();
    msg.extend_from_slice(&[HEADER_MAGIC_0, HEADER_MAGIC_1]);
    msg.push(FMT_TYPE);
    let mut payload = [0u8; 86];
    payload[0] = FMT_TYPE; // type
    payload[1] = 89; // length
    payload[2..6].copy_from_slice(b"FMT\0"); // name
    payload[6..11].copy_from_slice(b"BBnNZ"); // format
    let labels = b"Type,Length,Name,Format,Labels";
    payload[22..22 + labels.len()].copy_from_slice(labels);
    msg.extend_from_slice(&payload);
    msg
}

/// Build a FMT message that defines a custom message type.
fn build_fmt_for_type(msg_type: u8, msg_len: u8, name: &[u8; 4], format: &str, labels: &str) -> Vec<u8> {
    let mut msg = Vec::new();
    msg.extend_from_slice(&[HEADER_MAGIC_0, HEADER_MAGIC_1]);
    msg.push(FMT_TYPE);
    let mut payload = [0u8; 86];
    payload[0] = msg_type;
    payload[1] = msg_len;
    payload[2..6].copy_from_slice(name);
    let fmt_bytes = format.as_bytes();
    payload[6..6 + fmt_bytes.len()].copy_from_slice(fmt_bytes);
    let lbl_bytes = labels.as_bytes();
    payload[22..22 + lbl_bytes.len()].copy_from_slice(lbl_bytes);
    msg.extend_from_slice(&payload);
    msg
}

/// Build a data message with a given type and raw payload.
fn build_data_message(msg_type: u8, payload: &[u8]) -> Vec<u8> {
    let mut msg = Vec::new();
    msg.extend_from_slice(&[HEADER_MAGIC_0, HEADER_MAGIC_1]);
    msg.push(msg_type);
    msg.extend_from_slice(payload);
    msg
}

#[test]
fn parse_empty_input() {
    let reader = Reader::new(Vec::new());
    let entries = reader.collect().unwrap();
    assert!(entries.is_empty());
}

#[test]
fn parse_fmt_bootstrap_only() {
    let data = build_fmt_bootstrap();
    let reader = Reader::new(data);
    let entries = reader.collect().unwrap();
    assert_eq!(entries.len(), 1);
    assert_eq!(entries[0].name, "FMT");
    assert_eq!(entries[0].msg_type, FMT_TYPE);
    assert!(entries[0].timestamp_usec.is_none());
}

#[test]
fn parse_data_message() {
    let mut data = Vec::new();
    data.extend(build_fmt_bootstrap());
    data.extend(build_fmt_for_type(0x81, 15, b"ATT\0", "Qhh", "TimeUS,Roll,Pitch"));
    let mut payload = Vec::new();
    payload.extend_from_slice(&1_000_000u64.to_le_bytes()); // TimeUS
    payload.extend_from_slice(&4500i16.to_le_bytes()); // Roll
    payload.extend_from_slice(&(-200i16).to_le_bytes()); // Pitch
    data.extend(build_data_message(0x81, &payload));

    let reader = Reader::new(data);
    let entries = reader.collect().unwrap();
    assert_eq!(entries.len(), 3); // FMT(FMT), FMT(ATT), ATT

    let att = &entries[2];
    assert_eq!(att.name, "ATT");
    assert_eq!(att.msg_type, 0x81);
    assert_eq!(att.timestamp_usec, Some(1_000_000));
    assert_eq!(att.get("Roll"), Some(&FieldValue::Int(4500)));
    assert_eq!(att.get("Pitch"), Some(&FieldValue::Int(-200)));
}

#[test]
fn error_recovery_with_garbage() {
    let mut data = Vec::new();
    data.extend(build_fmt_bootstrap());
    data.extend(build_fmt_for_type(0x81, 11, b"TST\0", "Q", "TimeUS"));
    data.extend(build_data_message(0x81, &100u64.to_le_bytes()));
    data.extend_from_slice(&[0xFF; 50]);
    data.extend(build_data_message(0x81, &200u64.to_le_bytes()));

    let reader = Reader::new(data);
    let entries = reader.collect().unwrap();

    let tst_entries: Vec<_> = entries.iter().filter(|e| e.name == "TST").collect();
    assert_eq!(tst_entries.len(), 2);
    assert_eq!(tst_entries[0].timestamp_usec, Some(100));
    assert_eq!(tst_entries[1].timestamp_usec, Some(200));
}

#[test]
fn truncated_final_message() {
    let mut data = Vec::new();
    data.extend(build_fmt_bootstrap());
    data.extend(build_fmt_for_type(0x81, 11, b"TST\0", "Q", "TimeUS"));
    data.extend(build_data_message(0x81, &100u64.to_le_bytes()));
    data.extend_from_slice(&[HEADER_MAGIC_0, HEADER_MAGIC_1]);
    data.push(0x81);
    data.extend_from_slice(&[0; 3]); // only 3 of 8 payload bytes

    let reader = Reader::new(data);
    let entries = reader.collect().unwrap();

    let tst_entries: Vec<_> = entries.iter().filter(|e| e.name == "TST").collect();
    assert_eq!(tst_entries.len(), 1);
    assert_eq!(tst_entries[0].timestamp_usec, Some(100));
}

#[test]
fn unknown_type_recovery() {
    let mut data = Vec::new();
    data.extend(build_fmt_bootstrap());
    data.extend(build_fmt_for_type(0x81, 11, b"TST\0", "Q", "TimeUS"));
    data.extend_from_slice(&[HEADER_MAGIC_0, HEADER_MAGIC_1]);
    data.push(0x99);
    data.extend_from_slice(&[0; 20]);
    data.extend(build_data_message(0x81, &300u64.to_le_bytes()));

    let reader = Reader::new(data);
    let entries = reader.collect().unwrap();

    let tst_entries: Vec<_> = entries.iter().filter(|e| e.name == "TST").collect();
    assert_eq!(tst_entries.len(), 1);
    assert_eq!(tst_entries[0].timestamp_usec, Some(300));
}

#[test]
fn formats_accessible() {
    let data = build_fmt_bootstrap();
    let mut reader = Reader::new(data);
    let _ = reader.next_entry(); // parse the FMT
    assert!(reader.formats().contains_key(&FMT_TYPE));
    assert_eq!(reader.formats().get(&FMT_TYPE).unwrap().name, "FMT");
}

#[test]
fn fresh_reader_knows_fmt_format() {
    let reader = Reader::new(Vec::new());
    let f = reader.formats().get(&FMT_TYPE).unwrap();
    assert_eq!(f.msg_len, 89);
    assert_eq!(f.format, "BBnNZ");
    assert_eq!(f.labels, vec!["Type", "Length", "Name", "Format", "Labels"]);
    assert_eq!(reader.formats().len(), 1);
}

#[test]
fn fmt_message_registers_its_format() {
    let mut data = build_fmt_bootstrap();
    data.extend(build_fmt_for_type(0x81, 15, b"ATT\0", "Qhh", "TimeUS,Roll,Pitch"));
    let mut reader = Reader::new(data);
    let first = reader.next_entry().unwrap().unwrap();
    assert_eq!(first.name, "FMT");
    assert_eq!(first.get("Name"), Some(&FieldValue::String("FMT".into())));
    let second = reader.next_entry().unwrap().unwrap();
    assert_eq!(second.name, "FMT");
    assert_eq!(second.get_u64("Type"), None);
    assert_eq!(second.get_i64("Type"), Some(0x81));
    assert_eq!(second.get_str("Format"), Some("Qhh"));
    let att = reader.formats().get(&0x81).unwrap();
    assert_eq!(att.name, "ATT");
    assert_eq!(att.msg_len, 15);
    assert_eq!(att.labels, vec!["TimeUS", "Roll", "Pitch"]);
    assert_eq!(reader.formats().len(), 2);
}

#[test]
fn exhausted_reader_stays_exhausted() {
    let mut reader = Reader::new(build_fmt_bootstrap());
    assert!(reader.next_entry().unwrap().is_some());
    assert!(reader.next_entry().unwrap().is_none());
    assert!(reader.next_entry().unwrap().is_none());
    assert!(reader.next_entry().unwrap().is_none());
}

#[test]
fn entries_have_a_label_for_each_value() {
    let mut data = build_fmt_bootstrap();
    // Format of three fields with only one label.
    data.extend(build_fmt_for_type(0x81, 15, b"ATT\0", "Qhh", "TimeUS"));
    let mut payload = 7u64.to_le_bytes().to_vec();
    payload.extend_from_slice(&[1, 0, 2, 0]);
    data.extend(build_data_message(0x81, &payload));
    let entries = Reader::new(data).collect().unwrap();
    for e in &entries {
        assert!(e.labels().len() >= e.values().len());
    }
    let att = &entries[2];
    assert_eq!(att.labels(), &["TimeUS".to_string(), "field_1".into(), "field_2".into()]);
    assert_eq!(att.get("field_2"), Some(&FieldValue::Int(2)));
}

#[test]
fn too_many_consecutive_failures_stop_the_reader() {
    let mut data = build_fmt_bootstrap();
    data.extend(build_fmt_for_type(0x81, 11, b"TST\0", "Q", "TimeUS"));
    for _ in 0..300 {
        data.extend_from_slice(&[HEADER_MAGIC_0, HEADER_MAGIC_1, 0x99]);
    }
    data.extend(build_data_message(0x81, &5u64.to_le_bytes()));
    let entries = Reader::new(data).collect().unwrap();
    assert_eq!(entries.len(), 2);
    assert!(entries.iter().all(|e| e.name == "FMT"));
}

#[test]
fn fewer_failures_are_recovered_from() {
    let mut data = build_fmt_bootstrap();
    data.extend(build_fmt_for_type(0x81, 11, b"TST\0", "Q", "TimeUS"));
    for _ in 0..100 {
        data.extend_from_slice(&[HEADER_MAGIC_0, HEADER_MAGIC_1, 0x99]);
    }
    data.extend(build_data_message(0x81, &5u64.to_le_bytes()));
    let entries = Reader::new(data).collect().unwrap();
    assert_eq!(entries.len(), 3);
    assert_eq!(entries[2].timestamp_usec, Some(5));
}

#[test]
fn message_shorter_than_its_header_is_skipped() {
    let mut data = build_fmt_bootstrap();
    data.extend(build_fmt_for_type(0x82, 0, b"BAD\0", "B", "X"));
    data.extend(build_fmt_for_type(0x81, 11, b"TST\0", "Q", "TimeUS"));
    data.extend(build_data_message(0x82, &[1, 2]));
    data.extend(build_data_message(0x81, &9u64.to_le_bytes()));
    let entries = Reader::new(data).collect().unwrap();
    let names: Vec<&str> = entries.iter().map(|e| e.name.as_str()).collect();
    assert_eq!(names, vec!["FMT", "FMT", "FMT", "TST"]);
    assert_eq!(entries[3].timestamp_usec, Some(9));
}

#[test]
fn message_of_header_length_only() {
    let mut data = build_fmt_bootstrap();
    data.extend(build_fmt_for_type(0x83, 3, b"NIL\0", "", ""));
    data.extend(build_data_message(0x83, &[]));
    let entries = Reader::new(data).collect().unwrap();
    assert_eq!(entries.len(), 3);
    assert_eq!(entries[2].name, "NIL");
    assert!(entries[2].is_empty());
    assert_eq!(entries[2].timestamp_usec, None);
}

#[test]
fn garbage_only_yields_nothing() {
    let entries = Reader::new(vec![0xA3, 0x00, 0x95, 0xA3, 0xA3, 0x95]).collect().unwrap();
    assert!(entries.is_empty());
    let entries = Reader::new(vec![0xA3, 0x95]).collect().unwrap();
    assert!(entries.is_empty());
}

#[test]
fn old_style_millisecond_timestamps() {
    let mut data = build_fmt_bootstrap();
    data.extend(build_fmt_for_type(0x84, 9, b"OLD\0", "Ih", "TimeMS,V"));
    let mut payload = 2500u32.to_le_bytes().to_vec();
    payload.extend_from_slice(&(-3i16).to_le_bytes());
    data.extend(build_data_message(0x84, &payload));
    let entries = Reader::new(data).collect().unwrap();
    let e: &Entry = &entries[2];
    assert_eq!(e.timestamp_usec, Some(2_500_000));
    assert_eq!(e.timestamp_usec, Some(2_500_000));
    assert_eq!(e.get_i64("TimeMS"), Some(2500));
    assert_eq!(e.get_i64("V"), Some(-3));
}

#[test]
fn formats_are_keyed_by_their_type_and_change_only_on_fmt() {
    let mut data = build_fmt_bootstrap();
    data.extend(build_fmt_for_type(0x81, 11, b"TST\0", "Q", "TimeUS"));
    data.extend(build_data_message(0x81, &1u64.to_le_bytes()));
    let mut reader = Reader::new(data);
    while let Some(e) = reader.next_entry().unwrap() {
        let keys: Vec<u8> = {
            let mut k: Vec<u8> = reader.formats().keys().copied().collect();
            k.sort();
            k
        };
        assert!(reader.formats().contains_key(&FMT_TYPE));
        for (k, f) in reader.formats() {
            assert_eq!(f.msg_type, *k);
            assert!(f.labels.len() >= f.format.chars().count());
        }
        if e.msg_type != FMT_TYPE {
            assert_eq!(keys, vec![0x80, 0x81]);
        }
    }
}
