use ardupilot_binlog::{Entry, FieldValue, FloatValue, Reader, FMT_TYPE, HEADER_MAGIC_0, HEADER_MAGIC_1};

/// Build a valid FMT message (89 bytes) that defines the FMT type itself.
fn build_fmt_bootstrap() -> Vec<u8> {
    let mut msg = Vec::new();
    msg.extend_from_slice(&[HEADER_MAGIC_0, HEADER_MAGIC_1]);
    msg.push(FMT_TYPE);
    let mut payload = [0u8; 86];
    payload[0] = FMT_TYPE; // type
    payload[1] = 89; // length
    payload[2..6].copy_from_slice(b"FMT\0"); // name
    payload[6..11].copy_from_slice(b"BBnNZ"); // format
    let labels = b"Type,Length,Name,Format,Labels";
    payload[22..22 + labels.len()].copy_from_slice(labels);
    msg.extend_from_slice(&payload);
    msg
}

/// Build a FMT message that defines a custom message type.
fn build_fmt_for_type(msg_type: u8, msg_len: u8, name: &[u8; 4], format: &str, labels: &str) -> Vec<u8> {
    let mut msg = Vec::new();
    msg.extend_from_slice(&[HEADER_MAGIC_0, HEADER_MAGIC_1]);
    msg.push(FMT_TYPE);
    let mut payload = [0u8; 86];
    payload[0] = msg_type;
    payload[1] = msg_len;
    payload[2..6].copy_from_slice(name);
    let fmt_bytes = format.as_bytes();
    payload[6..6 + fmt_bytes.len()].copy_from_slice(fmt_bytes);
    let lbl_bytes = labels.as_bytes();
    payload[22..22 + lbl_bytes.len()].copy_from_slice(lbl_bytes);
    msg.extend_from_slice(&payload);
    msg
}

/// Build a data message with a given type and raw payload.
fn build_data_message(msg_type: u8, payload: &[u8]) -> Vec<u8> {
    let mut msg = Vec::new();
    msg.extend_from_slice(&[HEADER_MAGIC_0, HEADER_MAGIC_1]);
    msg.push(msg_type);
    msg.extend_from_slice(payload);
    msg
}


fn scaled(e: &Entry, field: &str) -> Option<f64> {
    match e.get(field) {
        Some(FieldValue::Float(FloatValue::Hundredths(h))) => Some(*h as f64 / 100.0),
        _ => None,
    }
}

#[test]
fn synthetic_error_recovery() {
    let mut data = Vec::new();
    data.extend(build_fmt_bootstrap());
    data.extend(build_fmt_for_type(0x81, 11, b"TST\0", "Q", "TimeUS"));
    data.extend(build_data_message(0x81, &100u64.to_le_bytes()));
    data.extend_from_slice(&[0xDE; 50]);
    data.extend(build_data_message(0x81, &200u64.to_le_bytes()));

    let reader = Reader::new(data);
    let entries: Vec<_> = reader.collect().unwrap();

    let tst: Vec<&Entry> = entries.iter().filter(|e| e.name == "TST").collect();
    assert_eq!(tst.len(), 2, "expected 2 TST entries after recovery");
    assert_eq!(tst[0].timestamp_usec, Some(100));
    assert_eq!(tst[1].timestamp_usec, Some(200));
}

#[test]
fn synthetic_empty() {
    let reader = Reader::new(Vec::<u8>::new());
    let entries: Vec<_> = reader.collect().unwrap();
    assert!(entries.is_empty());
}

#[test]
fn synthetic_fmt_only() {
    let data = build_fmt_bootstrap();
    let reader = Reader::new(data);
    let entries: Vec<_> = reader.collect().unwrap();
    assert_eq!(entries.len(), 1);
    assert_eq!(entries[0].name, "FMT");
    assert!(entries[0].timestamp_usec.is_none());
}

#[test]
fn synthetic_truncated_final_message() {
    let mut data = Vec::new();
    data.extend(build_fmt_bootstrap());
    data.extend(build_fmt_for_type(0x81, 11, b"TST\0", "Q", "TimeUS"));
    data.extend(build_data_message(0x81, &100u64.to_le_bytes()));
    data.extend_from_slice(&[0xA3, 0x95]);
    data.push(0x81);
    data.extend_from_slice(&[0; 4]); // only 4 of 8 bytes

    let reader = Reader::new(data);
    let entries: Vec<_> = reader.collect().unwrap();

    let tst: Vec<&Entry> = entries.iter().filter(|e| e.name == "TST").collect();
    assert_eq!(tst.len(), 1, "truncated message should not produce an entry");
    assert_eq!(tst[0].timestamp_usec, Some(100));
}

#[test]
fn synthetic_scaled_fields() {
    let mut data = Vec::new();
    data.extend(build_fmt_bootstrap());
    // Q=8, c=2, C=2, e=4, E=4 = 20 payload, total=23
    data.extend(build_fmt_for_type(0x82, 23, b"SCL\0", "QcCeE", "TimeUS,A,B,C,D"));

    let mut payload = Vec::new();
    payload.extend_from_slice(&1000u64.to_le_bytes()); // Q: TimeUS
    payload.extend_from_slice(&4500i16.to_le_bytes()); // c: 4500 / 100 = 45.0
    payload.extend_from_slice(&1234u16.to_le_bytes()); // C: 1234 / 100 = 12.34
    payload.extend_from_slice(&(-5000i32).to_le_bytes()); // e: -5000 / 100 = -50.0
    payload.extend_from_slice(&100_000u32.to_le_bytes()); // E: 100000 / 100 = 1000.0
    data.extend(build_data_message(0x82, &payload));

    let reader = Reader::new(data);
    let entries: Vec<_> = reader.collect().unwrap();

    let scl: Vec<&Entry> = entries.iter().filter(|e| e.name == "SCL").collect();
    assert_eq!(scl.len(), 1);

    let e = scl[0];
    assert_eq!(e.get("A"), Some(&FieldValue::Float(FloatValue::Hundredths(4500))));
    assert_eq!(scaled(e, "A"), Some(45.0));
    assert_eq!(scaled(e, "B"), Some(12.34));
    assert_eq!(scaled(e, "C"), Some(-50.0));
    assert_eq!(scaled(e, "D"), Some(1000.0));
}

#[test]
fn synthetic_string_fields() {
    let mut data = Vec::new();
    data.extend(build_fmt_bootstrap());
    // MSG type: "QZ" format, total = 3 + 8 + 64 = 75
    data.extend(build_fmt_for_type(0x83, 75, b"MSG\0", "QZ", "TimeUS,Message"));

    let mut payload = Vec::new();
    payload.extend_from_slice(&500u64.to_le_bytes());
    let mut msg_bytes = [0u8; 64];
    msg_bytes[..11].copy_from_slice(b"Hello World");
    payload.extend_from_slice(&msg_bytes);
    data.extend(build_data_message(0x83, &payload));

    let reader = Reader::new(data);
    let entries: Vec<_> = reader.collect().unwrap();

    let msg: Vec<&Entry> = entries.iter().filter(|e| e.name == "MSG").collect();
    assert_eq!(msg.len(), 1);
    assert_eq!(msg[0].get_str("Message"), Some("Hello World"));
    assert_eq!(msg[0].timestamp_usec, Some(500));
}

#[test]
fn synthetic_multiple_message_types() {
    let mut data = Vec::new();
    data.extend(build_fmt_bootstrap());
    data.extend(build_fmt_for_type(0x81, 11, b"TST\0", "Q", "TimeUS"));
    data.extend(build_fmt_for_type(0x82, 15, b"DAT\0", "Qhh", "TimeUS,X,Y"));

    data.extend(build_data_message(0x81, &100u64.to_le_bytes()));

    let mut dat_payload = Vec::new();
    dat_payload.extend_from_slice(&200u64.to_le_bytes());
    dat_payload.extend_from_slice(&42i16.to_le_bytes());
    dat_payload.extend_from_slice(&(-7i16).to_le_bytes());
    data.extend(build_data_message(0x82, &dat_payload));

    data.extend(build_data_message(0x81, &300u64.to_le_bytes()));

    let reader = Reader::new(data);
    let entries: Vec<_> = reader.collect().unwrap();

    let tst: Vec<&Entry> = entries.iter().filter(|e| e.name == "TST").collect();
    let dat: Vec<&Entry> = entries.iter().filter(|e| e.name == "DAT").collect();

    assert_eq!(tst.len(), 2);
    assert_eq!(dat.len(), 1);
    assert_eq!(dat[0].get("X"), Some(&FieldValue::Int(42)));
    assert_eq!(dat[0].get("Y"), Some(&FieldValue::Int(-7)));
}
