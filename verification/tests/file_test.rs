use ardupilot_binlog::file::scan_tail_for_last_timestamp;
use ardupilot_binlog::{File, Reader, HEADER_MAGIC_0, HEADER_MAGIC_1};

fn fmt_bootstrap() -> Vec<u8> {
    let mut data = Vec::new();
    data.extend_from_slice(&[HEADER_MAGIC_0, HEADER_MAGIC_1]);
    data.push(0x80);
    let mut payload = [0u8; 86];
    payload[0] = 0x80;
    payload[1] = 89;
    payload[2..6].copy_from_slice(b"FMT\0");
    payload[6..11].copy_from_slice(b"BBnNZ");
    let labels = b"Type,Length,Name,Format,Labels";
    payload[22..22 + labels.len()].copy_from_slice(labels);
    data.extend_from_slice(&payload);
    data
}

fn tst_definition() -> Vec<u8> {
    let mut data = Vec::new();
    data.extend_from_slice(&[HEADER_MAGIC_0, HEADER_MAGIC_1]);
    data.push(0x80);
    let mut payload = [0u8; 86];
    payload[0] = 0x81;
    payload[1] = 11;
    payload[2..6].copy_from_slice(b"TST\0");
    payload[6..7].copy_from_slice(b"Q");
    payload[22..28].copy_from_slice(b"TimeUS");
    data.extend_from_slice(&payload);
    data
}

fn tst_message(ts: u64) -> Vec<u8> {
    let mut data = vec![HEADER_MAGIC_0, HEADER_MAGIC_1, 0x81];
    data.extend_from_slice(&ts.to_le_bytes());
    data
}

#[test]
fn open_and_entries_empty_file() {
    let file = File::new(Vec::new());
    let entries = file.entries().unwrap().collect().unwrap();
    assert!(entries.is_empty());
    assert_eq!(file.time_range().unwrap(), None);
}

#[test]
fn time_range_with_data() {
    let mut data = fmt_bootstrap();
    data.extend(tst_definition());
    data.extend(tst_message(1000));
    data.extend(tst_message(5000));
    let file = File::new(data);
    assert_eq!(file.time_range().unwrap(), Some((1000, 5000)));
}

#[test]
fn time_range_fmt_only() {
    let file = File::new(fmt_bootstrap());
    assert_eq!(file.time_range().unwrap(), None);
}

#[test]
fn time_range_takes_the_greatest_tail_timestamp() {
    let mut data = fmt_bootstrap();
    data.extend(tst_definition());
    data.extend(tst_message(1000));
    data.extend(tst_message(9000));
    data.extend(tst_message(4000));
    let file = File::new(data);
    assert_eq!(file.time_range().unwrap(), Some((1000, 9000)));
}

#[test]
fn time_range_last_never_before_first() {
    let mut data = fmt_bootstrap();
    data.extend(tst_definition());
    data.extend(tst_message(7000));
    // A later message with an earlier stamp does not pull the end before the start.
    data.extend(tst_message(10));
    let file = File::new(data);
    assert_eq!(file.time_range().unwrap(), Some((7000, 7000)));
}

#[test]
fn time_range_scans_only_the_tail() {
    let mut data = fmt_bootstrap();
    data.extend(tst_definition());
    data.extend(tst_message(1000));
    data.extend(tst_message(90_000));
    // Padding pushes the large stamp out of the last 64 KiB.
    data.extend(std::iter::repeat(0u8).take(70_000));
    data.extend(tst_message(2000));
    let file = File::new(data);
    assert_eq!(file.time_range().unwrap(), Some((1000, 2000)));
}

#[test]
fn tail_scan_reads_known_messages() {
    let mut head = fmt_bootstrap();
    head.extend(tst_definition());
    let mut reader = Reader::new(head);
    while reader.next_entry().unwrap().is_some() {}
    let formats = reader.formats();
    let mut tail = vec![0x01, 0xA3];
    tail.extend(tst_message(300));
    tail.extend(tst_message(200));
    tail.extend_from_slice(&[0xA3, 0x95, 0x99, 0x00]);
    assert_eq!(scan_tail_for_last_timestamp(&tail, formats), Some(300));
    assert_eq!(scan_tail_for_last_timestamp(&[0xA3, 0x95], formats), None);
    let mut cut = tst_message(500);
    cut.pop();
    assert_eq!(scan_tail_for_last_timestamp(&cut, formats), None);
}

#[test]
fn time_range_none_when_no_entry_has_a_timestamp() {
    let mut data = fmt_bootstrap();
    // A type whose first field is not a timestamp.
    data.extend_from_slice(&[HEADER_MAGIC_0, HEADER_MAGIC_1, 0x80]);
    let mut payload = [0u8; 86];
    payload[0] = 0x82;
    payload[1] = 4;
    payload[2..6].copy_from_slice(b"CNT\0");
    payload[6..7].copy_from_slice(b"B");
    payload[22..27].copy_from_slice(b"Count");
    data.extend_from_slice(&payload);
    data.extend_from_slice(&[HEADER_MAGIC_0, HEADER_MAGIC_1, 0x82, 7]);
    let file = File::new(data);
    let entries = file.entries().unwrap().collect().unwrap();
    assert_eq!(entries.len(), 3);
    assert!(entries.iter().all(|e| e.timestamp_usec.is_none()));
    assert_eq!(file.time_range().unwrap(), None);
}
