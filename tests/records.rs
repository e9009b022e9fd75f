use nouzdb::codec::{decode_log, decode_segment, encode_log, encode_segment};
use nouzdb::framing::read_record;
use nouzdb::names::{classify_file_name, parse_id, scan_dir, FileKind};
use nouzdb::{Error, MemtableError};

fn digest_of_check_string() -> Vec<u8> {
    vec![0x7f, 0xbf, 0x10, 0x30]
}

#[test]
fn log_record_carries_crc32_aixm() {
    let line = encode_log(b"1234", b"56789");
    let mut expected = digest_of_check_string();
    expected.extend_from_slice(b",1234,56789\n");
    assert_eq!(line, expected);
}

#[test]
fn log_record_round_trip() {
    let line = encode_log(b"key", b"value");
    let (fields, next) = read_record(&line, 0).unwrap();
    assert_eq!(next, line.len());
    assert_eq!(fields.len(), 3);
    assert_eq!(decode_log(&fields), Some((b"key".to_vec(), b"value".to_vec())));
}

#[test]
fn log_record_with_empty_value() {
    let line = encode_log(b"k", b"");
    let (fields, _) = read_record(&line, 0).unwrap();
    assert_eq!(decode_log(&fields), Some((b"k".to_vec(), Vec::new())));
}

#[test]
fn log_record_with_binary_bytes() {
    let key: Vec<u8> = (0u8..=255).collect();
    let value = b"a,b\n\"c\"\r".to_vec();
    let mut file = encode_log(&key, &value);
    let first = file.len();
    file.extend_from_slice(&encode_log(b"next", b"one"));
    let (fields, next) = read_record(&file, 0).unwrap();
    assert_eq!(next, first);
    assert_eq!(decode_log(&fields), Some((key, value)));
    let (fields, next) = read_record(&file, first).unwrap();
    assert_eq!(next, file.len());
    assert_eq!(decode_log(&fields), Some((b"next".to_vec(), b"one".to_vec())));
}

#[test]
fn flipped_crc_bit_is_rejected() {
    let line = encode_log(b"key", b"value");
    let (fields, _) = read_record(&line, 0).unwrap();
    for bit in 0..32u32 {
        let mut bad = fields.clone();
        let byte = (bit / 8) as usize;
        bad[0][byte] ^= 1u8 << (bit % 8);
        assert_eq!(decode_log(&bad), None);
    }
}

#[test]
fn short_log_records_are_rejected() {
    assert_eq!(decode_log(&vec![vec![1, 2, 3, 4], b"k".to_vec()]), None);
    assert_eq!(decode_log(&vec![vec![1, 2, 3], b"k".to_vec(), b"v".to_vec()]), None);
}

#[test]
fn segment_record_quotes_special_fields() {
    let line = encode_segment(b"a,b", b"say \"hi\"");
    assert_eq!(line, b"\"a,b\",\"say \"\"hi\"\"\"\n".to_vec());
    let (fields, next) = read_record(&line, 0).unwrap();
    assert_eq!(next, line.len());
    assert_eq!(decode_segment(&fields), Some((b"a,b".to_vec(), b"say \"hi\"".to_vec())));
}

#[test]
fn plain_segment_record() {
    let line = encode_segment(b"key", b"value");
    assert_eq!(line, b"key,value\n".to_vec());
    assert_eq!(decode_segment(&vec![b"only".to_vec()]), None);
}

#[test]
fn read_record_at_end_and_on_open_quote() {
    assert!(read_record(b"", 0).is_none());
    assert!(read_record(b"a,b\n", 4).is_none());
    assert!(read_record(b"\"open,b\n", 0).is_none());
    let (fields, next) = read_record(b"x,y", 0).unwrap();
    assert_eq!(fields, vec![b"x".to_vec(), b"y".to_vec()]);
    assert_eq!(next, 3);
}

#[test]
fn ids_parse_in_base_ten() {
    assert_eq!(parse_id(b"42"), Some(42));
    assert_eq!(parse_id(b"007"), Some(7));
    assert_eq!(parse_id(b"+7"), Some(7));
    assert_eq!(parse_id(b"18446744073709551615"), Some(u64::MAX));
    assert_eq!(parse_id(b"18446744073709551616"), None);
    assert_eq!(parse_id(b""), None);
    assert_eq!(parse_id(b"+"), None);
    assert_eq!(parse_id(b"1a"), None);
    assert_eq!(parse_id(b"-1"), None);
}

#[test]
fn file_names_are_classified() {
    assert!(matches!(classify_file_name("3.log", "log", "data"), Ok(FileKind::Log(3))));
    assert!(matches!(classify_file_name("5.data", "log", "data"), Ok(FileKind::Segment(5))));
    assert!(matches!(classify_file_name("5.tmp", "log", "data"), Ok(FileKind::Other)));
    assert!(matches!(classify_file_name("notes", "log", "data"), Ok(FileKind::Other)));
    match classify_file_name("a.b.data", "log", "data") {
        Err(Error::ParseSegemntId(id)) => assert_eq!(id, "a.b"),
        _ => panic!("expected a segment id error"),
    }
    match classify_file_name("x.data", "log", "data") {
        Err(Error::ParseSegemntId(id)) => assert_eq!(id, "x"),
        _ => panic!("expected a segment id error"),
    }
    match classify_file_name("y.log", "log", "data") {
        Err(Error::Memtable(MemtableError::ParseLogId(id))) => assert_eq!(id, "y"),
        _ => panic!("expected a log id error"),
    }
}

#[test]
fn directory_listing_sorts_by_numeric_id() {
    let names: Vec<String> = ["10.log", "9.log", "2.data", "11.data", "7.tmp", "README"]
        .iter()
        .map(|s| s.to_string())
        .collect();
    let listing = match scan_dir(&names, "log", "data") {
        Ok(l) => l,
        Err(e) => panic!("{:?}", e),
    };
    let logs: Vec<u64> = listing.logs.iter().map(|(id, _)| *id).collect();
    let segs: Vec<u64> = listing.segments.iter().map(|(id, _)| *id).collect();
    assert_eq!(logs, vec![9, 10]);
    assert_eq!(segs, vec![2, 11]);
    assert_eq!(listing.max_segment_id, 11);
    assert_eq!(listing.logs[0].1, "9.log");
}

#[test]
fn directory_listing_without_segments() {
    let names: Vec<String> = vec!["1.log".to_string()];
    let listing = scan_dir(&names, "log", "data").ok().unwrap();
    assert_eq!(listing.max_segment_id, 0);
    assert!(listing.segments.is_empty());
}

#[test]
fn directory_listing_rejects_bad_ids() {
    let names: Vec<String> = vec!["1.log".to_string(), "oops.data".to_string(), "bad.log".to_string()];
    match scan_dir(&names, "log", "data") {
        Err(Error::ParseSegemntId(id)) => assert_eq!(id, "oops"),
        _ => panic!("expected the first bad name's error"),
    }
}

#[test]
fn custom_suffixes() {
    let names: Vec<String> = vec!["4.wal".to_string(), "4.sst".to_string(), "4.log".to_string()];
    let listing = scan_dir(&names, "wal", "sst").ok().unwrap();
    assert_eq!(listing.logs.len(), 1);
    assert_eq!(listing.segments.len(), 1);
}

#[test]
fn carriage_returns_end_records() {
    let (fields, next) = read_record(b"a,b\r\nc,d\n", 0).unwrap();
    assert_eq!(fields, vec![b"a".to_vec(), b"b".to_vec()]);
    assert_eq!(next, 5);
    let (fields, next) = read_record(b"a,b\rc,d\n", 0).unwrap();
    assert_eq!(fields, vec![b"a".to_vec(), b"b".to_vec()]);
    assert_eq!(next, 4);
    let line = nouzdb::codec::encode_segment(b"k\r", b"v");
    assert_eq!(line, b"\"k\r\",v\n".to_vec());
    let (fields, _) = read_record(&line, 0).unwrap();
    assert_eq!(decode_segment(&fields), Some((b"k\r".to_vec(), b"v".to_vec())));
}
